//! Device facades: each owns one driver and answers for the device through it.
use vstd::prelude::*;
use vstd::string::*;
use crate::decimal::{chars_of, tenths_string, tenths_text};
use crate::drivers::{DriverError, SocketDriver, ThermometerDriver};
use crate::protocol::power_drawn;

verus! {

/// Something that can describe itself in a human-readable report.
pub trait Report {
    /// Whether `text` is a report of this value, with state fetched from its drivers when the
    /// report is written.
    spec fn reported(&self, text: Seq<char>) -> bool;

    fn report(&self) -> (r: String)
        ensures
            self.reported(r@),
    ;
}

/// Report lines after a heading, each on a line of its own.
pub open spec fn joined_lines(parts: Seq<Seq<char>>) -> Seq<char>
    decreases parts.len(),
{
    if parts.len() == 0 {
        seq![]
    } else {
        joined_lines(parts.drop_last()) + "\n"@ + parts.last()
    }
}

/// The one-line description of a socket; the power is in tenths of a watt (see `tenths_text`).
pub open spec fn socket_summary(name: Seq<char>, on: bool, power: int) -> Seq<char> {
    "Розетка '"@ + name + "' сейчас "@ + (if on {
        "включена"@
    } else {
        "выключена"@
    }) + ". Мощность: "@ + chars_of(tenths_text(power)) + " Вт"@
}

/// The one-line description of a thermometer; the reading is in tenths of a degree.
pub open spec fn thermometer_summary(name: Seq<char>, location: Seq<char>, temp: int) -> Seq<char> {
    "Термометр '"@ + name + "' в '"@ + location + "' показывает "@ + chars_of(tenths_text(temp))
        + "°C"@
}

/// Writes the description of a socket with the given state.
pub fn socket_summary_line(name: &str, on: bool, power: i64) -> (r: String)
    ensures
        r@ == socket_summary(name@, on, power as int),
{
    let mut r = String::from_str("Розетка '");
    r.append(name);
    r.append("' сейчас ");
    if on {
        r.append("включена");
    } else {
        r.append("выключена");
    }
    r.append(". Мощность: ");
    let p = tenths_string(power);
    r.append(p.as_str());
    r.append(" Вт");
    r
}

/// Writes the description of a thermometer with the given reading.
pub fn thermometer_summary_line(name: &str, location: &str, temp: i64) -> (r: String)
    ensures
        r@ == thermometer_summary(name@, location@, temp as int),
{
    let mut r = String::from_str("Термометр '");
    r.append(name);
    r.append("' в '");
    r.append(location);
    r.append("' показывает ");
    let t = tenths_string(temp);
    r.append(t.as_str());
    r.append("°C");
    r
}

/// Anything that reports a temperature.
pub trait Thermometer {
    /// The temperature shown, in hundredths of a degree Celsius.
    spec fn shown_temperature(&self) -> int;

    fn get_current_temperature(&self) -> (r: i64)
        ensures
            r == self.shown_temperature(),
    ;
}

/// A thermometer named and placed, backed by one driver.
#[derive(Debug)]
pub struct SmartThermometer<T: ThermometerDriver> {
    name: String,
    location: String,
    driver: T,
}

impl<T: ThermometerDriver> SmartThermometer<T> {
    pub fn new(name: &str, location: &str, driver: T) -> (r: SmartThermometer<T>)
        ensures
            r.name_view() == name@,
            r.location_view() == location@,
            r.driver() == driver,
    {
        SmartThermometer { name: String::from_str(name), location: String::from_str(location), driver }
    }

    pub closed spec fn name_view(&self) -> Seq<char> {
        self.name@
    }

    pub closed spec fn location_view(&self) -> Seq<char> {
        self.location@
    }

    pub closed spec fn driver(&self) -> T {
        self.driver
    }

    pub fn name(&self) -> (r: &str)
        ensures
            r@ == self.name_view(),
    {
        self.name.as_str()
    }

    pub fn location(&self) -> (r: &str)
        ensures
            r@ == self.location_view(),
    {
        self.location.as_str()
    }

    /// The description with the reading fetched from the driver now.
    pub fn summary(&self) -> (r: String)
        ensures
            r@ == thermometer_summary(self.name_view(), self.location_view(), self.shown_temperature()),
    {
        let t = self.get_current_temperature();
        thermometer_summary_line(self.name.as_str(), self.location.as_str(), t)
    }
}

impl<T: ThermometerDriver> Thermometer for SmartThermometer<T> {
    /// The driver's latest reading, or zero while there is none.
    open spec fn shown_temperature(&self) -> int {
        match self.driver().reading() {
            Some(v) => v as int,
            None => 0,
        }
    }

    fn get_current_temperature(&self) -> (r: i64) {
        match self.driver.latest_temperature() {
            Ok(t) => t,
            Err(_) => 0,
        }
    }
}

/// A power outlet with a name, backed by one driver.
#[derive(Debug)]
pub struct SmartSocket<D: SocketDriver> {
    pub name: String,
    driver: D,
}

impl<D: SocketDriver> SmartSocket<D> {
    pub fn new(name: &str, driver: D) -> (r: SmartSocket<D>)
        ensures
            r.name_view() == name@,
            r.driver() == driver,
    {
        SmartSocket { name: String::from_str(name), driver }
    }

    pub closed spec fn name_view(&self) -> Seq<char> {
        self.name@
    }

    pub closed spec fn driver(&self) -> D {
        self.driver
    }

    /// Switches on. A driver failure is passed on: a switch that was not confirmed is never
    /// taken for done.
    pub fn turn_on(&mut self) -> (r: Result<(), DriverError>)
        ensures
            final(self).name_view() == old(self).name_view(),
            old(self).driver().always_answers() ==> r is Ok,
            final(self).driver().always_answers() == old(self).driver().always_answers(),
            r is Ok ==> final(self).driver().powered(),
            r is Ok ==> final(self).driver().wattage() == old(self).driver().wattage(),
    {
        self.driver.turn_on()
    }

    /// Switches off; a driver failure is passed on.
    pub fn turn_off(&mut self) -> (r: Result<(), DriverError>)
        ensures
            final(self).name_view() == old(self).name_view(),
            old(self).driver().always_answers() ==> r is Ok,
            final(self).driver().always_answers() == old(self).driver().always_answers(),
            r is Ok ==> !final(self).driver().powered(),
            r is Ok ==> final(self).driver().wattage() == old(self).driver().wattage(),
    {
        self.driver.turn_off()
    }

    /// Whether the socket is on; `false` when the driver fails.
    pub fn is_on(&self) -> (r: bool)
        ensures
            r ==> self.driver().powered(),
            self.driver().always_answers() ==> r == self.driver().powered(),
    {
        match self.driver.is_on() {
            Ok(b) => b,
            Err(_) => false,
        }
    }

    /// The power drawn, in hundredths of a watt; zero when the driver fails.
    pub fn current_power(&self) -> (r: i64)
        ensures
            r == 0 || r == power_drawn(self.driver().powered(), self.driver().wattage()),
            self.driver().always_answers() ==> r == power_drawn(
                self.driver().powered(),
                self.driver().wattage(),
            ),
    {
        match self.driver.current_power() {
            Ok(p) => p,
            Err(_) => 0,
        }
    }

    /// The description with state and power fetched from the driver now.
    pub fn summary(&self) -> (r: String)
        ensures
            exists|on: bool, p: int|
                (on ==> self.driver().powered()) && (p == 0 || p == power_drawn(
                    self.driver().powered(),
                    self.driver().wattage(),
                )) && r@ == socket_summary(self.name_view(), on, p),
            self.driver().always_answers() ==> r@ == socket_summary(
                self.name_view(),
                self.driver().powered(),
                power_drawn(self.driver().powered(), self.driver().wattage()),
            ),
    {
        let on = self.is_on();
        let p = self.current_power();
        let r = socket_summary_line(self.name.as_str(), on, p);
        assert(r@ == socket_summary(self.name_view(), on, p as int));
        r
    }
}

/// A device of a room.
#[derive(Debug)]
pub enum SmartDevice<D: SocketDriver, T: ThermometerDriver> {
    Thermometer(SmartThermometer<T>),
    Socket(SmartSocket<D>),
}

impl<D: SocketDriver, T: ThermometerDriver> SmartDevice<D, T> {
    pub open spec fn name_view(&self) -> Seq<char> {
        match self {
            SmartDevice::Thermometer(t) => t.name_view(),
            SmartDevice::Socket(s) => s.name_view(),
        }
    }

    pub fn name(&self) -> (r: String)
        ensures
            r@ == self.name_view(),
    {
        match self {
            SmartDevice::Thermometer(t) => String::from_str(t.name()),
            SmartDevice::Socket(s) => s.name.clone(),
        }
    }
}

impl<D: SocketDriver, T: ThermometerDriver> Report for SmartDevice<D, T> {
    /// A device's report is its summary.
    open spec fn reported(&self, text: Seq<char>) -> bool {
        match self {
            SmartDevice::Thermometer(t) => text == thermometer_summary(
                t.name_view(),
                t.location_view(),
                t.shown_temperature(),
            ),
            SmartDevice::Socket(s) => exists|on: bool, p: int|
                (on ==> s.driver().powered()) && (p == 0 || p == power_drawn(
                    s.driver().powered(),
                    s.driver().wattage(),
                )) && text == socket_summary(s.name_view(), on, p),
        }
    }

    fn report(&self) -> (r: String) {
        match self {
            SmartDevice::Thermometer(t) => t.summary(),
            SmartDevice::Socket(s) => s.summary(),
        }
    }
}

} // verus!
