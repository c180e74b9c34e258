//! Driver contracts and the drivers that keep their state in memory.
use vstd::prelude::*;
use vstd::string::*;
use crate::decimal::{parse_decimal, parse_hundredths};
use crate::protocol::{power_drawn, read_power_reply, read_state_reply, reply_says_on};

verus! {

/// Why a driver could not answer.
#[derive(Clone, Copy, Debug, PartialEq, Eq, Structural)]
pub enum DriverError {
    /// Connecting, writing or reading failed.
    Io,
    /// The peer answered something that could not be read.
    Protocol,
    /// No reading has arrived yet.
    Unavailable,
}

/// A controllable power outlet. A driver that answers `Ok` answers for the outlet as it is.
pub trait SocketDriver {
    /// Whether the outlet is switched on.
    spec fn powered(&self) -> bool;

    /// The wattage the outlet draws when on, in hundredths of a watt.
    spec fn wattage(&self) -> int;

    /// Whether every operation of this driver succeeds (true of a simulated outlet; a driver
    /// that depends on a peer promises nothing of the kind).
    spec fn always_answers(&self) -> bool;

    fn turn_on(&mut self) -> (r: Result<(), DriverError>)
        ensures
            old(self).always_answers() ==> r is Ok,
            final(self).always_answers() == old(self).always_answers(),
            r is Ok ==> final(self).powered() && final(self).wattage() == old(self).wattage(),
    ;

    fn turn_off(&mut self) -> (r: Result<(), DriverError>)
        ensures
            old(self).always_answers() ==> r is Ok,
            final(self).always_answers() == old(self).always_answers(),
            r is Ok ==> !final(self).powered() && final(self).wattage() == old(self).wattage(),
    ;

    fn is_on(&self) -> (r: Result<bool, DriverError>)
        ensures
            self.always_answers() ==> r is Ok,
            r is Ok ==> r->Ok_0 == self.powered(),
    ;

    fn current_power(&self) -> (r: Result<i64, DriverError>)
        ensures
            self.always_answers() ==> r is Ok,
            r is Ok ==> r->Ok_0 == power_drawn(self.powered(), self.wattage()),
    ;
}

/// A temperature sensor.
pub trait ThermometerDriver {
    /// The latest reading known to the driver, in hundredths of a degree Celsius.
    spec fn reading(&self) -> Option<i64>;

    /// The latest reading; fails as `Unavailable` exactly when there is none yet.
    fn latest_temperature(&self) -> (r: Result<i64, DriverError>)
        ensures
            match self.reading() {
                Some(v) => r == Ok::<i64, DriverError>(v),
                None => r == Err::<i64, DriverError>(DriverError::Unavailable),
            },
    ;
}

/// A simulated outlet that keeps its state in memory and never fails.
#[derive(Clone, Copy, Debug)]
pub struct MockSocketDriver {
    pub powered: bool,
    /// In hundredths of a watt.
    pub wattage: i64,
}

impl MockSocketDriver {
    pub fn new(initial_state: bool, power: i64) -> (r: MockSocketDriver)
        ensures
            r.powered == initial_state,
            r.wattage == power,
    {
        MockSocketDriver { powered: initial_state, wattage: power }
    }
}

impl SocketDriver for MockSocketDriver {
    open spec fn powered(&self) -> bool {
        self.powered
    }

    open spec fn wattage(&self) -> int {
        self.wattage as int
    }

    open spec fn always_answers(&self) -> bool {
        true
    }

    fn turn_on(&mut self) -> (r: Result<(), DriverError>) {
        self.powered = true;
        Ok(())
    }

    fn turn_off(&mut self) -> (r: Result<(), DriverError>) {
        self.powered = false;
        Ok(())
    }

    fn is_on(&self) -> (r: Result<bool, DriverError>) {
        Ok(self.powered)
    }

    fn current_power(&self) -> (r: Result<i64, DriverError>) {
        if self.powered {
            Ok(self.wattage)
        } else {
            Ok(0)
        }
    }
}

/// The simulated outlet after switching it in turn as `switches` says (`true` for on).
pub open spec fn after_switches(d: MockSocketDriver, switches: Seq<bool>) -> MockSocketDriver
    decreases switches.len(),
{
    if switches.len() == 0 {
        d
    } else {
        MockSocketDriver { powered: switches.last(), ..after_switches(d, switches.drop_last()) }
    }
}

/// Whatever the switches, the simulated outlet ends in the state of the last one, keeps its
/// wattage, and draws that wattage exactly when the last switch turned it on.
pub proof fn lemma_simulated_last_switch_wins(d: MockSocketDriver, switches: Seq<bool>)
    requires
        switches.len() > 0,
    ensures
        after_switches(d, switches).powered() == switches.last(),
        after_switches(d, switches).wattage == d.wattage,
        power_drawn(after_switches(d, switches).powered(), after_switches(d, switches).wattage())
            == if switches.last() { d.wattage as int } else { 0 },
    decreases switches.len(),
{
    if switches.len() > 1 {
        lemma_simulated_last_switch_wins(d, switches.drop_last());
    } else {
        assert(after_switches(d, switches.drop_last()) == d);
    }
}

/// A socket reached over the request/reply protocol at a fixed address. Each operation is one
/// exchange: the command is sent, the reply read to its end; the exchange itself is carried
/// out by the caller, which hands its outcome to the matching method here.
#[derive(Clone, Debug)]
pub struct TcpSocketDriver {
    addr: String,
}

impl TcpSocketDriver {
    pub closed spec fn addr_view(&self) -> Seq<char> {
        self.addr@
    }

    pub fn new(addr: &str) -> (r: TcpSocketDriver)
        ensures
            r.addr_view() == addr@,
    {
        TcpSocketDriver { addr: String::from_str(addr) }
    }

    /// The `host:port` the socket listens on.
    pub fn addr(&self) -> (r: &str)
        ensures
            r@ == self.addr_view(),
    {
        self.addr.as_str()
    }

    /// Outcome of an `ON` or `OFF` exchange: the reply's text does not matter, a failed
    /// exchange is passed on.
    pub fn switched(&self, exchange: Result<Vec<u8>, DriverError>) -> (r: Result<(), DriverError>)
        ensures
            match exchange {
                Ok(_) => r is Ok,
                Err(e) => r == Err::<(), DriverError>(e),
            },
    {
        match exchange {
            Ok(_) => Ok(()),
            Err(e) => Err(e),
        }
    }

    /// Outcome of a `STATE` exchange: on exactly when the reply is `ON`, whitespace aside.
    pub fn is_on_from(&self, exchange: Result<Vec<u8>, DriverError>) -> (r: Result<bool, DriverError>)
        ensures
            match exchange {
                Ok(reply) => r == Ok::<bool, DriverError>(reply_says_on(reply@)),
                Err(e) => r == Err::<bool, DriverError>(e),
            },
    {
        match exchange {
            Ok(reply) => Ok(read_state_reply(reply.as_slice())),
            Err(e) => Err(e),
        }
    }

    /// Outcome of a `POWER` exchange: the reply read as a decimal number of watts, in
    /// hundredths; a reply that is no number is a protocol error.
    pub fn current_power_from(&self, exchange: Result<Vec<u8>, DriverError>) -> (r: Result<i64, DriverError>)
        ensures
            match exchange {
                Ok(reply) => match parse_hundredths(reply@) {
                    Some(v) => r == Ok::<i64, DriverError>(v as i64),
                    None => r == Err::<i64, DriverError>(DriverError::Protocol),
                },
                Err(e) => r == Err::<i64, DriverError>(e),
            },
    {
        match exchange {
            Ok(reply) => read_power_reply(reply.as_slice()),
            Err(e) => Err(e),
        }
    }
}

/// A simulated sensor with a fixed reading.
#[derive(Clone, Copy, Debug)]
pub struct MockThermometerDriver {
    /// In hundredths of a degree Celsius.
    pub temp: i64,
}

impl MockThermometerDriver {
    pub fn new(temp: i64) -> (r: MockThermometerDriver)
        ensures
            r.temp == temp,
    {
        MockThermometerDriver { temp }
    }
}

impl ThermometerDriver for MockThermometerDriver {
    open spec fn reading(&self) -> Option<i64> {
        Some(self.temp)
    }

    fn latest_temperature(&self) -> (r: Result<i64, DriverError>) {
        Ok(self.temp)
    }
}

/// A sensor that listens for telemetry datagrams and keeps the latest reading that could be
/// read. The listener hands each datagram it receives to `absorb`.
#[derive(Clone, Copy, Debug)]
pub struct UdpThermometerDriver {
    latest_temp: Option<i64>,
}

/// The cache after `datagram`: its reading when it holds one, else what was there.
pub open spec fn cache_after(cache: Option<i64>, datagram: Seq<u8>) -> Option<i64> {
    match parse_hundredths(datagram) {
        Some(v) => Some(v as i64),
        None => cache,
    }
}

/// The cache after each of `datagrams` in turn.
pub open spec fn cache_after_all(cache: Option<i64>, datagrams: Seq<Seq<u8>>) -> Option<i64>
    decreases datagrams.len(),
{
    if datagrams.len() == 0 {
        cache
    } else {
        cache_after(cache_after_all(cache, datagrams.drop_last()), datagrams.last())
    }
}

impl UdpThermometerDriver {
    /// A driver that has not received any reading yet.
    pub fn new() -> (r: UdpThermometerDriver)
        ensures
            r.reading() == None::<i64>,
    {
        UdpThermometerDriver { latest_temp: None }
    }

    /// Takes in one received datagram: a decimal reading replaces the cached one, anything
    /// else is dropped.
    pub fn absorb(&mut self, datagram: &[u8])
        ensures
            final(self).reading() == cache_after(old(self).reading(), datagram@),
    {
        match parse_decimal(datagram) {
            Some(v) => {
                self.latest_temp = Some(v);
            },
            None => {},
        }
    }
}

impl ThermometerDriver for UdpThermometerDriver {
    closed spec fn reading(&self) -> Option<i64> {
        self.latest_temp
    }

    fn latest_temperature(&self) -> (r: Result<i64, DriverError>) {
        match self.latest_temp {
            Some(v) => Ok(v),
            None => Err(DriverError::Unavailable),
        }
    }
}

/// A datagram that holds no reading leaves the cache as it was, so the reading of the last
/// readable datagram stands.
pub proof fn lemma_unreadable_datagram_keeps_reading(cache: Option<i64>, good: Seq<u8>, bad: Seq<u8>)
    requires
        parse_hundredths(good) is Some,
        parse_hundredths(bad) is None,
    ensures
        cache_after_all(cache, seq![good, bad]) == Some(parse_hundredths(good)->0 as i64),
        cache_after_all(cache, seq![good, bad]) == cache_after_all(cache, seq![good]),
{
    assert(seq![good, bad].drop_last() =~= seq![good]);
    assert(seq![good].drop_last() =~= Seq::<Seq<u8>>::empty());
}

/// The cache holds the reading of the last datagram that held one, or what it held before if
/// none did.
pub proof fn lemma_cache_holds_last_reading(cache: Option<i64>, datagrams: Seq<Seq<u8>>, k: int)
    requires
        0 <= k < datagrams.len(),
        parse_hundredths(datagrams[k]) is Some,
        forall|j: int| k < j < datagrams.len() ==> parse_hundredths(#[trigger] datagrams[j]) is None,
    ensures
        cache_after_all(cache, datagrams) == Some(parse_hundredths(datagrams[k])->0 as i64),
    decreases datagrams.len(),
{
    if k < datagrams.len() - 1 {
        let rest = datagrams.drop_last();
        assert forall|j: int| k < j < rest.len() implies parse_hundredths(#[trigger] rest[j]) is None by {
            assert(rest[j] == datagrams[j]);
        }
        assert(rest[k] == datagrams[k]);
        lemma_cache_holds_last_reading(cache, rest, k);
        assert(parse_hundredths(datagrams[datagrams.len() - 1]) is None);
    }
}

} // verus!
