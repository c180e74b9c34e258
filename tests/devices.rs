use smart_house::devices::{
    socket_summary_line, thermometer_summary_line, SmartDevice, SmartSocket, SmartThermometer, Thermometer,
};
use smart_house::drivers::{
    DriverError, MockSocketDriver, MockThermometerDriver, SocketDriver, ThermometerDriver, UdpThermometerDriver,
};

#[test]
fn simulated_socket_last_switch_wins() {
    let mut d = MockSocketDriver::new(false, 150000);
    assert_eq!(d.is_on(), Ok(false));
    assert_eq!(d.current_power(), Ok(0));
    d.turn_on().unwrap();
    d.turn_on().unwrap();
    assert_eq!(d.is_on(), Ok(true));
    assert_eq!(d.current_power(), Ok(150000));
    d.turn_off().unwrap();
    assert_eq!(d.is_on(), Ok(false));
    assert_eq!(d.current_power(), Ok(0));
    d.turn_off().unwrap();
    d.turn_on().unwrap();
    assert_eq!(d.current_power(), Ok(150000));
}

#[test]
fn simulated_thermometer_reads_fixed_value() {
    let d = MockThermometerDriver::new(2150);
    assert_eq!(d.latest_temperature(), Ok(2150));
}

#[test]
fn udp_driver_unavailable_before_first_reading() {
    let d = UdpThermometerDriver::new();
    assert_eq!(d.latest_temperature(), Err(DriverError::Unavailable));
}

#[test]
fn udp_driver_reads_datagram() {
    let mut d = UdpThermometerDriver::new();
    d.absorb(b"21.50");
    assert_eq!(d.latest_temperature(), Ok(2150));
}

#[test]
fn udp_driver_ignores_malformed_datagram() {
    let mut d = UdpThermometerDriver::new();
    d.absorb(b"21.50");
    d.absorb(b"not-a-number");
    assert_eq!(d.latest_temperature(), Ok(2150));
    d.absorb(b"\xff\xfe");
    d.absorb(b"");
    assert_eq!(d.latest_temperature(), Ok(2150));
    d.absorb(b" 3.25\n");
    assert_eq!(d.latest_temperature(), Ok(325));
    d.absorb(b"1.234");
    assert_eq!(d.latest_temperature(), Ok(123));
    d.absorb("\u{a0}2e1\u{3000}".as_bytes());
    assert_eq!(d.latest_temperature(), Ok(2000));
}

#[test]
fn malformed_datagram_before_any_reading_stays_unavailable() {
    let mut d = UdpThermometerDriver::new();
    d.absorb(b"not-a-number");
    assert_eq!(d.latest_temperature(), Err(DriverError::Unavailable));
}

#[test]
fn socket_facade_delegates() {
    let mut s = SmartSocket::new("Розетка1", MockSocketDriver::new(false, 150000));
    assert!(!s.is_on());
    assert_eq!(s.current_power(), 0);
    s.turn_on().unwrap();
    assert!(s.is_on());
    assert_eq!(s.current_power(), 150000);
    assert_eq!(s.summary(), "Розетка 'Розетка1' сейчас включена. Мощность: 1500.0 Вт");
    s.turn_off().unwrap();
    assert_eq!(s.summary(), "Розетка 'Розетка1' сейчас выключена. Мощность: 0.0 Вт");
}

#[test]
fn thermometer_facade_defaults_to_zero_without_reading() {
    let t = SmartThermometer::new("Термометр1", "Гостиная", UdpThermometerDriver::new());
    assert_eq!(t.get_current_temperature(), 0);
    let mut d = UdpThermometerDriver::new();
    d.absorb(b"-4.5");
    let t = SmartThermometer::new("Термометр1", "Гостиная", d);
    assert_eq!(t.get_current_temperature(), -450);
    assert_eq!(t.name(), "Термометр1");
    assert_eq!(t.location(), "Гостиная");
    assert_eq!(t.summary(), "Термометр 'Термометр1' в 'Гостиная' показывает -4.5°C");
}

#[test]
fn summary_lines() {
    assert_eq!(socket_summary_line("S", true, 1025), "Розетка 'S' сейчас включена. Мощность: 10.3 Вт");
    assert_eq!(thermometer_summary_line("T", "L", 2000), "Термометр 'T' в 'L' показывает 20.0°C");
}

#[test]
fn device_name() {
    let d: SmartDevice<MockSocketDriver, MockThermometerDriver> =
        SmartDevice::Socket(SmartSocket::new("S1", MockSocketDriver::new(true, 1)));
    assert_eq!(d.name(), "S1");
    let t: SmartDevice<MockSocketDriver, MockThermometerDriver> =
        SmartDevice::Thermometer(SmartThermometer::new("T1", "Кухня", MockThermometerDriver::new(1)));
    assert_eq!(t.name(), "T1");
}
