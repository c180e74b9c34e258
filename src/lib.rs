//! Drivers, network protocol state machines and containment for a small smart home.
//!
//! Quantities (wattage, temperature) are fixed-point values counted in hundredths.
pub mod decimal;
pub mod devices;
pub mod drivers;
pub mod house;
pub mod protocol;
pub mod telemetry;

pub use devices::{Report, SmartDevice, SmartSocket, SmartThermometer, Thermometer};
pub use drivers::{
    DriverError, MockSocketDriver, MockThermometerDriver, SocketDriver, TcpSocketDriver, ThermometerDriver,
    UdpThermometerDriver,
};
pub use house::{Room, SmartHouse, SmartHouseError};
