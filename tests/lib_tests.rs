use smart_house::devices::{Report, SmartDevice, SmartSocket, SmartThermometer};
use smart_house::drivers::{MockSocketDriver, MockThermometerDriver};
use smart_house::house::{Room, SmartHouse, SmartHouseError};

type Device = SmartDevice<MockSocketDriver, MockThermometerDriver>;

fn socket(name: &str, on: bool, hundredths: i64) -> Device {
    SmartDevice::Socket(SmartSocket::new(name, MockSocketDriver::new(on, hundredths)))
}

#[test]
fn test_add_and_get_device_in_room() {
    let thermometer: Device = SmartDevice::Thermometer(SmartThermometer::new(
        "T1",
        "Кухня",
        MockThermometerDriver::new(0),
    ));
    let mut room = Room::new("Кухня", Vec::new());

    room.add_device(thermometer);
    assert!(room.get_device("T1").is_some());
}

#[test]
fn test_remove_device_from_room() {
    let socket = socket("S1", true, 1000);
    let mut room = Room::new("Гостиная", Vec::new());
    room.add_device(socket);
    let removed = room.remove_device("S1");

    assert!(removed.is_some());
    assert!(room.get_device("S1").is_none());
}

#[test]
fn test_add_and_remove_room_in_house() {
    let room: Room<MockSocketDriver, MockThermometerDriver> = Room::new("Спальня", Vec::new());
    let mut house = SmartHouse::new(Vec::new());

    house.add_room(room);
    assert!(house.get_room("Спальня").is_some());

    let removed = house.remove_room("Спальня");
    assert!(removed.is_some());
    assert!(house.get_room("Спальня").is_none());
}

#[test]
fn test_get_device_from_house() {
    let socket = socket("S1", true, 1500);
    let room = Room::new("Кабинет", vec![("S1".to_string(), socket)]);
    let mut house = SmartHouse::new(Vec::new());
    house.add_room(room);

    let device = house.get_device("Кабинет", "S1");
    assert!(device.is_ok());
}

#[test]
fn test_get_device_error_handling() {
    let house: SmartHouse<MockSocketDriver, MockThermometerDriver> = SmartHouse::new(Vec::new());
    let result = house.get_device("НетКомнаты", "Устройство");

    match result {
        Err(SmartHouseError::RoomNotFound(name)) => assert_eq!(name, "НетКомнаты"),
        _ => panic!("Ожидалась ошибка RoomNotFound"),
    }
}

#[test]
fn test_report_trait() {
    let socket = socket("S1", true, 2000);
    let room = Room::new("Ванная", vec![("S1".to_string(), socket)]);
    let house = SmartHouse::new(vec![("Ванная".to_string(), room)]);

    let text = house.report();
    assert!(text.contains("Ванная"));
}

#[test]
fn missing_device_names_room_and_device() {
    let room: Room<MockSocketDriver, MockThermometerDriver> = Room::new("Кухня", Vec::new());
    let house = SmartHouse::new(vec![("Кухня".to_string(), room)]);
    match house.get_device("Кухня", "Лампа") {
        Err(e) => {
            assert!(matches!(&e, SmartHouseError::DeviceNotFound { room, device } if room == "Кухня" && device == "Лампа"));
            assert_eq!(e.message(), "Устройство 'Лампа' не найдено в комнате 'Кухня'");
        }
        Ok(_) => panic!("a device was found in an empty room"),
    }
    let missing = house.get_device("Чердак", "Лампа");
    match missing {
        Err(e) => assert_eq!(e.message(), "Комната 'Чердак' не найдена"),
        Ok(_) => panic!("a device was found in a missing room"),
    }
}

#[test]
fn later_entry_of_same_name_wins() {
    let room = Room::new(
        "Кухня",
        vec![("S".to_string(), socket("S", false, 100)), ("S".to_string(), socket("S", true, 200))],
    );
    match room.get_device("S") {
        Some(SmartDevice::Socket(s)) => assert_eq!(s.current_power(), 200),
        _ => panic!("expected the later socket"),
    }
}

#[test]
fn adding_device_of_same_name_replaces_it() {
    let mut room = Room::new("Кухня", Vec::new());
    room.add_device(socket("S", true, 100));
    room.add_device(socket("S", true, 300));
    match room.get_device("S") {
        Some(SmartDevice::Socket(s)) => assert_eq!(s.current_power(), 300),
        _ => panic!("expected a socket"),
    }
    assert!(room.remove_device("S").is_some());
    assert!(room.remove_device("S").is_none());
}

#[test]
fn room_name_and_report_lines() {
    let room = Room::new("Кухня", vec![("S1".to_string(), socket("S1", false, 1500))]);
    assert_eq!(room.name(), "Кухня");
    assert_eq!(room.report(), "Отчёт для комнаты 'Кухня':\nРозетка 'S1' сейчас выключена. Мощность: 0.0 Вт");
}

#[test]
fn switch_socket_through_house() {
    let room = Room::new("Кухня", vec![("Розетка2".to_string(), socket("Розетка2", false, 75000))]);
    let mut house = SmartHouse::new(vec![("Кухня".to_string(), room)]);
    match house.get_device_mut("Кухня", "Розетка2") {
        Ok(SmartDevice::Socket(s)) => s.turn_on().unwrap(),
        _ => panic!("expected the socket"),
    }
    match house.get_device("Кухня", "Розетка2") {
        Ok(SmartDevice::Socket(s)) => {
            assert!(s.is_on());
            assert_eq!(s.current_power(), 75000);
        }
        _ => panic!("expected the socket"),
    }
    assert!(matches!(house.get_device_mut("Кухня", "Нет"), Err(SmartHouseError::DeviceNotFound { .. })));
    assert!(matches!(house.get_device_mut("Нет", "Розетка2"), Err(SmartHouseError::RoomNotFound(_))));
}

#[test]
fn change_room_in_place() {
    let room: Room<MockSocketDriver, MockThermometerDriver> = Room::new("Кухня", Vec::new());
    let mut house = SmartHouse::new(vec![("Кухня".to_string(), room)]);
    match house.get_room_mut("Кухня") {
        Some(r) => r.add_device(socket("S", true, 5)),
        None => panic!("expected the room"),
    }
    assert!(house.get_device("Кухня", "S").is_ok());
    assert!(house.get_room_mut("Чердак").is_none());
    let mut room = Room::new("Зал", vec![("S".to_string(), socket("S", false, 5))]);
    match room.get_device_mut("S") {
        Some(SmartDevice::Socket(s)) => s.turn_on().unwrap(),
        _ => panic!("expected the socket"),
    }
    match room.get_device("S") {
        Some(SmartDevice::Socket(s)) => assert!(s.is_on()),
        _ => panic!("expected the socket"),
    }
}

#[test]
fn reports_hold_one_line_per_entry() {
    let thermometer: Device =
        SmartDevice::Thermometer(SmartThermometer::new("T1", "Кухня", MockThermometerDriver::new(2150)));
    let room = Room::new("Кухня", vec![("T1".to_string(), thermometer), ("S1".to_string(), socket("S1", true, 150000))]);
    let house = SmartHouse::new(vec![("Кухня".to_string(), room)]);
    assert_eq!(
        house.report(),
        "== Отчёт по всему дому ==\nОтчёт для комнаты 'Кухня':\nТермометр 'T1' в 'Кухня' показывает 21.5°C\nРозетка 'S1' сейчас включена. Мощность: 1500.0 Вт"
    );
}
