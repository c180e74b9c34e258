use smart_house::decimal::{format_fixed2, format_hundredths, format_tenths, parse_decimal, tenths_string, trim_bounds};
use smart_house::drivers::{DriverError, TcpSocketDriver};
use smart_house::protocol::{decode_command, read_power_reply, read_state_reply, SocketCommand, SocketState};
use smart_house::telemetry::{next_telemetry, telemetry_payload, READING_SPAN};

fn serve(st: &mut SocketState, request: &[u8]) -> Vec<u8> {
    st.handle_request(request)
}

#[test]
fn emulator_end_to_end_scenario() {
    let mut peer = SocketState::new(150000);
    let driver = TcpSocketDriver::new("127.0.0.1:4000");
    let on = serve(&mut peer, &SocketCommand::On.to_wire());
    assert_eq!(driver.switched(Ok(on)), Ok(()));
    let reply = serve(&mut peer, &SocketCommand::Power.to_wire());
    assert_eq!(reply, b"1500".to_vec());
    assert_eq!(driver.current_power_from(Ok(reply)), Ok(150000));
    let off = serve(&mut peer, &SocketCommand::Off.to_wire());
    assert_eq!(off, b"OK".to_vec());
    let reply = serve(&mut peer, &SocketCommand::Power.to_wire());
    assert_eq!(driver.current_power_from(Ok(reply)), Ok(0));
}

#[test]
fn emulator_state_reply_tracks_last_switch() {
    let mut peer = SocketState::new(75000);
    let driver = TcpSocketDriver::new("127.0.0.1:4000");
    let switches: [(&[u8], bool); 5] = [(b"ON", true), (b"ON", true), (b"OFF", false), (b"ON", true), (b"OFF", false)];
    for (cmd, expected) in switches {
        assert_eq!(serve(&mut peer, cmd), b"OK".to_vec());
        let reply = serve(&mut peer, b"STATE");
        assert_eq!(driver.is_on_from(Ok(reply)), Ok(expected));
    }
}

#[test]
fn emulator_unknown_command_replies_err() {
    let mut peer = SocketState::new(1000);
    serve(&mut peer, b"ON");
    let before = peer;
    assert_eq!(serve(&mut peer, b"TOGGLE"), b"ERR".to_vec());
    assert_eq!(serve(&mut peer, b""), b"ERR".to_vec());
    assert_eq!(serve(&mut peer, b"on"), b"ERR".to_vec());
    assert_eq!(peer, before);
}

#[test]
fn emulator_accepts_surrounding_whitespace() {
    let mut peer = SocketState::new(1000);
    assert_eq!(serve(&mut peer, b"  ON\r\n"), b"OK".to_vec());
    assert!(peer.powered);
    assert_eq!(serve(&mut peer, b"STATE\n"), b"ON".to_vec());
    assert_eq!(serve(&mut peer, b"POWER"), b"10".to_vec());
}

#[test]
fn decode_commands() {
    assert_eq!(decode_command(b"ON"), Some(SocketCommand::On));
    assert_eq!(decode_command(b"OFF"), Some(SocketCommand::Off));
    assert_eq!(decode_command(b"STATE"), Some(SocketCommand::State));
    assert_eq!(decode_command(b" POWER "), Some(SocketCommand::Power));
    assert_eq!(decode_command(b"POWERS"), None);
    assert_eq!(decode_command("ON\u{a0}".as_bytes()), Some(SocketCommand::On));
    assert_eq!(decode_command("\u{2003}OFF\u{85}\u{3000}".as_bytes()), Some(SocketCommand::Off));
    assert_eq!(decode_command("O\u{a0}N".as_bytes()), None);
}

#[test]
fn state_reply_reading() {
    assert!(read_state_reply(b"ON"));
    assert!(read_state_reply(b" ON\n"));
    assert!(!read_state_reply(b"OFF"));
    assert!(!read_state_reply(b"ERR"));
    assert!(read_state_reply("ON\u{a0}".as_bytes()));
    assert!(read_state_reply("\u{1680}ON\u{205f}".as_bytes()));
}

#[test]
fn power_reply_reading() {
    assert_eq!(read_power_reply(b"1500"), Ok(150000));
    assert_eq!(read_power_reply(b"0"), Ok(0));
    assert_eq!(read_power_reply(b"12.5"), Ok(1250));
    assert_eq!(read_power_reply(b"ERR"), Err(DriverError::Protocol));
    assert_eq!(read_power_reply(b"1.234"), Ok(123));
}

#[test]
fn failed_exchange_is_passed_on() {
    let driver = TcpSocketDriver::new("127.0.0.1:4000");
    assert_eq!(driver.addr(), "127.0.0.1:4000");
    assert_eq!(driver.switched(Err(DriverError::Io)), Err(DriverError::Io));
    assert_eq!(driver.is_on_from(Err(DriverError::Io)), Err(DriverError::Io));
    assert_eq!(driver.current_power_from(Err(DriverError::Io)), Err(DriverError::Io));
    assert_eq!(driver.current_power_from(Ok(b"abc".to_vec())), Err(DriverError::Protocol));
}

#[test]
fn parse_decimal_forms() {
    assert_eq!(parse_decimal(b"21.50"), Some(2150));
    assert_eq!(parse_decimal(b"21.5"), Some(2150));
    assert_eq!(parse_decimal(b"-0.07"), Some(-7));
    assert_eq!(parse_decimal(b"+3"), Some(300));
    assert_eq!(parse_decimal(b"5."), Some(500));
    assert_eq!(parse_decimal(b".5"), Some(50));
    assert_eq!(parse_decimal(b"\t 7 \n"), Some(700));
    assert_eq!(parse_decimal(b"."), None);
    assert_eq!(parse_decimal(b""), None);
    assert_eq!(parse_decimal(b"-"), None);
    assert_eq!(parse_decimal(b"1.234"), Some(123));
    assert_eq!(parse_decimal(b"1.235"), Some(124));
    assert_eq!(parse_decimal(b"-1.235"), Some(-124));
    assert_eq!(parse_decimal(b"2e1"), Some(2000));
    assert_eq!(parse_decimal(b"2.5E-1"), Some(25));
    assert_eq!(parse_decimal(b"5e-3"), Some(1));
    assert_eq!(parse_decimal(b"1e-3"), Some(0));
    assert_eq!(parse_decimal(b"0e999999999999999999999"), Some(0));
    assert_eq!(parse_decimal(b"1e999999999999999999999"), None);
    assert_eq!(parse_decimal(b"1e-999999999999999999999"), Some(0));
    assert_eq!(parse_decimal(b"1e"), None);
    assert_eq!(parse_decimal(b"1e+"), None);
    assert_eq!(parse_decimal(b"1e5x"), None);
    assert_eq!(parse_decimal(b"e5"), None);
    assert_eq!(parse_decimal(b"1 2"), None);
    assert_eq!(parse_decimal(b"not-a-number"), None);
}

#[test]
fn parse_decimal_limits() {
    assert_eq!(parse_decimal(b"92233720368547758.07"), Some(i64::MAX));
    assert_eq!(parse_decimal(b"92233720368547758.08"), None);
    assert_eq!(parse_decimal(b"-92233720368547758.08"), Some(i64::MIN));
    assert_eq!(parse_decimal(b"-92233720368547758.09"), None);
    assert_eq!(parse_decimal(b"-92233720368547758.085"), None);
    assert_eq!(parse_decimal(b"-92233720368547758.075"), Some(i64::MIN));
    assert_eq!(parse_decimal(b"99999999999999999999999"), None);
}

#[test]
fn format_decimal_forms() {
    assert_eq!(format_hundredths(150000), b"1500".to_vec());
    assert_eq!(format_hundredths(0), b"0".to_vec());
    assert_eq!(format_hundredths(1250), b"12.5".to_vec());
    assert_eq!(format_hundredths(1205), b"12.05".to_vec());
    assert_eq!(format_hundredths(-7), b"-0.07".to_vec());
    assert_eq!(format_hundredths(i64::MIN), b"-92233720368547758.08".to_vec());
    assert_eq!(tenths_string(-350), "-3.5");
}

#[test]
fn format_one_and_two_fraction_digits() {
    assert_eq!(format_tenths(150000), b"1500.0".to_vec());
    assert_eq!(format_tenths(0), b"0.0".to_vec());
    assert_eq!(format_tenths(1025), b"10.3".to_vec());
    assert_eq!(format_tenths(1024), b"10.2".to_vec());
    assert_eq!(format_tenths(-1025), b"-10.3".to_vec());
    assert_eq!(format_tenths(-450), b"-4.5".to_vec());
    assert_eq!(format_fixed2(2150), b"21.50".to_vec());
    assert_eq!(format_fixed2(0), b"0.00".to_vec());
    assert_eq!(format_fixed2(705), b"7.05".to_vec());
    assert_eq!(format_fixed2(-7), b"-0.07".to_vec());
}

#[test]
fn format_then_parse_gives_value_back() {
    for v in [0i64, 1, -1, 99, 100, 150000, -2150, 123456789, i64::MAX, i64::MIN] {
        assert_eq!(parse_decimal(&format_hundredths(v)), Some(v));
    }
}

#[test]
fn trim_bounds_of_padded_text() {
    assert_eq!(trim_bounds(b"  ab \n"), (2, 4));
    assert_eq!(trim_bounds(b"   "), (3, 3));
    assert_eq!(trim_bounds("\u{a0}ab\u{2028}".as_bytes()), (2, 4));
}

#[test]
fn telemetry_readings() {
    assert_eq!(telemetry_payload(2150), b"21.50".to_vec());
    assert_eq!(telemetry_payload(0), b"0.00".to_vec());
    let mut seen = Vec::new();
    for _ in 0..100 {
        let (reading, payload) = next_telemetry();
        assert!(0 <= reading && reading < READING_SPAN);
        assert_eq!(parse_decimal(&payload), Some(reading));
        if !seen.contains(&reading) {
            seen.push(reading);
        }
    }
    assert!(seen.len() > 1);
}
