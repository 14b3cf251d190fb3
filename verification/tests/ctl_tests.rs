use ld2450_proto::command::ZoneRect;
use ld2450_proto::config::{default_baud_rate, default_device, default_log_level, default_socket_path, Config};
use ld2450_proto::ctl::{classify_ack, parse_zone, AckOutcome, ZoneParseError};

#[test]
fn parse_zone_absent_is_empty() {
    assert_eq!(parse_zone(None), Ok(ZoneRect::default()));
}

#[test]
fn parse_zone_example() {
    assert_eq!(
        parse_zone(Some("-1000,0,1000,3000")),
        Ok(ZoneRect { x1: -1000, y1: 0, x2: 1000, y2: 3000 })
    );
    assert_eq!(
        parse_zone(Some(" 1 , +2,\t-3 ,4\u{a0}")),
        Ok(ZoneRect { x1: 1, y1: 2, x2: -3, y2: 4 })
    );
    assert_eq!(
        parse_zone(Some("-32768,32767,0,-0")),
        Ok(ZoneRect { x1: -32768, y1: 32767, x2: 0, y2: 0 })
    );
}

#[test]
fn parse_zone_errors() {
    assert_eq!(parse_zone(Some("1,2,3")), Err(ZoneParseError::WrongCount));
    assert_eq!(parse_zone(Some("1,2,3,4,5")), Err(ZoneParseError::WrongCount));
    assert_eq!(parse_zone(Some("1,2,x,4")), Err(ZoneParseError::InvalidCoordinate));
    assert_eq!(parse_zone(Some("1,2,3,32768")), Err(ZoneParseError::InvalidCoordinate));
    assert_eq!(parse_zone(Some("1,2,3,-32769")), Err(ZoneParseError::InvalidCoordinate));
    assert_eq!(parse_zone(Some("")), Err(ZoneParseError::InvalidCoordinate));
    assert_eq!(parse_zone(Some("1,,3,4")), Err(ZoneParseError::InvalidCoordinate));
    assert_eq!(parse_zone(Some("1,2,3,-")), Err(ZoneParseError::InvalidCoordinate));
    assert_eq!(parse_zone(Some("1,2,3,+")), Err(ZoneParseError::InvalidCoordinate));
    assert_eq!(parse_zone(Some("1,2,3,4 4")), Err(ZoneParseError::InvalidCoordinate));
    assert_eq!(parse_zone(Some("1,2,3,999999999999")), Err(ZoneParseError::InvalidCoordinate));
    // an invalid field is reported before a wrong count
    assert_eq!(parse_zone(Some("a,2")), Err(ZoneParseError::InvalidCoordinate));
}

#[test]
fn parse_zone_agrees_with_std() {
    for s in ["12", " 7", "+0", "-0", "00012", "-00032768", "32767", "1 2", "٣", "+-1", ""] {
        let ours = parse_zone(Some(&format!("{s},{s},{s},{s}")));
        match s.trim().parse::<i16>() {
            Ok(v) => assert_eq!(ours, Ok(ZoneRect { x1: v, y1: v, x2: v, y2: v })),
            Err(_) => assert_eq!(ours, Err(ZoneParseError::InvalidCoordinate)),
        }
    }
}

#[test]
fn zone_text_roundtrip_examples() {
    for z in [
        ZoneRect { x1: -32768, y1: 32767, x2: 0, y2: -1 },
        ZoneRect { x1: 10, y1: -100, x2: 1000, y2: -9999 },
    ] {
        let text = format!("{},{},{},{}", z.x1, z.y1, z.x2, z.y2);
        assert_eq!(parse_zone(Some(&text)), Ok(z));
    }
}

fn frame_with(inframe: &[u8]) -> Vec<u8> {
    let mut v = vec![0xFD, 0xFC, 0xFB, 0xFA, inframe.len() as u8, 0];
    v.extend_from_slice(inframe);
    v.extend_from_slice(&[0x04, 0x03, 0x02, 0x01]);
    v
}

#[test]
fn classify_ack_outcomes() {
    let ok = frame_with(&[0xFE, 0x01, 0x00, 0x00]);
    assert!(matches!(classify_ack(&ok[..10]), AckOutcome::Incomplete));
    match classify_ack(&ok) {
        AckOutcome::Accepted(ack) => assert_eq!(ack.command_word, 0x00FE),
        _ => panic!("expected an accepted ack"),
    }
    let failed = frame_with(&[0xA2, 0x01, 0x01, 0x00]);
    match classify_ack(&failed) {
        AckOutcome::Rejected(ack) => assert_eq!(ack.command_word, 0x00A2),
        _ => panic!("expected a rejected ack"),
    }
}

#[test]
fn config_defaults() {
    let c = Config::default();
    assert_eq!(c.device, "/dev/ttyAMA0");
    assert_eq!(c.baud_rate, 256000);
    assert_eq!(c.socket_path, "/run/ld2450/radar.sock");
    assert_eq!(c.log_level, "info");
    assert_eq!(default_device(), c.device);
    assert_eq!(default_baud_rate(), 256000);
    assert_eq!(default_socket_path(), c.socket_path);
    assert_eq!(default_log_level(), "info");
}
