use ld2450_proto::command::{parse_ack, AckData, AckStatus, BaudRateIndex, Command, CommandFrame, ZoneRect};
use ld2450_proto::{TrackingMode, ZoneFilterType};

#[test]
fn build_enable_config() {
    let frame = CommandFrame::build(&Command::EnableConfig);
    let expected: &[u8] = &[
        0xFD, 0xFC, 0xFB, 0xFA, // header
        0x04, 0x00, // data length = 4
        0xFF, 0x00, // command word
        0x01, 0x00, // command value
        0x04, 0x03, 0x02, 0x01, // footer
    ];
    assert_eq!(frame.as_bytes(), expected);
}

#[test]
fn build_end_config() {
    let frame = CommandFrame::build(&Command::EndConfig);
    let expected: &[u8] = &[
        0xFD, 0xFC, 0xFB, 0xFA, // header
        0x02, 0x00, // data length = 2
        0xFE, 0x00, // command word
        0x04, 0x03, 0x02, 0x01, // footer
    ];
    assert_eq!(frame.as_bytes(), expected);
}

#[test]
fn build_single_target_tracking() {
    let frame = CommandFrame::build(&Command::SingleTargetTracking);
    let expected: &[u8] = &[
        0xFD, 0xFC, 0xFB, 0xFA, 0x02, 0x00, 0x80, 0x00, 0x04, 0x03, 0x02, 0x01,
    ];
    assert_eq!(frame.as_bytes(), expected);
}

#[test]
fn build_set_baud_256000() {
    let frame = CommandFrame::build(&Command::SetBaudRate(BaudRateIndex::B256000));
    let expected: &[u8] = &[
        0xFD, 0xFC, 0xFB, 0xFA, 0x04, 0x00, 0xA1, 0x00, 0x07, 0x00, 0x04, 0x03, 0x02, 0x01,
    ];
    assert_eq!(frame.as_bytes(), expected);
}

#[test]
fn parse_ack_enable_config() {
    let ack_bytes: &[u8] = &[
        0xFD, 0xFC, 0xFB, 0xFA, // header
        0x08, 0x00, // data length = 8
        0xFF, 0x01, // ack command word (0x00FF | 0x0100)
        0x00, 0x00, // status: success
        0x01, 0x00, // protocol version
        0x40, 0x00, // buffer size
        0x04, 0x03, 0x02, 0x01, // footer
    ];

    let (ack, consumed) = parse_ack(ack_bytes).unwrap();
    assert_eq!(consumed, ack_bytes.len());
    assert_eq!(ack.command_word, 0x00FF);
    assert_eq!(ack.status, AckStatus::Success);
    match ack.data {
        AckData::EnableConfig {
            protocol_version,
            buffer_size,
        } => {
            assert_eq!(protocol_version, 0x0001);
            assert_eq!(buffer_size, 0x0040);
        }
        _ => panic!("expected EnableConfig ack data"),
    }
}

#[test]
fn parse_ack_end_config() {
    let ack_bytes: &[u8] = &[
        0xFD, 0xFC, 0xFB, 0xFA, 0x04, 0x00, 0xFE, 0x01, 0x00, 0x00, 0x04, 0x03, 0x02, 0x01,
    ];

    let (ack, _) = parse_ack(ack_bytes).unwrap();
    assert_eq!(ack.command_word, 0x00FE);
    assert_eq!(ack.status, AckStatus::Success);
}

#[test]
fn parse_ack_tracking_mode_single() {
    let ack_bytes: &[u8] = &[
        0xFD, 0xFC, 0xFB, 0xFA, 0x06, 0x00, 0x91, 0x01, 0x00, 0x00, 0x01,
        0x00, // single target
        0x04, 0x03, 0x02, 0x01,
    ];

    let (ack, _) = parse_ack(ack_bytes).unwrap();
    assert_eq!(ack.command_word, 0x0091);
    match ack.data {
        AckData::TrackingMode(mode) => assert_eq!(mode, TrackingMode::Single),
        _ => panic!("expected TrackingMode"),
    }
}

#[test]
fn parse_ack_with_garbage_prefix() {
    let mut data = vec![0x00, 0xFF, 0x42]; // garbage
    data.extend_from_slice(&[
        0xFD, 0xFC, 0xFB, 0xFA, 0x04, 0x00, 0xFE, 0x01, 0x00, 0x00, 0x04, 0x03, 0x02, 0x01,
    ]);

    let (ack, _) = parse_ack(&data).unwrap();
    assert_eq!(ack.command_word, 0x00FE);
}

fn frame_with(inframe: &[u8]) -> Vec<u8> {
    let mut v = vec![0xFD, 0xFC, 0xFB, 0xFA, inframe.len() as u8, (inframe.len() >> 8) as u8];
    v.extend_from_slice(inframe);
    v.extend_from_slice(&[0x04, 0x03, 0x02, 0x01]);
    v
}

#[test]
fn build_every_command() {
    let cases: Vec<(Command, Vec<u8>)> = vec![
        (Command::MultiTargetTracking, vec![0x90, 0x00]),
        (Command::QueryTrackingMode, vec![0x91, 0x00]),
        (Command::ReadFirmwareVersion, vec![0xA0, 0x00]),
        (Command::RestoreFactory, vec![0xA2, 0x00]),
        (Command::Restart, vec![0xA3, 0x00]),
        (Command::SetBluetooth(true), vec![0xA4, 0x00, 0x00, 0x01]),
        (Command::SetBluetooth(false), vec![0xA4, 0x00, 0x00, 0x00]),
        (Command::GetMacAddress, vec![0xA5, 0x00, 0x01, 0x00]),
        (Command::QueryZoneFilter, vec![0xC1, 0x00]),
        (Command::SetBaudRate(BaudRateIndex::B9600), vec![0xA1, 0x00, 0x01, 0x00]),
        (Command::SetBaudRate(BaudRateIndex::B460800), vec![0xA1, 0x00, 0x08, 0x00]),
    ];
    for (cmd, inframe) in cases {
        let frame = CommandFrame::build(&cmd);
        assert_eq!(frame.as_bytes(), frame_with(&inframe).as_slice());
    }
}

#[test]
fn build_set_zone_filter() {
    let zones = [
        ZoneRect { x1: -1000, y1: 0, x2: 1000, y2: 3000 },
        ZoneRect { x1: 1, y1: -1, x2: 0, y2: 0 },
        ZoneRect::default(),
    ];
    let frame = CommandFrame::build(&Command::SetZoneFilter {
        filter_type: ZoneFilterType::DetectOnly,
        zones,
    });
    let mut inframe = vec![0xC2, 0x00, 0x01, 0x00];
    inframe.extend_from_slice(&[0x18, 0xFC, 0x00, 0x00, 0xE8, 0x03, 0xB8, 0x0B]);
    inframe.extend_from_slice(&[0x01, 0x00, 0xFF, 0xFF, 0x00, 0x00, 0x00, 0x00]);
    inframe.extend_from_slice(&[0u8; 8]);
    assert_eq!(frame.as_bytes(), frame_with(&inframe).as_slice());
    assert_eq!(frame.as_bytes().len(), 38);
    assert_eq!(frame.as_bytes()[4], 28);
}

#[test]
fn baud_rates_roundtrip() {
    for rate in [9600u32, 19200, 38400, 57600, 115200, 230400, 256000, 460800] {
        let idx = BaudRateIndex::from_rate(rate).unwrap();
        assert_eq!(idx.to_rate(), rate);
    }
    assert_eq!(BaudRateIndex::from_rate(12345), None);
    assert_eq!(BaudRateIndex::B115200.to_u16(), 5);
}

#[test]
fn parse_ack_firmware_version() {
    let data = frame_with(&[0xA0, 0x01, 0x00, 0x00, 0x00, 0x01, 0x02, 0x00, 0x16, 0x24, 0x06, 0x22]);
    let (ack, consumed) = parse_ack(&data).unwrap();
    assert_eq!(consumed, data.len());
    assert_eq!(ack.command_word, 0x00A0);
    match ack.data {
        AckData::FirmwareVersion { fw_type, major, minor } => {
            assert_eq!(fw_type, 0x0100);
            assert_eq!(major, 0x0002);
            assert_eq!(minor, 0x2206_2416);
        }
        _ => panic!("expected FirmwareVersion"),
    }
}

#[test]
fn parse_ack_mac_address_short_and_long() {
    let data = frame_with(&[0xA5, 0x01, 0x00, 0x00, 0x00, 0x8F, 0x27, 0x2E]);
    let (ack, _) = parse_ack(&data).unwrap();
    match ack.data {
        AckData::MacAddress(mac) => assert_eq!(mac, [0x8F, 0x27, 0x2E, 0, 0, 0]),
        _ => panic!("expected MacAddress"),
    }
    let data = frame_with(&[0xA5, 0x01, 0x00, 0x00, 0x00, 1, 2, 3, 4, 5, 6, 7]);
    let (ack, _) = parse_ack(&data).unwrap();
    match ack.data {
        AckData::MacAddress(mac) => assert_eq!(mac, [1, 2, 3, 4, 5, 6]),
        _ => panic!("expected MacAddress"),
    }
}

#[test]
fn parse_ack_zone_filter() {
    let mut inframe = vec![0xC1, 0x01, 0x00, 0x00, 0x02, 0x00];
    inframe.extend_from_slice(&[0x18, 0xFC, 0x00, 0x00, 0xE8, 0x03, 0xB8, 0x0B]);
    inframe.extend_from_slice(&[0u8; 16]);
    let (ack, _) = parse_ack(&frame_with(&inframe)).unwrap();
    match ack.data {
        AckData::ZoneFilter { filter_type, zones } => {
            assert_eq!(filter_type, ZoneFilterType::Exclude);
            assert_eq!(zones[0], ZoneRect { x1: -1000, y1: 0, x2: 1000, y2: 3000 });
            assert_eq!(zones[1], ZoneRect::default());
        }
        _ => panic!("expected ZoneFilter"),
    }
    // an unknown filter type reads as disabled
    inframe[4] = 0x09;
    let (ack, _) = parse_ack(&frame_with(&inframe)).unwrap();
    match ack.data {
        AckData::ZoneFilter { filter_type, .. } => assert_eq!(filter_type, ZoneFilterType::Disabled),
        _ => panic!("expected ZoneFilter"),
    }
}

#[test]
fn parse_ack_failure_status_and_unknown_mode() {
    let data = frame_with(&[0x91, 0x01, 0x01, 0x00, 0x07, 0x00]);
    let (ack, _) = parse_ack(&data).unwrap();
    assert_eq!(ack.status, AckStatus::Failure);
    assert!(matches!(ack.data, AckData::Simple));
}

#[test]
fn parse_ack_rejects_incomplete_frames() {
    let full = frame_with(&[0xFE, 0x01, 0x00, 0x00]);
    for n in 0..full.len() {
        assert!(parse_ack(&full[..n]).is_none());
    }
    // wrong footer
    let mut bad = full.clone();
    bad[13] = 0x00;
    assert!(parse_ack(&bad).is_none());
    // in-frame data shorter than command word + status
    assert!(parse_ack(&frame_with(&[0xFE, 0x01])).is_none());
    // no header at all
    assert!(parse_ack(&[0u8; 20]).is_none());
}

#[test]
fn parse_ack_consumes_prefix_and_frame_only() {
    let mut data = vec![0x11, 0x22];
    data.extend_from_slice(&frame_with(&[0xFE, 0x01, 0x00, 0x00]));
    data.extend_from_slice(&[0x99, 0x98]);
    let (_, consumed) = parse_ack(&data).unwrap();
    assert_eq!(consumed, 2 + 14);
}

#[test]
fn parse_ack_short_extra_is_simple() {
    // EnableConfig ack without its 4 bytes of data
    let (ack, _) = parse_ack(&frame_with(&[0xFF, 0x01, 0x00, 0x00, 0x01])).unwrap();
    assert_eq!(ack.command_word, 0x00FF);
    assert!(matches!(ack.data, AckData::Simple));
}
