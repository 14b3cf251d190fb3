use ld2450_proto::types::{decode_coord, i16_from_le, u16_from_le};
use ld2450_proto::{RadarFrame, Target, TrackingMode, ZoneFilterType};

#[test]
fn decode_coord_positive() {
    // 0x8000 | 782 = 0x830E -> bit15 set -> positive 782
    assert_eq!(decode_coord(0x830E), 782);
}

#[test]
fn decode_coord_negative() {
    // 782 without bit15 -> negative
    assert_eq!(decode_coord(0x030E), -782);
}

#[test]
fn target_from_datasheet_example() {
    // Datasheet example: 0E 03 B1 86 10 00 40 01
    // x: 0x030E = 782, bit15=0 -> -782mm
    // y: 0x86B1 = 34481, bit15=1 -> 34481-32768 = 1713mm
    // speed: 0x0010 = 16, bit15=0 -> -16 cm/s
    // resolution: 0x0140 = 320mm
    let data = [0x0E, 0x03, 0xB1, 0x86, 0x10, 0x00, 0x40, 0x01];
    let t = Target::from_bytes(&data);
    assert_eq!(t.x, -782);
    assert_eq!(t.y, 1713);
    assert_eq!(t.speed, -16);
    assert_eq!(t.distance_resolution, 320);
}

#[test]
fn empty_target() {
    let t = Target::from_bytes(&[0; 8]);
    assert!(t.is_empty());
}

#[test]
fn radar_frame_active_count() {
    let mut payload = [0u8; 24];
    // Only target 1 has data
    payload[..8].copy_from_slice(&[0x0E, 0x03, 0xB1, 0x86, 0x10, 0x00, 0x40, 0x01]);
    let frame = RadarFrame::from_bytes(&payload);
    assert_eq!(frame.active_count(), 1);
    assert!(!frame.targets[0].is_empty());
    assert!(frame.targets[1].is_empty());
    assert!(frame.targets[2].is_empty());
}

#[test]
fn decode_coord_extremes() {
    assert_eq!(decode_coord(0x0000), 0);
    assert_eq!(decode_coord(0x8000), 0);
    assert_eq!(decode_coord(0xFFFF), 32767);
    assert_eq!(decode_coord(0x7FFF), -32767);
}

#[test]
fn sign_bit_zero_magnitude_is_empty_coordinate() {
    // 0x8000 encodes +0, so a target made only of +0 fields is empty too
    let t = Target::from_bytes(&[0x00, 0x80, 0x00, 0x80, 0x00, 0x80, 0x00, 0x00]);
    assert!(t.is_empty());
}

#[test]
fn little_endian_helpers() {
    assert_eq!(u16_from_le(0x34, 0x12), 0x1234);
    assert_eq!(i16_from_le(0xFF, 0xFF), -1);
    assert_eq!(i16_from_le(0x00, 0x80), -32768);
    assert_eq!(i16_from_le(0xFF, 0x7F), 32767);
}

#[test]
fn active_targets_keeps_slot_order() {
    let mut payload = [0u8; 24];
    payload[8..16].copy_from_slice(&[0x0E, 0x03, 0xB1, 0x86, 0x10, 0x00, 0x40, 0x01]);
    payload[16..24].copy_from_slice(&[0x01, 0x80, 0x02, 0x80, 0x03, 0x80, 0x04, 0x00]);
    let frame = RadarFrame::from_bytes(&payload);
    let active = frame.active_targets();
    assert_eq!(frame.active_count(), 2);
    assert_eq!(active.len(), 2);
    assert_eq!(active[0].x, -782);
    assert_eq!(active[1], Target { x: 1, y: 2, speed: 3, distance_resolution: 4 });
}

#[test]
fn full_frame_counts_three() {
    let payload = [0x01u8; 24];
    let frame = RadarFrame::from_bytes(&payload);
    assert_eq!(frame.active_count(), 3);
    assert_eq!(frame.active_targets().len(), 3);
    assert_eq!(RadarFrame::default().active_count(), 0);
}

#[test]
fn tracking_mode_values() {
    assert_eq!(TrackingMode::from_u16(1), Some(TrackingMode::Single));
    assert_eq!(TrackingMode::from_u16(2), Some(TrackingMode::Multi));
    assert_eq!(TrackingMode::from_u16(0), None);
    assert_eq!(TrackingMode::from_u16(3), None);
    assert_eq!(TrackingMode::from_u16(TrackingMode::Multi.to_u16()), Some(TrackingMode::Multi));
}

#[test]
fn zone_filter_type_values() {
    assert_eq!(ZoneFilterType::from_u16(0), Some(ZoneFilterType::Disabled));
    assert_eq!(ZoneFilterType::from_u16(1), Some(ZoneFilterType::DetectOnly));
    assert_eq!(ZoneFilterType::from_u16(2), Some(ZoneFilterType::Exclude));
    assert_eq!(ZoneFilterType::from_u16(3), None);
    assert_eq!(ZoneFilterType::Exclude.to_u16(), 2);
}
