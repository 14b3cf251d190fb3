use ld2450_proto::{FrameParser, ParseEvent};

const DATA_HEADER: [u8; 4] = [0xAA, 0xFF, 0x03, 0x00];
const DATA_FOOTER: [u8; 2] = [0x55, 0xCC];

fn make_frame(payload: &[u8; 24]) -> Vec<u8> {
    let mut frame = Vec::with_capacity(30);
    frame.extend_from_slice(&DATA_HEADER);
    frame.extend_from_slice(payload);
    frame.extend_from_slice(&DATA_FOOTER);
    frame
}

fn example_payload() -> [u8; 24] {
    let mut payload = [0u8; 24];
    payload[..8].copy_from_slice(&[0x0E, 0x03, 0xB1, 0x86, 0x10, 0x00, 0x40, 0x01]);
    payload
}

#[test]
fn parse_datasheet_example() {
    let raw: [u8; 30] = [
        0xAA, 0xFF, 0x03, 0x00, // header
        0x0E, 0x03, 0xB1, 0x86, 0x10, 0x00, 0x40, 0x01, // target 1
        0x00, 0x00, 0x00, 0x00, 0x00, 0x00, 0x00, 0x00, // target 2 (empty)
        0x00, 0x00, 0x00, 0x00, 0x00, 0x00, 0x00, 0x00, // target 3 (empty)
        0x55, 0xCC, // footer
    ];

    let mut parser = FrameParser::new();
    let events = parser.feed_slice(&raw);
    assert_eq!(events.len(), 1);

    let ParseEvent::Frame(frame) = &events[0];
    assert_eq!(frame.targets[0].x, -782);
    assert_eq!(frame.targets[0].y, 1713);
    assert_eq!(frame.targets[0].speed, -16);
    assert_eq!(frame.targets[0].distance_resolution, 320);
    assert!(frame.targets[1].is_empty());
    assert!(frame.targets[2].is_empty());
    assert_eq!(frame.active_count(), 1);
}

#[test]
fn parse_with_garbage_prefix() {
    let mut data = vec![0xFF, 0x00, 0x42, 0x13]; // garbage
    data.extend_from_slice(&make_frame(&example_payload()));

    let mut parser = FrameParser::new();
    let events = parser.feed_slice(&data);
    assert_eq!(events.len(), 1);
}

#[test]
fn parse_multiple_frames() {
    let frame = make_frame(&example_payload());

    let mut data = Vec::new();
    data.extend_from_slice(&frame);
    data.extend_from_slice(&frame);
    data.extend_from_slice(&frame);

    let mut parser = FrameParser::new();
    let events = parser.feed_slice(&data);
    assert_eq!(events.len(), 3);
}

#[test]
fn bad_footer_resyncs() {
    let mut data = Vec::new();
    // Frame with bad footer
    data.extend_from_slice(&DATA_HEADER);
    data.extend_from_slice(&[0u8; 24]);
    data.extend_from_slice(&[0x55, 0xDD]); // wrong footer

    // Followed by a good frame
    data.extend_from_slice(&make_frame(&example_payload()));

    let mut parser = FrameParser::new();
    let events = parser.feed_slice(&data);
    assert_eq!(events.len(), 1); // only the good frame
}

#[test]
fn byte_by_byte_feeding() {
    let data = make_frame(&example_payload());

    let mut parser = FrameParser::new();
    let mut events = Vec::new();
    for &b in &data {
        if let Some(ev) = parser.feed(b) {
            events.push(ev);
        }
    }
    assert_eq!(events.len(), 1);
}

#[test]
fn frame_reported_only_on_last_footer_byte() {
    let data = make_frame(&example_payload());
    let mut parser = FrameParser::new();
    for (i, &b) in data.iter().enumerate() {
        let ev = parser.feed(b);
        assert_eq!(ev.is_some(), i == data.len() - 1);
    }
}

#[test]
fn repeated_header_start_byte_still_syncs() {
    // AA AA FF 03 00 ...: the second AA restarts the header match
    let mut data = vec![0xAA, 0xAA, 0xFF];
    data.extend_from_slice(&make_frame(&example_payload()));
    let mut parser = FrameParser::default();
    let events = parser.feed_slice(&data);
    assert_eq!(events.len(), 1);
    let ParseEvent::Frame(frame) = &events[0];
    assert_eq!(frame.targets[0].y, 1713);
}

#[test]
fn split_feeding_equals_whole_feeding() {
    let mut data = make_frame(&example_payload());
    data.extend_from_slice(&make_frame(&[0x11; 24]));
    let mut whole = FrameParser::new();
    let all = whole.feed_slice(&data);
    let mut split = FrameParser::new();
    let mut parts = split.feed_slice(&data[..17]);
    parts.extend(split.feed_slice(&data[17..]));
    assert_eq!(all, parts);
    assert_eq!(all.len(), 2);
}

#[test]
fn damaged_first_footer_byte_drops_frame() {
    let mut data = Vec::new();
    data.extend_from_slice(&DATA_HEADER);
    data.extend_from_slice(&example_payload());
    data.extend_from_slice(&[0x00, 0xCC]);
    let mut parser = FrameParser::new();
    assert!(parser.feed_slice(&data).is_empty());
    assert_eq!(parser.feed_slice(&make_frame(&example_payload())).len(), 1);
}

#[test]
fn header_bytes_inside_payload_are_data() {
    // A payload that itself contains the header sequence is read as payload.
    let mut payload = [0u8; 24];
    payload[..4].copy_from_slice(&DATA_HEADER);
    let mut parser = FrameParser::new();
    let events = parser.feed_slice(&make_frame(&payload));
    assert_eq!(events.len(), 1);
    let ParseEvent::Frame(frame) = &events[0];
    // AA FF 03 00: x = 0xFFAA -> +32682, y = 0x0003 -> -3
    assert_eq!(frame.targets[0].x, 32682);
    assert_eq!(frame.targets[0].y, -3);
}
