//! Command frames sent to the radar and the acknowledgement frames it answers with.

use vstd::prelude::*;

use crate::types::{i16_from_le, le_i16, le_u16, u16_from_le, TrackingMode, ZoneFilterType};

verus! {

/// Command frame header: FD FC FB FA.
pub open spec fn cmd_header() -> Seq<u8> {
    seq![0xFDu8, 0xFCu8, 0xFBu8, 0xFAu8]
}

/// Command frame footer: 04 03 02 01.
pub open spec fn cmd_footer() -> Seq<u8> {
    seq![0x04u8, 0x03u8, 0x02u8, 0x01u8]
}

/// The two little-endian bytes of a value in 0..=0xFFFF.
pub open spec fn le_bytes(v: int) -> Seq<u8> {
    seq![(v % 256) as u8, (v / 256) as u8]
}

/// The two little-endian bytes of a 16-bit two's complement value.
pub open spec fn le_i16_bytes(v: i16) -> Seq<u8> {
    le_bytes(if v < 0 { v + 0x1_0000 } else { v as int })
}

/// Commands that can be sent to the LD2450.
#[derive(Debug, Clone)]
pub enum Command {
    EnableConfig,
    EndConfig,
    SingleTargetTracking,
    MultiTargetTracking,
    QueryTrackingMode,
    ReadFirmwareVersion,
    SetBaudRate(BaudRateIndex),
    RestoreFactory,
    Restart,
    SetBluetooth(bool),
    GetMacAddress,
    QueryZoneFilter,
    SetZoneFilter { filter_type: ZoneFilterType, zones: [ZoneRect; 3] },
}

/// A rectangular zone defined by two diagonal vertices (mm).
#[derive(Debug, Clone, Copy, PartialEq, Eq, Structural)]
pub struct ZoneRect {
    pub x1: i16,
    pub y1: i16,
    pub x2: i16,
    pub y2: i16,
}

impl Default for ZoneRect {
    fn default() -> (r: Self)
        ensures
            r == (ZoneRect { x1: 0, y1: 0, x2: 0, y2: 0 }),
    {
        ZoneRect { x1: 0, y1: 0, x2: 0, y2: 0 }
    }
}

/// The eight bytes of a zone in a command or acknowledgement frame.
pub open spec fn zone_bytes(z: ZoneRect) -> Seq<u8> {
    le_i16_bytes(z.x1) + le_i16_bytes(z.y1) + le_i16_bytes(z.x2) + le_i16_bytes(z.y2)
}

/// The bytes of several zones, one after the other.
pub open spec fn zones_bytes(zs: Seq<ZoneRect>) -> Seq<u8>
    decreases zs.len(),
{
    if zs.len() == 0 {
        Seq::empty()
    } else {
        zones_bytes(zs.drop_last()) + zone_bytes(zs.last())
    }
}

/// Baud rate selection index per protocol spec.
#[derive(Debug, Clone, Copy, PartialEq, Eq, Structural)]
pub enum BaudRateIndex {
    B9600,
    B19200,
    B38400,
    B57600,
    B115200,
    B230400,
    B256000,
    B460800,
}

impl BaudRateIndex {
    /// The index for a baud rate the sensor supports.
    #[verifier::allow_in_spec]
    pub fn from_rate(rate: u32) -> Option<Self>
        returns
            if rate == 9600 {
                Some(BaudRateIndex::B9600)
            } else if rate == 19200 {
                Some(BaudRateIndex::B19200)
            } else if rate == 38400 {
                Some(BaudRateIndex::B38400)
            } else if rate == 57600 {
                Some(BaudRateIndex::B57600)
            } else if rate == 115200 {
                Some(BaudRateIndex::B115200)
            } else if rate == 230400 {
                Some(BaudRateIndex::B230400)
            } else if rate == 256000 {
                Some(BaudRateIndex::B256000)
            } else if rate == 460800 {
                Some(BaudRateIndex::B460800)
            } else {
                None
            },
    {
        match rate {
            9600 => Some(BaudRateIndex::B9600),
            19200 => Some(BaudRateIndex::B19200),
            38400 => Some(BaudRateIndex::B38400),
            57600 => Some(BaudRateIndex::B57600),
            115200 => Some(BaudRateIndex::B115200),
            230400 => Some(BaudRateIndex::B230400),
            256000 => Some(BaudRateIndex::B256000),
            460800 => Some(BaudRateIndex::B460800),
            _ => None,
        }
    }

    /// The baud rate this index selects.
    #[verifier::allow_in_spec]
    pub fn to_rate(self) -> u32
        returns
            match self {
                BaudRateIndex::B9600 => 9600u32,
                BaudRateIndex::B19200 => 19200u32,
                BaudRateIndex::B38400 => 38400u32,
                BaudRateIndex::B57600 => 57600u32,
                BaudRateIndex::B115200 => 115200u32,
                BaudRateIndex::B230400 => 230400u32,
                BaudRateIndex::B256000 => 256000u32,
                BaudRateIndex::B460800 => 460800u32,
            },
    {
        match self {
            BaudRateIndex::B9600 => 9600,
            BaudRateIndex::B19200 => 19200,
            BaudRateIndex::B38400 => 38400,
            BaudRateIndex::B57600 => 57600,
            BaudRateIndex::B115200 => 115200,
            BaudRateIndex::B230400 => 230400,
            BaudRateIndex::B256000 => 256000,
            BaudRateIndex::B460800 => 460800,
        }
    }

    /// The protocol value of this index (1 for 9600 up to 8 for 460800).
    #[verifier::allow_in_spec]
    pub fn to_u16(self) -> u16
        returns
            match self {
                BaudRateIndex::B9600 => 1u16,
                BaudRateIndex::B19200 => 2u16,
                BaudRateIndex::B38400 => 3u16,
                BaudRateIndex::B57600 => 4u16,
                BaudRateIndex::B115200 => 5u16,
                BaudRateIndex::B230400 => 6u16,
                BaudRateIndex::B256000 => 7u16,
                BaudRateIndex::B460800 => 8u16,
            },
    {
        match self {
            BaudRateIndex::B9600 => 0x0001,
            BaudRateIndex::B19200 => 0x0002,
            BaudRateIndex::B38400 => 0x0003,
            BaudRateIndex::B57600 => 0x0004,
            BaudRateIndex::B115200 => 0x0005,
            BaudRateIndex::B230400 => 0x0006,
            BaudRateIndex::B256000 => 0x0007,
            BaudRateIndex::B460800 => 0x0008,
        }
    }
}

/// Every index stands for one rate, and that rate selects the index again;
/// every rate that selects an index is the rate of that index.
pub proof fn lemma_baud_rate_roundtrip(idx: BaudRateIndex, rate: u32)
    ensures
        BaudRateIndex::from_rate(idx.to_rate()) == Some(idx),
        BaudRateIndex::from_rate(rate) == Some(idx) ==> idx.to_rate() == rate,
{
}

/// The in-frame data of a command: its command word, then its value, if any.
pub open spec fn command_payload(cmd: Command) -> Seq<u8> {
    match cmd {
        Command::EnableConfig => le_bytes(0x00FF) + le_bytes(0x0001),
        Command::EndConfig => le_bytes(0x00FE),
        Command::SingleTargetTracking => le_bytes(0x0080),
        Command::MultiTargetTracking => le_bytes(0x0090),
        Command::QueryTrackingMode => le_bytes(0x0091),
        Command::ReadFirmwareVersion => le_bytes(0x00A0),
        Command::SetBaudRate(idx) => le_bytes(0x00A1) + le_bytes(idx.to_u16() as int),
        Command::RestoreFactory => le_bytes(0x00A2),
        Command::Restart => le_bytes(0x00A3),
        Command::SetBluetooth(on) => le_bytes(0x00A4) + le_bytes(
            if on {
                0x0100
            } else {
                0x0000
            },
        ),
        Command::GetMacAddress => le_bytes(0x00A5) + le_bytes(0x0001),
        Command::QueryZoneFilter => le_bytes(0x00C1),
        Command::SetZoneFilter { filter_type, zones } => le_bytes(0x00C2) + le_bytes(
            filter_type.to_u16() as int,
        ) + zones_bytes(zones@),
    }
}

/// The wire form of a command: header, the length of the in-frame data
/// (little-endian), the in-frame data, footer.
pub open spec fn command_bytes(cmd: Command) -> Seq<u8> {
    cmd_header() + le_bytes(command_payload(cmd).len() as int) + command_payload(cmd) + cmd_footer()
}

/// A serialized command frame ready to send over UART.
#[derive(Debug)]
pub struct CommandFrame {
    buf: [u8; 64],
    len: usize,
}

impl View for CommandFrame {
    type V = Seq<u8>;

    closed spec fn view(&self) -> Seq<u8> {
        self.buf@.take(self.len as int)
    }
}

impl CommandFrame {
    #[verifier::type_invariant]
    spec fn fits(self) -> bool {
        self.len <= 64
    }

    /// Build the wire-format frame for a command.
    pub fn build(cmd: &Command) -> (r: Self)
        ensures
            r@ == command_bytes(*cmd),
    {
        let mut frame = CommandFrame { buf: [0u8; 64], len: 0 };
        assert(frame@ =~= Seq::<u8>::empty());

        // Header
        let header: [u8; 4] = [0xFD, 0xFC, 0xFB, 0xFA];
        frame.push_slice(header.as_slice());
        assert(header@ =~= cmd_header());

        // Reserve 2 bytes for length, fill in after
        let len_pos = frame.len;
        let zero: [u8; 2] = [0x00, 0x00];
        frame.push_slice(zero.as_slice());

        let data_start = frame.len;
        let ghost start = frame@;

        match cmd {
            Command::EnableConfig => {
                frame.push_le_u16(0x00FF);  // command word
                frame.push_le_u16(0x0001);  // command value
            },
            Command::EndConfig => {
                frame.push_le_u16(0x00FE);
            },
            Command::SingleTargetTracking => {
                frame.push_le_u16(0x0080);
            },
            Command::MultiTargetTracking => {
                frame.push_le_u16(0x0090);
            },
            Command::QueryTrackingMode => {
                frame.push_le_u16(0x0091);
            },
            Command::ReadFirmwareVersion => {
                frame.push_le_u16(0x00A0);
            },
            Command::SetBaudRate(idx) => {
                frame.push_le_u16(0x00A1);
                frame.push_le_u16(idx.to_u16());
            },
            Command::RestoreFactory => {
                frame.push_le_u16(0x00A2);
            },
            Command::Restart => {
                frame.push_le_u16(0x00A3);
            },
            Command::SetBluetooth(on) => {
                frame.push_le_u16(0x00A4);
                frame.push_le_u16(
                    if *on {
                        0x0100
                    } else {
                        0x0000
                    },
                );
            },
            Command::GetMacAddress => {
                frame.push_le_u16(0x00A5);
                frame.push_le_u16(0x0001);
            },
            Command::QueryZoneFilter => {
                frame.push_le_u16(0x00C1);
            },
            Command::SetZoneFilter { filter_type, zones } => {
                frame.push_le_u16(0x00C2);
                frame.push_le_u16(filter_type.to_u16());
                let ghost before_zones = frame@;
                for i in 0..3
                    invariant
                        frame.len == 10 + 8 * i,
                        frame@ == before_zones + zones_bytes(zones@.take(i as int)),
                        before_zones.len() == 10,
                {
                    let zone = zones[i];
                    assert(zones@.take(i + 1).drop_last() =~= zones@.take(i as int));
                    frame.push_le_i16(zone.x1);
                    frame.push_le_i16(zone.y1);
                    frame.push_le_i16(zone.x2);
                    frame.push_le_i16(zone.y2);
                }
                assert(zones@.take(3) =~= zones@);
            },
        }
        assert(frame@ =~= start + command_payload(*cmd));

        // Fill in data length
        proof {
            use_type_invariant(&frame);
        }
        assert(start =~= cmd_header() + seq![0u8, 0u8]);
        let data_len = frame.len - data_start;
        assert(data_len == command_payload(*cmd).len());
        let ghost before_len = frame.buf@;
        frame.buf[len_pos] = (data_len % 256) as u8;
        frame.buf[len_pos + 1] = (data_len / 256) as u8;
        assert(frame.buf@ == before_len.update(4, (data_len % 256) as u8).update(5, (data_len / 256) as u8));
        let ghost payload = command_payload(*cmd);
        assert(before_len.take(frame.len as int) == start + payload);
        assert forall|k: int| 0 <= k < frame.len implies #[trigger] frame@[k] == (cmd_header() + le_bytes(
            payload.len() as int,
        ) + payload)[k] by {
            assert(frame@[k] == frame.buf@[k]);
            if k >= 6 || k < 4 {
                assert(frame.buf@[k] == before_len[k]);
                assert(before_len[k] == before_len.take(frame.len as int)[k]);
                assert(frame@[k] == (start + payload)[k]);
            }
        }
        assert(frame@ =~= cmd_header() + le_bytes(payload.len() as int) + payload);

        // Footer
        let footer: [u8; 4] = [0x04, 0x03, 0x02, 0x01];
        frame.push_slice(footer.as_slice());
        assert(footer@ =~= cmd_footer());
        frame
    }

    /// The serialized bytes to send over UART.
    pub fn as_bytes(&self) -> (r: &[u8])
        ensures
            r@ == self@,
    {
        proof {
            use_type_invariant(self);
        }
        let all = self.buf.as_slice();
        &all[0..self.len]
    }

    fn push_slice(&mut self, data: &[u8])
        requires
            old(self)@.len() + data@.len() <= 64,
        ensures
            final(self)@ == old(self)@ + data@,
            final(self).len == old(self).len + data@.len(),
    {
        proof {
            use_type_invariant(&*self);
        }
        let ghost start = self@;
        let mut i: usize = 0;
        while i < data.len()
            invariant
                self.len + data@.len() - i <= 64,
                self.len == old(self).len + i,
                i <= data@.len(),
                self@ == start + data@.take(i as int),
            decreases data@.len() - i,
        {
            let pos = self.len;
            let ghost old_buf = self.buf@;
            self.buf[pos] = data[i];
            assert(self.buf@ == old_buf.update(pos as int, data@[i as int]));
            self.len = pos + 1;
            assert(self.buf@.take(pos as int) =~= old_buf.take(pos as int));
            assert(self@ =~= self.buf@.take(pos as int).push(data@[i as int]));
            assert(data@.take(i + 1) =~= data@.take(i as int).push(data@[i as int]));
            assert(self@ =~= start + data@.take(i + 1));
            i = i + 1;
        }
        assert(data@.take(data@.len() as int) =~= data@);
    }

    fn push_le_u16(&mut self, val: u16)
        requires
            old(self)@.len() + 2 <= 64,
        ensures
            final(self)@ == old(self)@ + le_bytes(val as int),
            final(self).len == old(self).len + 2,
    {
        let bytes: [u8; 2] = [(val % 256) as u8, (val / 256) as u8];
        assert(bytes@ =~= le_bytes(val as int));
        self.push_slice(bytes.as_slice());
    }

    fn push_le_i16(&mut self, val: i16)
        requires
            old(self)@.len() + 2 <= 64,
        ensures
            final(self)@ == old(self)@ + le_i16_bytes(val),
            final(self).len == old(self).len + 2,
    {
        let u: u16 = if val < 0 {
            (val as i32 + 0x1_0000) as u16
        } else {
            val as u16
        };
        self.push_le_u16(u);
    }
}

/// Status code in ACK responses.
#[derive(Debug, Clone, Copy, PartialEq, Eq, Structural)]
pub enum AckStatus {
    Success,
    Failure,
}

/// Parsed ACK data for different commands.
#[derive(Debug, Clone)]
pub enum AckData {
    /// Generic ACK with just a status (EndConfig, SetMode, SetBaud, etc.)
    Simple,
    /// EnableConfig response: protocol version + buffer size
    EnableConfig { protocol_version: u16, buffer_size: u16 },
    /// Query tracking mode response
    TrackingMode(TrackingMode),
    /// Firmware version
    FirmwareVersion { fw_type: u16, major: u16, minor: u32 },
    /// MAC address (6 bytes)
    MacAddress([u8; 6]),
    /// Zone filter configuration
    ZoneFilter { filter_type: ZoneFilterType, zones: [ZoneRect; 3] },
}

/// A parsed ACK frame from the radar.
#[derive(Debug, Clone)]
pub struct AckFrame {
    pub command_word: u16,
    pub status: AckStatus,
    pub data: AckData,
}

/// `needle` occurs in `haystack` at index `i`.
pub open spec fn occurs_at(haystack: Seq<u8>, needle: Seq<u8>, i: int) -> bool {
    0 <= i && i + needle.len() <= haystack.len() && haystack.subrange(i, i + needle.len()) == needle
}

/// `i` is the first index at which `needle` occurs in `haystack`.
pub open spec fn first_occurrence(haystack: Seq<u8>, needle: Seq<u8>, i: int) -> bool {
    occurs_at(haystack, needle, i) && forall|j: int| 0 <= j < i ==> !occurs_at(haystack, needle, j)
}

/// Where the first command header starts in `buf`, if anywhere.
pub open spec fn ack_start(buf: Seq<u8>) -> Option<int> {
    if exists|i: int| first_occurrence(buf, cmd_header(), i) {
        Some(choose|i: int| first_occurrence(buf, cmd_header(), i))
    } else {
        None
    }
}

/// The length field of a frame that starts at the front of `r`.
pub open spec fn ack_data_len(r: Seq<u8>) -> int {
    le_u16(r[4], r[5])
}

/// The in-frame data of a frame that starts at the front of `r`.
pub open spec fn ack_inframe(r: Seq<u8>) -> Seq<u8> {
    r.subrange(6, 6 + ack_data_len(r))
}

/// `r` starts with a complete acknowledgement frame: it holds the header,
/// length, command word and status and footer (14 bytes at least), the whole
/// frame that the length field announces, ending in the footer, and in-frame
/// data of at least four bytes.
pub open spec fn ack_frame_complete(r: Seq<u8>) -> bool {
    &&& r.len() >= 14
    &&& r.len() >= 10 + ack_data_len(r)
    &&& r.subrange(6 + ack_data_len(r), 10 + ack_data_len(r)) == cmd_footer()
    &&& ack_data_len(r) >= 4
}

/// The little-endian 32-bit value of four bytes.
pub open spec fn le_u32(b0: u8, b1: u8, b2: u8, b3: u8) -> int {
    b0 + 256 * b1 + 65536 * b2 + 16777216 * b3
}

/// The zone that eight bytes of acknowledgement data describe.
pub open spec fn spec_zone(b: Seq<u8>) -> ZoneRect {
    ZoneRect {
        x1: le_i16(b[0], b[1]) as i16,
        y1: le_i16(b[2], b[3]) as i16,
        x2: le_i16(b[4], b[5]) as i16,
        y2: le_i16(b[6], b[7]) as i16,
    }
}

/// The three zones that 24 bytes of acknowledgement data describe.
pub open spec fn spec_zones(data: Seq<u8>) -> Seq<ZoneRect> {
    Seq::new(3, |i: int| spec_zone(data.subrange(8 * i, 8 * i + 8)))
}

/// The MAC address in the data of a MAC acknowledgement: after a type byte,
/// up to six address bytes, padded with zeros.
pub open spec fn spec_mac(extra: Seq<u8>) -> Seq<u8> {
    let available = if extra.len() - 1 < 6 { extra.len() - 1 } else { 6 };
    Seq::new(6, |i: int| if i < available { extra[1 + i] } else { 0u8 })
}

/// The command that an acknowledgement answers: its command word with the
/// acknowledgement bit (bit 8) cleared.
pub open spec fn ack_command_word(inframe: Seq<u8>) -> u16 {
    (le_u16(inframe[0], inframe[1]) as u16) & 0xFEFFu16
}

/// The status of an acknowledgement: zero is success.
pub open spec fn ack_status(inframe: Seq<u8>) -> AckStatus {
    if le_u16(inframe[2], inframe[3]) == 0 {
        AckStatus::Success
    } else {
        AckStatus::Failure
    }
}

/// `d` is what the data that follows the status says for command word `cw`.
pub open spec fn ack_data_describes(d: AckData, cw: u16, extra: Seq<u8>) -> bool {
    if cw == 0x00FF && extra.len() >= 4 {
        d == AckData::EnableConfig {
            protocol_version: le_u16(extra[0], extra[1]) as u16,
            buffer_size: le_u16(extra[2], extra[3]) as u16,
        }
    } else if cw == 0x0091 && extra.len() >= 2 {
        d == match TrackingMode::from_u16(le_u16(extra[0], extra[1]) as u16) {
            Some(mode) => AckData::TrackingMode(mode),
            None => AckData::Simple,
        }
    } else if cw == 0x00A0 && extra.len() >= 8 {
        d == AckData::FirmwareVersion {
            fw_type: le_u16(extra[0], extra[1]) as u16,
            major: le_u16(extra[2], extra[3]) as u16,
            minor: le_u32(extra[4], extra[5], extra[6], extra[7]) as u32,
        }
    } else if cw == 0x00A5 && extra.len() >= 4 {
        d matches AckData::MacAddress(mac) && mac@ == spec_mac(extra)
    } else if cw == 0x00C1 && extra.len() >= 26 {
        d matches AckData::ZoneFilter { filter_type, zones } && filter_type
            == ZoneFilterType::from_u16(le_u16(extra[0], extra[1]) as u16).unwrap_or(
            ZoneFilterType::Disabled,
        ) && zones@ == spec_zones(extra.subrange(2, 26))
    } else {
        d == AckData::Simple
    }
}

/// `f` is what the in-frame data of an acknowledgement says.
pub open spec fn ack_describes(f: AckFrame, inframe: Seq<u8>) -> bool {
    &&& f.command_word == ack_command_word(inframe)
    &&& f.status == ack_status(inframe)
    &&& ack_data_describes(f.data, f.command_word, inframe.skip(4))
}

/// `buf` holds a command header and a complete acknowledgement frame starts
/// at the first one.
pub open spec fn ack_found(buf: Seq<u8>) -> bool {
    ack_start(buf) matches Some(h) && ack_frame_complete(buf.skip(h))
}

/// Whether `needle` occurs at `i` in `haystack`.
fn window_matches(haystack: &[u8], needle: &[u8], i: usize) -> (r: bool)
    requires
        i + needle@.len() <= haystack@.len(),
    ensures
        r == occurs_at(haystack@, needle@, i as int),
{
    let mut k: usize = 0;
    while k < needle.len()
        invariant
            i + needle.len() <= haystack.len(),
            k <= needle@.len(),
            forall|t: int| 0 <= t < k ==> haystack@[i + t] == needle@[t],
        decreases needle@.len() - k,
    {
        if haystack[i + k] != needle[k] {
            assert(haystack@.subrange(i as int, i + needle@.len())[k as int] != needle@[k as int]);
            return false;
        }
        k = k + 1;
    }
    assert(haystack@.subrange(i as int, i + needle@.len()) =~= needle@);
    true
}

/// The first index at which `needle` occurs in `haystack`.
pub fn find_sequence(haystack: &[u8], needle: &[u8]) -> (r: Option<usize>)
    requires
        needle@.len() > 0,
    ensures
        r matches Some(i) ==> first_occurrence(haystack@, needle@, i as int),
        r is None ==> forall|i: int| !occurs_at(haystack@, needle@, i),
{
    if haystack.len() < needle.len() {
        return None;
    }
    let end = haystack.len() - needle.len() + 1;
    let mut i: usize = 0;
    while i < end
        invariant
            end - 1 + needle@.len() == haystack@.len(),
            i <= end,
            forall|j: int| 0 <= j < i ==> !occurs_at(haystack@, needle@, j),
        decreases end - i,
    {
        if window_matches(haystack, needle, i) {
            return Some(i);
        }
        i = i + 1;
    }
    None
}

/// The zones in 24 bytes of acknowledgement data.
fn parse_zones(data: &[u8]) -> (r: [ZoneRect; 3])
    requires
        data@.len() >= 24,
    ensures
        r@ == spec_zones(data@),
{
    let mut zones = [ZoneRect { x1: 0, y1: 0, x2: 0, y2: 0 }; 3];
    for i in 0..3
        invariant
            data@.len() >= 24,
            forall|j: int| 0 <= j < i ==> #[trigger] zones@[j] == spec_zone(data@.subrange(8 * j, 8 * j + 8)),
    {
        let off = i * 8;
        let zone = ZoneRect {
            x1: i16_from_le(data[off], data[off + 1]),
            y1: i16_from_le(data[off + 2], data[off + 3]),
            x2: i16_from_le(data[off + 4], data[off + 5]),
            y2: i16_from_le(data[off + 6], data[off + 7]),
        };
        assert(zone == spec_zone(data@.subrange(8 * i, 8 * i + 8)));
        zones[i] = zone;
    }
    assert(zones@ =~= spec_zones(data@));
    zones
}

/// ACK frame parser: scans a byte buffer for a complete ACK frame.
///
/// Only the first command header in the buffer is considered. Returns
/// `Some((ack_frame, bytes_consumed))` if a complete frame starts there.
pub fn parse_ack(buf: &[u8]) -> (r: Option<(AckFrame, usize)>)
    ensures
        r is Some <==> ack_found(buf@),
        r matches Some((f, n)) ==> (ack_start(buf@) matches Some(h) && n == h + 10 + ack_data_len(
            buf@.skip(h),
        ) && ack_describes(f, ack_inframe(buf@.skip(h)))),
{
    let header: [u8; 4] = [0xFD, 0xFC, 0xFB, 0xFA];
    assert(header@ =~= cmd_header());

    // Find header
    let header_pos = match find_sequence(buf, header.as_slice()) {
        Some(p) => p,
        None => {
            assert(ack_start(buf@) is None);
            return None;
        },
    };
    assert(ack_start(buf@) == Some(header_pos as int)) by {
        assert(first_occurrence(buf@, cmd_header(), header_pos as int));
        let c = choose|i: int| first_occurrence(buf@, cmd_header(), i);
        assert(c == header_pos) by {
            if c < header_pos {
            } else if c > header_pos {
            }
        }
    }
    let buf = &buf[header_pos..buf.len()];
    let ghost r = buf@;

    // Need at least header(4) + length(2) + cmd(2) + status(2) + footer(4) = 14
    if buf.len() < 14 {
        return None;
    }

    let data_len = u16_from_le(buf[4], buf[5]) as usize;
    let frame_len = 4 + 2 + data_len + 4;

    if buf.len() < frame_len {
        return None;
    }

    // Verify footer
    if !(buf[frame_len - 4] == 0x04 && buf[frame_len - 3] == 0x03 && buf[frame_len - 2] == 0x02
        && buf[frame_len - 1] == 0x01) {
        assert(!(r.subrange(6 + data_len, 10 + data_len) == cmd_footer()) ) by {
            if r.subrange(6 + data_len, 10 + data_len) == cmd_footer() {
                assert(r.subrange(6 + data_len, 10 + data_len)[0] == r[6 + data_len]);
                assert(r.subrange(6 + data_len, 10 + data_len)[1] == r[7 + data_len]);
                assert(r.subrange(6 + data_len, 10 + data_len)[2] == r[8 + data_len]);
                assert(r.subrange(6 + data_len, 10 + data_len)[3] == r[9 + data_len]);
            }
        }
        return None;
    }
    assert(r.subrange(6 + data_len, 10 + data_len) =~= cmd_footer());

    let inframe = &buf[6..6 + data_len];

    // ACK inframe: command_word(2) | status(2) | [extra data...]
    // The ACK command word has bit 0 of the high byte set (e.g. 0xFF01 for cmd 0x00FF)
    if inframe.len() < 4 {
        return None;
    }

    let ack_cmd_word = u16_from_le(inframe[0], inframe[1]);
    let status_val = u16_from_le(inframe[2], inframe[3]);
    let status = if status_val == 0 {
        AckStatus::Success
    } else {
        AckStatus::Failure
    };

    // The command answered: clear the ACK bit (bit 8)
    let command_word = ack_cmd_word & 0xFEFF;
    let extra = &inframe[4..inframe.len()];
    assert(extra@ =~= inframe@.skip(4));

    let data = if command_word == 0x00FF && extra.len() >= 4 {
        AckData::EnableConfig {
            protocol_version: u16_from_le(extra[0], extra[1]),
            buffer_size: u16_from_le(extra[2], extra[3]),
        }
    } else if command_word == 0x0091 && extra.len() >= 2 {
        let mode_val = u16_from_le(extra[0], extra[1]);
        match TrackingMode::from_u16(mode_val) {
            Some(mode) => AckData::TrackingMode(mode),
            None => AckData::Simple,
        }
    } else if command_word == 0x00A0 && extra.len() >= 8 {
        let lo = u16_from_le(extra[4], extra[5]) as u32;
        let hi = u16_from_le(extra[6], extra[7]) as u32;
        AckData::FirmwareVersion {
            fw_type: u16_from_le(extra[0], extra[1]),
            major: u16_from_le(extra[2], extra[3]),
            minor: lo + hi * 65536,
        }
    } else if command_word == 0x00A5 && extra.len() >= 4 {
        // 1 byte type, then the MAC: some firmware sends 3 bytes, most
        // devices send 6; take what is there, up to 6.
        let mut mac = [0u8; 6];
        let mac_start: usize = 1;  // skip type byte
        let available = if extra.len() - mac_start < 6 {
            extra.len() - mac_start
        } else {
            6
        };
        for i in 0..available
            invariant
                mac_start == 1,
                available <= 6,
                available <= extra@.len() - 1,
                forall|j: int| 0 <= j < i ==> #[trigger] mac@[j] == extra@[1 + j],
                forall|j: int| i <= j < 6 ==> #[trigger] mac@[j] == 0u8,
        {
            mac[i] = extra[mac_start + i];
        }
        assert(mac@ =~= spec_mac(extra@));
        AckData::MacAddress(mac)
    } else if command_word == 0x00C1 && extra.len() >= 26 {
        let ft = u16_from_le(extra[0], extra[1]);
        let filter_type = ZoneFilterType::from_u16(ft).unwrap_or(ZoneFilterType::Disabled);
        let zone_data = &extra[2..26];
        let zones = parse_zones(zone_data);
        assert(zone_data@ =~= extra@.subrange(2, 26));
        AckData::ZoneFilter { filter_type, zones }
    } else {
        AckData::Simple
    };

    Some((AckFrame { command_word, status, data }, header_pos + frame_len))
}

proof fn lemma_shifted_occurrence(g: Seq<u8>, a: Seq<u8>, i: int)
    requires
        0 <= i,
    ensures
        occurs_at(g + a, cmd_header(), i + g.len()) == occurs_at(a, cmd_header(), i),
{
    if i + 4 <= a.len() {
        assert((g + a).subrange(i + g.len(), i + g.len() + 4) =~= a.subrange(i, i + 4));
    }
}

/// Bytes in front of the first command header do not change what is
/// parsed: the same acknowledgement is found, and only the count of bytes
/// consumed grows by the number of bytes in front.
pub proof fn lemma_ack_ignores_leading_bytes(g: Seq<u8>, a: Seq<u8>)
    requires
        forall|i: int| 0 <= i < g.len() ==> !occurs_at(g + a, cmd_header(), i),
    ensures
        ack_found(g + a) == ack_found(a),
        ack_start(a) matches Some(h) ==> ack_start(g + a) == Some(h + g.len()) && (g + a).skip(
            h + g.len(),
        ) == a.skip(h),
        ack_start(a) is None ==> ack_start(g + a) is None,
{
    let b = g + a;
    if ack_start(a) is Some {
        let h = choose|i: int| first_occurrence(a, cmd_header(), i);
        lemma_shifted_occurrence(g, a, h);
        assert forall|j: int| 0 <= j < h + g.len() implies !occurs_at(b, cmd_header(), j) by {
            if j >= g.len() {
                lemma_shifted_occurrence(g, a, j - g.len());
            }
        }
        assert(first_occurrence(b, cmd_header(), h + g.len()));
        let c = choose|i: int| first_occurrence(b, cmd_header(), i);
        assert(c == h + g.len()) by {
            if c < h + g.len() {
            } else if c > h + g.len() {
            }
        }
        assert(b.skip(h + g.len()) =~= a.skip(h));
    } else {
        assert forall|i: int| !first_occurrence(b, cmd_header(), i) by {
            if first_occurrence(b, cmd_header(), i) {
                assert(i >= g.len());
                lemma_shifted_occurrence(g, a, i - g.len());
                assert forall|j: int| 0 <= j < i - g.len() implies !occurs_at(a, cmd_header(), j) by {
                    lemma_shifted_occurrence(g, a, j);
                }
                assert(first_occurrence(a, cmd_header(), i - g.len()));
            }
        }
    }
}

/// The radar answers a command word below 0x100 with that word plus the
/// acknowledgement bit (0x0100); clearing the bit gives the command back.
pub proof fn lemma_ack_names_command(inframe: Seq<u8>, cw: u16)
    requires
        inframe.len() >= 2,
        cw < 0x100,
        le_u16(inframe[0], inframe[1]) == cw + 0x100,
    ensures
        ack_command_word(inframe) == cw,
{
    let w = (cw + 0x100) as u16;
    assert(w & 0xFEFFu16 == cw) by (bit_vector)
        requires
            cw < 0x100,
            w == cw + 0x100,
    ;
}

/// The answer to a tracking-mode query names the mode by the little-endian
/// word after the status: 1 is single-target, 2 is multi-target, and any
/// other value leaves the mode unknown.
pub proof fn lemma_tracking_mode_ack(d: AckData, extra: Seq<u8>)
    requires
        extra.len() >= 2,
        ack_data_describes(d, 0x0091, extra),
    ensures
        extra[0] == 1 && extra[1] == 0 ==> d == AckData::TrackingMode(TrackingMode::Single),
        extra[0] == 2 && extra[1] == 0 ==> d == AckData::TrackingMode(TrackingMode::Multi),
        !((extra[0] == 1 || extra[0] == 2) && extra[1] == 0) ==> d == AckData::Simple,
{
}

/// The answer to enabling configuration carries the protocol version and
/// the buffer size, as little-endian words.
pub proof fn lemma_enable_config_ack(d: AckData, extra: Seq<u8>)
    requires
        extra.len() >= 4,
        ack_data_describes(d, 0x00FF, extra),
    ensures
        d matches AckData::EnableConfig { protocol_version, buffer_size } && protocol_version == extra[0]
            + 256 * extra[1] && buffer_size == extra[2] + 256 * extra[3],
{
}

/// The answer to a firmware query carries the firmware type and major
/// version as little-endian words and the minor version as a little-endian
/// 32-bit value.
pub proof fn lemma_firmware_ack(d: AckData, extra: Seq<u8>)
    requires
        extra.len() >= 8,
        ack_data_describes(d, 0x00A0, extra),
    ensures
        d matches AckData::FirmwareVersion { fw_type, major, minor } && fw_type == extra[0] + 256
            * extra[1] && major == extra[2] + 256 * extra[3] && minor == extra[4] + 256 * extra[5]
            + 65536 * extra[6] + 16777216 * extra[7],
{
}

/// The answer to a MAC query carries a type byte and then the address:
/// address byte `i` is the byte at `1 + i` after the status when the answer
/// holds it, and zero when it is shorter.
pub proof fn lemma_mac_ack(d: AckData, extra: Seq<u8>)
    requires
        extra.len() >= 4,
        ack_data_describes(d, 0x00A5, extra),
    ensures
        d matches AckData::MacAddress(mac) && (forall|i: int|
            0 <= i < 6 ==> #[trigger] mac@[i] == if 1 + i < extra.len() {
                extra[1 + i]
            } else {
                0u8
            }),
{
}

/// The answer to a zone-filter query carries the filter type (0 disabled,
/// 1 detect only, 2 exclude, anything else read as disabled) and then the
/// three zones, zone `k` as four little-endian two's-complement words at
/// bytes `2 + 8k .. 10 + 8k` after the status.
pub proof fn lemma_zone_filter_ack(d: AckData, extra: Seq<u8>, k: int)
    requires
        extra.len() >= 26,
        ack_data_describes(d, 0x00C1, extra),
        0 <= k < 3,
    ensures
        d matches AckData::ZoneFilter { filter_type, zones } && filter_type == (if extra[1] == 0
            && extra[0] == 1 {
            ZoneFilterType::DetectOnly
        } else if extra[1] == 0 && extra[0] == 2 {
            ZoneFilterType::Exclude
        } else {
            ZoneFilterType::Disabled
        }) && zones@[k].x1 == extra[2 + 8 * k] + 256 * extra[3 + 8 * k] - (if extra[3 + 8 * k]
            >= 0x80 {
            0x10000int
        } else {
            0
        }) && zones@[k].y1 == extra[4 + 8 * k] + 256 * extra[5 + 8 * k] - (if extra[5 + 8 * k]
            >= 0x80 {
            0x10000int
        } else {
            0
        }) && zones@[k].x2 == extra[6 + 8 * k] + 256 * extra[7 + 8 * k] - (if extra[7 + 8 * k]
            >= 0x80 {
            0x10000int
        } else {
            0
        }) && zones@[k].y2 == extra[8 + 8 * k] + 256 * extra[9 + 8 * k] - (if extra[9 + 8 * k]
            >= 0x80 {
            0x10000int
        } else {
            0
        }),
{
    let data = extra.subrange(2, 26);
    let b = data.subrange(8 * k, 8 * k + 8);
    assert(b[0] == extra[2 + 8 * k] && b[1] == extra[3 + 8 * k] && b[2] == extra[4 + 8 * k]
        && b[3] == extra[5 + 8 * k]);
    assert(b[4] == extra[6 + 8 * k] && b[5] == extra[7 + 8 * k] && b[6] == extra[8 + 8 * k]
        && b[7] == extra[9 + 8 * k]);
}

/// Answers to commands that carry no data, and answers too short for their
/// data, are plain acknowledgements.
pub proof fn lemma_plain_ack(d: AckData, cw: u16, extra: Seq<u8>)
    requires
        ack_data_describes(d, cw, extra),
        !(cw == 0x00FF && extra.len() >= 4),
        !(cw == 0x0091 && extra.len() >= 2),
        !(cw == 0x00A0 && extra.len() >= 8),
        !(cw == 0x00A5 && extra.len() >= 4),
        !(cw == 0x00C1 && extra.len() >= 26),
    ensures
        d == AckData::Simple,
{
}

/// The status of an acknowledgement is success exactly when its status
/// word is zero.
pub proof fn lemma_ack_status(inframe: Seq<u8>)
    requires
        inframe.len() >= 4,
    ensures
        (ack_status(inframe) == AckStatus::Success) == (inframe[2] == 0 && inframe[3] == 0),
{
}

/// The bytes of an acknowledgement frame that answers command word `cw`
/// with status word `status` and data `extra`.
pub open spec fn ack_frame_bytes(cw: u16, status: u16, extra: Seq<u8>) -> Seq<u8> {
    cmd_header() + le_bytes(4 + extra.len() as int) + le_bytes(cw + 0x100) + le_bytes(status as int) + extra
        + cmd_footer()
}

proof fn lemma_le_bytes(v: int)
    requires
        0 <= v < 0x1_0000,
    ensures
        le_bytes(v).len() == 2,
        le_bytes(v)[0] + 256 * le_bytes(v)[1] == v,
        le_u16(le_bytes(v)[0], le_bytes(v)[1]) == v,
{
}

proof fn lemma_ack_start_at_front(r: Seq<u8>)
    requires
        r.len() >= 4,
        r.subrange(0, 4) == cmd_header(),
    ensures
        ack_start(r) == Some(0int),
{
    assert(first_occurrence(r, cmd_header(), 0));
    let c = choose|i: int| first_occurrence(r, cmd_header(), i);
    assert(c == 0) by {
        if c > 0 {
        }
    }
}

proof fn lemma_ack_frame_layout(cw: u16, status: u16, extra: Seq<u8>)
    requires
        cw < 0x100,
        extra.len() + 4 < 0x1_0000,
    ensures
        ({
            let r = ack_frame_bytes(cw, status, extra);
            let e = extra.len() as int;
            &&& r.len() == 14 + e
            &&& r.subrange(0, 4) == cmd_header()
            &&& ack_data_len(r) == 4 + e
            &&& r.subrange(10 + e, 14 + e) == cmd_footer()
            &&& ack_inframe(r) == le_bytes(cw + 0x100) + le_bytes(status as int) + extra
        }),
{
    let e = extra.len() as int;
    let a = cmd_header() + le_bytes(4 + e);
    let inf = le_bytes(cw + 0x100) + le_bytes(status as int) + extra;
    let r = ack_frame_bytes(cw, status, extra);
    lemma_le_bytes(4 + e);
    assert(r =~= a + inf + cmd_footer());
    assert(r.subrange(0, 4) =~= cmd_header());
    assert(r[4] == a[4] && r[5] == a[5]);
    assert(r.subrange(10 + e, 14 + e) =~= cmd_footer());
    assert(r.subrange(6, 10 + e) =~= inf);
}

/// An acknowledgement frame for a command word below 0x100 is found at the
/// start of its bytes and read back: the whole frame is consumed, the
/// command word and status are those sent, and the data is read from the
/// bytes after the status.
pub proof fn lemma_ack_frame_parsed(cw: u16, status: u16, extra: Seq<u8>, f: AckFrame)
    requires
        cw < 0x100,
        extra.len() + 4 < 0x1_0000,
    ensures
        ack_found(ack_frame_bytes(cw, status, extra)),
        ack_start(ack_frame_bytes(cw, status, extra)) == Some(0int),
        10 + ack_data_len(ack_frame_bytes(cw, status, extra)) == ack_frame_bytes(cw, status, extra).len(),
        ack_describes(f, ack_inframe(ack_frame_bytes(cw, status, extra))) ==> {
            &&& f.command_word == cw
            &&& (f.status == AckStatus::Success) == (status == 0)
            &&& ack_data_describes(f.data, cw, extra)
        },
{
    let r = ack_frame_bytes(cw, status, extra);
    lemma_ack_frame_layout(cw, status, extra);
    lemma_ack_start_at_front(r);
    assert(r.skip(0) =~= r);
    let inframe = ack_inframe(r);
    lemma_le_bytes(cw + 0x100);
    lemma_le_bytes(status as int);
    assert(inframe.skip(4) =~= extra);
    assert(inframe[0] == le_bytes(cw + 0x100)[0] && inframe[1] == le_bytes(cw + 0x100)[1]);
    assert(inframe[2] == le_bytes(status as int)[0] && inframe[3] == le_bytes(status as int)[1]);
    lemma_ack_names_command(inframe, cw);
}

/// The two bytes of a signed 16-bit value are its two's-complement word,
/// low byte first, and reading them back gives the value.
pub proof fn lemma_le_i16_bytes(v: i16)
    ensures
        le_i16_bytes(v).len() == 2,
        le_i16_bytes(v)[0] + 256 * le_i16_bytes(v)[1] == (if v < 0 {
            v + 0x1_0000
        } else {
            v as int
        }),
        le_i16(le_i16_bytes(v)[0], le_i16_bytes(v)[1]) == v,
{
}

proof fn lemma_three_zones_bytes(zones: [ZoneRect; 3])
    ensures
        zones_bytes(zones@) == zone_bytes(zones@[0]) + zone_bytes(zones@[1]) + zone_bytes(zones@[2]),
        zones_bytes(zones@).len() == 24,
{
    let zs = zones@;
    reveal_with_fuel(zones_bytes, 4);
    assert(zs.drop_last().drop_last().drop_last() =~= Seq::<ZoneRect>::empty());
    assert(zs.drop_last().drop_last().last() == zs[0]);
    assert(zs.drop_last().last() == zs[1]);
    assert(Seq::<u8>::empty() + zone_bytes(zs[0]) =~= zone_bytes(zs[0]));
    lemma_le_i16_bytes(zs[0].x1);
    lemma_le_i16_bytes(zs[0].y1);
    lemma_le_i16_bytes(zs[0].x2);
    lemma_le_i16_bytes(zs[0].y2);
    lemma_le_i16_bytes(zs[1].x1);
    lemma_le_i16_bytes(zs[1].y1);
    lemma_le_i16_bytes(zs[1].x2);
    lemma_le_i16_bytes(zs[1].y2);
    lemma_le_i16_bytes(zs[2].x1);
    lemma_le_i16_bytes(zs[2].y1);
    lemma_le_i16_bytes(zs[2].x2);
    lemma_le_i16_bytes(zs[2].y2);
}

/// A zone-filter command is 38 bytes long: after the command word comes
/// the filter type, and then zone `k` at bytes `10 + 8k .. 18 + 8k` as its
/// x1, y1, x2, y2 in little-endian two's complement. Reading those 24 bytes
/// the way a zone-filter answer is read gives the three zones back.
pub proof fn lemma_zone_filter_command(filter_type: ZoneFilterType, zones: [ZoneRect; 3], k: int)
    requires
        0 <= k < 3,
    ensures
        ({
            let b = command_bytes(Command::SetZoneFilter { filter_type, zones });
            let z = zones@[k];
            &&& b.len() == 38
            &&& b[6] == 0xC2 && b[7] == 0
            &&& b[8] + 256 * b[9] == filter_type.to_u16()
            &&& b[10 + 8 * k] + 256 * b[11 + 8 * k] == (if z.x1 < 0 {
                z.x1 + 0x1_0000
            } else {
                z.x1 as int
            })
            &&& b[12 + 8 * k] + 256 * b[13 + 8 * k] == (if z.y1 < 0 {
                z.y1 + 0x1_0000
            } else {
                z.y1 as int
            })
            &&& b[14 + 8 * k] + 256 * b[15 + 8 * k] == (if z.x2 < 0 {
                z.x2 + 0x1_0000
            } else {
                z.x2 as int
            })
            &&& b[16 + 8 * k] + 256 * b[17 + 8 * k] == (if z.y2 < 0 {
                z.y2 + 0x1_0000
            } else {
                z.y2 as int
            })
            &&& spec_zones(b.subrange(10, 34)) == zones@
        }),
{
    let cmd = Command::SetZoneFilter { filter_type, zones };
    let b = command_bytes(cmd);
    lemma_three_zones_bytes(zones);
    lemma_le_bytes(0xC2);
    lemma_le_bytes(filter_type.to_u16() as int);
    let zb = zones_bytes(zones@);
    assert(command_payload(cmd) == le_bytes(0xC2) + le_bytes(filter_type.to_u16() as int) + zb);
    lemma_le_bytes(28);
    assert(b.subrange(10, 34) =~= zb);
    assert forall|j: int| 0 <= j < 3 implies #[trigger] zb.subrange(8 * j, 8 * j + 8) == zone_bytes(zones@[j]) by {
        let z = zones@[j];
        lemma_le_i16_bytes(z.x1);
        lemma_le_i16_bytes(z.y1);
        lemma_le_i16_bytes(z.x2);
        lemma_le_i16_bytes(z.y2);
        if j == 0 {
            assert(zb.subrange(0, 8) =~= zone_bytes(zones@[0]));
        } else if j == 1 {
            assert(zb.subrange(8, 16) =~= zone_bytes(zones@[1]));
        } else {
            assert(zb.subrange(16, 24) =~= zone_bytes(zones@[2]));
        }
    }
    let z = zones@[k];
    let w = zone_bytes(z);
    lemma_le_i16_bytes(z.x1);
    lemma_le_i16_bytes(z.y1);
    lemma_le_i16_bytes(z.x2);
    lemma_le_i16_bytes(z.y2);
    assert(zb.subrange(8 * k, 8 * k + 8) == w);
    assert forall|t: int| 0 <= t < 8 implies b[10 + 8 * k + t] == #[trigger] w[t] by {
        assert(b[10 + 8 * k + t] == b.subrange(10, 34)[8 * k + t]);
        assert(zb[8 * k + t] == zb.subrange(8 * k, 8 * k + 8)[t]);
    }
    assert(w[0] == le_i16_bytes(z.x1)[0] && w[1] == le_i16_bytes(z.x1)[1]);
    assert(w[2] == le_i16_bytes(z.y1)[0] && w[3] == le_i16_bytes(z.y1)[1]);
    assert(w[4] == le_i16_bytes(z.x2)[0] && w[5] == le_i16_bytes(z.x2)[1]);
    assert(w[6] == le_i16_bytes(z.y2)[0] && w[7] == le_i16_bytes(z.y2)[1]);
    assert(b[0 + 10 + 8 * k] == w[0]);
    assert(b[1 + 10 + 8 * k] == w[1]);
    assert(b[2 + 10 + 8 * k] == w[2]);
    assert(b[3 + 10 + 8 * k] == w[3]);
    assert(b[4 + 10 + 8 * k] == w[4]);
    assert(b[5 + 10 + 8 * k] == w[5]);
    assert(b[6 + 10 + 8 * k] == w[6]);
    assert(b[7 + 10 + 8 * k] == w[7]);
    assert forall|j: int| 0 <= j < 3 implies #[trigger] spec_zones(b.subrange(10, 34))[j] == zones@[j] by {
        let zj = zones@[j];
        lemma_le_i16_bytes(zj.x1);
        lemma_le_i16_bytes(zj.y1);
        lemma_le_i16_bytes(zj.x2);
        lemma_le_i16_bytes(zj.y2);
        let wj = zb.subrange(8 * j, 8 * j + 8);
        assert(wj == zone_bytes(zj));
        assert(wj[0] == le_i16_bytes(zj.x1)[0] && wj[1] == le_i16_bytes(zj.x1)[1]);
        assert(wj[2] == le_i16_bytes(zj.y1)[0] && wj[3] == le_i16_bytes(zj.y1)[1]);
        assert(wj[4] == le_i16_bytes(zj.x2)[0] && wj[5] == le_i16_bytes(zj.x2)[1]);
        assert(wj[6] == le_i16_bytes(zj.y2)[0] && wj[7] == le_i16_bytes(zj.y2)[1]);
    }
    assert(spec_zones(b.subrange(10, 34)) =~= zones@);
}

/// The command word each command is sent with.
pub open spec fn command_word_of(cmd: Command) -> int {
    match cmd {
        Command::EnableConfig => 0x00FF,
        Command::EndConfig => 0x00FE,
        Command::SingleTargetTracking => 0x0080,
        Command::MultiTargetTracking => 0x0090,
        Command::QueryTrackingMode => 0x0091,
        Command::ReadFirmwareVersion => 0x00A0,
        Command::SetBaudRate(_) => 0x00A1,
        Command::RestoreFactory => 0x00A2,
        Command::Restart => 0x00A3,
        Command::SetBluetooth(_) => 0x00A4,
        Command::GetMacAddress => 0x00A5,
        Command::QueryZoneFilter => 0x00C1,
        Command::SetZoneFilter { .. } => 0x00C2,
    }
}

/// Every command frame starts with FD FC FB FA, then the number of bytes
/// between the length field and the footer (little-endian), then the
/// command word; it ends with 04 03 02 01. Commands with a value carry it
/// right after the command word: 1 to enable configuration and to ask for
/// the MAC, the index of the baud rate, 0x0100 or 0 for Bluetooth on or off.
pub proof fn lemma_command_frame_layout(cmd: Command)
    ensures
        ({
            let b = command_bytes(cmd);
            &&& b.len() >= 12
            &&& b.subrange(0, 4) == seq![0xFDu8, 0xFCu8, 0xFBu8, 0xFAu8]
            &&& b[4] + 256 * b[5] == b.len() - 10
            &&& b.subrange(b.len() - 4, b.len() as int) == seq![0x04u8, 0x03u8, 0x02u8, 0x01u8]
            &&& b[6] + 256 * b[7] == command_word_of(cmd)
            &&& (cmd is EnableConfig || cmd is GetMacAddress) ==> b.len() == 14 && b[8] == 1 && b[9]
                == 0
            &&& cmd matches Command::SetBaudRate(idx) ==> b.len() == 14 && b[8] + 256 * b[9]
                == idx.to_u16()
            &&& cmd matches Command::SetBluetooth(on) ==> b.len() == 14 && b[8] == 0 && b[9] == (if on {
                1u8
            } else {
                0u8
            })
            &&& cmd is SetZoneFilter ==> b.len() == 38
            &&& (cmd is EndConfig || cmd is SingleTargetTracking || cmd is MultiTargetTracking
                || cmd is QueryTrackingMode || cmd is ReadFirmwareVersion || cmd is RestoreFactory
                || cmd is Restart || cmd is QueryZoneFilter) ==> b.len() == 12
        }),
{
    let p = command_payload(cmd);
    let b = command_bytes(cmd);
    lemma_le_bytes(command_word_of(cmd));
    if let Command::SetZoneFilter { filter_type, zones } = cmd {
        lemma_three_zones_bytes(zones);
    }
    assert(p.len() <= 28);
    lemma_le_bytes(p.len() as int);
    assert(p.subrange(0, 2) =~= le_bytes(command_word_of(cmd)));
    assert(b =~= cmd_header() + le_bytes(p.len() as int) + p + cmd_footer());
    assert(b.subrange(0, 4) =~= seq![0xFDu8, 0xFCu8, 0xFBu8, 0xFAu8]);
    assert(b.subrange(b.len() - 4, b.len() as int) =~= seq![0x04u8, 0x03u8, 0x02u8, 0x01u8]);
    assert(b[6] == p[0] && b[7] == p[1]);
    assert(p[0] == p.subrange(0, 2)[0] && p[1] == p.subrange(0, 2)[1]);
    if p.len() >= 4 {
        assert(b[8] == p[2] && b[9] == p[3]);
    }
    match cmd {
        Command::SetBaudRate(idx) => {
            lemma_le_bytes(idx.to_u16() as int);
        },
        Command::SetBluetooth(on) => {
            lemma_le_bytes(if on { 0x0100 } else { 0 });
        },
        _ => {
            lemma_le_bytes(1);
        },
    }
}

/// The protocol's baud-rate indexes are 1 to 8 and follow the rates: a
/// faster rate has a larger index.
pub proof fn lemma_baud_index_order(a: BaudRateIndex, b: BaudRateIndex)
    ensures
        1 <= a.to_u16() <= 8,
        (a.to_rate() < b.to_rate()) == (a.to_u16() < b.to_u16()),
        (a.to_u16() == b.to_u16()) == (a == b),
{
}

/// What a found acknowledgement rests on: at its start stand FD FC FB FA and
/// a length of at least four, and the announced number of bytes later
/// stand 04 03 02 01.
pub proof fn lemma_ack_found_is_framed(buf: Seq<u8>)
    requires
        ack_found(buf),
    ensures
        ({
            let h = ack_start(buf).unwrap();
            let dl = buf[h + 4] + 256 * buf[h + 5];
            &&& 0 <= h && h + 10 + dl <= buf.len()
            &&& buf.subrange(h, h + 4) == seq![0xFDu8, 0xFCu8, 0xFBu8, 0xFAu8]
            &&& dl >= 4
            &&& buf.subrange(h + 6 + dl, h + 10 + dl) == seq![0x04u8, 0x03u8, 0x02u8, 0x01u8]
            &&& forall|j: int| 0 <= j < h ==> #[trigger] buf.subrange(j, j + 4) != seq![0xFDu8, 0xFCu8, 0xFBu8, 0xFAu8]
        }),
{
    let h = choose|i: int| first_occurrence(buf, cmd_header(), i);
    let r = buf.skip(h);
    let dl = ack_data_len(r);
    assert(r[4] == buf[h + 4] && r[5] == buf[h + 5]);
    assert(buf.subrange(h + 6 + dl, h + 10 + dl) =~= r.subrange(6 + dl, 10 + dl));
    assert forall|j: int| 0 <= j < h implies #[trigger] buf.subrange(j, j + 4) != seq![0xFDu8, 0xFCu8, 0xFBu8, 0xFAu8] by {
        assert(!occurs_at(buf, cmd_header(), j));
    }
}

} // verus!
