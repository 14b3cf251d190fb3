//! Plain data types reported by the radar and the decoding of their wire form.

use vstd::prelude::*;

verus! {

/// Little-endian value of two bytes, as an unsigned integer.
pub open spec fn le_u16(lo: u8, hi: u8) -> int {
    lo + 256 * hi
}

/// Little-endian value of two bytes, read as a two's complement integer.
pub open spec fn le_i16(lo: u8, hi: u8) -> int {
    if le_u16(lo, hi) >= 0x8000 {
        le_u16(lo, hi) - 0x1_0000
    } else {
        le_u16(lo, hi)
    }
}

/// The radar's sign-magnitude encoding: bit 15 set means the remaining
/// fifteen bits are a positive value, bit 15 clear means they are negated.
pub open spec fn spec_decode_coord(raw: int) -> int {
    if raw >= 0x8000 {
        raw - 0x8000
    } else {
        -raw
    }
}

/// Unsigned value of two little-endian bytes.
pub fn u16_from_le(lo: u8, hi: u8) -> (r: u16)
    ensures
        r == le_u16(lo, hi),
        r == lo + 256 * hi,
{
    lo as u16 + (hi as u16) * 256
}

/// Two's complement value of two little-endian bytes.
pub fn i16_from_le(lo: u8, hi: u8) -> (r: i16)
    ensures
        r == le_i16(lo, hi),
        r == lo + 256 * hi - (if hi >= 0x80 {
            0x1_0000int
        } else {
            0
        }),
{
    let u = u16_from_le(lo, hi);
    if u >= 0x8000 {
        (u as i32 - 0x1_0000) as i16
    } else {
        u as i16
    }
}

/// Decode the LD2450's signed format:
/// bit 15 = 1 means a positive value (bits 0-14),
/// bit 15 = 0 means a negative value (bits 0-14 negated).
pub fn decode_coord(raw: u16) -> (r: i16)
    ensures
        r == spec_decode_coord(raw as int),
        raw < 0x8000 ==> r == -(raw as int),
        raw >= 0x8000 ==> r == raw as int - 0x8000,
{
    proof {
        assert((raw & 0x7FFFu16) == raw % 0x8000 && ((raw & 0x8000u16) != 0) == (raw >= 0x8000))
            by (bit_vector);
    }
    let magnitude = (raw & 0x7FFF) as i16;
    if raw & 0x8000 != 0 {
        magnitude
    } else {
        -magnitude
    }
}

/// A single tracked target reported by the radar.
#[derive(Debug, Clone, Copy, PartialEq, Eq, Structural)]
pub struct Target {
    /// X coordinate in mm. Positive = right of sensor, negative = left.
    pub x: i16,
    /// Y coordinate in mm. Always positive (in front of sensor).
    pub y: i16,
    /// Speed in cm/s. Positive = approaching, negative = receding.
    pub speed: i16,
    /// Distance gate resolution in mm.
    pub distance_resolution: u16,
}

/// The target that eight bytes of in-frame data describe.
pub open spec fn spec_target(b: Seq<u8>) -> Target {
    Target {
        x: spec_decode_coord(le_u16(b[0], b[1])) as i16,
        y: spec_decode_coord(le_u16(b[2], b[3])) as i16,
        speed: spec_decode_coord(le_u16(b[4], b[5])) as i16,
        distance_resolution: le_u16(b[6], b[7]) as u16,
    }
}

impl Default for Target {
    fn default() -> (r: Self)
        ensures
            r.is_empty(),
    {
        Target { x: 0, y: 0, speed: 0, distance_resolution: 0 }
    }
}

impl Target {
    /// Returns true if this target slot is empty (all zeros).
    #[verifier::allow_in_spec]
    pub fn is_empty(&self) -> bool
        returns
            self.x == 0 && self.y == 0 && self.speed == 0 && self.distance_resolution == 0,
    {
        self.x == 0 && self.y == 0 && self.speed == 0 && self.distance_resolution == 0
    }

    /// Parse a target from 8 bytes of in-frame data.
    ///
    /// Byte layout (little-endian):
    /// [0..2] x coordinate (bit15: 1=positive, 0=negative)
    /// [2..4] y coordinate (bit15: 1=positive, 0=negative)
    /// [4..6] speed (bit15: 1=positive/approaching, 0=negative/receding)
    /// [6..8] distance resolution (unsigned)
    pub fn from_bytes(data: &[u8; 8]) -> (r: Self)
        ensures
            r == spec_target(data@),
    {
        Target {
            x: decode_coord(u16_from_le(data[0], data[1])),
            y: decode_coord(u16_from_le(data[2], data[3])),
            speed: decode_coord(u16_from_le(data[4], data[5])),
            distance_resolution: u16_from_le(data[6], data[7]),
        }
    }
}


/// The three targets that 24 bytes of frame payload describe.
pub open spec fn spec_frame(p: Seq<u8>) -> Seq<Target> {
    Seq::new(3, |i: int| spec_target(p.subrange(8 * i, 8 * i + 8)))
}

/// The predicate that picks the occupied target slots.
pub open spec fn is_active() -> spec_fn(Target) -> bool {
    |t: Target| !t.is_empty()
}

/// A complete radar data frame containing up to 3 targets.
#[derive(Debug, Clone, Copy, PartialEq, Eq)]
pub struct RadarFrame {
    pub targets: [Target; 3],
}

impl View for RadarFrame {
    type V = Seq<Target>;

    open spec fn view(&self) -> Seq<Target> {
        self.targets@
    }
}

impl Default for RadarFrame {
    fn default() -> (r: Self)
        ensures
            forall|i: int| 0 <= i < 3 ==> #[trigger] r@[i].is_empty(),
    {
        let t = Target { x: 0, y: 0, speed: 0, distance_resolution: 0 };
        RadarFrame { targets: [t, t, t] }
    }
}

/// The target whose eight bytes start at `off` in a frame payload.
fn target_at(data: &[u8; 24], off: usize) -> (r: Target)
    requires
        off + 8 <= 24,
    ensures
        r == spec_target(data@.subrange(off as int, off + 8)),
{
    let bytes: [u8; 8] = [
        data[off],
        data[off + 1],
        data[off + 2],
        data[off + 3],
        data[off + 4],
        data[off + 5],
        data[off + 6],
        data[off + 7],
    ];
    assert(bytes@ =~= data@.subrange(off as int, off + 8));
    Target::from_bytes(&bytes)
}

impl RadarFrame {
    /// Number of active (non-empty) targets.
    pub fn active_count(&self) -> (r: usize)
        ensures
            r == self@.filter(is_active()).len(),
    {
        let mut n: usize = 0;
        for i in 0..3
            invariant
                self@.len() == 3,
                n == self@.take(i as int).filter(is_active()).len(),
                n <= i,
        {
            proof {
                reveal(Seq::filter);
            }
            assert(self@.take(i + 1).drop_last() =~= self@.take(i as int));
            assert(self@.take(i + 1).last() == self.targets[i as int]);
            if !self.targets[i].is_empty() {
                n = n + 1;
            }
        }
        assert(self@.take(3) =~= self@);
        n
    }

    /// The active (non-empty) targets, in slot order.
    pub fn active_targets(&self) -> (r: Vec<Target>)
        ensures
            r@ == self@.filter(is_active()),
    {
        let mut out: Vec<Target> = Vec::new();
        for i in 0..3
            invariant
                self@.len() == 3,
                out@ == self@.take(i as int).filter(is_active()),
        {
            proof {
                reveal(Seq::filter);
            }
            assert(self@.take(i + 1).drop_last() =~= self@.take(i as int));
            assert(self@.take(i + 1).last() == self.targets[i as int]);
            assert(self@.take(i + 1).last() == self.targets[i as int]);
            if !self.targets[i].is_empty() {
                out.push(self.targets[i]);
            }
        }
        assert(self@.take(3) =~= self@);
        out
    }

    /// Parse from 24 bytes of payload (3 x 8 bytes per target).
    pub fn from_bytes(data: &[u8; 24]) -> (r: Self)
        ensures
            r@ == spec_frame(data@),
    {
        let r = RadarFrame {
            targets: [target_at(data, 0), target_at(data, 8), target_at(data, 16)],
        };
        assert(r@ =~= spec_frame(data@));
        r
    }
}

/// Tracking mode of the sensor.
#[derive(Debug, Clone, Copy, PartialEq, Eq, Structural)]
pub enum TrackingMode {
    Single,
    Multi,
}

impl TrackingMode {
    /// The mode for a protocol value (0x0001 single, 0x0002 multi).
    #[verifier::allow_in_spec]
    pub fn from_u16(val: u16) -> Option<Self>
        returns
            if val == 1 {
                Some(TrackingMode::Single)
            } else if val == 2 {
                Some(TrackingMode::Multi)
            } else {
                None
            },
    {
        match val {
            0x0001 => Some(TrackingMode::Single),
            0x0002 => Some(TrackingMode::Multi),
            _ => None,
        }
    }

    /// The protocol value of this mode.
    #[verifier::allow_in_spec]
    pub fn to_u16(self) -> u16
        returns
            match self {
                TrackingMode::Single => 1u16,
                TrackingMode::Multi => 2u16,
            },
    {
        match self {
            TrackingMode::Single => 0x0001,
            TrackingMode::Multi => 0x0002,
        }
    }
}

/// Zone filtering type.
#[derive(Debug, Clone, Copy, PartialEq, Eq, Structural)]
pub enum ZoneFilterType {
    Disabled,
    DetectOnly,
    Exclude,
}

impl ZoneFilterType {
    /// The filter type for a protocol value (0 disabled, 1 detect only, 2 exclude).
    #[verifier::allow_in_spec]
    pub fn from_u16(val: u16) -> Option<Self>
        returns
            if val == 0 {
                Some(ZoneFilterType::Disabled)
            } else if val == 1 {
                Some(ZoneFilterType::DetectOnly)
            } else if val == 2 {
                Some(ZoneFilterType::Exclude)
            } else {
                None
            },
    {
        match val {
            0x0000 => Some(ZoneFilterType::Disabled),
            0x0001 => Some(ZoneFilterType::DetectOnly),
            0x0002 => Some(ZoneFilterType::Exclude),
            _ => None,
        }
    }

    /// The protocol value of this filter type.
    #[verifier::allow_in_spec]
    pub fn to_u16(self) -> u16
        returns
            match self {
                ZoneFilterType::Disabled => 0u16,
                ZoneFilterType::DetectOnly => 1u16,
                ZoneFilterType::Exclude => 2u16,
            },
    {
        match self {
            ZoneFilterType::Disabled => 0x0000,
            ZoneFilterType::DetectOnly => 0x0001,
            ZoneFilterType::Exclude => 0x0002,
        }
    }
}

/// Reading back the protocol value of a tracking mode gives the same mode,
/// and only the values 1 (single) and 2 (multi) name a mode.
pub proof fn lemma_tracking_mode_roundtrip(m: TrackingMode, v: u16)
    ensures
        TrackingMode::from_u16(m.to_u16()) == Some(m),
        TrackingMode::from_u16(v) is Some <==> (v == 1 || v == 2),
        TrackingMode::from_u16(v) matches Some(n) ==> n.to_u16() == v,
{
}

/// Reading back the protocol value of a zone filter type gives the same
/// type, and only the values 0, 1 and 2 name a type.
pub proof fn lemma_zone_filter_type_roundtrip(f: ZoneFilterType, v: u16)
    ensures
        ZoneFilterType::from_u16(f.to_u16()) == Some(f),
        ZoneFilterType::from_u16(v) is Some <==> v <= 2,
        ZoneFilterType::from_u16(v) matches Some(g) ==> g.to_u16() == v,
{
}

/// The active targets of three slots are the slots, in order, that hold a
/// non-zero field; a slot whose four fields are all zero is left out.
pub proof fn lemma_active_targets(ts: Seq<Target>)
    requires
        ts.len() == 3,
    ensures
        ts.filter(is_active()).len() == (if ts[0].x != 0 || ts[0].y != 0 || ts[0].speed != 0
            || ts[0].distance_resolution != 0 {
            1int
        } else {
            0
        }) + (if ts[1].x != 0 || ts[1].y != 0 || ts[1].speed != 0 || ts[1].distance_resolution != 0 {
            1int
        } else {
            0
        }) + (if ts[2].x != 0 || ts[2].y != 0 || ts[2].speed != 0 || ts[2].distance_resolution != 0 {
            1int
        } else {
            0
        }),
        forall|i: int|
            0 <= i < ts.filter(is_active()).len() ==> {
                let t = #[trigger] ts.filter(is_active())[i];
                &&& ts.contains(t)
                &&& (t.x != 0 || t.y != 0 || t.speed != 0 || t.distance_resolution != 0)
            },
{
    reveal_with_fuel(Seq::filter, 4);
    assert(ts.drop_last().drop_last().drop_last() =~= Seq::<Target>::empty());
    let f = ts.filter(is_active());
    assert forall|i: int| 0 <= i < f.len() implies ts.contains(#[trigger] f[i]) && (f[i].x != 0
        || f[i].y != 0 || f[i].speed != 0 || f[i].distance_resolution != 0) by {
        broadcast use vstd::seq_lib::group_filter_ensures;

    }
}

/// Sign-magnitude over the whole range: the low fifteen bits are the
/// magnitude, bit 15 clear makes the value negative and bit 15 set keeps it
/// positive.
pub proof fn lemma_decode_coord_sign_magnitude(raw: u16)
    ensures
        raw < 0x8000 ==> spec_decode_coord(raw as int) == -(raw as int),
        raw >= 0x8000 ==> spec_decode_coord(raw as int) == raw as int - 0x8000,
        spec_decode_coord(raw as int) == 0 || (spec_decode_coord(raw as int) > 0) == (raw >= 0x8000),
        -0x7FFF <= spec_decode_coord(raw as int) <= 0x7FFF,
{
}

/// The fields of a target read off its eight bytes: each coordinate is the
/// little-endian 16-bit word whose bit 15 (bit 7 of the high byte) gives the
/// sign, positive when set; the resolution is the plain little-endian word.
pub proof fn lemma_target_decoding(b: Seq<u8>)
    requires
        b.len() == 8,
    ensures
        spec_target(b).x == (if b[1] >= 0x80 {
            b[0] + 256 * (b[1] - 0x80)
        } else {
            -(b[0] + 256 * b[1])
        }),
        spec_target(b).y == (if b[3] >= 0x80 {
            b[2] + 256 * (b[3] - 0x80)
        } else {
            -(b[2] + 256 * b[3])
        }),
        spec_target(b).speed == (if b[5] >= 0x80 {
            b[4] + 256 * (b[5] - 0x80)
        } else {
            -(b[4] + 256 * b[5])
        }),
        spec_target(b).distance_resolution == b[6] + 256 * b[7],
{
}

/// Target `k` of a frame is read from payload bytes `8k..8k+8`, with the
/// sign-magnitude coordinates of `lemma_target_decoding`.
pub proof fn lemma_frame_decoding(p: Seq<u8>, k: int)
    requires
        p.len() == 24,
        0 <= k < 3,
    ensures
        spec_frame(p).len() == 3,
        spec_frame(p)[k].x == (if p[8 * k + 1] >= 0x80 {
            p[8 * k] + 256 * (p[8 * k + 1] - 0x80)
        } else {
            -(p[8 * k] + 256 * p[8 * k + 1])
        }),
        spec_frame(p)[k].y == (if p[8 * k + 3] >= 0x80 {
            p[8 * k + 2] + 256 * (p[8 * k + 3] - 0x80)
        } else {
            -(p[8 * k + 2] + 256 * p[8 * k + 3])
        }),
        spec_frame(p)[k].speed == (if p[8 * k + 5] >= 0x80 {
            p[8 * k + 4] + 256 * (p[8 * k + 5] - 0x80)
        } else {
            -(p[8 * k + 4] + 256 * p[8 * k + 5])
        }),
        spec_frame(p)[k].distance_resolution == p[8 * k + 6] + 256 * p[8 * k + 7],
{
    let b = p.subrange(8 * k, 8 * k + 8);
    lemma_target_decoding(b);
    assert(b[0] == p[8 * k] && b[1] == p[8 * k + 1] && b[2] == p[8 * k + 2] && b[3] == p[8 * k + 3]);
    assert(b[4] == p[8 * k + 4] && b[5] == p[8 * k + 5] && b[6] == p[8 * k + 6] && b[7] == p[8 * k + 7]);
}

} // verus!
