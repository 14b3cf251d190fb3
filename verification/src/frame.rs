//! Streaming parser for the radar's data frames.

use vstd::prelude::*;

use crate::command::occurs_at;
use crate::types::{spec_frame, RadarFrame, Target};

verus! {

/// Data frame header: AA FF 03 00.
pub open spec fn data_header() -> Seq<u8> {
    seq![0xAAu8, 0xFFu8, 0x03u8, 0x00u8]
}

/// Data frame footer: 55 CC.
pub open spec fn data_footer() -> Seq<u8> {
    seq![0x55u8, 0xCCu8]
}

/// Number of payload bytes in a data frame: 3 targets of 8 bytes each.
pub open spec fn payload_len() -> nat {
    24
}

/// The wire form of a data frame that carries `payload`.
pub open spec fn encode_frame(payload: Seq<u8>) -> Seq<u8> {
    data_header() + payload + data_footer()
}

/// The wire form of several data frames sent back to back.
pub open spec fn encode_frames(payloads: Seq<Seq<u8>>) -> Seq<u8>
    decreases payloads.len(),
{
    if payloads.len() == 0 {
        Seq::empty()
    } else {
        encode_frames(payloads.drop_last()) + encode_frame(payloads.last())
    }
}

/// Events emitted by the frame parser.
#[derive(Debug, Clone, PartialEq, Eq)]
pub enum ParseEvent {
    /// A complete, valid radar data frame was parsed.
    Frame(RadarFrame),
}

impl ParseEvent {
    /// The targets that the event reports.
    pub open spec fn targets(self) -> Seq<Target> {
        match self {
            ParseEvent::Frame(f) => f@,
        }
    }
}

/// Where the parser stands in the byte stream.
#[derive(Debug, Clone, Copy, PartialEq, Eq, Structural)]
pub enum ParserState {
    /// Scanning for the header sequence; `matched` header bytes were seen.
    SearchHeader { matched: u8 },
    /// Reading payload bytes; `pos` of them were read.
    ReadPayload { pos: u8 },
    /// Reading footer bytes; `matched` footer bytes were seen.
    ReadFooter { matched: u8 },
}

impl ParserState {
    /// The counters stay inside the header, payload and footer they count.
    pub open spec fn is_valid(self) -> bool {
        match self {
            ParserState::SearchHeader { matched } => matched < 4,
            ParserState::ReadPayload { pos } => pos < 24,
            ParserState::ReadFooter { matched } => matched < 2,
        }
    }
}

/// The state the parser starts in, and returns to after each frame.
pub open spec fn initial_state() -> ParserState {
    ParserState::SearchHeader { matched: 0 }
}

/// A parser model is a state together with the 24-byte payload buffer.
pub open spec fn valid_model(st: ParserState, buf: Seq<u8>) -> bool {
    st.is_valid() && buf.len() == payload_len()
}

/// One transition of the parser on one input byte: the next state, the
/// next payload buffer, and the payload of the frame completed by this
/// byte, if it completes one.
pub open spec fn step(st: ParserState, buf: Seq<u8>, byte: u8) -> (ParserState, Seq<u8>, Option<Seq<u8>>) {
    match st {
        ParserState::SearchHeader { matched } => {
            if byte == data_header()[matched as int] {
                if matched + 1 == 4 {
                    (ParserState::ReadPayload { pos: 0 }, buf, None)
                } else {
                    (ParserState::SearchHeader { matched: (matched + 1) as u8 }, buf, None)
                }
            } else if byte == data_header()[0] {
                (ParserState::SearchHeader { matched: 1 }, buf, None)
            } else {
                (ParserState::SearchHeader { matched: 0 }, buf, None)
            }
        },
        ParserState::ReadPayload { pos } => {
            let nbuf = buf.update(pos as int, byte);
            if pos + 1 == payload_len() {
                (ParserState::ReadFooter { matched: 0 }, nbuf, None)
            } else {
                (ParserState::ReadPayload { pos: (pos + 1) as u8 }, nbuf, None)
            }
        },
        ParserState::ReadFooter { matched } => {
            if byte == data_footer()[matched as int] {
                if matched + 1 == 2 {
                    (initial_state(), buf, Some(buf))
                } else {
                    (ParserState::ReadFooter { matched: (matched + 1) as u8 }, buf, None)
                }
            } else {
                (initial_state(), buf, None)
            }
        },
    }
}

/// The parser run over a byte sequence: the final state and buffer, and the
/// payloads of the frames completed along the way, in order.
pub open spec fn run(st: ParserState, buf: Seq<u8>, data: Seq<u8>) -> (ParserState, Seq<u8>, Seq<Seq<u8>>)
    decreases data.len(),
{
    if data.len() == 0 {
        (st, buf, Seq::empty())
    } else {
        let prev = run(st, buf, data.drop_last());
        let next = step(prev.0, prev.1, data.last());
        (
            next.0,
            next.1,
            match next.2 {
                Some(p) => prev.2.push(p),
                None => prev.2,
            },
        )
    }
}

/// Streaming frame parser for LD2450 radar data output.
///
/// Feed bytes one at a time or in chunks. The parser emits `ParseEvent::Frame`
/// for each valid frame found in the byte stream.
///
/// This is a zero-allocation state machine suitable for `no_std` environments.
#[derive(Debug)]
pub struct FrameParser {
    state: ParserState,
    buf: [u8; 24],
}

impl View for FrameParser {
    type V = (ParserState, Seq<u8>);

    closed spec fn view(&self) -> (ParserState, Seq<u8>) {
        (self.state, self.buf@)
    }
}

impl FrameParser {
    /// The parser's counters are in range and its buffer holds a payload.
    pub open spec fn wf(&self) -> bool {
        valid_model(self@.0, self@.1)
    }

    pub fn new() -> (r: Self)
        ensures
            r.wf(),
            r@.0 == initial_state(),
            r@.1 == Seq::new(24, |i: int| 0u8),
    {
        let r = FrameParser { state: ParserState::SearchHeader { matched: 0 }, buf: [0u8; 24] };
        assert(r@.1 =~= Seq::new(24, |i: int| 0u8));
        r
    }

    /// Feed a single byte to the parser. Returns `Some(ParseEvent)` if a
    /// complete frame was parsed.
    pub fn feed(&mut self, byte: u8) -> (r: Option<ParseEvent>)
        requires
            old(self).wf(),
        ensures
            final(self).wf(),
            final(self)@ == ({
                let s = step(old(self)@.0, old(self)@.1, byte);
                (s.0, s.1)
            }),
            step(old(self)@.0, old(self)@.1, byte).2 is None ==> r is None,
            step(old(self)@.0, old(self)@.1, byte).2 matches Some(p) ==> (r matches Some(ev)
                && ev.targets() == spec_frame(p)),
    {
        let header: [u8; 4] = [0xAA, 0xFF, 0x03, 0x00];
        let footer: [u8; 2] = [0x55, 0xCC];
        assert(header@ =~= data_header());
        assert(footer@ =~= data_footer());
        match self.state {
            ParserState::SearchHeader { matched } => {
                if byte == header[matched as usize] {
                    let next = matched + 1;
                    if next == 4 {
                        self.state = ParserState::ReadPayload { pos: 0 };
                    } else {
                        self.state = ParserState::SearchHeader { matched: next };
                    }
                } else if byte == header[0] {
                    // Could be start of a new header
                    self.state = ParserState::SearchHeader { matched: 1 };
                } else {
                    self.state = ParserState::SearchHeader { matched: 0 };
                }
                None
            },
            ParserState::ReadPayload { pos } => {
                self.buf[pos as usize] = byte;
                let next = pos + 1;
                if next == 24 {
                    self.state = ParserState::ReadFooter { matched: 0 };
                } else {
                    self.state = ParserState::ReadPayload { pos: next };
                }
                None
            },
            ParserState::ReadFooter { matched } => {
                if byte == footer[matched as usize] {
                    let next = matched + 1;
                    if next == 2 {
                        // Complete frame!
                        self.state = ParserState::SearchHeader { matched: 0 };
                        let frame = RadarFrame::from_bytes(&self.buf);
                        return Some(ParseEvent::Frame(frame));
                    } else {
                        self.state = ParserState::ReadFooter { matched: next };
                    }
                } else {
                    // Invalid footer: discard and resync
                    self.state = ParserState::SearchHeader { matched: 0 };
                }
                None
            },
        }
    }

    /// Feed a slice of bytes, collecting all parsed events.
    /// For performance-critical paths, prefer calling `feed()` in a loop
    /// and handling events inline.
    pub fn feed_slice(&mut self, data: &[u8]) -> (r: Vec<ParseEvent>)
        requires
            old(self).wf(),
        ensures
            final(self).wf(),
            final(self)@ == ({
                let s = run(old(self)@.0, old(self)@.1, data@);
                (s.0, s.1)
            }),
            r@.len() == run(old(self)@.0, old(self)@.1, data@).2.len(),
            forall|i: int|
                0 <= i < r@.len() ==> #[trigger] r@[i].targets() == spec_frame(
                    run(old(self)@.0, old(self)@.1, data@).2[i],
                ),
    {
        let ghost s0 = self@;
        let mut events: Vec<ParseEvent> = Vec::new();
        for i in 0..data.len()
            invariant
                self.wf(),
                self@ == ({
                    let s = run(s0.0, s0.1, data@.take(i as int));
                    (s.0, s.1)
                }),
                events@.len() == run(s0.0, s0.1, data@.take(i as int)).2.len(),
                forall|j: int|
                    0 <= j < events@.len() ==> #[trigger] events@[j].targets() == spec_frame(
                        run(s0.0, s0.1, data@.take(i as int)).2[j],
                    ),
        {
            assert(data@.take(i + 1).drop_last() =~= data@.take(i as int));
            assert(data@.take(i + 1).last() == data@[i as int]);
            if let Some(ev) = self.feed(data[i]) {
                events.push(ev);
            }
        }
        assert(data@.take(data@.len() as int) =~= data@);
        events
    }
}

impl Default for FrameParser {
    fn default() -> (r: Self)
        ensures
            r.wf(),
            r@.0 == initial_state(),
            r@.1 == Seq::new(24, |i: int| 0u8),
    {
        Self::new()
    }
}

/// Running the parser over `a` and then over `b` is running it over `a + b`:
/// the frames of the whole are the frames of `a` followed by those of `b`.
pub proof fn lemma_run_concat(st: ParserState, buf: Seq<u8>, a: Seq<u8>, b: Seq<u8>)
    ensures
        run(st, buf, a + b) == ({
            let r1 = run(st, buf, a);
            let r2 = run(r1.0, r1.1, b);
            (r2.0, r2.1, r1.2 + r2.2)
        }),
    decreases b.len(),
{
    let r1 = run(st, buf, a);
    if b.len() == 0 {
        assert(a + b =~= a);
        assert(r1.2 + Seq::<Seq<u8>>::empty() =~= r1.2);
    } else {
        lemma_run_concat(st, buf, a, b.drop_last());
        assert((a + b).drop_last() =~= a + b.drop_last());
        assert((a + b).last() == b.last());
        let r2 = run(r1.0, r1.1, b.drop_last());
        let n = step(r2.0, r2.1, b.last());
        if let Some(p) = n.2 {
            assert((r1.2 + r2.2).push(p) =~= r1.2 + r2.2.push(p));
        }
    }
}

/// Running the parser over a single byte is one step.
proof fn lemma_run_single(st: ParserState, buf: Seq<u8>, x: u8)
    ensures
        run(st, buf, seq![x]) == ({
            let s = step(st, buf, x);
            (
                s.0,
                s.1,
                match s.2 {
                    Some(p) => seq![p],
                    None => Seq::<Seq<u8>>::empty(),
                },
            )
        }),
{
    reveal_with_fuel(run, 2);
    assert(seq![x].drop_last() =~= Seq::<u8>::empty());
    assert(seq![x].last() == x);
    let s = step(st, buf, x);
    if let Some(p) = s.2 {
        assert(Seq::<Seq<u8>>::empty().push(p) =~= seq![p]);
    }
}

/// Each step keeps the counters in range and the buffer a full payload.
pub proof fn lemma_step_valid(st: ParserState, buf: Seq<u8>, x: u8)
    requires
        valid_model(st, buf),
    ensures
        valid_model(step(st, buf, x).0, step(st, buf, x).1),
        step(st, buf, x).2 matches Some(p) ==> p.len() == payload_len(),
{
}

/// A run keeps the counters in range and the buffer a full payload, and
/// every payload it reports is 24 bytes long.
pub proof fn lemma_run_valid(st: ParserState, buf: Seq<u8>, data: Seq<u8>)
    requires
        valid_model(st, buf),
    ensures
        valid_model(run(st, buf, data).0, run(st, buf, data).1),
        forall|i: int|
            0 <= i < run(st, buf, data).2.len() ==> #[trigger] run(st, buf, data).2[i].len()
                == payload_len(),
    decreases data.len(),
{
    if data.len() > 0 {
        lemma_run_valid(st, buf, data.drop_last());
        let r = run(st, buf, data.drop_last());
        lemma_step_valid(r.0, r.1, data.last());
    }
}

/// From any point of the header search, the four header bytes lead to the
/// payload.
proof fn lemma_run_header(m: u8, buf: Seq<u8>)
    requires
        m < 4,
    ensures
        run(ParserState::SearchHeader { matched: m }, buf, data_header()) == (
            ParserState::ReadPayload { pos: 0 },
            buf,
            Seq::<Seq<u8>>::empty(),
        ),
{
    let h = data_header();
    assert(h =~= seq![0xAAu8] + seq![0xFFu8] + seq![0x03u8] + seq![0x00u8]);
    let s0 = ParserState::SearchHeader { matched: m };
    lemma_run_single(s0, buf, 0xAA);
    lemma_run_single(ParserState::SearchHeader { matched: 1 }, buf, 0xFF);
    lemma_run_single(ParserState::SearchHeader { matched: 2 }, buf, 0x03);
    lemma_run_single(ParserState::SearchHeader { matched: 3 }, buf, 0x00);
    lemma_run_concat(s0, buf, seq![0xAAu8], seq![0xFFu8]);
    lemma_run_concat(s0, buf, seq![0xAAu8] + seq![0xFFu8], seq![0x03u8]);
    lemma_run_concat(s0, buf, seq![0xAAu8] + seq![0xFFu8] + seq![0x03u8], seq![0x00u8]);
    assert(Seq::<Seq<u8>>::empty() + Seq::<Seq<u8>>::empty() =~= Seq::<Seq<u8>>::empty());
}

/// Reading the first `k` payload bytes stores them at the front of the buffer.
proof fn lemma_run_payload(buf: Seq<u8>, p: Seq<u8>, k: int)
    requires
        buf.len() == 24,
        p.len() == 24,
        0 <= k <= 24,
    ensures
        run(ParserState::ReadPayload { pos: 0 }, buf, p.take(k)) == (
            if k < 24 {
                ParserState::ReadPayload { pos: k as u8 }
            } else {
                ParserState::ReadFooter { matched: 0 }
            },
            p.take(k) + buf.skip(k),
            Seq::<Seq<u8>>::empty(),
        ),
    decreases k,
{
    if k == 0 {
        assert(p.take(0) + buf.skip(0) =~= buf);
    } else {
        lemma_run_payload(buf, p, k - 1);
        assert(p.take(k).drop_last() =~= p.take(k - 1));
        assert(p.take(k).last() == p[k - 1]);
        assert((p.take(k - 1) + buf.skip(k - 1)).update(k - 1, p[k - 1]) =~= p.take(k) + buf.skip(k));
    }
}

/// With a full payload read, the two footer bytes complete the frame.
proof fn lemma_run_footer(p: Seq<u8>)
    ensures
        run(ParserState::ReadFooter { matched: 0 }, p, data_footer()) == (initial_state(), p, seq![p]),
{
    let f = data_footer();
    assert(f =~= seq![0x55u8] + seq![0xCCu8]);
    lemma_run_single(ParserState::ReadFooter { matched: 0 }, p, 0x55);
    lemma_run_single(ParserState::ReadFooter { matched: 1 }, p, 0xCC);
    lemma_run_concat(ParserState::ReadFooter { matched: 0 }, p, seq![0x55u8], seq![0xCCu8]);
    assert(Seq::<Seq<u8>>::empty() + seq![p] =~= seq![p]);
}

/// A well-formed data frame fed while the parser searches for a header
/// (at start-up, after garbage that left it searching, or after another
/// frame) is reported, with exactly its payload, and the parser is back at
/// the start of the header search.
pub proof fn lemma_frame_is_parsed(m: u8, buf: Seq<u8>, payload: Seq<u8>)
    requires
        m < 4,
        buf.len() == payload_len(),
        payload.len() == payload_len(),
    ensures
        run(ParserState::SearchHeader { matched: m }, buf, encode_frame(payload)) == (
            initial_state(),
            payload,
            seq![payload],
        ),
{
    let s0 = ParserState::SearchHeader { matched: m };
    lemma_run_header(m, buf);
    lemma_run_payload(buf, payload, 24);
    assert(payload.take(24) =~= payload);
    assert(payload + buf.skip(24) =~= payload);
    lemma_run_footer(payload);
    lemma_run_concat(s0, buf, data_header(), payload);
    lemma_run_concat(s0, buf, data_header() + payload, data_footer());
    assert(Seq::<Seq<u8>>::empty() + Seq::<Seq<u8>>::empty() + seq![payload] =~= seq![payload]);
}

/// Well-formed frames sent back to back, starting while the parser searches
/// for a header, are all reported, in order, with their payloads.
pub proof fn lemma_frames_are_parsed(m: u8, buf: Seq<u8>, payloads: Seq<Seq<u8>>)
    requires
        m < 4,
        buf.len() == payload_len(),
        forall|i: int| 0 <= i < payloads.len() ==> #[trigger] payloads[i].len() == payload_len(),
    ensures
        run(ParserState::SearchHeader { matched: m }, buf, encode_frames(payloads)).2 == payloads,
        payloads.len() > 0 ==> run(ParserState::SearchHeader { matched: m }, buf, encode_frames(payloads)).0
            == initial_state(),
        payloads.len() > 0 ==> run(ParserState::SearchHeader { matched: m }, buf, encode_frames(payloads)).1
            == payloads.last(),
    decreases payloads.len(),
{
    let s0 = ParserState::SearchHeader { matched: m };
    if payloads.len() == 0 {
        assert(encode_frames(payloads) =~= Seq::<u8>::empty());
    } else {
        let rest = payloads.drop_last();
        lemma_frames_are_parsed(m, buf, rest);
        lemma_run_concat(s0, buf, encode_frames(rest), encode_frame(payloads.last()));
        let r1 = run(s0, buf, encode_frames(rest));
        if rest.len() > 0 {
            lemma_frame_is_parsed(0, r1.1, payloads.last());
        } else {
            lemma_frame_is_parsed(m, r1.1, payloads.last());
        }
        assert(rest + seq![payloads.last()] =~= payloads);
    }
}

/// A frame whose footer is damaged is dropped: nothing is reported and the
/// parser is left searching for a header, ready for the next intact frame.
pub proof fn lemma_damaged_footer_is_dropped(m: u8, buf: Seq<u8>, payload: Seq<u8>, footer: Seq<u8>)
    requires
        m < 4,
        buf.len() == payload_len(),
        payload.len() == payload_len(),
        footer.len() == 2,
        footer != data_footer(),
    ensures
        run(ParserState::SearchHeader { matched: m }, buf, data_header() + payload + footer).2.len() == 0,
        run(ParserState::SearchHeader { matched: m }, buf, data_header() + payload + footer).0 is SearchHeader,
{
    let s0 = ParserState::SearchHeader { matched: m };
    lemma_run_header(m, buf);
    lemma_run_payload(buf, payload, 24);
    assert(payload.take(24) =~= payload);
    assert(payload + buf.skip(24) =~= payload);
    lemma_run_concat(s0, buf, data_header(), payload);
    lemma_run_concat(s0, buf, data_header() + payload, footer);
    assert(footer =~= seq![footer[0]] + seq![footer[1]]);
    let sf = ParserState::ReadFooter { matched: 0 };
    lemma_run_single(sf, payload, footer[0]);
    let s1 = step(sf, payload, footer[0]);
    lemma_run_single(s1.0, s1.1, footer[1]);
    lemma_run_concat(sf, payload, seq![footer[0]], seq![footer[1]]);
    if footer[0] == 0x55u8 {
        assert(footer[1] != 0xCCu8) by {
            if footer[1] == 0xCCu8 {
                assert(footer =~= data_footer());
            }
        }
    }
}

/// The stream `h` ends with `s`.
pub open spec fn ends_with(h: Seq<u8>, s: Seq<u8>) -> bool {
    s.len() <= h.len() && h.subrange(h.len() - s.len(), h.len() as int) == s
}

/// What the parser's state says of the bytes it was fed last.
pub open spec fn consistent(st: ParserState, buf: Seq<u8>, h: Seq<u8>) -> bool {
    match st {
        ParserState::SearchHeader { matched } => ends_with(h, data_header().take(matched as int)),
        ParserState::ReadPayload { pos } => ends_with(h, data_header() + buf.take(pos as int)),
        ParserState::ReadFooter { matched } => ends_with(
            h,
            data_header() + buf + data_footer().take(matched as int),
        ),
    }
}

proof fn lemma_ends_with_push(h: Seq<u8>, s: Seq<u8>, x: u8)
    requires
        ends_with(h, s),
    ensures
        ends_with(h.push(x), s.push(x)),
{
    assert(h.push(x).subrange(h.push(x).len() - s.push(x).len(), h.push(x).len() as int) =~= s.push(
        x,
    ));
}

proof fn lemma_step_consistent(st: ParserState, buf: Seq<u8>, h: Seq<u8>, x: u8)
    requires
        valid_model(st, buf),
        consistent(st, buf, h),
    ensures
        consistent(step(st, buf, x).0, step(st, buf, x).1, h.push(x)),
        step(st, buf, x).2 matches Some(p) ==> ends_with(h.push(x), encode_frame(p)),
{
    let hx = h.push(x);
    let hdr = data_header();
    let ftr = data_footer();
    match st {
        ParserState::SearchHeader { matched } => {
            if x == hdr[matched as int] {
                lemma_ends_with_push(h, hdr.take(matched as int), x);
                assert(hdr.take(matched as int).push(x) =~= hdr.take(matched + 1));
                if matched + 1 == 4 {
                    assert(hdr.take(4) =~= hdr + buf.take(0));
                }
            } else if x == hdr[0] {
                assert(hx.subrange(hx.len() - 1, hx.len() as int) =~= hdr.take(1));
            } else {
                assert(hx.subrange(hx.len() as int, hx.len() as int) =~= hdr.take(0));
            }
        },
        ParserState::ReadPayload { pos } => {
            let nbuf = buf.update(pos as int, x);
            lemma_ends_with_push(h, hdr + buf.take(pos as int), x);
            assert((hdr + buf.take(pos as int)).push(x) =~= hdr + nbuf.take(pos + 1));
            if pos + 1 == 24 {
                assert(hdr + nbuf.take(24) =~= hdr + nbuf + ftr.take(0));
            }
        },
        ParserState::ReadFooter { matched } => {
            if x == ftr[matched as int] {
                lemma_ends_with_push(h, hdr + buf + ftr.take(matched as int), x);
                assert((hdr + buf + ftr.take(matched as int)).push(x) =~= hdr + buf + ftr.take(
                    matched + 1,
                ));
                if matched + 1 == 2 {
                    assert(ftr.take(2) =~= ftr);
                    assert(hx.subrange(hx.len() as int, hx.len() as int) =~= hdr.take(0));
                }
            } else {
                assert(hx.subrange(hx.len() as int, hx.len() as int) =~= hdr.take(0));
            }
        },
    }
}

proof fn lemma_run_consistent(buf: Seq<u8>, data: Seq<u8>)
    requires
        buf.len() == payload_len(),
    ensures
        valid_model(run(initial_state(), buf, data).0, run(initial_state(), buf, data).1),
        consistent(run(initial_state(), buf, data).0, run(initial_state(), buf, data).1, data),
    decreases data.len(),
{
    lemma_run_valid(initial_state(), buf, data);
    if data.len() == 0 {
        assert(data.subrange(0, 0) =~= data_header().take(0));
    } else {
        lemma_run_consistent(buf, data.drop_last());
        let r = run(initial_state(), buf, data.drop_last());
        lemma_step_consistent(r.0, r.1, data.drop_last(), data.last());
        assert(data.drop_last().push(data.last()) =~= data);
    }
}

/// The parser reports no frame it was not sent: when the byte just fed
/// completes a frame, the stream fed since start-up ends with that frame's
/// header, its payload and its footer.
pub proof fn lemma_reported_frame_was_sent(buf: Seq<u8>, data: Seq<u8>)
    requires
        buf.len() == payload_len(),
        data.len() > 0,
    ensures
        ({
            let r = run(initial_state(), buf, data.drop_last());
            step(r.0, r.1, data.last()).2 matches Some(p) ==> p.len() == payload_len()
                && ends_with(data, encode_frame(p))
        }),
{
    lemma_run_consistent(buf, data.drop_last());
    let r = run(initial_state(), buf, data.drop_last());
    lemma_step_consistent(r.0, r.1, data.drop_last(), data.last());
    lemma_step_valid(r.0, r.1, data.last());
    assert(data.drop_last().push(data.last()) =~= data);
}

proof fn lemma_ends_with_occurs(h: Seq<u8>, s: Seq<u8>)
    requires
        ends_with(h, data_header() + s),
    ensures
        occurs_at(h, data_header(), h.len() - 4 - s.len()),
{
    let i = h.len() - 4 - s.len();
    let t = h.subrange(i, h.len() as int);
    assert(t == data_header() + s);
    assert(h.subrange(i, i + 4) =~= t.subrange(0, 4));
    assert(t.subrange(0, 4) =~= data_header());
}

/// Bytes that hold no frame header leave the parser searching for one and
/// report nothing.
pub proof fn lemma_headerless_bytes_keep_searching(buf: Seq<u8>, data: Seq<u8>)
    requires
        buf.len() == payload_len(),
        forall|i: int| !occurs_at(data, data_header(), i),
    ensures
        run(initial_state(), buf, data).0 is SearchHeader,
        run(initial_state(), buf, data).2.len() == 0,
    decreases data.len(),
{
    lemma_run_consistent(buf, data);
    let r = run(initial_state(), buf, data);
    match r.0 {
        ParserState::ReadPayload { pos } => {
            lemma_ends_with_occurs(data, r.1.take(pos as int));
        },
        ParserState::ReadFooter { matched } => {
            assert(data_header() + (r.1 + data_footer().take(matched as int)) =~= data_header() + r.1
                + data_footer().take(matched as int));
            lemma_ends_with_occurs(data, r.1 + data_footer().take(matched as int));
        },
        _ => {},
    }
    if data.len() > 0 {
        let d = data.drop_last();
        assert forall|i: int| !occurs_at(d, data_header(), i) by {
            if occurs_at(d, data_header(), i) {
                assert(data.subrange(i, i + 4) =~= d.subrange(i, i + 4));
                assert(occurs_at(data, data_header(), i));
            }
        }
        lemma_headerless_bytes_keep_searching(buf, d);
        lemma_reported_frame_was_sent(buf, data);
        let rd = run(initial_state(), buf, d);
        if let Some(p) = step(rd.0, rd.1, data.last()).2 {
            assert(data_header() + (p + data_footer()) =~= encode_frame(p));
            lemma_ends_with_occurs(data, p + data_footer());
        }
    }
}

/// Bytes that hold no frame header, sent before a well-formed frame, do not
/// hide it: the frame is reported, alone, with its payload.
pub proof fn lemma_frame_after_noise_is_parsed(buf: Seq<u8>, noise: Seq<u8>, payload: Seq<u8>)
    requires
        buf.len() == payload_len(),
        payload.len() == payload_len(),
        forall|i: int| !occurs_at(noise, data_header(), i),
    ensures
        run(initial_state(), buf, noise + encode_frame(payload)) == (
            initial_state(),
            payload,
            seq![payload],
        ),
{
    lemma_headerless_bytes_keep_searching(buf, noise);
    lemma_run_valid(initial_state(), buf, noise);
    let r = run(initial_state(), buf, noise);
    lemma_run_concat(initial_state(), buf, noise, encode_frame(payload));
    if let ParserState::SearchHeader { matched } = r.0 {
        lemma_frame_is_parsed(matched, r.1, payload);
    }
    assert(Seq::<Seq<u8>>::empty() + seq![payload] =~= seq![payload]);
}

/// A data frame on the wire is AA FF 03 00, the 24 payload bytes, 55 CC.
pub proof fn lemma_frame_wire_bytes(payload: Seq<u8>)
    requires
        payload.len() == payload_len(),
    ensures
        encode_frame(payload).len() == 30,
        encode_frame(payload) == seq![0xAAu8, 0xFFu8, 0x03u8, 0x00u8] + payload + seq![0x55u8, 0xCCu8],
{
}

} // verus!
