//! Logic of the control tool: reading a zone given on the command line and
//! judging the acknowledgement received for a command.

use vstd::prelude::*;

use crate::command::{
    ack_describes, ack_found, ack_inframe, ack_start, parse_ack, AckFrame, AckStatus, ZoneRect,
};

verus! {

/// Unicode White_Space, the characters that `str::trim` removes.
pub open spec fn is_whitespace(c: char) -> bool {
    let v = c as u32;
    ||| 0x09 <= v <= 0x0D
    ||| v == 0x20
    ||| v == 0x85
    ||| v == 0xA0
    ||| v == 0x1680
    ||| 0x2000 <= v <= 0x200A
    ||| v == 0x2028
    ||| v == 0x2029
    ||| v == 0x202F
    ||| v == 0x205F
    ||| v == 0x3000
}

/// The text without its leading white space.
pub open spec fn trim_start(s: Seq<char>) -> Seq<char>
    decreases s.len(),
{
    if s.len() > 0 && is_whitespace(s[0]) {
        trim_start(s.drop_first())
    } else {
        s
    }
}

/// The text without its trailing white space.
pub open spec fn trim_end(s: Seq<char>) -> Seq<char>
    decreases s.len(),
{
    if s.len() > 0 && is_whitespace(s.last()) {
        trim_end(s.drop_last())
    } else {
        s
    }
}

/// The text without leading and trailing white space.
pub open spec fn trim(s: Seq<char>) -> Seq<char> {
    trim_end(trim_start(s))
}

/// The comma-separated fields of a text; a text without commas is one field.
pub open spec fn split_commas(s: Seq<char>) -> Seq<Seq<char>>
    decreases s.len(),
{
    if s.len() == 0 {
        seq![Seq::empty()]
    } else {
        let prev = split_commas(s.drop_last());
        if s.last() == ',' {
            prev.push(Seq::empty())
        } else {
            prev.update(prev.len() - 1, prev.last().push(s.last()))
        }
    }
}

/// An ASCII decimal digit.
pub open spec fn is_digit(c: char) -> bool {
    0x30 <= (c as u32) <= 0x39
}

/// The number that a string of decimal digits writes.
pub open spec fn digits_value(s: Seq<char>) -> int
    decreases s.len(),
{
    if s.len() == 0 {
        0
    } else {
        digits_value(s.drop_last()) * 10 + (s.last() as u32 - 0x30)
    }
}

/// Every character is an ASCII decimal digit.
pub open spec fn all_digits(d: Seq<char>) -> bool {
    forall|i: int| 0 <= i < d.len() ==> is_digit(#[trigger] d[i])
}

/// The text after an optional leading `+` or `-`.
pub open spec fn unsigned_part(s: Seq<char>) -> Seq<char> {
    if s.len() > 0 && (s[0] == '-' || s[0] == '+') {
        s.drop_first()
    } else {
        s
    }
}

/// A decimal 16-bit integer as `i16::from_str` reads it: an optional `+`
/// or `-`, then one or more ASCII digits, with a value in range.
pub open spec fn spec_parse_i16(s: Seq<char>) -> Option<i16> {
    let digits = unsigned_part(s);
    let v = if s.len() > 0 && s[0] == '-' {
        -digits_value(digits)
    } else {
        digits_value(digits)
    };
    if digits.len() == 0 || !all_digits(digits) {
        None
    } else if -0x8000 <= v <= 0x7FFF {
        Some(v as i16)
    } else {
        None
    }
}

/// Why a zone given on the command line was refused.
#[derive(Debug, Clone, Copy, PartialEq, Eq, Structural)]
pub enum ZoneParseError {
    /// A field is not a 16-bit integer (mm).
    InvalidCoordinate,
    /// The text does not hold four fields.
    WrongCount,
}

/// The zone that a text `x1,y1,x2,y2` gives: each field, trimmed, must be a
/// 16-bit integer, and there must be four fields.
pub open spec fn spec_parse_zone(s: Seq<char>) -> Result<ZoneRect, ZoneParseError> {
    let fields = split_commas(s);
    if exists|j: int| 0 <= j < fields.len() && (#[trigger] spec_parse_i16(trim(fields[j]))) is None {
        Err(ZoneParseError::InvalidCoordinate)
    } else if fields.len() != 4 {
        Err(ZoneParseError::WrongCount)
    } else {
        Ok(
            ZoneRect {
                x1: spec_parse_i16(trim(fields[0])).unwrap(),
                y1: spec_parse_i16(trim(fields[1])).unwrap(),
                x2: spec_parse_i16(trim(fields[2])).unwrap(),
                y2: spec_parse_i16(trim(fields[3])).unwrap(),
            },
        )
    }
}

fn char_is_whitespace(c: char) -> (r: bool)
    ensures
        r == is_whitespace(c),
{
    let v = c as u32;
    (0x09 <= v && v <= 0x0D) || v == 0x20 || v == 0x85 || v == 0xA0 || v == 0x1680 || (0x2000 <= v
        && v <= 0x200A) || v == 0x2028 || v == 0x2029 || v == 0x202F || v == 0x205F || v == 0x3000
}

/// The characters of a text.
fn chars_of(s: &str) -> (r: Vec<char>)
    ensures
        r@ == s@,
{
    let mut out: Vec<char> = Vec::new();
    for c in it: s.chars()
        invariant
            out@ == it.seq().take(it.index()),
    {
        out.push(c);
    }
    out
}

/// Where the first character that is not white space stands in
/// `cs[lo..hi]` (or `hi`).
fn skip_leading(cs: &Vec<char>, lo: usize, hi: usize) -> (r: usize)
    requires
        lo <= hi <= cs@.len(),
    ensures
        lo <= r <= hi,
        trim_start(cs@.subrange(lo as int, hi as int)) == cs@.subrange(r as int, hi as int),
{
    let mut i = lo;
    while i < hi && char_is_whitespace(cs[i])
        invariant
            lo <= i <= hi,
            hi <= cs@.len(),
            trim_start(cs@.subrange(lo as int, hi as int)) == trim_start(
                cs@.subrange(i as int, hi as int),
            ),
        decreases hi - i,
    {
        assert(cs@.subrange(i as int, hi as int).drop_first() =~= cs@.subrange(i + 1, hi as int));
        i = i + 1;
    }
    i
}

/// Where the white space that ends `cs[lo..hi]` starts (or `hi`).
fn skip_trailing(cs: &Vec<char>, lo: usize, hi: usize) -> (r: usize)
    requires
        lo <= hi <= cs@.len(),
    ensures
        lo <= r <= hi,
        trim_end(cs@.subrange(lo as int, hi as int)) == cs@.subrange(lo as int, r as int),
{
    let mut j = hi;
    while j > lo && char_is_whitespace(cs[j - 1])
        invariant
            lo <= j <= hi,
            hi <= cs@.len(),
            trim_end(cs@.subrange(lo as int, hi as int)) == trim_end(
                cs@.subrange(lo as int, j as int),
            ),
        decreases j - lo,
    {
        assert(cs@.subrange(lo as int, j as int).drop_last() =~= cs@.subrange(lo as int, j - 1));
        j = j - 1;
    }
    j
}

proof fn lemma_digits_value_nonneg(s: Seq<char>)
    requires
        forall|i: int| 0 <= i < s.len() ==> is_digit(#[trigger] s[i]),
    ensures
        digits_value(s) >= 0,
    decreases s.len(),
{
    if s.len() > 0 {
        lemma_digits_value_nonneg(s.drop_last());
        assert(is_digit(s[s.len() - 1]));
    }
}

/// A prefix of a string of digits writes a number no larger than the whole.
proof fn lemma_digits_value_prefix(s: Seq<char>, k: int)
    requires
        0 <= k <= s.len(),
        forall|i: int| 0 <= i < s.len() ==> is_digit(#[trigger] s[i]),
    ensures
        digits_value(s.take(k)) <= digits_value(s),
    decreases s.len(),
{
    if k < s.len() {
        let d = s.drop_last();
        assert forall|i: int| 0 <= i < d.len() implies is_digit(#[trigger] d[i]) by {
            assert(d[i] == s[i]);
        }
        lemma_digits_value_prefix(d, k);
        assert(d.take(k) =~= s.take(k));
        lemma_digits_value_nonneg(d);
        assert(is_digit(s[s.len() - 1]));
    } else {
        assert(s.take(k) =~= s);
    }
}

/// The 16-bit integer that `cs[lo..hi]` writes, as `i16::from_str` reads it.
fn parse_i16_range(cs: &Vec<char>, lo: usize, hi: usize) -> (r: Option<i16>)
    requires
        lo <= hi <= cs@.len(),
    ensures
        r == spec_parse_i16(cs@.subrange(lo as int, hi as int)),
{
    let ghost s = cs@.subrange(lo as int, hi as int);
    if lo == hi {
        return None;
    }
    let neg = cs[lo] == '-';
    let start = if cs[lo] == '-' || cs[lo] == '+' {
        lo + 1
    } else {
        lo
    };
    let ghost digits = cs@.subrange(start as int, hi as int);
    assert(start == lo + 1 ==> digits =~= s.drop_first());
    assert(start == lo ==> digits =~= s);
    if start == hi {
        return None;
    }
    let mut acc: u32 = 0;
    let mut k = start;
    while k < hi
        invariant
            start <= k <= hi,
            hi <= cs@.len(),
            lo < hi,
            s == cs@.subrange(lo as int, hi as int),
            neg == (s[0] == '-'),
            digits == unsigned_part(s),
            digits == cs@.subrange(start as int, hi as int),
            acc == digits_value(cs@.subrange(start as int, k as int)),
            acc <= 0x8000,
            forall|t: int| start <= t < k ==> is_digit(#[trigger] cs@[t]),
        decreases hi - k,
    {
        let c = cs[k];
        let cv = c as u32;
        if !(0x30 <= cv && cv <= 0x39) {
            assert(digits[k - start] == cs@[k as int]);
            assert(!is_digit(digits[k - start]));
            return None;
        }
        assert(cs@.subrange(start as int, k + 1).drop_last() =~= cs@.subrange(start as int, k as int));
        let next = acc * 10 + (cv - 0x30);
        if next > 0x8000 {
            proof {
                if all_digits(digits) {
                    lemma_digits_value_prefix(digits, k + 1 - start);
                    assert(digits.take(k + 1 - start) =~= cs@.subrange(start as int, k + 1));
                }
            }
            return None;
        }
        acc = next;
        k = k + 1;
    }
    assert(cs@.subrange(start as int, hi as int) =~= digits);
    assert forall|i: int| 0 <= i < digits.len() implies is_digit(#[trigger] digits[i]) by {
        assert(digits[i] == cs@[start + i]);
    }
    if neg {
        Some((0 - acc as i32) as i16)
    } else if acc <= 0x7FFF {
        Some(acc as i16)
    } else {
        None
    }
}

/// The 16-bit integer in `cs[lo..hi]`, white space around it ignored.
fn parse_field(cs: &Vec<char>, lo: usize, hi: usize) -> (r: Option<i16>)
    requires
        lo <= hi <= cs@.len(),
    ensures
        r == spec_parse_i16(trim(cs@.subrange(lo as int, hi as int))),
{
    let a = skip_leading(cs, lo, hi);
    let b = skip_trailing(cs, a, hi);
    parse_i16_range(cs, a, b)
}

/// The fields of a prefix of a text, all but the last, are fields of the
/// whole text; the last is the start of the field of the whole text at
/// its place.
proof fn lemma_split_prefix(s: Seq<char>, k: int)
    requires
        0 <= k <= s.len(),
    ensures
        ({
            let p = split_commas(s.take(k));
            let q = split_commas(s);
            &&& 1 <= p.len() <= q.len()
            &&& forall|j: int| 0 <= j < p.len() - 1 ==> p[j] == q[j]
            &&& p.last().len() <= q[p.len() - 1].len()
            &&& q[p.len() - 1].take(p.last().len() as int) == p.last()
        }),
    decreases s.len(),
{
    if k == s.len() {
        assert(s.take(k) =~= s);
        lemma_split_len(s);
        assert(split_commas(s)[split_commas(s).len() - 1].take(split_commas(s).last().len() as int)
            =~= split_commas(s).last());
    } else {
        let d = s.drop_last();
        lemma_split_prefix(d, k);
        assert(d.take(k) =~= s.take(k));
        lemma_split_len(d);
        let p = split_commas(s.take(k));
        let q0 = split_commas(d);
        let q = split_commas(s);
        if s.last() != ',' {
            let i = p.len() - 1;
            if i == q0.len() - 1 {
                assert(q[i].take(p.last().len() as int) =~= q0[i].take(p.last().len() as int));
            }
        }
    }
}

proof fn lemma_split_len(s: Seq<char>)
    ensures
        split_commas(s).len() >= 1,
    decreases s.len(),
{
    if s.len() > 0 {
        lemma_split_len(s.drop_last());
    }
}

/// Parse a zone given as `x1,y1,x2,y2` in mm (e.g. `-1000,0,1000,3000`); no
/// zone at all is the empty zone.
pub fn parse_zone(s: Option<&str>) -> (r: Result<ZoneRect, ZoneParseError>)
    ensures
        s is None ==> r == Ok::<ZoneRect, ZoneParseError>(ZoneRect { x1: 0, y1: 0, x2: 0, y2: 0 }),
        s matches Some(t) ==> r == spec_parse_zone(t@),
{
    let t = match s {
        None => return Ok(ZoneRect { x1: 0, y1: 0, x2: 0, y2: 0 }),
        Some(t) => t,
    };
    let cs = chars_of(t);
    let n = cs.len();
    let mut values: Vec<i16> = Vec::new();
    let mut seg_start: usize = 0;
    let ghost mut done: Seq<Seq<char>> = Seq::empty();
    let mut i: usize = 0;
    assert(cs@.take(0) =~= Seq::<char>::empty());
    assert(cs@.subrange(0, 0) =~= Seq::<char>::empty());
    assert(split_commas(Seq::<char>::empty()) =~= done.push(Seq::<char>::empty()));
    while i < n
        invariant
            s == Some(t),
            seg_start <= i <= n,
            n == cs@.len(),
            cs@ == t@,
            split_commas(cs@.take(i as int)) == done.push(cs@.subrange(seg_start as int, i as int)),
            values@.len() == done.len(),
            forall|j: int| 0 <= j < done.len() ==> spec_parse_i16(trim(#[trigger] done[j])) == Some(values@[j]),
        decreases n - i,
    {
        assert(cs@.take(i + 1).drop_last() =~= cs@.take(i as int));
        assert(cs@.take(i + 1).last() == cs@[i as int]);
        if cs[i] == ',' {
            let field = parse_field(&cs, seg_start, i);
            proof {
                lemma_split_prefix(cs@, i + 1);
                lemma_split_len(cs@);
            }
            match field {
                Some(v) => {
                    values.push(v);
                    proof {
                        done = done.push(cs@.subrange(seg_start as int, i as int));
                    }
                },
                None => {
                    proof {
                        let q = split_commas(cs@);
                        let j = done.len() as int;
                        assert(split_commas(cs@.take(i + 1))[j] == cs@.subrange(seg_start as int, i as int));
                        assert(q[j] == cs@.subrange(seg_start as int, i as int));
                        assert(spec_parse_i16(trim(q[j])) is None);
                    }
                    return Err(ZoneParseError::InvalidCoordinate);
                },
            }
            seg_start = i + 1;
            assert(cs@.subrange(seg_start as int, i + 1) =~= Seq::<char>::empty());
        } else {
            assert(cs@.subrange(seg_start as int, i + 1) =~= cs@.subrange(seg_start as int, i as int).push(cs@[i as int]));
        }
        i = i + 1;
    }
    assert(cs@.take(n as int) =~= cs@);
    let ghost fields = split_commas(cs@);
    assert(fields == done.push(cs@.subrange(seg_start as int, n as int)));
    match parse_field(&cs, seg_start, n) {
        Some(v) => {
            values.push(v);
        },
        None => {
            assert(spec_parse_i16(trim(fields[done.len() as int])) is None);
            return Err(ZoneParseError::InvalidCoordinate);
        },
    }
    assert(forall|j: int| 0 <= j < fields.len() ==> spec_parse_i16(trim(#[trigger] fields[j])) == Some(values@[j]));
    if values.len() != 4 {
        return Err(ZoneParseError::WrongCount);
    }
    Ok(ZoneRect { x1: values[0], y1: values[1], x2: values[2], y2: values[3] })
}

/// What the bytes received so far say of the command just sent.
#[derive(Debug, Clone)]
pub enum AckOutcome {
    /// No complete acknowledgement yet: keep reading.
    Incomplete,
    /// The radar acknowledged the command with a failure status.
    Rejected(AckFrame),
    /// The radar acknowledged the command successfully.
    Accepted(AckFrame),
}

/// Judge the bytes received after sending a command: the acknowledgement
/// found in them, and whether the radar reported success.
pub fn classify_ack(buf: &[u8]) -> (r: AckOutcome)
    ensures
        r is Incomplete <==> !ack_found(buf@),
        r matches AckOutcome::Rejected(f) ==> f.status == AckStatus::Failure && (ack_start(buf@) matches Some(
            h,
        ) && ack_describes(f, ack_inframe(buf@.skip(h)))),
        r matches AckOutcome::Accepted(f) ==> f.status == AckStatus::Success && (ack_start(buf@) matches Some(
            h,
        ) && ack_describes(f, ack_inframe(buf@.skip(h)))),
{
    match parse_ack(buf) {
        None => AckOutcome::Incomplete,
        Some((ack, _)) => {
            if ack.status == AckStatus::Failure {
                AckOutcome::Rejected(ack)
            } else {
                AckOutcome::Accepted(ack)
            }
        },
    }
}

/// The ASCII digit for a value in 0..=9.
pub open spec fn digit_char(d: int) -> char {
    (0x30 + d) as char
}

/// The decimal digits of a natural number, without leading zeros.
pub open spec fn decimal(n: nat) -> Seq<char>
    decreases n,
{
    if n < 10 {
        seq![digit_char(n as int)]
    } else {
        decimal(n / 10).push(digit_char((n % 10) as int))
    }
}

/// A 16-bit integer written in decimal, with a `-` when negative.
pub open spec fn i16_text(v: i16) -> Seq<char> {
    if v < 0 {
        seq!['-'] + decimal((-v) as nat)
    } else {
        decimal(v as nat)
    }
}

/// A zone written as `x1,y1,x2,y2`, the form the control tool takes.
pub open spec fn zone_text(z: ZoneRect) -> Seq<char> {
    i16_text(z.x1) + seq![','] + i16_text(z.y1) + seq![','] + i16_text(z.x2) + seq![','] + i16_text(
        z.y2,
    )
}

proof fn lemma_decimal(n: nat)
    ensures
        decimal(n).len() >= 1,
        all_digits(decimal(n)),
        digits_value(decimal(n)) == n,
    decreases n,
{
    let s = decimal(n);
    if n < 10 {
        assert(s.drop_last() =~= Seq::<char>::empty());
        assert(digit_char(n as int) as u32 == 0x30 + n);
        assert(s.last() == digit_char(n as int));
        assert(digits_value(s) == digits_value(s.drop_last()) * 10 + (s.last() as u32 - 0x30));
    } else {
        lemma_decimal(n / 10);
        assert(s.drop_last() =~= decimal(n / 10));
        assert(digit_char((n % 10) as int) as u32 == 0x30 + n % 10);
        assert(s.last() == digit_char((n % 10) as int));
        assert(digits_value(s) == digits_value(s.drop_last()) * 10 + (s.last() as u32 - 0x30));
        assert((n / 10) * 10 + n % 10 == n);
        assert forall|i: int| 0 <= i < s.len() implies is_digit(#[trigger] s[i]) by {
            if i < s.len() - 1 {
                assert(s[i] == decimal(n / 10)[i]);
            }
        }
    }
}

proof fn lemma_i16_text(v: i16)
    ensures
        spec_parse_i16(trim(i16_text(v))) == Some(v),
        trim(seq![' '] + i16_text(v) + seq!['\t']) == i16_text(v),
        trim(i16_text(v)) == i16_text(v),
        forall|i: int| 0 <= i < i16_text(v).len() ==> #[trigger] i16_text(v)[i] != ',',
{
    let s = i16_text(v);
    if v < 0 {
        let d = decimal((-v) as nat);
        lemma_decimal((-v) as nat);
        assert(s.drop_first() =~= d);
        assert(is_digit(s.last())) by {
            assert(s.last() == d.last());
        }
        assert(unsigned_part(s) == d);
        assert forall|i: int| 0 <= i < s.len() implies #[trigger] s[i] != ',' by {
            if i > 0 {
                assert(s[i] == d[i - 1]);
                assert(is_digit(d[i - 1]));
            }
        }
    } else {
        let d = decimal(v as nat);
        lemma_decimal(v as nat);
        assert(is_digit(d[0]));
        assert(is_digit(d.last()));
        assert forall|i: int| 0 <= i < s.len() implies #[trigger] s[i] != ',' by {
            assert(is_digit(d[i]));
        }
    }
    assert(trim_start(s) == s);
    assert(trim_end(s) == s);
    let st = s + seq!['\t'];
    assert(!is_whitespace(s[0]));
    assert(st[0] == s[0]);
    assert(trim_start(st) == st);
    assert((seq![' '] + s + seq!['\t']).drop_first() =~= st);
    assert(is_whitespace(' '));
    assert(trim_start(seq![' '] + s + seq!['\t']) == st);
    assert(st.drop_last() =~= s);
    assert(is_whitespace('\t'));
    assert(trim_end(st) == trim_end(s));
}

proof fn lemma_split_without_commas(b: Seq<char>)
    requires
        forall|i: int| 0 <= i < b.len() ==> #[trigger] b[i] != ',',
    ensures
        split_commas(b) == seq![b],
    decreases b.len(),
{
    if b.len() == 0 {
        assert(b =~= Seq::<char>::empty());
        assert(split_commas(b) =~= seq![b]);
    } else {
        let d = b.drop_last();
        assert forall|i: int| 0 <= i < d.len() implies #[trigger] d[i] != ',' by {
            assert(d[i] == b[i]);
        }
        lemma_split_without_commas(d);
        assert(b.last() != ',');
        assert(d.push(b.last()) =~= b);
        assert(split_commas(b) =~= seq![b]);
    }
}

proof fn lemma_split_append_field(a: Seq<char>, b: Seq<char>)
    requires
        forall|i: int| 0 <= i < b.len() ==> #[trigger] b[i] != ',',
    ensures
        split_commas(a + seq![','] + b) == split_commas(a).push(b),
    decreases b.len(),
{
    let s = a + seq![','] + b;
    if b.len() == 0 {
        assert(s.drop_last() =~= a);
        assert(s.last() == ',');
        assert(b =~= Seq::<char>::empty());
    } else {
        let d = b.drop_last();
        assert forall|i: int| 0 <= i < d.len() implies #[trigger] d[i] != ',' by {
            assert(d[i] == b[i]);
        }
        lemma_split_append_field(a, d);
        assert(s.drop_last() =~= a + seq![','] + d);
        assert(s.last() == b.last());
        assert(b.last() != ',');
        assert(d.push(b.last()) =~= b);
        assert(split_commas(s) =~= split_commas(a).push(b));
    }
}

/// A zone written as `x1,y1,x2,y2` is read back as that zone.
pub proof fn lemma_zone_text_roundtrip(z: ZoneRect)
    ensures
        spec_parse_zone(zone_text(z)) == Ok::<ZoneRect, ZoneParseError>(z),
{
    let t1 = i16_text(z.x1);
    let t2 = i16_text(z.y1);
    let t3 = i16_text(z.x2);
    let t4 = i16_text(z.y2);
    lemma_i16_text(z.x1);
    lemma_i16_text(z.y1);
    lemma_i16_text(z.x2);
    lemma_i16_text(z.y2);
    lemma_split_without_commas(t1);
    lemma_split_append_field(t1, t2);
    lemma_split_append_field(t1 + seq![','] + t2, t3);
    lemma_split_append_field(t1 + seq![','] + t2 + seq![','] + t3, t4);
    let fields = split_commas(zone_text(z));
    assert(fields =~= seq![t1, t2, t3, t4]);
    assert forall|j: int| 0 <= j < fields.len() implies (#[trigger] spec_parse_i16(trim(fields[j])))
        is Some by {
        if j == 0 {
        } else if j == 1 {
        } else if j == 2 {
        } else {
        }
    }
}

/// A field is read the same with spaces or tabs around it.
pub proof fn lemma_zone_field_ignores_blanks(v: i16)
    ensures
        spec_parse_i16(trim(seq![' '] + i16_text(v) + seq!['\t'])) == Some(v),
{
    lemma_i16_text(v);
}

} // verus!
