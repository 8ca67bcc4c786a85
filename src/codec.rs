//! Framing of protocol lines: `<verb> <payload>\n`. The verb decides what
//! the payload holds; JSON payloads are read and written by the caller.

use vstd::prelude::*;
use crate::line_reader::NEWLINE;

verus! {

/// The verbs of the protocol.
#[derive(Debug, Clone, Copy, PartialEq, Eq, Structural)]
pub enum Verb {
    /// Client to server: a move, as a JSON point.
    Motion,
    /// Client to server: a sprite upload; server to client: `[id, sprite, point]`.
    Image,
    /// Server to client: `[id, point]`.
    Position,
    /// Server to client: the id of a session that left, as a plain integer.
    ClientLeft,
    /// Server to client: `[[id, sprite, point], ...]`, the whole roster.
    AllClients,
}

/// Why a line could not be decoded.
#[derive(Debug, Clone, Copy, PartialEq, Eq, Structural)]
pub enum CodecError {
    /// The line starts with no known verb followed by a space.
    UnknownVerb,
    /// The payload does not have the shape its verb asks for.
    MalformedPayload,
}

/// The byte used between the verb and the payload.
pub const SPACE: u8 = 32;

/// The ASCII spelling of a verb.
pub open spec fn verb_word(v: Verb) -> Seq<u8> {
    match v {
        Verb::Motion => seq![109u8, 111, 116, 105, 111, 110],
        Verb::Image => seq![105u8, 109, 97, 103, 101],
        Verb::Position => seq![112u8, 111, 115, 105, 116, 105, 111, 110],
        Verb::ClientLeft => seq![99u8, 108, 105, 101, 110, 116, 95, 108, 101, 102, 116],
        Verb::AllClients => seq![97u8, 108, 108, 95, 99, 108, 105, 101, 110, 116, 115],
    }
}

/// What a line starts with when it carries verb `v`.
pub open spec fn verb_prefix(v: Verb) -> Seq<u8> {
    verb_word(v).push(SPACE)
}

/// The line that carries `payload` under verb `v`.
pub open spec fn framed(v: Verb, payload: Seq<u8>) -> Seq<u8> {
    verb_prefix(v) + payload.push(NEWLINE)
}

/// `s` with one trailing newline removed, if it ends with one.
pub open spec fn strip_newline(s: Seq<u8>) -> Seq<u8> {
    if s.len() > 0 && s.last() == NEWLINE {
        s.drop_last()
    } else {
        s
    }
}

/// `line` starts with `prefix`.
pub open spec fn starts_with(line: Seq<u8>, prefix: Seq<u8>) -> bool {
    prefix.len() <= line.len() && line.subrange(0, prefix.len() as int) == prefix
}

/// The spelling of a verb.
pub fn verb_bytes(v: Verb) -> (r: Vec<u8>)
    ensures
        r@ == verb_word(v),
{
    let r = match v {
        Verb::Motion => vec![109u8, 111, 116, 105, 111, 110],
        Verb::Image => vec![105u8, 109, 97, 103, 101],
        Verb::Position => vec![112u8, 111, 115, 105, 116, 105, 111, 110],
        Verb::ClientLeft => vec![99u8, 108, 105, 101, 110, 116, 95, 108, 101, 102, 116],
        Verb::AllClients => vec![97u8, 108, 108, 95, 99, 108, 105, 101, 110, 116, 115],
    };
    assert(r@ =~= verb_word(v));
    r
}

/// Frames `payload` as one protocol line under verb `v`.
pub fn encode_line(v: Verb, payload: &[u8]) -> (r: Vec<u8>)
    ensures
        r@ == framed(v, payload@),
{
    let mut r = verb_bytes(v);
    r.push(SPACE);
    let mut i: usize = 0;
    while i < payload.len()
        invariant
            i <= payload@.len(),
            r@ == verb_prefix(v) + payload@.subrange(0, i as int),
        decreases payload@.len() - i,
    {
        r.push(payload[i]);
        i += 1;
        assert(r@ =~= verb_prefix(v) + payload@.subrange(0, i as int));
    }
    r.push(NEWLINE);
    assert(r@ =~= framed(v, payload@));
    r
}

/// Whether `line` starts with `prefix`.
fn has_prefix(line: &[u8], prefix: &Vec<u8>) -> (r: bool)
    ensures
        r == starts_with(line@, prefix@),
{
    if prefix.len() > line.len() {
        return false;
    }
    let mut i: usize = 0;
    while i < prefix.len()
        invariant
            prefix@.len() <= line@.len(),
            i <= prefix@.len(),
            forall|j: int| 0 <= j < i ==> line@[j] == prefix@[j],
        decreases prefix@.len() - i,
    {
        if line[i] != prefix[i] {
            assert(line@.subrange(0, prefix@.len() as int)[i as int] != prefix@[i as int]);
            return false;
        }
        i += 1;
    }
    assert(line@.subrange(0, prefix@.len() as int) =~= prefix@);
    true
}

/// The bytes of `line` from `start` on, without one trailing newline.
fn payload_from(line: &[u8], start: usize) -> (r: Vec<u8>)
    requires
        start <= line@.len(),
    ensures
        r@ == strip_newline(line@.subrange(start as int, line@.len() as int)),
{
    let mut end = line.len();
    if end > start && line[end - 1] == NEWLINE {
        end = end - 1;
    }
    let mut r: Vec<u8> = Vec::new();
    let mut i: usize = start;
    while i < end
        invariant
            start <= i <= end <= line@.len(),
            r@ == line@.subrange(start as int, i as int),
        decreases end - i,
    {
        r.push(line[i]);
        i += 1;
        assert(r@ =~= line@.subrange(start as int, i as int));
    }
    assert(r@ =~= strip_newline(line@.subrange(start as int, line@.len() as int)));
    r
}

/// Splits a protocol line into its verb and its payload, without the
/// line's newline. Fails with `UnknownVerb` when the line starts with no
/// verb followed by a space. The verbs start with distinct letters, so at
/// most one matches.
pub fn decode_line(line: &[u8]) -> (r: Result<(Verb, Vec<u8>), CodecError>)
    ensures
        r matches Ok((v, p)) ==> starts_with(line@, verb_prefix(v)) && p@ == strip_newline(
            line@.subrange(verb_prefix(v).len() as int, line@.len() as int),
        ),
        r is Err <==> forall|v: Verb| !starts_with(line@, #[trigger] verb_prefix(v)),
        r is Err ==> r == Err::<(Verb, Vec<u8>), CodecError>(CodecError::UnknownVerb),
{
    let verbs = [Verb::Motion, Verb::Image, Verb::Position, Verb::ClientLeft, Verb::AllClients];
    let mut k: usize = 0;
    while k < 5
        invariant
            k <= 5,
            verbs@ == seq![Verb::Motion, Verb::Image, Verb::Position, Verb::ClientLeft, Verb::AllClients],
            forall|j: int| 0 <= j < k ==> !starts_with(line@, verb_prefix(#[trigger] verbs@[j])),
        decreases 5 - k,
    {
        let v = verbs[k];
        let mut prefix = verb_bytes(v);
        prefix.push(SPACE);
        if has_prefix(line, &prefix) {
            return Ok((v, payload_from(line, prefix.len())));
        }
        k += 1;
    }
    proof {
        assert forall|v: Verb| !starts_with(line@, #[trigger] verb_prefix(v)) by {
            match v {
                Verb::Motion => assert(verbs@[0] == v),
                Verb::Image => assert(verbs@[1] == v),
                Verb::Position => assert(verbs@[2] == v),
                Verb::ClientLeft => assert(verbs@[3] == v),
                Verb::AllClients => assert(verbs@[4] == v),
            }
        }
    }
    Err(CodecError::UnknownVerb)
}

/// An ASCII whitespace byte: space, tab, newline, vertical tab, form feed
/// or carriage return.
pub open spec fn is_blank(b: u8) -> bool {
    b == 32 || (9 <= b <= 13)
}

/// A line that is empty once trimmed: the server has gone away.
pub fn is_disconnect_signal(line: &[u8]) -> (r: bool)
    ensures
        r == forall|i: int| 0 <= i < line@.len() ==> is_blank(#[trigger] line@[i]),
{
    let mut i: usize = 0;
    while i < line.len()
        invariant
            i <= line@.len(),
            forall|j: int| 0 <= j < i ==> is_blank(#[trigger] line@[j]),
        decreases line@.len() - i,
    {
        let b = line[i];
        if !(b == 32 || (9 <= b && b <= 13)) {
            return false;
        }
        i += 1;
    }
    true
}

/// The value of a sequence of ASCII decimal digits.
pub open spec fn decimal_value(s: Seq<u8>) -> int
    decreases s.len(),
{
    if s.len() == 0 {
        0
    } else {
        decimal_value(s.drop_last()) * 10 + (s.last() - 48)
    }
}

/// An ASCII decimal digit.
pub open spec fn is_digit(b: u8) -> bool {
    48 <= b <= 57
}

/// `s` less its leading ASCII whitespace.
pub open spec fn trim_start(s: Seq<u8>) -> Seq<u8>
    decreases s.len(),
{
    if s.len() > 0 && is_blank(s[0]) {
        trim_start(s.drop_first())
    } else {
        s
    }
}

/// `s` less its trailing ASCII whitespace.
pub open spec fn trim_end(s: Seq<u8>) -> Seq<u8>
    decreases s.len(),
{
    if s.len() > 0 && is_blank(s.last()) {
        trim_end(s.drop_last())
    } else {
        s
    }
}

/// `s` less its leading and trailing ASCII whitespace.
pub open spec fn trim(s: Seq<u8>) -> Seq<u8> {
    trim_end(trim_start(s))
}

/// Every byte of `s` is a decimal digit.
pub open spec fn all_digits(s: Seq<u8>) -> bool {
    forall|i: int| 0 <= i < s.len() ==> is_digit(#[trigger] s[i])
}

/// Reads the id of a `client_left` payload: decimal digits, with ASCII
/// whitespace allowed around them. Fails with `MalformedPayload` when the
/// trimmed payload is empty, holds a non-digit, or exceeds `u32::MAX`.
pub fn parse_id(payload: &[u8]) -> (r: Result<u32, CodecError>)
    ensures
        r is Ok <==> trim(payload@).len() > 0 && all_digits(trim(payload@)) && decimal_value(
            trim(payload@),
        ) <= u32::MAX,
        r matches Ok(n) ==> n == decimal_value(trim(payload@)),
        r is Err ==> r == Err::<u32, CodecError>(CodecError::MalformedPayload),
{
    let n = payload.len();
    let mut lo: usize = 0;
    assert(payload@.subrange(0, n as int) =~= payload@);
    while lo < n && (payload[lo] == 32 || (9 <= payload[lo] && payload[lo] <= 13))
        invariant
            lo <= n == payload@.len(),
            trim_start(payload@) == trim_start(payload@.subrange(lo as int, n as int)),
        decreases n - lo,
    {
        assert(payload@.subrange(lo as int, n as int).drop_first() =~= payload@.subrange(
            lo + 1,
            n as int,
        ));
        lo += 1;
    }
    assert(payload@.subrange(0, n as int) =~= payload@);
    assert(trim_start(payload@) == payload@.subrange(lo as int, n as int));
    let mut hi: usize = n;
    while hi > lo && (payload[hi - 1] == 32 || (9 <= payload[hi - 1] && payload[hi - 1] <= 13))
        invariant
            lo <= hi <= n == payload@.len(),
            trim(payload@) == trim_end(payload@.subrange(lo as int, hi as int)),
        decreases hi - lo,
    {
        assert(payload@.subrange(lo as int, hi as int).drop_last() =~= payload@.subrange(
            lo as int,
            hi - 1,
        ));
        hi -= 1;
    }
    let ghost t = payload@.subrange(lo as int, hi as int);
    assert(trim(payload@) == t);
    let mut digits: Vec<u8> = Vec::new();
    let mut i: usize = lo;
    while i < hi
        invariant
            lo <= i <= hi <= payload@.len(),
            digits@ == payload@.subrange(lo as int, i as int),
        decreases hi - i,
    {
        digits.push(payload[i]);
        i += 1;
        assert(digits@ =~= payload@.subrange(lo as int, i as int));
    }
    match parse_decimal(&digits, u32::MAX as u64) {
        Some(v) => Ok(v as u32),
        None => Err(CodecError::MalformedPayload),
    }
}

/// Whether `a` holds exactly the bytes of `b`.
pub fn same_bytes(a: &[u8], b: &[u8]) -> (r: bool)
    ensures
        r == (a@ == b@),
{
    if a.len() != b.len() {
        return false;
    }
    let mut i: usize = 0;
    while i < a.len()
        invariant
            a@.len() == b@.len(),
            i <= a@.len(),
            forall|j: int| 0 <= j < i ==> a@[j] == b@[j],
        decreases a@.len() - i,
    {
        if a[i] != b[i] {
            return false;
        }
        i += 1;
    }
    assert(a@ =~= b@);
    true
}

/// `w` spells, in decimal digits, a number no larger than `max`.
pub open spec fn number_ok(w: Seq<u8>, max: int) -> bool {
    w.len() > 0 && all_digits(w) && decimal_value(w) <= max
}

/// Reads a word of decimal digits whose value is at most `max`.
pub fn parse_decimal(w: &Vec<u8>, max: u64) -> (r: Option<u64>)
    ensures
        r is Some <==> number_ok(w@, max as int),
        r matches Some(v) ==> v == decimal_value(w@),
{
    if w.len() == 0 {
        return None;
    }
    let mut value: u64 = 0;
    let mut i: usize = 0;
    while i < w.len()
        invariant
            i <= w@.len(),
            forall|j: int| 0 <= j < i ==> is_digit(#[trigger] w@[j]),
            value == decimal_value(w@.subrange(0, i as int)),
            value <= max,
        decreases w@.len() - i,
    {
        let b = w[i];
        if !(48 <= b && b <= 57) {
            return None;
        }
        proof {
            assert(w@.subrange(0, i + 1).drop_last() =~= w@.subrange(0, i as int));
        }
        let d = (b - 48) as u64;
        if d > max || value > (max - d) / 10 {
            proof {
                if d <= max {
                    assert(value * 10 + d > max) by (nonlinear_arith)
                        requires
                            value > (max - d) / 10,
                            max >= d,
                    ;
                }
                if all_digits(w@) {
                    lemma_decimal_value_grows(w@, 0, i + 1, w@.len() as int);
                    assert(w@.subrange(0, w@.len() as int) =~= w@);
                }
            }
            return None;
        }
        proof {
            assert(value * 10 + d <= max) by (nonlinear_arith)
                requires
                    value <= (max - d) / 10,
                    max >= d,
            ;
        }
        value = value * 10 + d;
        i += 1;
    }
    assert(w@.subrange(0, i as int) =~= w@);
    Some(value)
}

proof fn lemma_decimal_value_grows(s: Seq<u8>, lo: int, mid: int, hi: int)
    requires
        0 <= lo <= mid <= hi <= s.len(),
        forall|j: int| lo <= j < mid ==> is_digit(#[trigger] s[j]),
    ensures
        (forall|j: int| lo <= j < hi ==> is_digit(#[trigger] s[j])) ==> decimal_value(
            s.subrange(lo, hi),
        ) >= decimal_value(s.subrange(lo, mid)),
    decreases hi - mid,
{
    if mid < hi && (forall|j: int| lo <= j < hi ==> is_digit(#[trigger] s[j])) {
        lemma_decimal_value_grows(s, lo, mid, hi - 1);
        assert(s.subrange(lo, hi).drop_last() =~= s.subrange(lo, hi - 1));
        lemma_decimal_value_nonneg(s.subrange(lo, hi - 1));
    }
}

proof fn lemma_decimal_value_nonneg(s: Seq<u8>)
    requires
        forall|j: int| 0 <= j < s.len() ==> is_digit(#[trigger] s[j]),
    ensures
        decimal_value(s) >= 0,
    decreases s.len(),
{
    if s.len() > 0 {
        lemma_decimal_value_nonneg(s.drop_last());
    }
}

} // verus!
