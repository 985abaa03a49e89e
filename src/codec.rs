//! The line protocol: eight whitespace-separated decimal integers per
//! newline-terminated line.
use vstd::prelude::*;

verus! {

/// The byte that ends a line.
pub const NEWLINE: u8 = 0x0a;

/// The largest magnitude that an `i64` can hold (that of `i64::MIN`).
pub const I64_MAGNITUDE: u128 = 0x8000_0000_0000_0000;

/// Any magnitude above `I64_MAGNITUDE` is out of range; the parser stops counting here.
pub const MAGNITUDE_CAP: u128 = 0x8000_0000_0000_0001;

/// Whitespace as `char::is_whitespace` has it within ASCII: tab, line feed,
/// vertical tab, form feed, carriage return and space.
pub open spec fn is_space(b: u8) -> bool {
    (0x09 <= b && b <= 0x0d) || b == 0x20
}

/// The three-byte UTF-8 forms of the whitespace characters beyond Latin-1:
/// U+1680, U+2000 to U+200A, U+2028, U+2029, U+202F, U+205F and U+3000.
pub open spec fn is_wide_space(a: u8, b: u8, c: u8) -> bool {
    ||| (a == 0xe1 && b == 0x9a && c == 0x80)
    ||| (a == 0xe2 && b == 0x80 && ((0x80 <= c && c <= 0x8a) || c == 0xa8 || c == 0xa9 || c
        == 0xaf))
    ||| (a == 0xe2 && b == 0x81 && c == 0x9f)
    ||| (a == 0xe3 && b == 0x80 && c == 0x80)
}

/// The length in bytes of the whitespace character that `s` starts with, as
/// `char::is_whitespace` decides it, or 0 when `s` does not start with one.
/// Besides ASCII whitespace these are U+0085 and U+00A0 (two bytes) and the
/// three-byte forms of `is_wide_space`.
pub open spec fn space_len(s: Seq<u8>) -> int {
    if s.len() >= 1 && is_space(s[0]) {
        1
    } else if s.len() >= 2 && s[0] == 0xc2 && (s[1] == 0x85 || s[1] == 0xa0) {
        2
    } else if s.len() >= 3 && is_wide_space(s[0], s[1], s[2]) {
        3
    } else {
        0
    }
}

pub open spec fn is_digit(b: u8) -> bool {
    0x30 <= b && b <= 0x39
}

pub open spec fn all_digits(s: Seq<u8>) -> bool {
    forall|i: int| 0 <= i < s.len() ==> #[trigger] is_digit(s[i])
}

/// The value of a run of decimal digits, most significant first.
pub open spec fn digits_value(s: Seq<u8>) -> int
    decreases s.len(),
{
    if s.len() == 0 {
        0
    } else {
        digits_value(s.drop_last()) * 10 + (s.last() as int - 0x30)
    }
}

pub open spec fn capped(v: int) -> int {
    if v > MAGNITUDE_CAP as int {
        MAGNITUDE_CAP as int
    } else {
        v
    }
}

/// What a token reads as: an optional sign, then one or more decimal digits,
/// with a value in the range of `i64`.
pub open spec fn token_value(t: Seq<u8>) -> Option<i64> {
    if t.len() == 0 {
        None
    } else if t[0] == 0x2d {
        let d = t.drop_first();
        if d.len() > 0 && all_digits(d) && digits_value(d) <= I64_MAGNITUDE as int {
            Some((-digits_value(d)) as i64)
        } else {
            None
        }
    } else {
        let d = if t[0] == 0x2b { t.drop_first() } else { t };
        if d.len() > 0 && all_digits(d) && digits_value(d) < I64_MAGNITUDE as int {
            Some(digits_value(d) as i64)
        } else {
            None
        }
    }
}

fn is_digit_byte(b: u8) -> (r: bool)
    ensures
        r == is_digit(b),
{
    0x30 <= b && b <= 0x39
}

fn is_space_byte(b: u8) -> (r: bool)
    ensures
        r == is_space(b),
{
    (0x09 <= b && b <= 0x0d) || b == 0x20
}

/// Reads one token as a signed 64-bit integer.
pub fn parse_i64(t: &[u8]) -> (r: Option<i64>)
    ensures
        r == token_value(t@),
{
    let n = t.len();
    if n == 0 {
        return None;
    }
    let negative = t[0] == 0x2d;
    let start: usize = if t[0] == 0x2d || t[0] == 0x2b {
        1
    } else {
        0
    };
    let ghost d = t@.subrange(start as int, n as int);
    assert(start == 1 ==> d =~= t@.drop_first());
    assert(start == 0 ==> d =~= t@);
    if start >= n {
        return None;
    }
    let mut acc: u128 = 0;
    let mut i: usize = start;
    while i < n
        invariant
            start <= i <= n,
            n == t@.len(),
            d == t@.subrange(start as int, n as int),
            start == 1 ==> d == t@.drop_first(),
            start == 0 ==> d == t@,
            (t@[0] == 0x2d || t@[0] == 0x2b) <==> start == 1,
            negative == (t@[0] == 0x2d),
            all_digits(t@.subrange(start as int, i as int)),
            acc as int == capped(digits_value(t@.subrange(start as int, i as int))),
        decreases n - i,
    {
        if !is_digit_byte(t[i]) {
            assert(d[i - start] == t@[i as int]);
            assert(!is_digit(d[i - start]));
            assert(!all_digits(d));
            return None;
        }
        let digit = (t[i] - 0x30) as u128;
        let ghost prev = t@.subrange(start as int, i as int);
        let ghost next = t@.subrange(start as int, i + 1);
        assert(next.drop_last() =~= prev);
        assert(digits_value(next) == digits_value(prev) * 10 + digit);
        let step = acc * 10 + digit;
        acc = if step > MAGNITUDE_CAP {
            MAGNITUDE_CAP
        } else {
            step
        };
        i += 1;
        assert forall|k: int| 0 <= k < next.len() implies #[trigger] is_digit(next[k]) by {
            if k < prev.len() {
                assert(next[k] == prev[k]);
            }
        }
    }
    assert(t@.subrange(start as int, n as int) == d);
    if negative {
        if acc > I64_MAGNITUDE {
            None
        } else {
            Some((0i128 - acc as i128) as i64)
        }
    } else {
        if acc >= I64_MAGNITUDE {
            None
        } else {
            Some(acc as i64)
        }
    }
}

/// The tokens of `s` when `cur` holds the token read so far.
pub open spec fn flush(cur: Seq<u8>) -> Seq<Seq<u8>> {
    if cur.len() == 0 {
        seq![]
    } else {
        seq![cur]
    }
}

pub open spec fn scan(s: Seq<u8>, cur: Seq<u8>) -> Seq<Seq<u8>>
    decreases s.len(),
{
    if s.len() == 0 {
        flush(cur)
    } else if space_len(s) > 0 {
        flush(cur) + scan(s.subrange(space_len(s), s.len() as int), seq![])
    } else {
        scan(s.drop_first(), cur.push(s[0]))
    }
}

/// The maximal runs of `s` without a whitespace character, in order. On
/// valid UTF-8 these are the pieces of `str::split_whitespace`: a byte inside
/// a multi-byte character never starts a whitespace character.
pub open spec fn tokens(s: Seq<u8>) -> Seq<Seq<u8>> {
    scan(s, seq![])
}

pub open spec fn views(v: Seq<Vec<u8>>) -> Seq<Seq<u8>> {
    v.map_values(|x: Vec<u8>| x@)
}

/// The length of the whitespace character at `line[i]`, or 0.
fn space_len_at(line: &[u8], i: usize) -> (k: usize)
    requires
        i < line@.len(),
    ensures
        k == space_len(line@.subrange(i as int, line@.len() as int)),
{
    let ghost rest = line@.subrange(i as int, line@.len() as int);
    let n = line.len();
    let a = line[i];
    assert(rest[0] == a);
    if is_space_byte(a) {
        return 1;
    }
    if i + 1 < n {
        let b = line[i + 1];
        assert(rest[1] == b);
        if a == 0xc2 && (b == 0x85 || b == 0xa0) {
            return 2;
        }
        if i + 2 < n {
            let c = line[i + 2];
            assert(rest[2] == c);
            let wide = (a == 0xe1 && b == 0x9a && c == 0x80) || (a == 0xe2 && b == 0x80 && ((0x80
                <= c && c <= 0x8a) || c == 0xa8 || c == 0xa9 || c == 0xaf)) || (a == 0xe2 && b
                == 0x81 && c == 0x9f) || (a == 0xe3 && b == 0x80 && c == 0x80);
            if wide {
                return 3;
            }
        }
    }
    0
}

/// Splits a line into its whitespace-separated tokens.
pub fn split_fields(line: &[u8]) -> (r: Vec<Vec<u8>>)
    ensures
        views(r@) == tokens(line@),
{
    let mut out: Vec<Vec<u8>> = Vec::new();
    let mut cur: Vec<u8> = Vec::new();
    let mut i: usize = 0;
    assert(line@.subrange(0, line@.len() as int) =~= line@);
    assert(views(out@) =~= seq![]);
    assert(views(out@) + tokens(line@) =~= tokens(line@));
    while i < line.len()
        invariant
            i <= line@.len(),
            tokens(line@) == views(out@) + scan(line@.subrange(i as int, line@.len() as int), cur@),
        decreases line.len() - i,
    {
        let ghost rest = line@.subrange(i as int, line@.len() as int);
        let b = line[i];
        let k = space_len_at(line, i);
        if k > 0 {
            let ghost next = line@.subrange(i + k, line@.len() as int);
            assert(rest.subrange(k as int, rest.len() as int) =~= next);
            let ghost before = views(out@);
            let ghost c = cur@;
            assert(scan(rest, c) == flush(c) + scan(next, seq![]));
            if cur.len() > 0 {
                let done = cur;
                out.push(done);
                assert(views(out@) =~= before + flush(c));
                cur = Vec::new();
            } else {
                assert(flush(c) =~= seq![]);
                assert(views(out@) =~= before + flush(c));
            }
            assert(before + (flush(c) + scan(next, seq![])) =~= (before + flush(c)) + scan(
                next,
                seq![],
            ));
            assert(cur@ =~= seq![]);
            i += k;
        } else {
            let ghost next = line@.subrange(i + 1, line@.len() as int);
            assert(rest.drop_first() =~= next);
            assert(rest[0] == b);
            cur.push(b);
            i += 1;
        }
    }
    let ghost before = views(out@);
    let ghost c = cur@;
    assert(line@.subrange(i as int, line@.len() as int) =~= seq![]);
    assert(tokens(line@) == before + flush(c));
    if cur.len() > 0 {
        out.push(cur);
        assert(views(out@) =~= before + flush(c));
    } else {
        assert(before + flush(c) =~= before);
    }
    out
}

/// Why a line could not be decoded.
#[derive(Clone, Copy, Debug, PartialEq, Eq, Structural)]
pub enum DecodeError {
    /// Fewer than eight tokens on the line; the position (0 to 7) of the
    /// first field that is missing.
    MissingField(usize),
    /// The field at this position (0 to 7), the first of the eight that is
    /// not a signed 64-bit decimal integer.
    InvalidField(usize),
    /// The line is not valid UTF-8 text.
    InvalidEncoding,
}

/// One sampled measurement.
///
/// `displacement` is not received: it is the change of `total_displacement`
/// since the previous buffered reading, times the configured scale, and is
/// zero on a reading fresh from the decoder.
#[derive(Clone, Copy, Debug, PartialEq, Eq, Structural)]
pub struct Reading {
    pub reference: i64,
    pub measured: i64,
    pub total_displacement: i64,
    pub velocity: i64,
    pub zero: i64,
    pub sequence_num: i64,
    pub code: i64,
    pub data: i64,
    pub displacement: i128,
}

/// The number of fields on a line.
pub const FIELD_COUNT: usize = 8;

pub open spec fn field(ts: Seq<Seq<u8>>, k: int) -> i64 {
    token_value(ts[k]).unwrap()
}

/// The reading whose fields, in wire order, are the first eight tokens.
pub open spec fn reading_of(ts: Seq<Seq<u8>>) -> Reading {
    Reading {
        reference: field(ts, 0),
        measured: field(ts, 1),
        total_displacement: field(ts, 2),
        velocity: field(ts, 3),
        zero: field(ts, 4),
        sequence_num: field(ts, 5),
        code: field(ts, 6),
        data: field(ts, 7),
        displacement: 0,
    }
}

/// The position of the first of the fields `j` to 7 whose token is not an
/// integer, or `FIELD_COUNT` when they all are.
pub open spec fn first_invalid(ts: Seq<Seq<u8>>, j: int) -> int
    decreases FIELD_COUNT - j,
{
    if j < 0 || j >= FIELD_COUNT {
        FIELD_COUNT as int
    } else if token_value(ts[j]) is None {
        j
    } else {
        first_invalid(ts, j + 1)
    }
}

/// What a line with tokens `ts` decodes to: the count of tokens is checked
/// first, then the eight fields in order.
pub open spec fn fields_result(ts: Seq<Seq<u8>>) -> Result<Reading, DecodeError> {
    if ts.len() < FIELD_COUNT {
        Err(DecodeError::MissingField(ts.len() as usize))
    } else if first_invalid(ts, 0) < FIELD_COUNT {
        Err(DecodeError::InvalidField(first_invalid(ts, 0) as usize))
    } else {
        Ok(reading_of(ts))
    }
}

/// The `k`-th field of a line's tokens, read as a signed 64-bit integer.
pub fn next_field(ts: &Vec<Vec<u8>>, k: usize) -> (r: Result<i64, DecodeError>)
    ensures
        k >= ts@.len() ==> r == Err::<i64, DecodeError>(DecodeError::MissingField(k)),
        k < ts@.len() ==> r == match token_value(ts@[k as int]@) {
            Some(v) => Ok::<i64, DecodeError>(v),
            None => Err(DecodeError::InvalidField(k)),
        },
{
    if k >= ts.len() {
        return Err(DecodeError::MissingField(k));
    }
    match parse_i64(ts[k].as_slice()) {
        Some(v) => Ok(v),
        None => Err(DecodeError::InvalidField(k)),
    }
}

proof fn lemma_first_invalid(ts: Seq<Seq<u8>>, j: int, k: int)
    requires
        0 <= j <= k < FIELD_COUNT,
        token_value(ts[k]) is None,
    ensures
        j <= first_invalid(ts, j) <= k,
        token_value(ts[first_invalid(ts, j)]) is None,
        forall|i: int| j <= i < first_invalid(ts, j) ==> token_value(#[trigger] ts[i]) is Some,
    decreases k - j,
{
    if token_value(ts[j]) is Some {
        lemma_first_invalid(ts, j + 1, k);
    }
}

/// A line of text with fewer than eight tokens fails with `MissingField`,
/// naming the first position without a token; one with eight or more, of
/// which one of the first eight is not an integer, fails with `InvalidField`,
/// naming the first such position.
pub proof fn lemma_field_errors(line: Seq<u8>, k: int)
    ensures
        tokens(line).len() < FIELD_COUNT ==> fields_result(tokens(line)) == Err::<Reading, DecodeError>(
            DecodeError::MissingField(tokens(line).len() as usize),
        ),
        tokens(line).len() >= FIELD_COUNT && 0 <= k < FIELD_COUNT && token_value(tokens(line)[k])
            is None ==> exists|j: int|
            0 <= j <= k && fields_result(tokens(line)) == Err::<Reading, DecodeError>(
                DecodeError::InvalidField(j as usize),
            ) && token_value(#[trigger] tokens(line)[j]) is None && forall|i: int|
                0 <= i < j ==> token_value(#[trigger] tokens(line)[i]) is Some,
        utf8_valid(line) ==> line_result(line) == fields_result(tokens(line)),
{
    let ts = tokens(line);
    if ts.len() >= FIELD_COUNT && 0 <= k < FIELD_COUNT && token_value(ts[k]) is None {
        lemma_first_invalid(ts, 0, k);
        let j = first_invalid(ts, 0);
        assert(token_value(ts[j]) is None);
    }
}

/// Decodes the text of one line, already known to be valid UTF-8.
pub fn decode_fields(line: &[u8]) -> (r: Result<Reading, DecodeError>)
    ensures
        r == fields_result(tokens(line@)),
{
    let ts = split_fields(line);
    let ghost tv = tokens(line@);
    assert(tv.len() == ts@.len());
    if ts.len() < FIELD_COUNT {
        return Err(DecodeError::MissingField(ts.len()));
    }
    let mut vals: Vec<i64> = Vec::new();
    let mut k: usize = 0;
    while k < FIELD_COUNT
        invariant
            k <= FIELD_COUNT,
            views(ts@) == tv,
            tv == tokens(line@),
            ts@.len() >= FIELD_COUNT,
            vals@.len() == k,
            forall|j: int| 0 <= j < k ==> token_value(#[trigger] tv[j]) == Some(vals@[j]),
            first_invalid(tv, 0) == first_invalid(tv, k as int),
        decreases FIELD_COUNT - k,
    {
        assert(tv[k as int] == ts@[k as int]@);
        match next_field(&ts, k) {
            Ok(v) => vals.push(v),
            Err(e) => {
                assert(token_value(tv[k as int]) is None);
                return Err(e);
            },
        }
        k += 1;
    }
    assert(token_value(tv[0]) == Some(vals@[0]));
    assert(token_value(tv[1]) == Some(vals@[1]));
    assert(token_value(tv[2]) == Some(vals@[2]));
    assert(token_value(tv[3]) == Some(vals@[3]));
    assert(token_value(tv[4]) == Some(vals@[4]));
    assert(token_value(tv[5]) == Some(vals@[5]));
    assert(token_value(tv[6]) == Some(vals@[6]));
    assert(token_value(tv[7]) == Some(vals@[7]));
    Ok(
        Reading {
            reference: vals[0],
            measured: vals[1],
            total_displacement: vals[2],
            velocity: vals[3],
            zero: vals[4],
            sequence_num: vals[5],
            code: vals[6],
            data: vals[7],
            displacement: 0,
        },
    )
}

/// Whether a byte sequence is well-formed UTF-8, as `std::str::from_utf8` decides it.
pub uninterp spec fn utf8_valid(b: Seq<u8>) -> bool;

/// Relies on `std::str::from_utf8`: it accepts exactly the well-formed UTF-8
/// sequences, and every sequence of ASCII bytes is one.
#[verifier::external_body]
fn is_utf8(b: &[u8]) -> (r: bool)
    ensures
        r == utf8_valid(b@),
        (forall|i: int| 0 <= i < b@.len() ==> b@[i] < 0x80) ==> r,
{
    std::str::from_utf8(b).is_ok()
}

/// What one line decodes to: text first, then the eight fields.
pub open spec fn line_result(line: Seq<u8>) -> Result<Reading, DecodeError> {
    if !utf8_valid(line) {
        Err(DecodeError::InvalidEncoding)
    } else {
        fields_result(tokens(line))
    }
}

/// Decodes one line of the protocol.
pub fn decode_line(line: &[u8]) -> (r: Result<Reading, DecodeError>)
    ensures
        r == line_result(line@),
        (forall|i: int| 0 <= i < line@.len() ==> line@[i] < 0x80) ==> utf8_valid(line@),
{
    if !is_utf8(line) {
        return Err(DecodeError::InvalidEncoding);
    }
    decode_fields(line)
}

/// The index of the first newline in `s` at or after `i`, or `s.len()` if there is none.
pub open spec fn newline_from(s: Seq<u8>, i: int) -> int
    decreases s.len() - i,
{
    if i < 0 || i >= s.len() {
        s.len() as int
    } else if s[i] == NEWLINE {
        i
    } else {
        newline_from(s, i + 1)
    }
}

pub open spec fn first_newline(s: Seq<u8>) -> int {
    newline_from(s, 0)
}

/// The complete lines held in `s`, each with its newline, in order.
pub open spec fn frames(s: Seq<u8>) -> Seq<Seq<u8>>
    decreases s.len(),
{
    let n = first_newline(s);
    if 0 <= n < s.len() {
        seq![s.subrange(0, n + 1)] + frames(s.subrange(n + 1, s.len() as int))
    } else {
        seq![]
    }
}

/// The bytes of `s` after its last newline: a line not yet complete.
pub open spec fn pending(s: Seq<u8>) -> Seq<u8>
    decreases s.len(),
{
    let n = first_newline(s);
    if 0 <= n < s.len() {
        pending(s.subrange(n + 1, s.len() as int))
    } else {
        s
    }
}

/// What a decoder with buffer `s` hands out next.
pub open spec fn poll_result(s: Seq<u8>) -> Result<Option<Reading>, DecodeError> {
    let n = first_newline(s);
    if n < s.len() {
        match line_result(s.subrange(0, n + 1)) {
            Ok(reading) => Ok(Some(reading)),
            Err(e) => Err(e),
        }
    } else {
        Ok(None)
    }
}

/// What stays buffered after the next poll.
pub open spec fn after_poll(s: Seq<u8>) -> Seq<u8> {
    let n = first_newline(s);
    if n < s.len() {
        s.subrange(n + 1, s.len() as int)
    } else {
        s
    }
}

proof fn lemma_newline_from_bounds(s: Seq<u8>, i: int)
    requires
        0 <= i <= s.len(),
    ensures
        i <= newline_from(s, i) <= s.len(),
        newline_from(s, i) < s.len() ==> s[newline_from(s, i)] == NEWLINE,
        forall|j: int| i <= j < newline_from(s, i) ==> s[j] != NEWLINE,
    decreases s.len() - i,
{
    if i < s.len() && s[i] != NEWLINE {
        lemma_newline_from_bounds(s, i + 1);
    }
}

proof fn lemma_newline_in_prefix(a: Seq<u8>, b: Seq<u8>, i: int)
    requires
        0 <= i <= a.len(),
        newline_from(a, i) < a.len(),
    ensures
        newline_from(a + b, i) == newline_from(a, i),
    decreases a.len() - i,
{
    assert((a + b)[i] == a[i]);
    if a[i] != NEWLINE {
        lemma_newline_in_prefix(a, b, i + 1);
    }
}

/// The readings, or decode failures, of the complete lines of `s`, in order.
pub open spec fn records(s: Seq<u8>) -> Seq<Result<Reading, DecodeError>> {
    frames(s).map_values(|line: Seq<u8>| line_result(line))
}

/// Chunk boundaries do not matter: feeding `a` and taking out its complete
/// lines, then feeding `b` and taking out the rest, yields the same lines, and
/// so the same records, and leaves the same incomplete tail, as feeding `a + b`
/// at once.
pub proof fn lemma_chunk_independence(a: Seq<u8>, b: Seq<u8>)
    ensures
        frames(a + b) == frames(a) + frames(pending(a) + b),
        records(a + b) == records(a) + records(pending(a) + b),
        pending(a + b) == pending(pending(a) + b),
    decreases a.len(),
{
    let n = first_newline(a);
    lemma_newline_from_bounds(a, 0);
    if n < a.len() {
        lemma_newline_in_prefix(a, b, 0);
        let rest = a.subrange(n + 1, a.len() as int);
        assert((a + b).subrange(0, n + 1) =~= a.subrange(0, n + 1));
        assert((a + b).subrange(n + 1, (a + b).len() as int) =~= rest + b);
        lemma_chunk_independence(rest, b);
        assert(frames(a + b) =~= frames(a) + frames(pending(a) + b));
    } else {
        assert(frames(a) =~= seq![]);
        assert(frames(a + b) =~= frames(a) + frames(pending(a) + b));
    }
    assert(records(a + b) =~= records(a) + records(pending(a) + b));
}

/// What calling `decode` on buffer `s` until it returns `Ok(None)` or an
/// error hands out: the readings in order, and the error last if one comes.
pub open spec fn drained(s: Seq<u8>) -> Seq<Result<Reading, DecodeError>>
    decreases s.len(),
{
    let n = first_newline(s);
    if 0 <= n < s.len() {
        match line_result(s.subrange(0, n + 1)) {
            Ok(r) => seq![Ok(r)] + drained(s.subrange(n + 1, s.len() as int)),
            Err(e) => seq![Err(e)],
        }
    } else {
        seq![]
    }
}

/// Whether draining stopped on an error.
pub open spec fn failed(rs: Seq<Result<Reading, DecodeError>>) -> bool {
    rs.len() > 0 && rs.last() is Err
}

/// Chunk boundaries do not matter to a decoder that is drained after every
/// chunk: draining after `a` and then, unless that failed, after `b` hands out
/// exactly what draining once after `a + b` does.
pub proof fn lemma_drained_chunks(a: Seq<u8>, b: Seq<u8>)
    ensures
        failed(drained(a)) ==> drained(a + b) == drained(a),
        !failed(drained(a)) ==> drained(a + b) == drained(a) + drained(pending(a) + b),
    decreases a.len(),
{
    let n = first_newline(a);
    lemma_newline_from_bounds(a, 0);
    if n < a.len() {
        lemma_newline_in_prefix(a, b, 0);
        let rest = a.subrange(n + 1, a.len() as int);
        assert((a + b).subrange(0, n + 1) =~= a.subrange(0, n + 1));
        assert((a + b).subrange(n + 1, (a + b).len() as int) =~= rest + b);
        lemma_drained_chunks(rest, b);
        match line_result(a.subrange(0, n + 1)) {
            Ok(r) => {
                let d = drained(rest);
                assert(drained(a) == seq![Ok::<Reading, DecodeError>(r)] + d);
                if d.len() > 0 {
                    assert(drained(a).last() == d.last());
                }
                assert(drained(a + b) =~= seq![Ok::<Reading, DecodeError>(r)] + drained(rest + b));
                if !failed(drained(a)) {
                    assert(drained(a + b) =~= drained(a) + drained(pending(a) + b));
                }
            },
            Err(e) => {},
        }
    } else {
        assert(drained(a) =~= seq![]);
        assert(drained(a + b) =~= drained(a) + drained(pending(a) + b));
    }
}

/// The decoder hands out the complete lines of its buffer one at a time, first to last.
pub proof fn lemma_poll_takes_first_frame(s: Seq<u8>)
    ensures
        frames(s).len() == 0 ==> poll_result(s) == Ok::<Option<Reading>, DecodeError>(None)
            && after_poll(s) == s && drained(s).len() == 0,
        frames(s).len() > 0 ==> drained(s)[0] == records(s)[0] && (records(s)[0] is Ok ==> drained(s)
            == seq![records(s)[0]] + drained(after_poll(s))),
        frames(s).len() > 0 ==> frames(after_poll(s)) == frames(s).drop_first() && match records(
            s,
        )[0] {
            Ok(reading) => poll_result(s) == Ok::<Option<Reading>, DecodeError>(Some(reading)),
            Err(e) => poll_result(s) == Err::<Option<Reading>, DecodeError>(e),
        },
{
    lemma_newline_from_bounds(s, 0);
    if first_newline(s) < s.len() {
        assert(frames(after_poll(s)) =~= frames(s).drop_first());
    }
}

/// The decimal digits of `n`, most significant first, without leading zeros.
pub open spec fn digits_of(n: nat) -> Seq<u8>
    decreases n,
{
    if n < 10 {
        seq![(0x30 + n) as u8]
    } else {
        digits_of(n / 10).push((0x30 + n % 10) as u8)
    }
}

/// `v` written in decimal, with a leading `-` when negative.
pub open spec fn decimal(v: int) -> Seq<u8> {
    if v < 0 {
        seq![0x2du8] + digits_of((-v) as nat)
    } else {
        digits_of(v as nat)
    }
}

/// Tokens each followed by one separator: a space, or a newline after the last.
pub open spec fn joined(ts: Seq<Seq<u8>>) -> Seq<u8>
    decreases ts.len(),
{
    if ts.len() == 0 {
        seq![]
    } else {
        ts[0] + seq![if ts.len() == 1 { NEWLINE } else { 0x20u8 }] + joined(ts.drop_first())
    }
}

/// The eight fields of a reading in wire order, as decimal tokens.
pub open spec fn field_tokens(r: Reading) -> Seq<Seq<u8>> {
    seq![
        decimal(r.reference as int),
        decimal(r.measured as int),
        decimal(r.total_displacement as int),
        decimal(r.velocity as int),
        decimal(r.zero as int),
        decimal(r.sequence_num as int),
        decimal(r.code as int),
        decimal(r.data as int),
    ]
}

/// The protocol line that carries a reading.
pub open spec fn encoded(r: Reading) -> Seq<u8> {
    joined(field_tokens(r))
}

/// An ASCII byte that is not whitespace.
pub open spec fn is_plain(b: u8) -> bool {
    b < 0x80 && !is_space(b)
}

pub open spec fn is_word(t: Seq<u8>) -> bool {
    t.len() > 0 && forall|i: int| 0 <= i < t.len() ==> #[trigger] is_plain(t[i])
}

proof fn lemma_digits_of(n: nat)
    ensures
        digits_of(n).len() > 0,
        all_digits(digits_of(n)),
        digits_value(digits_of(n)) == n,
        is_digit(digits_of(n)[0]),
    decreases n,
{
    if n >= 10 {
        lemma_digits_of(n / 10);
        let d = digits_of(n);
        assert(d.drop_last() =~= digits_of(n / 10));
        assert(d.last() as int == 0x30 + n % 10);
        assert((n / 10) * 10 + n % 10 == n) by (nonlinear_arith);
        assert(digits_value(d) == digits_value(d.drop_last()) * 10 + (d.last() as int - 0x30));
        assert(digits_value(d) == (n / 10) * 10 + n % 10);
        assert forall|i: int| 0 <= i < d.len() implies #[trigger] is_digit(d[i]) by {
            if i < d.len() - 1 {
                assert(d[i] == digits_of(n / 10)[i]);
            }
        }
    } else {
        let d = digits_of(n);
        assert(d.drop_last() =~= Seq::<u8>::empty());
        assert(digits_value(d) == digits_value(d.drop_last()) * 10 + (d.last() as int - 0x30));
    }
}

proof fn lemma_decimal(v: int)
    requires
        i64::MIN <= v <= i64::MAX,
    ensures
        token_value(decimal(v)) == Some(v as i64),
        is_word(decimal(v)),
{
    let t = decimal(v);
    if v < 0 {
        lemma_digits_of((-v) as nat);
        assert(t.drop_first() =~= digits_of((-v) as nat));
        assert forall|i: int| 0 <= i < t.len() implies #[trigger] is_plain(t[i]) by {
            if i > 0 {
                assert(t[i] == digits_of((-v) as nat)[i - 1]);
                assert(is_digit(digits_of((-v) as nat)[i - 1]));
            }
        }
    } else {
        lemma_digits_of(v as nat);
        assert forall|i: int| 0 <= i < t.len() implies #[trigger] is_plain(t[i]) by {
            assert(is_digit(t[i]));
        }
    }
}

proof fn lemma_scan_word(t: Seq<u8>, r: Seq<u8>, cur: Seq<u8>)
    requires
        forall|i: int| 0 <= i < t.len() ==> #[trigger] is_plain(t[i]),
    ensures
        scan(t + r, cur) == scan(r, cur + t),
    decreases t.len(),
{
    if t.len() == 0 {
        assert(t + r =~= r);
        assert(cur + t =~= cur);
    } else {
        assert((t + r)[0] == t[0]);
        assert((t + r).drop_first() =~= t.drop_first() + r);
        assert(is_plain(t[0]));
        assert(space_len(t + r) == 0);
        lemma_scan_word(t.drop_first(), r, cur.push(t[0]));
        assert(cur.push(t[0]) + t.drop_first() =~= cur + t);
    }
}

proof fn lemma_tokens_joined(ts: Seq<Seq<u8>>)
    requires
        forall|k: int| 0 <= k < ts.len() ==> is_word(#[trigger] ts[k]),
    ensures
        tokens(joined(ts)) == ts,
    decreases ts.len(),
{
    if ts.len() == 0 {
        assert(tokens(joined(ts)) =~= ts);
    } else {
        let t = ts[0];
        let sep: u8 = if ts.len() == 1 { NEWLINE } else { 0x20u8 };
        let tail = seq![sep] + joined(ts.drop_first());
        assert(joined(ts) =~= t + tail);
        assert(is_word(t));
        lemma_scan_word(t, tail, seq![]);
        assert(seq![] + t =~= t);
        assert(tail[0] == sep);
        assert(space_len(tail) == 1);
        assert(tail.subrange(1, tail.len() as int) =~= joined(ts.drop_first()));
        assert forall|k: int| 0 <= k < ts.drop_first().len() implies is_word(
            #[trigger] ts.drop_first()[k],
        ) by {
            assert(ts.drop_first()[k] == ts[k + 1]);
        }
        lemma_tokens_joined(ts.drop_first());
        assert(tokens(joined(ts)) =~= ts);
    }
}

proof fn lemma_joined_ascii(ts: Seq<Seq<u8>>)
    requires
        forall|k: int| 0 <= k < ts.len() ==> is_word(#[trigger] ts[k]),
    ensures
        forall|i: int| 0 <= i < joined(ts).len() ==> #[trigger] joined(ts)[i] < 0x80,
        forall|i: int| 0 <= i < joined(ts).len() - 1 ==> #[trigger] joined(ts)[i] != NEWLINE,
        ts.len() > 0 ==> joined(ts).len() > 0 && joined(ts).last() == NEWLINE,
    decreases ts.len(),
{
    if ts.len() > 0 {
        let t = ts[0];
        let sep: u8 = if ts.len() == 1 { NEWLINE } else { 0x20u8 };
        let rest = joined(ts.drop_first());
        assert forall|k: int| 0 <= k < ts.drop_first().len() implies is_word(
            #[trigger] ts.drop_first()[k],
        ) by {
            assert(ts.drop_first()[k] == ts[k + 1]);
        }
        lemma_joined_ascii(ts.drop_first());
        assert(is_word(t));
        let j = joined(ts);
        assert(j =~= t + seq![sep] + rest);
        assert forall|i: int| 0 <= i < j.len() implies #[trigger] j[i] < 0x80 by {
            if i < t.len() {
                assert(is_plain(t[i]));
            } else if i > t.len() {
                assert(j[i] == rest[i - t.len() - 1]);
            }
        }
        assert forall|i: int| 0 <= i < j.len() - 1 implies #[trigger] j[i] != NEWLINE by {
            if i < t.len() {
                assert(is_plain(t[i]));
            } else if i > t.len() {
                assert(j[i] == rest[i - t.len() - 1]);
            } else {
                assert(ts.len() > 1 ==> sep == 0x20);
                if ts.len() == 1 {
                    assert(rest =~= Seq::<u8>::empty());
                }
            }
        }
        if ts.len() > 1 {
            assert(j.last() == rest.last());
        }
    }
}

/// Encoding a reading and decoding the line gives back every received field;
/// `displacement`, which is not on the wire, comes back zero. So decoding a
/// line, encoding the result and decoding again yields the same reading. The
/// encoded line is ASCII, hence valid text.
pub proof fn lemma_round_trip(r: Reading)
    ensures
        fields_result(tokens(encoded(r))) == Ok::<Reading, DecodeError>(Reading { displacement: 0, ..r }),
        forall|line: Seq<u8>|
            #![trigger fields_result(tokens(line))]
            fields_result(tokens(line)) == Ok::<Reading, DecodeError>(r) ==> fields_result(
                tokens(encoded(r)),
            ) == Ok::<Reading, DecodeError>(r),
        forall|i: int| 0 <= i < encoded(r).len() ==> #[trigger] encoded(r)[i] < 0x80,
        first_newline(encoded(r)) == encoded(r).len() - 1,
        after_poll(encoded(r)) == Seq::<u8>::empty(),
        utf8_valid(encoded(r)) ==> poll_result(encoded(r)) == Ok::<Option<Reading>, DecodeError>(
            Some(Reading { displacement: 0, ..r }),
        ),
{
    let ts = field_tokens(r);
    lemma_decimal(r.reference as int);
    lemma_decimal(r.measured as int);
    lemma_decimal(r.total_displacement as int);
    lemma_decimal(r.velocity as int);
    lemma_decimal(r.zero as int);
    lemma_decimal(r.sequence_num as int);
    lemma_decimal(r.code as int);
    lemma_decimal(r.data as int);
    assert forall|k: int| 0 <= k < ts.len() implies is_word(#[trigger] ts[k]) by {}
    lemma_tokens_joined(ts);
    reveal_with_fuel(first_invalid, 9);
    lemma_joined_ascii(ts);
    let e = encoded(r);
    lemma_newline_from_bounds(e, 0);
    assert(e[e.len() - 1] == NEWLINE);
    assert(e.subrange(0, e.len() as int) =~= e);
    assert(e.subrange(e.len() as int, e.len() as int) =~= Seq::<u8>::empty());
}

/// Appends the decimal digits of `m`.
pub(crate) fn push_digits(out: &mut Vec<u8>, m: u64)
    ensures
        final(out)@ == old(out)@ + digits_of(m as nat),
{
    let mut m = m;
    let ghost n: nat = m as nat;
    let ghost base = out@;
    let mut tail: Vec<u8> = Vec::new();
    assert(digits_of(n) =~= digits_of(m as nat) + tail@);
    while m >= 10
        invariant
            digits_of(n) == digits_of(m as nat) + tail@,
        decreases m,
    {
        tail.insert(0, (0x30 + m % 10) as u8);
        assert(digits_of(m as nat) == digits_of((m / 10) as nat).push((0x30 + m % 10) as u8));
        m = m / 10;
        assert(digits_of(n) =~= digits_of(m as nat) + tail@);
    }
    tail.insert(0, (0x30 + m) as u8);
    assert(digits_of(n) =~= tail@);
    let mut j: usize = 0;
    while j < tail.len()
        invariant
            j <= tail@.len(),
            out@ == base + tail@.subrange(0, j as int),
        decreases tail.len() - j,
    {
        out.push(tail[j]);
        j += 1;
        assert(out@ =~= base + tail@.subrange(0, j as int));
    }
    assert(tail@.subrange(0, j as int) =~= tail@);
}

fn push_decimal(out: &mut Vec<u8>, v: i64)
    ensures
        final(out)@ == old(out)@ + decimal(v as int),
{
    let m: u64 = if v < 0 {
        (0i128 - v as i128) as u64
    } else {
        v as u64
    };
    if v < 0 {
        out.push(0x2d);
    }
    push_digits(out, m);
    assert(out@ =~= old(out)@ + decimal(v as int));
}

/// Writes a reading as one protocol line: its eight received fields in wire
/// order, separated by single spaces and ended by a newline.
pub fn encode_line(r: &Reading) -> (out: Vec<u8>)
    ensures
        out@ == encoded(*r),
{
    let vals: Vec<i64> = vec![
        r.reference,
        r.measured,
        r.total_displacement,
        r.velocity,
        r.zero,
        r.sequence_num,
        r.code,
        r.data,
    ];
    let ghost ts = field_tokens(*r);
    assert forall|k: int| 0 <= k < FIELD_COUNT implies #[trigger] ts[k] == decimal(vals@[k] as int) by {}
    let mut out: Vec<u8> = Vec::new();
    let mut k: usize = 0;
    assert(ts.subrange(0, FIELD_COUNT as int) =~= ts);
    assert(joined(ts) =~= out@ + joined(ts.subrange(0, FIELD_COUNT as int)));
    while k < FIELD_COUNT
        invariant
            k <= FIELD_COUNT,
            vals@.len() == FIELD_COUNT,
            ts == field_tokens(*r),
            forall|j: int| 0 <= j < FIELD_COUNT ==> #[trigger] ts[j] == decimal(vals@[j] as int),
            joined(ts) == out@ + joined(ts.subrange(k as int, FIELD_COUNT as int)),
        decreases FIELD_COUNT - k,
    {
        let ghost rest = ts.subrange(k as int, FIELD_COUNT as int);
        assert(rest.drop_first() =~= ts.subrange(k + 1, FIELD_COUNT as int));
        assert(rest[0] == ts[k as int]);
        let ghost before = out@;
        push_decimal(&mut out, vals[k]);
        if k + 1 == FIELD_COUNT {
            out.push(NEWLINE);
        } else {
            out.push(0x20);
        }
        k += 1;
        assert(out@ =~= before + ts[k - 1] + seq![if rest.len() == 1 { NEWLINE } else { 0x20u8 }]);
        assert(joined(ts) =~= out@ + joined(ts.subrange(k as int, FIELD_COUNT as int)));
    }
    assert(joined(ts.subrange(k as int, FIELD_COUNT as int)) =~= Seq::<u8>::empty());
    assert(out@ =~= joined(ts));
    out
}

/// The incremental line decoder: bytes go in by `feed`, readings come out by `decode`.
pub struct LaserCodec {
    buffer: Vec<u8>,
}

impl View for LaserCodec {
    type V = Seq<u8>;

    closed spec fn view(&self) -> Seq<u8> {
        self.buffer@
    }
}

impl LaserCodec {
    /// A decoder with nothing buffered.
    pub fn new() -> (r: LaserCodec)
        ensures
            r@ == Seq::<u8>::empty(),
    {
        LaserCodec { buffer: Vec::new() }
    }

    /// Appends bytes received from the device.
    pub fn feed(&mut self, bytes: &[u8])
        ensures
            final(self)@ == old(self)@ + bytes@,
    {
        let mut i: usize = 0;
        while i < bytes.len()
            invariant
                i <= bytes@.len(),
                self@ == old(self)@ + bytes@.subrange(0, i as int),
            decreases bytes.len() - i,
        {
            self.buffer.push(bytes[i]);
            i += 1;
            assert(self@ =~= old(self)@ + bytes@.subrange(0, i as int));
        }
        assert(bytes@.subrange(0, i as int) =~= bytes@);
    }

    /// Takes the next complete line out of the buffer and decodes it.
    /// Without a complete line, returns `Ok(None)` and keeps the buffer as it is.
    pub fn decode(&mut self) -> (r: Result<Option<Reading>, DecodeError>)
        ensures
            r == poll_result(old(self)@),
            final(self)@ == after_poll(old(self)@),
            first_newline(old(self)@) < old(self)@.len() && (forall|i: int|
                0 <= i <= first_newline(old(self)@) ==> old(self)@[i] < 0x80) ==> utf8_valid(
                old(self)@.subrange(0, first_newline(old(self)@) + 1),
            ),
    {
        let n = self.buffer.len();
        let mut i: usize = 0;
        while i < n && self.buffer[i] != NEWLINE
            invariant
                i <= n,
                n == self@.len(),
                self@ == old(self)@,
                newline_from(self@, i as int) == first_newline(self@),
            decreases n - i,
        {
            i += 1;
        }
        if i == n {
            return Ok(None);
        }
        let rest = self.buffer.split_off(i + 1);
        assert(self@ == old(self)@.subrange(0, i + 1));
        let decoded = decode_line(self.buffer.as_slice());
        self.buffer = rest;
        match decoded {
            Ok(reading) => Ok(Some(reading)),
            Err(e) => Err(e),
        }
    }
}

} // verus!
