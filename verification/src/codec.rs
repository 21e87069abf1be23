//! The snapshot identifier codec.
//!
//! An identifier is a timestamp written as `YYYY-MM-DDTHH-MM-SS` (fixed
//! width, zero padded, hyphens only so the name stays a single path
//! segment) followed by a suffix.  When the suffix does not already begin
//! with `-`, one is inserted, so the boundary between timestamp and suffix
//! is always stable.  Decoding strips an expected suffix, normalized the
//! same way, and re-parses the prefix; any mismatch yields `None` rather
//! than an error, so entries made by other tools or under another suffix
//! are silently excluded from a listing.

use vstd::prelude::*;

use crate::time::{days_in_month, ts_lt, ts_valid, Timestamp};

verus! {

pub open spec fn digit_to_char(d: int) -> char {
    if d == 0 {
        '0'
    } else if d == 1 {
        '1'
    } else if d == 2 {
        '2'
    } else if d == 3 {
        '3'
    } else if d == 4 {
        '4'
    } else if d == 5 {
        '5'
    } else if d == 6 {
        '6'
    } else if d == 7 {
        '7'
    } else if d == 8 {
        '8'
    } else {
        '9'
    }
}

pub open spec fn is_digit(c: char) -> bool {
    c == '0' || c == '1' || c == '2' || c == '3' || c == '4' || c == '5' || c == '6' || c == '7'
        || c == '8' || c == '9'
}

pub open spec fn digit_val(c: char) -> int {
    if c == '0' {
        0
    } else if c == '1' {
        1
    } else if c == '2' {
        2
    } else if c == '3' {
        3
    } else if c == '4' {
        4
    } else if c == '5' {
        5
    } else if c == '6' {
        6
    } else if c == '7' {
        7
    } else if c == '8' {
        8
    } else {
        9
    }
}

/// A number below 100 as two zero-padded digits.
pub open spec fn pad2(n: int) -> Seq<char> {
    seq![digit_to_char(n / 10), digit_to_char(n % 10)]
}

/// A number below 10000 as four zero-padded digits.
pub open spec fn pad4(n: int) -> Seq<char> {
    seq![
        digit_to_char(n / 1000),
        digit_to_char((n / 100) % 10),
        digit_to_char((n / 10) % 10),
        digit_to_char(n % 10),
    ]
}

/// The 19-character timestamp layout `YYYY-MM-DDTHH-MM-SS`.
pub open spec fn fmt_ts(t: Timestamp) -> Seq<char> {
    pad4(t.year as int) + seq!['-'] + pad2(t.month as int) + seq!['-'] + pad2(t.day as int)
        + seq!['T'] + pad2(t.hour as int) + seq!['-'] + pad2(t.minute as int) + seq!['-'] + pad2(
        t.second as int,
    )
}

/// The suffix as it appears in an identifier: a `-` is put in front unless
/// the suffix already starts with one.
pub open spec fn dashed(s: Seq<char>) -> Seq<char> {
    if s.len() > 0 && s[0] == '-' {
        s
    } else {
        seq!['-'] + s
    }
}

/// What `encode` returns: the formatted timestamp, then the dashed suffix.
pub open spec fn encode_spec(t: Timestamp, suffix: Seq<char>) -> Seq<char> {
    fmt_ts(t) + dashed(suffix)
}

/// The two characters at `i` and `i + 1` read as a two-digit number.
pub open spec fn read2(s: Seq<char>, i: int) -> int {
    digit_val(s[i]) * 10 + digit_val(s[i + 1])
}

/// The four characters starting at `i` read as a four-digit number.
pub open spec fn read4(s: Seq<char>, i: int) -> int {
    digit_val(s[i]) * 1000 + digit_val(s[i + 1]) * 100 + digit_val(s[i + 2]) * 10 + digit_val(
        s[i + 3],
    )
}

/// The string has exactly the 19-character shape of [`fmt_ts`]: digits in
/// the field positions and the fixed separators between them.
pub open spec fn ts_shape_ok(s: Seq<char>) -> bool {
    s.len() == 19 && is_digit(s[0]) && is_digit(s[1]) && is_digit(s[2]) && is_digit(s[3]) && s[4]
        == '-' && is_digit(s[5]) && is_digit(s[6]) && s[7] == '-' && is_digit(s[8]) && is_digit(
        s[9],
    ) && s[10] == 'T' && is_digit(s[11]) && is_digit(s[12]) && s[13] == '-' && is_digit(s[14])
        && is_digit(s[15]) && s[16] == '-' && is_digit(s[17]) && is_digit(s[18])
}

/// What a string parses to as a timestamp: `None` unless it has exactly the
/// fixed shape and its fields name a valid timestamp.
pub open spec fn parse_ts(s: Seq<char>) -> Option<Timestamp> {
    if ts_shape_ok(s) {
        let t = Timestamp {
            year: read4(s, 0) as u32,
            month: read2(s, 5) as u32,
            day: read2(s, 8) as u32,
            hour: read2(s, 11) as u32,
            minute: read2(s, 14) as u32,
            second: read2(s, 17) as u32,
        };
        if ts_valid(t) {
            Some(t)
        } else {
            None
        }
    } else {
        None
    }
}

/// What `decode` returns: strip one occurrence of the dashed expected
/// suffix from the end, then parse the remaining prefix.
pub open spec fn decode_spec(name: Seq<char>, suffix: Seq<char>) -> Option<Timestamp> {
    let e = dashed(suffix);
    if name.len() >= e.len() && name.subrange(name.len() - e.len(), name.len() as int) == e {
        parse_ts(name.subrange(0, name.len() - e.len()))
    } else {
        None
    }
}

fn digit_str(d: u32) -> (r: &'static str)
    requires
        d < 10,
    ensures
        r@ == seq![digit_to_char(d as int)],
{
    proof {
        reveal_strlit("0");
        reveal_strlit("1");
        reveal_strlit("2");
        reveal_strlit("3");
        reveal_strlit("4");
        reveal_strlit("5");
        reveal_strlit("6");
        reveal_strlit("7");
        reveal_strlit("8");
        reveal_strlit("9");
    }
    let r = if d == 0 {
        "0"
    } else if d == 1 {
        "1"
    } else if d == 2 {
        "2"
    } else if d == 3 {
        "3"
    } else if d == 4 {
        "4"
    } else if d == 5 {
        "5"
    } else if d == 6 {
        "6"
    } else if d == 7 {
        "7"
    } else if d == 8 {
        "8"
    } else {
        "9"
    };
    proof {
        assert(r@ =~= seq![digit_to_char(d as int)]);
    }
    r
}

fn append_pad2(out: &mut String, n: u32)
    requires
        n < 100,
    ensures
        final(out)@ == old(out)@ + pad2(n as int),
{
    out.append(digit_str(n / 10));
    out.append(digit_str(n % 10));
    proof {
        assert(final(out)@ =~= old(out)@ + pad2(n as int));
    }
}

fn append_pad4(out: &mut String, n: u32)
    requires
        n < 10000,
    ensures
        final(out)@ == old(out)@ + pad4(n as int),
{
    out.append(digit_str(n / 1000));
    out.append(digit_str((n / 100) % 10));
    out.append(digit_str((n / 10) % 10));
    out.append(digit_str(n % 10));
    proof {
        assert(final(out)@ =~= old(out)@ + pad4(n as int));
    }
}

fn char_digit(c: char) -> (r: Option<u32>)
    ensures
        match r {
            Some(d) => is_digit(c) && d == digit_val(c) && d < 10,
            None => !is_digit(c),
        },
{
    match c {
        '0' => Some(0),
        '1' => Some(1),
        '2' => Some(2),
        '3' => Some(3),
        '4' => Some(4),
        '5' => Some(5),
        '6' => Some(6),
        '7' => Some(7),
        '8' => Some(8),
        '9' => Some(9),
        _ => None,
    }
}

/// Decides [`days_in_month`] on concrete values.
pub fn month_length(y: u32, m: u32) -> (r: u32)
    requires
        1 <= m <= 12,
    ensures
        r == days_in_month(y as int, m as int),
{
    if m == 2 {
        if (y % 4 == 0 && y % 100 != 0) || y % 400 == 0 {
            29
        } else {
            28
        }
    } else if m == 4 || m == 6 || m == 9 || m == 11 {
        30
    } else {
        31
    }
}

/// Encodes a timestamp and a suffix into a snapshot identifier.
pub fn encode(t: &Timestamp, suffix: &str) -> (r: String)
    requires
        ts_valid(*t),
    ensures
        r@ == encode_spec(*t, suffix@),
{
    proof {
        reveal_strlit("-");
        reveal_strlit("T");
    }
    let mut out = String::new();
    append_pad4(&mut out, t.year);
    out.append("-");
    append_pad2(&mut out, t.month);
    out.append("-");
    append_pad2(&mut out, t.day);
    out.append("T");
    append_pad2(&mut out, t.hour);
    out.append("-");
    append_pad2(&mut out, t.minute);
    out.append("-");
    append_pad2(&mut out, t.second);
    let needs_dash = suffix.unicode_len() == 0 || suffix.get_char(0) != '-';
    if needs_dash {
        out.append("-");
    }
    out.append(suffix);
    proof {
        assert("-"@ =~= seq!['-']);
        assert("T"@ =~= seq!['T']);
        assert(out@ =~= encode_spec(*t, suffix@));
    }
    out
}

/// Decodes a directory-entry name back into a timestamp, expecting the
/// given suffix.  Returns `None`, never an error, when the name belongs to
/// another suffix or does not parse.
pub fn decode(name: &str, suffix: &str) -> (r: Option<Timestamp>)
    ensures
        r == decode_spec(name@, suffix@),
{
    let ghost e = dashed(suffix@);
    let sl = suffix.unicode_len();
    let nl = name.unicode_len();
    let needs_dash = sl == 0 || suffix.get_char(0) != '-';
    let off: usize = if needs_dash {
        1
    } else {
        0
    };
    proof {
        reveal_strlit("-");
        if needs_dash {
            assert(e =~= seq!['-'] + suffix@);
        }
        assert(e.len() == sl + off);
    }
    if nl < sl || nl - sl < off {
        return None;
    }
    let prefix_len = nl - sl - off;
    let ghost tail = name@.subrange(nl - e.len(), nl as int);
    if needs_dash && name.get_char(prefix_len) != '-' {
        proof {
            assert(tail[0] == name@[prefix_len as int]);
            assert(tail != e);
        }
        return None;
    }
    let mut i: usize = 0;
    while i < sl
        invariant
            i <= sl,
            sl + off <= nl,
            nl == name@.len(),
            sl == suffix@.len(),
            prefix_len == nl - sl - off,
            off == if needs_dash { 1int } else { 0int },
            e == dashed(suffix@),
            e.len() == sl + off,
            tail == name@.subrange(nl - e.len(), nl as int),
            forall|j: int| 0 <= j < sl ==> e[off + j] == suffix@[j],
            forall|j: int| 0 <= j < i ==> name@[prefix_len + off + j] == suffix@[j],
        decreases sl - i,
    {
        if name.get_char(prefix_len + off + i) != suffix.get_char(i) {
            proof {
                assert(tail[off + i] == name@[prefix_len + off + i]);
                assert(e[off + i] == suffix@[i as int]);
                assert(tail != e);
            }
            return None;
        }
        i += 1;
    }
    proof {
        assert forall|k: int| 0 <= k < e.len() implies tail[k] == e[k] by {
            if needs_dash && k == 0 {
                assert(name@[prefix_len as int] == '-');
            } else {
                assert(name@[prefix_len + off + (k - off)] == suffix@[k - off]);
            }
        }
        assert(tail =~= e);
    }
    let ghost prefix = name@.subrange(0, prefix_len as int);
    if prefix_len != 19 {
        return None;
    }
    proof {
        assert(forall|j: int| 0 <= j < 19 ==> prefix[j] == name@[j]);
    }
    let c4 = name.get_char(4);
    let c7 = name.get_char(7);
    let c10 = name.get_char(10);
    let c13 = name.get_char(13);
    let c16 = name.get_char(16);
    if c4 != '-' || c7 != '-' || c10 != 'T' || c13 != '-' || c16 != '-' {
        return None;
    }
    let d0 = match char_digit(name.get_char(0)) {
        Some(d) => d,
        None => {
            return None;
        },
    };
    let d1 = match char_digit(name.get_char(1)) {
        Some(d) => d,
        None => {
            return None;
        },
    };
    let d2 = match char_digit(name.get_char(2)) {
        Some(d) => d,
        None => {
            return None;
        },
    };
    let d3 = match char_digit(name.get_char(3)) {
        Some(d) => d,
        None => {
            return None;
        },
    };
    let d5 = match char_digit(name.get_char(5)) {
        Some(d) => d,
        None => {
            return None;
        },
    };
    let d6 = match char_digit(name.get_char(6)) {
        Some(d) => d,
        None => {
            return None;
        },
    };
    let d8 = match char_digit(name.get_char(8)) {
        Some(d) => d,
        None => {
            return None;
        },
    };
    let d9 = match char_digit(name.get_char(9)) {
        Some(d) => d,
        None => {
            return None;
        },
    };
    let d11 = match char_digit(name.get_char(11)) {
        Some(d) => d,
        None => {
            return None;
        },
    };
    let d12 = match char_digit(name.get_char(12)) {
        Some(d) => d,
        None => {
            return None;
        },
    };
    let d14 = match char_digit(name.get_char(14)) {
        Some(d) => d,
        None => {
            return None;
        },
    };
    let d15 = match char_digit(name.get_char(15)) {
        Some(d) => d,
        None => {
            return None;
        },
    };
    let d17 = match char_digit(name.get_char(17)) {
        Some(d) => d,
        None => {
            return None;
        },
    };
    let d18 = match char_digit(name.get_char(18)) {
        Some(d) => d,
        None => {
            return None;
        },
    };
    proof {
        assert(ts_shape_ok(prefix));
    }
    let t = Timestamp {
        year: d0 * 1000 + d1 * 100 + d2 * 10 + d3,
        month: d5 * 10 + d6,
        day: d8 * 10 + d9,
        hour: d11 * 10 + d12,
        minute: d14 * 10 + d15,
        second: d17 * 10 + d18,
    };
    proof {
        assert(t.year == read4(prefix, 0));
        assert(t.month == read2(prefix, 5));
        assert(t.day == read2(prefix, 8));
        assert(t.hour == read2(prefix, 11));
        assert(t.minute == read2(prefix, 14));
        assert(t.second == read2(prefix, 17));
    }
    if t.month < 1 || t.month > 12 {
        return None;
    }
    if t.day < 1 || t.day > month_length(t.year, t.month) {
        return None;
    }
    if t.hour > 23 || t.minute > 59 || t.second > 59 {
        return None;
    }
    Some(t)
}

/// [`fmt_ts`] written out as one flat sequence of its 19 characters.
spec fn fmt_ts_flat(t: Timestamp) -> Seq<char> {
    let y = t.year as int;
    let m = t.month as int;
    let d = t.day as int;
    let h = t.hour as int;
    let mi = t.minute as int;
    let sec = t.second as int;
    seq![
        digit_to_char(y / 1000),
        digit_to_char((y / 100) % 10),
        digit_to_char((y / 10) % 10),
        digit_to_char(y % 10),
        '-',
        digit_to_char(m / 10),
        digit_to_char(m % 10),
        '-',
        digit_to_char(d / 10),
        digit_to_char(d % 10),
        'T',
        digit_to_char(h / 10),
        digit_to_char(h % 10),
        '-',
        digit_to_char(mi / 10),
        digit_to_char(mi % 10),
        '-',
        digit_to_char(sec / 10),
        digit_to_char(sec % 10),
    ]
}

#[verifier::rlimit(50)]
proof fn lemma_fmt_flat(t: Timestamp)
    ensures
        fmt_ts(t) == fmt_ts_flat(t),
{
    assert(fmt_ts(t) =~= fmt_ts_flat(t));
}

#[verifier::rlimit(50)]
proof fn lemma_parse_fmt(t: Timestamp)
    requires
        ts_valid(t),
    ensures
        parse_ts(fmt_ts(t)) == Some(t),
{
    let s = fmt_ts(t);
    let y = t.year as int;
    let m = t.month as int;
    let d = t.day as int;
    let h = t.hour as int;
    let mi = t.minute as int;
    let sec = t.second as int;
    lemma_fmt_flat(t);
    lemma_digit_round_trip(y / 1000);
    lemma_digit_round_trip((y / 100) % 10);
    lemma_digit_round_trip((y / 10) % 10);
    lemma_digit_round_trip(y % 10);
    lemma_digit_round_trip(m / 10);
    lemma_digit_round_trip(m % 10);
    lemma_digit_round_trip(d / 10);
    lemma_digit_round_trip(d % 10);
    lemma_digit_round_trip(h / 10);
    lemma_digit_round_trip(h % 10);
    lemma_digit_round_trip(mi / 10);
    lemma_digit_round_trip(mi % 10);
    lemma_digit_round_trip(sec / 10);
    lemma_digit_round_trip(sec % 10);
    assert(ts_shape_ok(s));
    assert(read4(s, 0) == y) by {
        assert(digit_val(s[0]) == y / 1000 && digit_val(s[1]) == (y / 100) % 10 && digit_val(s[2])
            == (y / 10) % 10 && digit_val(s[3]) == y % 10);
        assert((y / 1000) * 1000 + ((y / 100) % 10) * 100 + ((y / 10) % 10) * 10 + y % 10 == y);
    }
    assert(read2(s, 5) == m);
    assert(read2(s, 8) == d);
    assert(read2(s, 11) == h);
    assert(read2(s, 14) == mi);
    assert(read2(s, 17) == sec);
    assert(parse_ts(s) == Some(t));
}

proof fn lemma_digit_round_trip(d: int)
    requires
        0 <= d < 10,
    ensures
        is_digit(digit_to_char(d)),
        digit_val(digit_to_char(d)) == d,
{
}

/// Law: decoding an identifier with the suffix it was encoded with gives
/// back exactly the timestamp that was encoded.
pub proof fn lemma_codec_round_trip(t: Timestamp, suffix: Seq<char>)
    requires
        ts_valid(t),
    ensures
        decode_spec(encode_spec(t, suffix), suffix) == Some(t),
{
    let e = dashed(suffix);
    let n = encode_spec(t, suffix);
    assert(n.len() == 19 + e.len());
    assert(n.subrange(n.len() - e.len(), n.len() as int) =~= e);
    assert(n.subrange(0, n.len() - e.len()) =~= fmt_ts(t));
    lemma_parse_fmt(t);
}

#[verifier::rlimit(50)]
proof fn lemma_parse_inverse(p: Seq<char>, t: Timestamp)
    requires
        parse_ts(p) == Some(t),
    ensures
        p == fmt_ts(t),
{
    let y = t.year as int;
    let m = t.month as int;
    let d = t.day as int;
    let h = t.hour as int;
    let mi = t.minute as int;
    let sec = t.second as int;
    lemma_char_round_trip(p[0]);
    lemma_char_round_trip(p[1]);
    lemma_char_round_trip(p[2]);
    lemma_char_round_trip(p[3]);
    lemma_char_round_trip(p[5]);
    lemma_char_round_trip(p[6]);
    lemma_char_round_trip(p[8]);
    lemma_char_round_trip(p[9]);
    lemma_char_round_trip(p[11]);
    lemma_char_round_trip(p[12]);
    lemma_char_round_trip(p[14]);
    lemma_char_round_trip(p[15]);
    lemma_char_round_trip(p[17]);
    lemma_char_round_trip(p[18]);
    assert(y == digit_val(p[0]) * 1000 + digit_val(p[1]) * 100 + digit_val(p[2]) * 10 + digit_val(
        p[3],
    ));
    assert(y / 1000 == digit_val(p[0]) && (y / 100) % 10 == digit_val(p[1]) && (y / 10) % 10
        == digit_val(p[2]) && y % 10 == digit_val(p[3])) by {
        lemma_two_digit_split(digit_val(p[2]) * 10 + digit_val(p[3]), digit_val(p[2]));
        assert(y == (digit_val(p[0]) * 10 + digit_val(p[1])) * 100 + (digit_val(p[2]) * 10
            + digit_val(p[3])));
        lemma_hundreds_split(y, digit_val(p[0]) * 10 + digit_val(p[1]));
        lemma_two_digit_split(digit_val(p[0]) * 10 + digit_val(p[1]), digit_val(p[0]));
    }
    assert(m / 10 == digit_val(p[5]) && m % 10 == digit_val(p[6])) by {
        lemma_two_digit_split(m, digit_val(p[5]));
    }
    assert(d / 10 == digit_val(p[8]) && d % 10 == digit_val(p[9])) by {
        lemma_two_digit_split(d, digit_val(p[8]));
    }
    assert(h / 10 == digit_val(p[11]) && h % 10 == digit_val(p[12])) by {
        lemma_two_digit_split(h, digit_val(p[11]));
    }
    assert(mi / 10 == digit_val(p[14]) && mi % 10 == digit_val(p[15])) by {
        lemma_two_digit_split(mi, digit_val(p[14]));
    }
    assert(sec / 10 == digit_val(p[17]) && sec % 10 == digit_val(p[18])) by {
        lemma_two_digit_split(sec, digit_val(p[17]));
    }
    lemma_fmt_flat(t);
    assert(p =~= fmt_ts_flat(t));
}

proof fn lemma_char_round_trip(c: char)
    requires
        is_digit(c),
    ensures
        digit_to_char(digit_val(c)) == c,
        0 <= digit_val(c) < 10,
{
}

proof fn lemma_two_digit_split(n: int, a: int)
    requires
        0 <= a,
        a * 10 <= n < a * 10 + 10,
    ensures
        n / 10 == a,
        n % 10 == n - a * 10,
{
    assert(n / 10 == a && n % 10 == n - a * 10) by (nonlinear_arith)
        requires
            0 <= a,
            a * 10 <= n < a * 10 + 10,
    ;
}

proof fn lemma_hundreds_split(n: int, a: int)
    requires
        0 <= a,
        a * 100 <= n < a * 100 + 100,
    ensures
        n / 100 == a,
        n % 100 == n - a * 100,
        n / 100 % 10 == a % 10,
        n / 10 % 10 == (n - a * 100) / 10,
        n % 10 == (n - a * 100) % 10,
{
    assert(n / 100 == a && n % 100 == n - a * 100) by (nonlinear_arith)
        requires
            0 <= a,
            a * 100 <= n < a * 100 + 100,
    ;
    assert(n / 10 % 10 == (n - a * 100) / 10 && n % 10 == (n - a * 100) % 10) by (nonlinear_arith)
        requires
            0 <= a,
            a * 100 <= n < a * 100 + 100,
            n / 100 == a,
            n % 100 == n - a * 100,
    ;
}

/// Law: an identifier decodes to a timestamp under an expected suffix
/// exactly when it is that timestamp's encoding under that suffix, so
/// within one suffix the name and the timestamp determine each other.
pub proof fn lemma_decode_determines_name(name: Seq<char>, suffix: Seq<char>, t: Timestamp)
    requires
        decode_spec(name, suffix) == Some(t),
    ensures
        ts_valid(t),
        name == encode_spec(t, suffix),
{
    let e = dashed(suffix);
    let p = name.subrange(0, name.len() - e.len());
    lemma_parse_inverse(p, t);
    assert(name =~= p + name.subrange(name.len() - e.len(), name.len() as int));
}

/// Law: an identifier encoded with one suffix never decodes under an
/// expected suffix whose dashed form differs from the encoded one's.
pub proof fn lemma_codec_suffix_mismatch(t: Timestamp, suffix: Seq<char>, expected: Seq<char>)
    requires
        ts_valid(t),
        dashed(expected) != dashed(suffix),
    ensures
        decode_spec(encode_spec(t, suffix), expected) is None,
{
    let e = dashed(suffix);
    let e2 = dashed(expected);
    let n = encode_spec(t, suffix);
    assert(n.len() == 19 + e.len());
    if n.len() >= e2.len() && n.subrange(n.len() - e2.len(), n.len() as int) == e2 {
        let p = n.subrange(0, n.len() - e2.len());
        if e2.len() == e.len() {
            assert(n.subrange(n.len() - e.len(), n.len() as int) =~= e);
            assert(false);
        } else {
            assert(p.len() != 19);
            assert(!ts_shape_ok(p));
        }
    }
}

/// One string comes strictly before another under plain character-wise
/// comparison: at the first difference its character is smaller.
pub open spec fn lex_lt(a: Seq<char>, b: Seq<char>) -> bool {
    exists|i: int|
        0 <= i < a.len() && i < b.len() && a.subrange(0, i) == b.subrange(0, i) && (a[i] as u32)
            < (b[i] as u32)
}

proof fn lemma_digit_lt(d1: int, d2: int)
    requires
        0 <= d1 < d2 < 10,
    ensures
        (digit_to_char(d1) as u32) < (digit_to_char(d2) as u32),
{
}

proof fn lemma_pad2_witness(a: Seq<char>, b: Seq<char>, off: int, n1: int, n2: int)
    requires
        0 <= off,
        off + 2 <= a.len(),
        off + 2 <= b.len(),
        0 <= n1 < n2 < 100,
        a[off] == digit_to_char(n1 / 10),
        a[off + 1] == digit_to_char(n1 % 10),
        b[off] == digit_to_char(n2 / 10),
        b[off + 1] == digit_to_char(n2 % 10),
        a.subrange(0, off) == b.subrange(0, off),
    ensures
        lex_lt(a, b),
{
    assert(n1 == (n1 / 10) * 10 + n1 % 10);
    assert(n2 == (n2 / 10) * 10 + n2 % 10);
    if n1 / 10 == n2 / 10 {
        lemma_digit_lt(n1 % 10, n2 % 10);
        assert(a.subrange(0, off + 1) =~= b.subrange(0, off + 1));
        assert(0 <= off + 1 < a.len() && off + 1 < b.len() && a.subrange(0, off + 1) == b.subrange(
            0,
            off + 1,
        ) && (a[off + 1] as u32) < (b[off + 1] as u32));
    } else {
        lemma_digit_lt(n1 / 10, n2 / 10);
        assert(0 <= off < a.len() && off < b.len() && a.subrange(0, off) == b.subrange(0, off) && (
        a[off] as u32) < (b[off] as u32));
    }
}

#[verifier::rlimit(100)]
proof fn lemma_pad4_witness(a: Seq<char>, b: Seq<char>, off: int, n1: int, n2: int)
    requires
        0 <= off,
        off + 4 <= a.len(),
        off + 4 <= b.len(),
        0 <= n1 < n2 < 10000,
        a[off] == digit_to_char(n1 / 1000),
        a[off + 1] == digit_to_char((n1 / 100) % 10),
        a[off + 2] == digit_to_char((n1 / 10) % 10),
        a[off + 3] == digit_to_char(n1 % 10),
        b[off] == digit_to_char(n2 / 1000),
        b[off + 1] == digit_to_char((n2 / 100) % 10),
        b[off + 2] == digit_to_char((n2 / 10) % 10),
        b[off + 3] == digit_to_char(n2 % 10),
        a.subrange(0, off) == b.subrange(0, off),
    ensures
        lex_lt(a, b),
{
    assert(n1 == (n1 / 1000) * 1000 + ((n1 / 100) % 10) * 100 + ((n1 / 10) % 10) * 10 + n1 % 10);
    assert(n2 == (n2 / 1000) * 1000 + ((n2 / 100) % 10) * 100 + ((n2 / 10) % 10) * 10 + n2 % 10);
    if n1 / 1000 != n2 / 1000 {
        lemma_digit_lt(n1 / 1000, n2 / 1000);
        assert(0 <= off < a.len() && off < b.len() && a.subrange(0, off) == b.subrange(0, off) && (
        a[off] as u32) < (b[off] as u32));
    } else if (n1 / 100) % 10 != (n2 / 100) % 10 {
        lemma_digit_lt((n1 / 100) % 10, (n2 / 100) % 10);
        assert(a.subrange(0, off + 1) =~= b.subrange(0, off + 1));
        assert(0 <= off + 1 < a.len() && off + 1 < b.len() && a.subrange(0, off + 1) == b.subrange(
            0,
            off + 1,
        ) && (a[off + 1] as u32) < (b[off + 1] as u32));
    } else if (n1 / 10) % 10 != (n2 / 10) % 10 {
        lemma_digit_lt((n1 / 10) % 10, (n2 / 10) % 10);
        assert(a.subrange(0, off + 2) =~= b.subrange(0, off + 2));
        assert(0 <= off + 2 < a.len() && off + 2 < b.len() && a.subrange(0, off + 2) == b.subrange(
            0,
            off + 2,
        ) && (a[off + 2] as u32) < (b[off + 2] as u32));
    } else {
        lemma_digit_lt(n1 % 10, n2 % 10);
        assert(a.subrange(0, off + 3) =~= b.subrange(0, off + 3));
        assert(0 <= off + 3 < a.len() && off + 3 < b.len() && a.subrange(0, off + 3) == b.subrange(
            0,
            off + 3,
        ) && (a[off + 3] as u32) < (b[off + 3] as u32));
    }
}

/// Law: the fixed-width layout sorts: an earlier timestamp formats to a
/// string that comes strictly first under plain comparison.
#[verifier::rlimit(100)]
pub proof fn lemma_fmt_preserves_order(t1: Timestamp, t2: Timestamp)
    requires
        ts_valid(t1),
        ts_valid(t2),
        ts_lt(t1, t2),
    ensures
        lex_lt(fmt_ts(t1), fmt_ts(t2)),
{
    lemma_fmt_flat(t1);
    lemma_fmt_flat(t2);
    let a = fmt_ts(t1);
    let b = fmt_ts(t2);
    if t1.year != t2.year {
        assert(a.subrange(0, 0) =~= b.subrange(0, 0));
        lemma_pad4_witness(a, b, 0, t1.year as int, t2.year as int);
    } else if t1.month != t2.month {
        assert(a.subrange(0, 5) =~= b.subrange(0, 5));
        lemma_pad2_witness(a, b, 5, t1.month as int, t2.month as int);
    } else if t1.day != t2.day {
        assert(a.subrange(0, 8) =~= b.subrange(0, 8));
        lemma_pad2_witness(a, b, 8, t1.day as int, t2.day as int);
    } else if t1.hour != t2.hour {
        assert(a.subrange(0, 11) =~= b.subrange(0, 11));
        lemma_pad2_witness(a, b, 11, t1.hour as int, t2.hour as int);
    } else if t1.minute != t2.minute {
        assert(a.subrange(0, 14) =~= b.subrange(0, 14));
        lemma_pad2_witness(a, b, 14, t1.minute as int, t2.minute as int);
    } else {
        assert(a.subrange(0, 17) =~= b.subrange(0, 17));
        lemma_pad2_witness(a, b, 17, t1.second as int, t2.second as int);
    }
}

/// Law: identifiers of one suffix sort by their timestamps under plain
/// string comparison of the whole name, as the fixed-width zero-padded
/// layout promises.
pub proof fn lemma_encode_preserves_order(t1: Timestamp, t2: Timestamp, suffix: Seq<char>)
    requires
        ts_valid(t1),
        ts_valid(t2),
        ts_lt(t1, t2),
    ensures
        lex_lt(encode_spec(t1, suffix), encode_spec(t2, suffix)),
{
    lemma_fmt_preserves_order(t1, t2);
    let f1 = fmt_ts(t1);
    let f2 = fmt_ts(t2);
    let n1 = encode_spec(t1, suffix);
    let n2 = encode_spec(t2, suffix);
    let i = choose|i: int|
        0 <= i < f1.len() && i < f2.len() && f1.subrange(0, i) == f2.subrange(0, i) && (
        f1[i] as u32) < (f2[i] as u32);
    assert(n1.subrange(0, i) =~= f1.subrange(0, i));
    assert(n2.subrange(0, i) =~= f2.subrange(0, i));
    assert(0 <= i < n1.len() && i < n2.len() && n1.subrange(0, i) == n2.subrange(0, i) && (
    n1[i] as u32) < (n2[i] as u32));
}

} // verus!
