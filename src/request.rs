//! Interpretation of a raw request: the delay asked for in its first line.

use vstd::prelude::*;
use crate::response::{decimal, lemma_decimal_round_trip};

verus! {

/// Delay, in milliseconds, used when the request names no number.
pub const DEFAULT_DELAY_MS: u16 = 1000;

/// Largest delay that a request can ask for; larger numbers are capped to it.
pub const MAX_DELAY_MS: u16 = 65535;

/// Index of the first `b` in `s`, or `s.len()` when there is none.
pub open spec fn index_of(s: Seq<u8>, b: u8) -> nat
    decreases s.len(),
{
    if s.len() == 0 {
        0
    } else if s[0] == b {
        0
    } else {
        1 + index_of(s.drop_first(), b)
    }
}

/// The bytes of a request before its first `\n`.
pub open spec fn raw_line(req: Seq<u8>) -> Seq<u8> {
    req.take(index_of(req, 10u8) as int)
}

/// The first line of a request, without its `\n` nor a `\r` before it.
pub open spec fn first_line(req: Seq<u8>) -> Seq<u8> {
    let line = raw_line(req);
    if line.len() > 0 && line.last() == 13u8 {
        line.drop_last()
    } else {
        line
    }
}

/// ASCII whitespace: space, tab, line feed, vertical tab, form feed and
/// carriage return.
pub open spec fn is_space(b: u8) -> bool {
    b == 32u8 || (9u8 <= b && b <= 13u8)
}

/// Index of the first byte of `s` that is whitespace (`space`) or is not
/// (`!space`), or `s.len()` when there is none.
pub open spec fn index_where(s: Seq<u8>, space: bool) -> nat
    decreases s.len(),
{
    if s.len() == 0 {
        0
    } else if is_space(s[0]) == space {
        0
    } else {
        1 + index_where(s.drop_first(), space)
    }
}

/// The second whitespace-delimited field of a line (the request target), or
/// an empty sequence when the line has fewer than two fields.
pub open spec fn target_of(line: Seq<u8>) -> Seq<u8> {
    let r1 = line.skip(index_where(line, false) as int);
    let r2 = r1.skip(index_where(r1, true) as int);
    let r3 = r2.skip(index_where(r2, false) as int);
    r3.take(index_where(r3, true) as int)
}

/// Every byte is ASCII.
pub open spec fn all_ascii(s: Seq<u8>) -> bool {
    forall|i: int| 0 <= i < s.len() ==> #[trigger] s[i] < 128u8
}

/// The bytes are valid UTF-8.
pub uninterp spec fn utf8_valid(b: Seq<u8>) -> bool;

/// The first line of a request can be read as text: it is valid UTF-8,
/// which an all-ASCII line always is.
pub open spec fn line_readable(req: Seq<u8>) -> bool {
    all_ascii(raw_line(req)) || utf8_valid(raw_line(req))
}

/// A target without its leading `/`, if it has one.
pub open spec fn strip_slash(t: Seq<u8>) -> Seq<u8> {
    if t.len() > 0 && t[0] == 47u8 {
        t.skip(1)
    } else {
        t
    }
}

pub open spec fn is_digit(b: u8) -> bool {
    48u8 <= b <= 57u8
}

/// A non-empty run of decimal digits.
pub open spec fn is_number(s: Seq<u8>) -> bool {
    s.len() > 0 && forall|i: int| 0 <= i < s.len() ==> is_digit(#[trigger] s[i])
}

/// The value of a run of decimal digits.
pub open spec fn digits_value(s: Seq<u8>) -> nat
    decreases s.len(),
{
    if s.len() == 0 {
        0
    } else {
        digits_value(s.drop_last()) * 10 + (s.last() - 48u8) as nat
    }
}

/// The delay that a request asks for: the number in its target, after an
/// optional `/`, capped to `MAX_DELAY_MS`; or `DEFAULT_DELAY_MS` when the
/// first line is not text, or its target is missing, empty or not a number.
pub open spec fn delay_of(req: Seq<u8>) -> nat {
    let p = strip_slash(target_of(first_line(req)));
    if line_readable(req) && is_number(p) {
        if digits_value(p) <= MAX_DELAY_MS as nat {
            digits_value(p)
        } else {
            MAX_DELAY_MS as nat
        }
    } else {
        DEFAULT_DELAY_MS as nat
    }
}

/// Relies on `std::str::from_utf8`: whether the bytes are valid UTF-8, which
/// every run of ASCII bytes is.
#[verifier::external_body]
fn is_utf8(b: &[u8]) -> (r: bool)
    ensures
        r == utf8_valid(b@),
        all_ascii(b@) ==> r,
{
    std::str::from_utf8(b).is_ok()
}

/// `index_where` is the first position of the class asked for.
pub proof fn lemma_index_where(s: Seq<u8>, space: bool, k: int)
    requires
        0 <= k <= s.len(),
        forall|j: int| 0 <= j < k ==> is_space(#[trigger] s[j]) != space,
        k == s.len() || is_space(s[k]) == space,
    ensures
        index_where(s, space) == k,
    decreases s.len(),
{
    if s.len() > 0 && is_space(s[0]) != space {
        assert forall|j: int| 0 <= j < k - 1 implies is_space(#[trigger] s.drop_first()[j]) != space by {
            assert(s.drop_first()[j] == s[j + 1]);
        }
        lemma_index_where(s.drop_first(), space, k - 1);
    }
}

/// Position of the first byte of `s[from..to]` that is whitespace (`space`)
/// or is not (`!space`), or `to` when there is none.
fn find_class(s: &[u8], from: usize, to: usize, space: bool) -> (r: usize)
    requires
        from <= to <= s@.len(),
    ensures
        from <= r <= to,
        r - from == index_where(s@.subrange(from as int, to as int), space),
{
    let mut i: usize = from;
    while i < to
        invariant
            from <= i <= to <= s@.len(),
            forall|j: int| from <= j < i ==> is_space(#[trigger] s@[j]) != space,
        ensures
            from <= i <= to,
            forall|j: int| from <= j < i ==> is_space(#[trigger] s@[j]) != space,
            i == to || is_space(s@[i as int]) == space,
        decreases to - i,
    {
        let c = s[i];
        let ws = c == 32u8 || (9u8 <= c && c <= 13u8);
        if ws == space {
            break;
        }
        i = i + 1;
    }
    proof {
        let sub = s@.subrange(from as int, to as int);
        assert forall|j: int| 0 <= j < i - from implies is_space(#[trigger] sub[j]) != space by {
            assert(sub[j] == s@[from + j]);
        }
        if i < to {
            assert(sub[i - from] == s@[i as int]);
        }
        lemma_index_where(sub, space, i - from);
    }
    i
}

/// `index_of` is the first position that holds `b`.
pub proof fn lemma_index_of(s: Seq<u8>, b: u8, k: int)
    requires
        0 <= k <= s.len(),
        forall|j: int| 0 <= j < k ==> s[j] != b,
        k == s.len() || s[k] == b,
    ensures
        index_of(s, b) == k,
    decreases s.len(),
{
    if s.len() > 0 && s[0] != b {
        assert forall|j: int| 0 <= j < k - 1 implies s.drop_first()[j] != b by {
            assert(s[j + 1] != b);
        }
        lemma_index_of(s.drop_first(), b, k - 1);
    }
}

/// Position of the first `b` in `s[from..to]`, or `to` when there is none.
fn find_byte(s: &[u8], from: usize, to: usize, b: u8) -> (r: usize)
    requires
        from <= to <= s@.len(),
    ensures
        from <= r <= to,
        r - from == index_of(s@.subrange(from as int, to as int), b),
{
    let mut i: usize = from;
    while i < to
        invariant
            from <= i <= to <= s@.len(),
            forall|j: int| from <= j < i ==> s@[j] != b,
        ensures
            from <= i <= to,
            forall|j: int| from <= j < i ==> s@[j] != b,
            i == to || s@[i as int] == b,
        decreases to - i,
    {
        if s[i] == b {
            break;
        }
        i = i + 1;
    }
    proof {
        let sub = s@.subrange(from as int, to as int);
        assert forall|j: int| 0 <= j < i - from implies sub[j] != b by {
            assert(s@[from + j] != b);
        }
        if i < to {
            assert(sub[i - from] == b);
        }
        lemma_index_of(sub, b, i - from);
    }
    i
}

/// Value of the digits `s[from..to]`, capped at `MAX_DELAY_MS`; `None` when
/// the range is empty or holds a byte that is not a digit.
fn parse_capped(s: &[u8], from: usize, to: usize) -> (r: Option<u16>)
    requires
        from <= to <= s@.len(),
    ensures
        ({
            let p = s@.subrange(from as int, to as int);
            match r {
                Some(v) => is_number(p) && v as nat == if digits_value(p) <= MAX_DELAY_MS as nat {
                    digits_value(p)
                } else {
                    MAX_DELAY_MS as nat
                },
                None => !is_number(p),
            }
        }),
{
    if from == to {
        return None;
    }
    let mut acc: u32 = 0;
    let mut i: usize = from;
    while i < to
        invariant
            from <= i <= to <= s@.len(),
            forall|j: int| from <= j < i ==> is_digit(s@[j]),
            acc as nat == if digits_value(s@.subrange(from as int, i as int)) <= 65536 {
                digits_value(s@.subrange(from as int, i as int))
            } else {
                65536
            },
        decreases to - i,
    {
        let c = s[i];
        if c < 48u8 || c > 57u8 {
            proof {
                assert(s@.subrange(from as int, to as int)[i - from] == c);
            }
            return None;
        }
        proof {
            let pre = s@.subrange(from as int, i as int);
            let nxt = s@.subrange(from as int, i + 1);
            assert(nxt.drop_last() =~= pre);
            assert(nxt.last() == c);
        }
        let d: u32 = (c - 48u8) as u32;
        if acc > 65535 {
            acc = 65536;
        } else {
            acc = acc * 10 + d;
            if acc > 65536 {
                acc = 65536;
            }
        }
        i = i + 1;
    }
    proof {
        let p = s@.subrange(from as int, to as int);
        assert forall|j: int| 0 <= j < p.len() implies is_digit(#[trigger] p[j]) by {
            assert(p[j] == s@[from + j]);
        }
    }
    if acc > 65535 {
        Some(MAX_DELAY_MS)
    } else {
        Some(acc as u16)
    }
}

/// Bounds of the target of the line `s[..end]`.
fn target_bounds(s: &[u8], end: usize) -> (r: (usize, usize))
    requires
        end <= s@.len(),
    ensures
        r.0 <= r.1 <= end,
        s@.subrange(r.0 as int, r.1 as int) == target_of(s@.subrange(0, end as int)),
{
    let ghost line = s@.subrange(0, end as int);
    let p0 = find_class(s, 0, end, false);
    let p1 = find_class(s, p0, end, true);
    let p2 = find_class(s, p1, end, false);
    let p3 = find_class(s, p2, end, true);
    proof {
        let r1 = line.skip(index_where(line, false) as int);
        assert(r1 =~= s@.subrange(p0 as int, end as int));
        let r2 = r1.skip(index_where(r1, true) as int);
        assert(r2 =~= s@.subrange(p1 as int, end as int));
        let r3 = r2.skip(index_where(r2, false) as int);
        assert(r3 =~= s@.subrange(p2 as int, end as int));
        assert(r3.take(index_where(r3, true) as int) =~= s@.subrange(p2 as int, p3 as int));
    }
    (p2, p3)
}

/// The delay, in milliseconds, that a raw request asks for.
pub fn request_delay(req: &[u8]) -> (r: u16)
    ensures
        r as nat == delay_of(req@),
{
    let n = req.len();
    let nl = find_byte(req, 0, n, 10u8);
    proof {
        assert(req@.subrange(0, n as int) =~= req@);
        assert(raw_line(req@) =~= req@.subrange(0, nl as int));
    }
    let readable = is_utf8(&req[0..nl]);
    let mut end: usize = nl;
    if end > 0 && req[end - 1] == 13u8 {
        end = end - 1;
    }
    let ghost line = first_line(req@);
    proof {
        assert(line =~= req@.subrange(0, end as int));
    }
    let (p2, p3) = target_bounds(req, end);
    let ghost t = req@.subrange(p2 as int, p3 as int);
    if !readable {
        return DEFAULT_DELAY_MS;
    }
    let mut ts: usize = p2;
    if ts < p3 && req[ts] == 47u8 {
        ts = ts + 1;
        proof {
            assert(strip_slash(t) =~= req@.subrange(ts as int, p3 as int));
        }
    } else {
        proof {
            assert(strip_slash(t) =~= req@.subrange(ts as int, p3 as int));
        }
    }
    match parse_capped(req, ts, p3) {
        Some(v) => v,
        None => DEFAULT_DELAY_MS,
    }
}

/// `GET <path> HTTP/1.1`
pub open spec fn get_request_line(path: Seq<u8>) -> Seq<u8> {
    seq![71u8, 69, 84, 32] + path + seq![32u8, 72, 84, 84, 80, 47, 49, 46, 49]
}

/// In a line `GET <path> HTTP/1.1` whose path holds no whitespace, the
/// delay is the number that the path names after an optional `/`, capped to
/// `MAX_DELAY_MS`, and the default when the path is empty or names no number.
pub proof fn lemma_get_line_delay(path: Seq<u8>)
    requires
        forall|i: int| 0 <= i < path.len() ==> !is_space(#[trigger] path[i]),
    ensures
        delay_of(get_request_line(path)) == if is_number(strip_slash(path)) {
            if digits_value(strip_slash(path)) <= MAX_DELAY_MS as nat {
                digits_value(strip_slash(path))
            } else {
                MAX_DELAY_MS as nat
            }
        } else {
            DEFAULT_DELAY_MS as nat
        },
{
    let req = get_request_line(path);
    let n = req.len() as int;
    let pl = path.len() as int;
    assert forall|j: int| 0 <= j < n implies req[j] != 10u8 by {
        if 4 <= j < 4 + pl {
            assert(req[j] == path[j - 4]);
        }
    }
    lemma_index_of(req, 10u8, n);
    assert(req.take(n) =~= req);
    assert(raw_line(req) == req);
    assert(req.last() == 49u8);
    assert(first_line(req) == req);
    lemma_index_where(req, false, 0);
    assert(req.skip(0) =~= req);
    lemma_index_where(req, true, 3);
    let r2 = req.skip(3);
    let tail = seq![32u8, 72, 84, 84, 80, 47, 49, 46, 49];
    if pl == 0 {
        lemma_index_where(r2, false, 2);
        let r3 = r2.skip(2);
        assert(r3 =~= tail.skip(1));
        lemma_index_where(r3, true, 8);
        assert(r3.take(8) =~= r3);
        assert(!is_digit(strip_slash(r3)[0]));
        assert(!is_number(strip_slash(r3)));
        assert(strip_slash(path) =~= path);
        assert(!is_number(strip_slash(path)));
    } else {
        assert(r2[1] == path[0]);
        lemma_index_where(r2, false, 1);
        let r3 = r2.skip(1);
        assert(r3 =~= path + tail);
        assert forall|j: int| 0 <= j < pl implies !is_space(#[trigger] r3[j]) by {
            assert(r3[j] == path[j]);
        }
        assert(r3[pl] == 32u8);
        lemma_index_where(r3, true, pl);
        assert(r3.take(pl) =~= path);
        assert(target_of(first_line(req)) == path);
        if is_number(strip_slash(path)) {
            assert forall|i: int| 0 <= i < n implies #[trigger] req[i] < 128u8 by {
                if 4 <= i < 4 + pl {
                    assert(req[i] == path[i - 4]);
                    if i - 4 > 0 || path[0] != 47u8 {
                        if path.len() > 0 && path[0] == 47u8 {
                            assert(path[i - 4] == strip_slash(path)[i - 5]);
                        } else {
                            assert(path[i - 4] == strip_slash(path)[i - 4]);
                        }
                    }
                }
            }
            assert(all_ascii(raw_line(req)));
        }
    }
}

/// A line `GET /<n> HTTP/1.1` asks for a delay of exactly `n` milliseconds,
/// for every `n` up to `MAX_DELAY_MS`.
pub proof fn lemma_numeric_path_delay(n: nat)
    requires
        n <= MAX_DELAY_MS as nat,
    ensures
        delay_of(get_request_line(seq![47u8] + decimal(n))) == n,
{
    let d = decimal(n);
    let path = seq![47u8] + d;
    lemma_decimal_round_trip(n);
    assert forall|i: int| 0 <= i < path.len() implies !is_space(#[trigger] path[i]) by {
        if i > 0 {
            assert(path[i] == d[i - 1]);
            assert(is_digit(d[i - 1]));
        }
    }
    assert(strip_slash(path) =~= d);
    lemma_get_line_delay(path);
}

} // verus!
