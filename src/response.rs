//! The response that every request gets: a status line, a `Content-Length`
//! header and the body.

use vstd::prelude::*;
use crate::request::{digits_value, is_digit, is_number};

verus! {

/// Decimal digits of `n`, most significant first, without leading zeros.
pub open spec fn decimal(n: nat) -> Seq<u8>
    decreases n,
{
    if n < 10 {
        seq![(48 + n) as u8]
    } else {
        decimal(n / 10).push((48 + n % 10) as u8)
    }
}

/// `HTTP/1.1 200 OK\r\nContent-Length: `
pub open spec fn header_prefix() -> Seq<u8> {
    seq![
        72u8, 84, 84, 80, 47, 49, 46, 49, 32, 50, 48, 48, 32, 79, 75, 13, 10,
        67, 111, 110, 116, 101, 110, 116, 45, 76, 101, 110, 103, 116, 104, 58, 32,
    ]
}

/// The blank line that ends the headers: `\r\n\r\n`.
pub open spec fn header_end() -> Seq<u8> {
    seq![13u8, 10, 13, 10]
}

/// The full response for `body`.
pub open spec fn response_of(body: Seq<u8>) -> Seq<u8> {
    header_prefix() + decimal(body.len()) + header_end() + body
}

/// The decimal form of a number reads back as that number.
pub proof fn lemma_decimal_round_trip(n: nat)
    ensures
        is_number(decimal(n)),
        digits_value(decimal(n)) == n,
    decreases n,
{
    let d = decimal(n);
    if n < 10 {
        assert(d.drop_last() =~= Seq::<u8>::empty());
        assert(digits_value(d) == digits_value(d.drop_last()) * 10 + (d.last() - 48u8) as nat);
    } else {
        lemma_decimal_round_trip(n / 10);
        assert(d.drop_last() =~= decimal(n / 10));
        assert(d.last() == (48 + n % 10) as u8);
        assert(digits_value(d) == digits_value(d.drop_last()) * 10 + (d.last() - 48u8) as nat);
        assert(n == (n / 10) * 10 + n % 10) by (nonlinear_arith);
        assert forall|i: int| 0 <= i < d.len() implies is_digit(#[trigger] d[i]) by {
            if i < d.len() - 1 {
                assert(d[i] == decimal(n / 10)[i]);
            }
        }
    }
}

/// Appends the decimal digits of `n` to `out`.
fn push_decimal(out: &mut Vec<u8>, n: usize)
    ensures
        final(out)@ == old(out)@ + decimal(n as nat),
    decreases n,
{
    if n >= 10 {
        push_decimal(out, n / 10);
    }
    out.push(48u8 + (n % 10) as u8);
    proof {
        assert(final(out)@ =~= old(out)@ + decimal(n as nat));
    }
}

/// Appends the bytes of `src` to `out`.
fn push_all(out: &mut Vec<u8>, src: &[u8])
    ensures
        final(out)@ == old(out)@ + src@,
{
    let ghost start = out@;
    let mut i: usize = 0;
    while i < src.len()
        invariant
            i <= src@.len(),
            out@ == start + src@.subrange(0, i as int),
        decreases src@.len() - i,
    {
        out.push(src[i]);
        proof {
            assert(src@.subrange(0, i + 1) =~= src@.subrange(0, i as int).push(src@[i as int]));
        }
        i = i + 1;
    }
    proof {
        assert(src@.subrange(0, i as int) =~= src@);
    }
}

/// A copy of `v`.
pub(crate) fn copy_bytes(v: &Vec<u8>) -> (r: Vec<u8>)
    ensures
        r@ == v@,
{
    let mut out: Vec<u8> = Vec::new();
    push_all(&mut out, v.as_slice());
    out
}

/// Builds the response that carries `body`: `HTTP/1.1 200 OK`, a
/// `Content-Length` header that gives the body's length in bytes, a blank
/// line, and the body itself.
pub fn build_response(body: &[u8]) -> (r: Vec<u8>)
    ensures
        r@ == response_of(body@),
{
    let mut out: Vec<u8> = Vec::new();
    let prefix: [u8; 33] = [
        72u8, 84, 84, 80, 47, 49, 46, 49, 32, 50, 48, 48, 32, 79, 75, 13, 10,
        67, 111, 110, 116, 101, 110, 116, 45, 76, 101, 110, 103, 116, 104, 58, 32,
    ];
    push_all(&mut out, prefix.as_slice());
    proof {
        assert(out@ =~= header_prefix());
    }
    push_decimal(&mut out, body.len());
    let end: [u8; 4] = [13u8, 10, 13, 10];
    push_all(&mut out, end.as_slice());
    proof {
        assert(end@ =~= header_end());
    }
    push_all(&mut out, body);
    out
}

/// A response of a body of length `L` carries, between its header prefix and
/// the blank line, a number that reads back as exactly `L`, and then the body
/// whole: nothing cut off and nothing repeated.
pub proof fn lemma_content_length_matches_body(body: Seq<u8>)
    ensures
        ({
            let r = response_of(body);
            let p: int = header_prefix().len() as int;
            let d = decimal(body.len());
            &&& r.subrange(0, p) == header_prefix()
            &&& r.subrange(p, p + d.len()) == d
            &&& is_number(d)
            &&& digits_value(d) == body.len()
            &&& r.subrange(p + d.len(), p + d.len() + 4) == header_end()
            &&& r.skip(p + d.len() + 4) == body
            &&& r.len() == p + d.len() + 4 + body.len()
        }),
{
    let r = response_of(body);
    let p: int = header_prefix().len() as int;
    let d = decimal(body.len());
    lemma_decimal_round_trip(body.len());
    assert(r.subrange(0, p) =~= header_prefix());
    assert(r.subrange(p, p + d.len()) =~= d);
    assert(r.subrange(p + d.len(), p + d.len() + 4) =~= header_end());
    assert(r.skip(p + d.len() + 4) =~= body);
}

} // verus!
