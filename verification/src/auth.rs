//! The caller's identity, taken from the `x-user-id` header.

use vstd::prelude::*;

use crate::api_error::{ApiError, bad_request, fails_with, unauthorized};
use crate::text::chars_of;

verus! {

/// The authenticated caller's user id.
#[derive(Debug)]
pub struct UserId(pub u64);

/// The value of an ASCII digit.
pub open spec fn digit_value(c: char) -> int {
    (c as u32) as int - 48
}

/// `c` is an ASCII digit.
pub open spec fn is_digit(c: char) -> bool {
    48 <= (c as u32) <= 57
}

/// The number written by the decimal digits `d`.
pub open spec fn digits_number(d: Seq<char>) -> int
    decreases d.len(),
{
    if d.len() == 0 {
        0
    } else {
        digits_number(d.drop_last()) * 10 + digit_value(d.last())
    }
}

/// Every character of `d` is an ASCII digit.
pub open spec fn all_digits(d: Seq<char>) -> bool {
    forall|i: int| 0 <= i < d.len() ==> is_digit(#[trigger] d[i])
}

/// `s` without a leading `+`.
pub open spec fn unsigned_digits(s: Seq<char>) -> Seq<char> {
    if s.len() > 0 && s[0] == '+' {
        s.drop_first()
    } else {
        s
    }
}

/// What `str::parse::<u64>` gives: an optional `+`, then one or more ASCII
/// digits whose number fits in 64 bits.
pub open spec fn parse_u64_spec(s: Seq<char>) -> Option<u64> {
    let d = unsigned_digits(s);
    if d.len() == 0 || !all_digits(d) || digits_number(d) > u64::MAX {
        None
    } else {
        Some(digits_number(d) as u64)
    }
}

proof fn lemma_digits_number_nonneg(d: Seq<char>)
    requires
        forall|i: int| 0 <= i < d.len() ==> is_digit(#[trigger] d[i]),
    ensures
        digits_number(d) >= 0,
    decreases d.len(),
{
    if d.len() > 0 {
        lemma_digits_number_nonneg(d.drop_last());
    }
}

proof fn lemma_digits_number_grows(d: Seq<char>, k: int)
    requires
        0 <= k <= d.len(),
        forall|i: int| 0 <= i < d.len() ==> is_digit(#[trigger] d[i]),
    ensures
        digits_number(d.take(k)) <= digits_number(d),
    decreases d.len(),
{
    if k < d.len() {
        assert(d.drop_last().take(k) =~= d.take(k));
        assert forall|i: int| 0 <= i < d.drop_last().len() implies is_digit(#[trigger] d.drop_last()[i]) by {
            assert(d.drop_last()[i] == d[i]);
        }
        lemma_digits_number_grows(d.drop_last(), k);
        lemma_digits_number_nonneg(d.drop_last());
    } else {
        assert(d.take(k) =~= d);
    }
}

/// Parses an unsigned 64-bit integer as `str::parse::<u64>` does.
pub fn parse_u64(s: &str) -> (r: Option<u64>)
    ensures
        r == parse_u64_spec(s@),
{
    let cs = chars_of(s);
    let start: usize = if cs.len() > 0 && cs[0] == '+' {
        1
    } else {
        0
    };
    let ghost d = unsigned_digits(s@);
    assert(d =~= cs@.skip(start as int));
    if start == cs.len() {
        return None;
    }
    let mut value: u128 = 0;
    let mut i: usize = start;
    assert(d.take(0) =~= Seq::<char>::empty());
    while i < cs.len()
        invariant
            start <= i <= cs@.len(),
            cs@ == s@,
            d == cs@.skip(start as int),
            d == unsigned_digits(s@),
            d.len() > 0,
            value == digits_number(d.take(i - start)),
            value <= u64::MAX,
            forall|j: int| 0 <= j < i - start ==> is_digit(#[trigger] d[j]),
        decreases cs@.len() - i,
    {
        let c = cs[i];
        assert(d[i - start] == c);
        let code = c as u32;
        if code < 48 || code > 57 {
            assert(!is_digit(d[i - start]));
            assert(!all_digits(d));
            return None;
        }
        let dv = (code - 48) as u128;
        proof {
            let next = d.take(i - start + 1);
            assert(next.drop_last() =~= d.take(i - start));
            assert(next.last() == c);
        }
        value = value * 10 + dv;
        i = i + 1;
        if value > u64::MAX as u128 {
            proof {
                assert forall|j: int| 0 <= j < i - start implies is_digit(#[trigger] d[j]) by {}
                if all_digits(d) {
                    lemma_digits_number_grows(d, i - start);
                }
            }
            return None;
        }
    }
    assert(d.take(i - start) =~= d);
    Some(value as u64)
}

/// What is in the `x-user-id` header: nothing, something that is not
/// visible ASCII, or a text.
#[derive(Debug)]
pub enum UserIdHeader<'a> {
    Missing,
    NotAscii,
    Text(&'a str),
}

/// The caller's id from the `x-user-id` header: it must be present, ASCII,
/// a 64-bit unsigned integer, and not zero.
pub fn user_id_from_header(header: UserIdHeader) -> (r: Result<UserId, ApiError>)
    ensures
        header is Missing ==> fails_with(r, 401, "missing x-user-id header"@),
        header is NotAscii ==> fails_with(r, 400, "x-user-id must be valid ASCII"@),
        header is Text && parse_u64_spec(header->0@) is None ==> fails_with(
            r,
            400,
            "x-user-id must be a positive integer (u64)"@,
        ),
        header is Text && parse_u64_spec(header->0@) == Some(0u64) ==> fails_with(r, 400, "x-user-id must be greater than 0"@),
        header is Text && parse_u64_spec(header->0@) is Some && parse_u64_spec(header->0@)->0 != 0 ==> r is Ok
            && r->Ok_0.0 == parse_u64_spec(header->0@)->0,
{
    match header {
        UserIdHeader::Missing => Err(unauthorized("missing x-user-id header")),
        UserIdHeader::NotAscii => Err(bad_request("x-user-id must be valid ASCII")),
        UserIdHeader::Text(s) => match parse_u64(s) {
            None => Err(bad_request("x-user-id must be a positive integer (u64)")),
            Some(0) => Err(bad_request("x-user-id must be greater than 0")),
            Some(id) => Ok(UserId(id)),
        },
    }
}

} // verus!
