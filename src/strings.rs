use vstd::prelude::*;
use vstd::utf8::*;

verus! {

/// Relies on `String::push`: the character is appended at the end.
#[verifier::external_body]
pub(crate) fn push_char(s: &mut String, c: char)
    ensures
        final(s)@ == old(s)@.push(c),
{
    s.push(c);
}

/// Relies on `String::push_str`: the characters of `t` are appended at the end.
#[verifier::external_body]
pub(crate) fn push_text(s: &mut String, t: &str)
    ensures
        final(s)@ == old(s)@ + t@,
{
    s.push_str(t);
}

/// Relies on `String::from_utf8`: it accepts exactly the valid UTF-8 byte strings, and the
/// string it builds holds the characters that the bytes encode.
#[verifier::external_body]
pub(crate) fn string_from_utf8(b: Vec<u8>) -> (r: Option<String>)
    ensures
        r is Some <==> valid_utf8(b@),
        r matches Some(s) ==> s@ == decode_utf8(b@),
{
    String::from_utf8(b).ok()
}

/// The bytes `b[start..end]` as a vector.
pub(crate) fn byte_range(b: &[u8], start: usize, end: usize) -> (r: Vec<u8>)
    requires
        start <= end <= b@.len(),
    ensures
        r@ == b@.subrange(start as int, end as int),
{
    let mut r: Vec<u8> = Vec::new();
    let mut i = start;
    while i < end
        invariant
            start <= i <= end <= b@.len(),
            r@ == b@.subrange(start as int, i as int),
        decreases end - i,
    {
        r.push(b[i]);
        i = i + 1;
        assert(r@ =~= b@.subrange(start as int, i as int));
    }
    r
}

/// Whether a byte string holds a byte above 253.
pub open spec fn has_high_byte(b: Seq<u8>) -> bool {
    exists|i: int| 0 <= i < b.len() && b[i] >= 254
}

pub(crate) fn find_high_byte(b: &[u8]) -> (r: bool)
    ensures
        r == has_high_byte(b@),
{
    let mut i: usize = 0;
    while i < b.len()
        invariant
            i <= b@.len(),
            forall|j: int| 0 <= j < i ==> b@[j] < 254,
        decreases b@.len() - i,
    {
        if b[i] >= 254 {
            return true;
        }
        i = i + 1;
    }
    false
}

/// UTF-8 never uses the bytes 254 and 255.
pub proof fn lemma_utf8_has_no_high_byte(b: Seq<u8>)
    requires
        valid_utf8(b),
    ensures
        !has_high_byte(b),
    decreases b.len(),
{
    if b.len() > 0 {
        let k = length_of_first_scalar(b);
        let rest = pop_first_scalar(b);
        assert(1 <= k <= 4 && k <= b.len());
        assert(forall|i: int| 0 <= i < k ==> b[i] < 254);
        lemma_utf8_has_no_high_byte(rest);
        assert forall|i: int| 0 <= i < b.len() implies b[i] < 254 by {
            if i >= k {
                assert(b[i] == rest[i - k]);
            }
        }
    }
}

} // verus!
