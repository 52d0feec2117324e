//! Host names are compared byte for byte: no case is folded and nothing is
//! stripped.

use crate::http::{find, lemma_find, spec_find, COLON};
use vstd::prelude::*;
use vstd::string::*;
use vstd::utf8::*;

verus! {

/// Whether `a` and `b` hold the same bytes.
pub fn same_bytes(a: &[u8], b: &[u8]) -> (r: bool)
    ensures
        r == (a@ == b@),
{
    if a.len() != b.len() {
        return false;
    }
    let mut i: usize = 0;
    while i < a.len()
        invariant
            i <= a@.len(),
            a@.len() == b@.len(),
            forall|j: int| 0 <= j < i ==> a@[j] == b@[j],
        decreases a@.len() - i,
    {
        if a[i] != b[i] {
            return false;
        }
        i += 1;
    }
    assert(a@ =~= b@);
    true
}

/// Whether `a` and `b` are the same text.
pub fn same_text(a: &str, b: &str) -> (r: bool)
    ensures
        r == (a@ == b@),
{
    proof {
        encode_utf8_decode_utf8(a@);
        encode_utf8_decode_utf8(b@);
    }
    same_bytes(a.as_bytes(), b.as_bytes())
}

/// Whether `s` is one of `list`.
pub open spec fn spec_listed(list: Seq<String>, s: Seq<char>) -> bool {
    exists|k: int| 0 <= k < list.len() && (#[trigger] list[k])@ == s
}

/// Whether `s` is one of `list`.
pub fn listed(list: &[String], s: &str) -> (r: bool)
    ensures
        r == spec_listed(list@, s@),
{
    let mut k: usize = 0;
    while k < list.len()
        invariant
            k <= list@.len(),
            forall|j: int| 0 <= j < k ==> (#[trigger] list@[j])@ != s@,
        decreases list@.len() - k,
    {
        if same_text(list[k].as_str(), s) {
            return true;
        }
        k += 1;
    }
    false
}

/// The texts before and after the first colon of `s`, where it has one. The
/// colon is looked for in the UTF-8 form of `s`, where no other character
/// holds its byte.
pub open spec fn spec_split_at_colon(s: Seq<char>) -> Option<(Seq<char>, Seq<char>)> {
    let bytes = encode_utf8(s);
    match spec_find(bytes, COLON, 0) {
        Some(n) => Some(
            (decode_utf8(bytes.subrange(0, n)), decode_utf8(bytes.subrange(n + 1, bytes.len() as int))),
        ),
        None => None,
    }
}

/// A colon in a text is a character of its own: the text can be cut before
/// it and after it.
proof fn lemma_colon_is_boundary(bytes: Seq<u8>, n: int)
    requires
        valid_utf8(bytes),
        0 <= n < bytes.len(),
        bytes[n] == COLON,
    ensures
        is_char_boundary(bytes, n),
        valid_utf8(bytes.subrange(n, bytes.len() as int)),
        is_char_boundary(bytes.subrange(n, bytes.len() as int), 1),
{
    assert(!is_continuation_byte(COLON)) by (bit_vector);
    assert(is_leading_byte_width_1(COLON)) by (bit_vector);
    is_char_boundary_iff_not_is_continuation_byte(bytes, n);
    valid_utf8_split(bytes, n);
    let rest = bytes.subrange(n, bytes.len() as int);
    assert(rest[0] == COLON);
    assert(is_char_boundary(rest, 1)) by {
        reveal_with_fuel(is_char_boundary, 2);
        reveal_with_fuel(valid_utf8, 2);
    }
}

/// Cuts `s` at its first colon.
pub fn split_at_colon(s: &str) -> (r: Option<(&str, &str)>)
    ensures
        match r {
            Some((before, after)) => spec_split_at_colon(s@) == Some((before@, after@)),
            None => spec_split_at_colon(s@).is_none(),
        },
{
    let bytes = s.as_bytes();
    assert(bytes@.subrange(0, bytes@.len() as int) == bytes@);
    match find(COLON, 0, bytes.len(), bytes) {
        Some(n) => {
            proof {
                lemma_find(bytes@, COLON, 0);
                encode_utf8_valid_utf8(s@);
                lemma_colon_is_boundary(bytes@, n as int);
            }
            let (before, rest) = s.split_at(n);
            let (_, after) = rest.split_at(1);
            proof {
                let tail = bytes@.subrange(n as int, bytes@.len() as int);
                assert(tail.subrange(1, tail.len() as int) == bytes@.subrange(
                    n + 1,
                    bytes@.len() as int,
                ));
                encode_utf8_decode_utf8(before@);
                encode_utf8_decode_utf8(after@);
            }
            Some((before, after))
        },
        None => None,
    }
}

} // verus!
