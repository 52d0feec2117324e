//! The primitives of the control protocol's binary encoding: fixed-width
//! little-endian integers, and byte strings and texts behind an 8-byte length.

use vstd::bytes::*;
use vstd::prelude::*;
use vstd::slice::*;
use vstd::string::*;
use vstd::utf8::*;

verus! {

/// A byte string on the wire: its length as a 64-bit little-endian integer,
/// then the bytes themselves.
pub open spec fn spec_blob(b: Seq<u8>) -> Seq<u8> {
    spec_u64_to_le_bytes(b.len() as u64) + b
}

/// A text on the wire: its UTF-8 bytes as a byte string.
pub open spec fn spec_text(s: Seq<char>) -> Seq<u8> {
    spec_blob(encode_utf8(s))
}

/// A list of texts on the wire, one after the other (without their count).
pub open spec fn spec_texts(l: Seq<Seq<char>>) -> Seq<u8>
    decreases l.len(),
{
    if l.len() == 0 {
        Seq::empty()
    } else {
        spec_text(l[0]) + spec_texts(l.drop_first())
    }
}

/// The 32-bit integer that starts at `at`, and the position after it.
pub open spec fn spec_take_u32(b: Seq<u8>, at: int) -> Option<(u32, int)> {
    if 0 <= at && at + 4 <= b.len() {
        Some((spec_u32_from_le_bytes(b.subrange(at, at + 4)), at + 4))
    } else {
        None
    }
}

/// The 64-bit integer that starts at `at`, and the position after it.
pub open spec fn spec_take_u64(b: Seq<u8>, at: int) -> Option<(u64, int)> {
    if 0 <= at && at + 8 <= b.len() {
        Some((spec_u64_from_le_bytes(b.subrange(at, at + 8)), at + 8))
    } else {
        None
    }
}

/// The byte string that starts at `at`, and the position after it. There is
/// none where the input ends before the announced length is reached.
pub open spec fn spec_take_blob(b: Seq<u8>, at: int) -> Option<(Seq<u8>, int)> {
    match spec_take_u64(b, at) {
        Some((len, from)) => if from + len <= b.len() {
            Some((b.subrange(from, from + len), from + len))
        } else {
            None
        },
        None => None,
    }
}

/// The text that starts at `at`, and the position after it. There is none
/// where the byte string is cut short or is not UTF-8.
pub open spec fn spec_take_text(b: Seq<u8>, at: int) -> Option<(Seq<char>, int)> {
    match spec_take_blob(b, at) {
        Some((raw, next)) => if valid_utf8(raw) {
            Some((decode_utf8(raw), next))
        } else {
            None
        },
        None => None,
    }
}

/// The `n` texts that start at `at`, and the position after the last.
pub open spec fn spec_take_texts(b: Seq<u8>, at: int, n: nat) -> Option<(Seq<Seq<char>>, int)>
    decreases n,
{
    if n == 0 {
        Some((Seq::empty(), at))
    } else {
        match spec_take_text(b, at) {
            Some((first, next)) => match spec_take_texts(b, next, (n - 1) as nat) {
                Some((rest, end)) => Some((seq![first] + rest, end)),
                None => None,
            },
            None => None,
        }
    }
}

/// Appends `n` as four little-endian bytes.
pub fn put_u32(out: &mut Vec<u8>, n: u32)
    ensures
        final(out)@ == old(out)@ + spec_u32_to_le_bytes(n),
{
    let mut bytes = u32_to_le_bytes(n);
    out.append(&mut bytes);
}

/// Appends `n` as eight little-endian bytes.
pub fn put_u64(out: &mut Vec<u8>, n: u64)
    ensures
        final(out)@ == old(out)@ + spec_u64_to_le_bytes(n),
{
    let mut bytes = u64_to_le_bytes(n);
    out.append(&mut bytes);
}

/// Appends the bytes of `b`, as they are.
pub fn put_raw(out: &mut Vec<u8>, b: &[u8])
    ensures
        final(out)@ == old(out)@ + b@,
{
    let ghost before = out@;
    let mut i: usize = 0;
    while i < b.len()
        invariant
            i <= b@.len(),
            out@ == before + b@.subrange(0, i as int),
        decreases b@.len() - i,
    {
        out.push(b[i]);
        i += 1;
        assert(out@ == before + b@.subrange(0, i as int));
    }
    assert(b@.subrange(0, i as int) == b@);
}

/// Appends `b` as a byte string: length first.
pub fn put_blob(out: &mut Vec<u8>, b: &[u8])
    ensures
        final(out)@ == old(out)@ + spec_blob(b@),
{
    let ghost before = out@;
    put_u64(out, b.len() as u64);
    put_raw(out, b);
    assert(out@ == before + spec_blob(b@));
}

/// Appends `s` as a text: the length of its UTF-8 form, then that form.
pub fn put_text(out: &mut Vec<u8>, s: &str)
    ensures
        final(out)@ == old(out)@ + spec_text(s@),
{
    put_blob(out, s.as_bytes());
}

/// Reads the 32-bit integer at `at`.
pub fn take_u32(b: &[u8], at: usize) -> (r: Option<(u32, usize)>)
    ensures
        match r {
            Some((n, next)) => spec_take_u32(b@, at as int) == Some((n, next as int)),
            None => spec_take_u32(b@, at as int).is_none(),
        },
{
    if b.len() < 4 || at > b.len() - 4 {
        return None;
    }
    let n = u32_from_le_bytes(slice_subrange(b, at, at + 4));
    Some((n, at + 4))
}

/// Reads the 64-bit integer at `at`.
pub fn take_u64(b: &[u8], at: usize) -> (r: Option<(u64, usize)>)
    ensures
        match r {
            Some((n, next)) => spec_take_u64(b@, at as int) == Some((n, next as int)),
            None => spec_take_u64(b@, at as int).is_none(),
        },
{
    if b.len() < 8 || at > b.len() - 8 {
        return None;
    }
    let n = u64_from_le_bytes(slice_subrange(b, at, at + 8));
    Some((n, at + 8))
}

/// Reads the byte string at `at`, without copying it.
pub fn take_blob(b: &[u8], at: usize) -> (r: Option<(&[u8], usize)>)
    ensures
        match r {
            Some((raw, next)) => spec_take_blob(b@, at as int) == Some((raw@, next as int)),
            None => spec_take_blob(b@, at as int).is_none(),
        },
{
    match take_u64(b, at) {
        Some((len, from)) => {
            if len > (b.len() - from) as u64 {
                return None;
            }
            let end = from + len as usize;
            Some((slice_subrange(b, from, end), end))
        },
        None => None,
    }
}

/// `std::str::from_utf8`: the text that `bytes` spell, where they are valid
/// UTF-8, and nothing where they are not.
#[verifier::external_body]
pub(crate) fn from_utf8(bytes: &[u8]) -> (r: Option<&str>)
    ensures
        match r {
            Some(s) => valid_utf8(bytes@) && s@ == decode_utf8(bytes@),
            None => !valid_utf8(bytes@),
        },
{
    match std::str::from_utf8(bytes) {
        Ok(s) => Some(s),
        Err(_) => None,
    }
}

/// Reads the text at `at`.
pub fn take_text(b: &[u8], at: usize) -> (r: Option<(String, usize)>)
    ensures
        match r {
            Some((s, next)) => spec_take_text(b@, at as int) == Some((s@, next as int)),
            None => spec_take_text(b@, at as int).is_none(),
        },
{
    match take_blob(b, at) {
        Some((raw, next)) => match from_utf8(raw) {
            Some(s) => Some((s.to_owned(), next)),
            None => None,
        },
        None => None,
    }
}

/// Reads `n` texts, the first at `at`.
pub fn take_texts(b: &[u8], at: usize, n: u64) -> (r: Option<(Vec<String>, usize)>)
    ensures
        match r {
            Some((l, next)) => spec_take_texts(b@, at as int, n as nat) == Some(
                (l.deep_view(), next as int),
            ),
            None => spec_take_texts(b@, at as int, n as nat).is_none(),
        },
{
    let mut list: Vec<String> = Vec::new();
    let mut pos: usize = at;
    let mut i: u64 = 0;
    while i < n
        invariant
            i <= n,
            list@.len() == i,
            spec_take_texts(b@, at as int, n as nat) == match spec_take_texts(
                b@,
                pos as int,
                (n - i) as nat,
            ) {
                Some((rest, end)) => Some((list.deep_view() + rest, end)),
                None => None,
            },
        decreases n - i,
    {
        match take_text(b, pos) {
            Some((s, next)) => {
                proof {
                    lemma_take_texts_step(b@, pos as int, (n - i) as nat, list.deep_view());
                    assert(list.deep_view().push(s@) == list@.push(s).map_values(
                        |t: String| t.deep_view(),
                    ));
                }
                list.push(s);
                pos = next;
                i += 1;
            },
            None => {
                return None;
            },
        }
    }
    assert(list.deep_view() + Seq::<Seq<char>>::empty() == list.deep_view());
    Some((list, pos))
}

/// One text further: what was read so far, then the text at `at`, then the
/// rest, is what was read so far, then all that starts at `at`.
proof fn lemma_take_texts_step(b: Seq<u8>, at: int, n: nat, done: Seq<Seq<char>>)
    requires
        n > 0,
        spec_take_text(b, at).is_some(),
    ensures
        ({
            let (first, next) = spec_take_text(b, at).unwrap();
            (match spec_take_texts(b, at, n) {
                Some((rest, end)) => Some((done + rest, end)),
                None => None,
            }) == (match spec_take_texts(b, next, (n - 1) as nat) {
                Some((rest, end)) => Some((done.push(first) + rest, end)),
                None => None,
            })
        }),
{
    let (first, next) = spec_take_text(b, at).unwrap();
    match spec_take_texts(b, next, (n - 1) as nat) {
        Some((rest, end)) => {
            assert(done + (seq![first] + rest) == done.push(first) + rest);
        },
        None => {},
    }
}

/// Whether `enc` stands in `b` at `at`.
pub open spec fn holds_at(b: Seq<u8>, at: int, enc: Seq<u8>) -> bool {
    0 <= at && at + enc.len() <= b.len() && b.subrange(at, at + enc.len()) == enc
}

/// Where two encodings stand one after the other, each of them stands.
pub proof fn lemma_holds_at_split(b: Seq<u8>, at: int, x: Seq<u8>, y: Seq<u8>)
    requires
        holds_at(b, at, x + y),
    ensures
        holds_at(b, at, x),
        holds_at(b, at + x.len(), y),
{
    let whole = b.subrange(at, at + (x + y).len());
    assert(b.subrange(at, at + x.len()) == whole.subrange(0, x.len() as int));
    assert(whole.subrange(0, x.len() as int) == x);
    assert(b.subrange(at + x.len(), at + x.len() + y.len()) == whole.subrange(
        x.len() as int,
        (x + y).len() as int,
    ));
    assert(whole.subrange(x.len() as int, (x + y).len() as int) == y);
}

/// A 32-bit integer is read back from where it was written.
pub proof fn lemma_take_put_u32(b: Seq<u8>, at: int, n: u32)
    requires
        holds_at(b, at, spec_u32_to_le_bytes(n)),
    ensures
        spec_take_u32(b, at) == Some((n, at + 4)),
{
    lemma_auto_spec_u32_to_from_le_bytes();
}

/// A 64-bit integer is read back from where it was written.
pub proof fn lemma_take_put_u64(b: Seq<u8>, at: int, n: u64)
    requires
        holds_at(b, at, spec_u64_to_le_bytes(n)),
    ensures
        spec_take_u64(b, at) == Some((n, at + 8)),
{
    lemma_auto_spec_u64_to_from_le_bytes();
}

/// A byte string is read back from where it was written.
pub proof fn lemma_take_put_blob(b: Seq<u8>, at: int, x: Seq<u8>)
    requires
        x.len() <= u64::MAX,
        holds_at(b, at, spec_blob(x)),
    ensures
        spec_take_blob(b, at) == Some((x, at + 8 + x.len())),
        spec_blob(x).len() == 8 + x.len(),
{
    lemma_auto_spec_u64_to_from_le_bytes();
    let head = spec_u64_to_le_bytes(x.len() as u64);
    lemma_holds_at_split(b, at, head, x);
    lemma_take_put_u64(b, at, x.len() as u64);
}

/// A text is read back from where it was written.
pub proof fn lemma_take_put_text(b: Seq<u8>, at: int, s: Seq<char>)
    requires
        encode_utf8(s).len() <= u64::MAX,
        holds_at(b, at, spec_text(s)),
    ensures
        spec_take_text(b, at) == Some((s, at + spec_text(s).len())),
{
    lemma_take_put_blob(b, at, encode_utf8(s));
    encode_utf8_valid_utf8(s);
    encode_utf8_decode_utf8(s);
}

/// Whether the UTF-8 form of each text of `l` has a length that fits the
/// 64-bit length field.
pub open spec fn texts_fit(l: Seq<Seq<char>>) -> bool {
    forall|i: int| 0 <= i < l.len() ==> (#[trigger] encode_utf8(l[i])).len() <= u64::MAX
}

/// A list of texts is read back from where it was written.
pub proof fn lemma_take_put_texts(b: Seq<u8>, at: int, l: Seq<Seq<char>>)
    requires
        texts_fit(l),
        holds_at(b, at, spec_texts(l)),
    ensures
        spec_take_texts(b, at, l.len()) == Some((l, at + spec_texts(l).len())),
    decreases l.len(),
{
    if l.len() == 0 {
        assert(l == Seq::<Seq<char>>::empty());
    } else {
        let rest = l.drop_first();
        assert(encode_utf8(l[0]).len() <= u64::MAX);
        assert forall|i: int| 0 <= i < rest.len() implies (#[trigger] encode_utf8(
            rest[i],
        )).len() <= u64::MAX by {
            assert(rest[i] == l[i + 1]);
        }
        lemma_holds_at_split(b, at, spec_text(l[0]), spec_texts(rest));
        lemma_take_put_text(b, at, l[0]);
        lemma_take_put_texts(b, at + spec_text(l[0]).len(), rest);
        assert(seq![l[0]] + rest == l);
    }
}

/// The form of a list with one more text is the form of the list, then that
/// of the text.
pub proof fn lemma_texts_push(l: Seq<Seq<char>>, x: Seq<char>)
    ensures
        spec_texts(l.push(x)) == spec_texts(l) + spec_text(x),
    decreases l.len(),
{
    if l.len() == 0 {
        assert(l.push(x).drop_first() == Seq::<Seq<char>>::empty());
        assert(spec_texts(l.push(x)) == spec_text(x) + spec_texts(l.push(x).drop_first()));
        assert(spec_text(x) + Seq::<u8>::empty() == spec_text(x));
        assert(Seq::<u8>::empty() + spec_text(x) == spec_text(x));
    } else {
        lemma_texts_push(l.drop_first(), x);
        assert(l.push(x).drop_first() == l.drop_first().push(x));
        assert(spec_text(l[0]) + (spec_texts(l.drop_first()) + spec_text(x)) == (spec_text(l[0])
            + spec_texts(l.drop_first())) + spec_text(x));
    }
}

/// Appends the texts of `l`, one after the other.
pub fn put_texts(out: &mut Vec<u8>, l: &Vec<String>)
    ensures
        final(out)@ == old(out)@ + spec_texts(l.deep_view()),
{
    let ghost before = out@;
    let mut i: usize = 0;
    assert(l.deep_view().subrange(0, 0) == Seq::<Seq<char>>::empty());
    while i < l.len()
        invariant
            i <= l@.len(),
            out@ == before + spec_texts(l.deep_view().subrange(0, i as int)),
        decreases l@.len() - i,
    {
        proof {
            lemma_texts_push(l.deep_view().subrange(0, i as int), l@[i as int]@);
            assert(l.deep_view().subrange(0, i as int).push(l@[i as int]@) == l.deep_view().subrange(
                0,
                i + 1,
            ));
        }
        put_text(out, l[i].as_str());
        i += 1;
    }
    assert(l.deep_view().subrange(0, i as int) == l.deep_view());
}

} // verus!
