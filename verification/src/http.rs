//! The HTTP side of the tunnel: finding the `Host` header in the first bytes
//! of a request, and the two responses the server itself ever sends.
//!
//! A request is scanned line by line. A line ends at a carriage return; the
//! next one starts two bytes further, after the line feed. The request line
//! is passed over. Of the header lines, the first whose name, the bytes
//! before its first colon, is `host` in any case, is the one looked for; its
//! value is all that follows that colon, a port included.

use crate::wire::{from_utf8, put_raw};
use vstd::prelude::*;
use vstd::slice::slice_subrange;
use vstd::string::*;
use vstd::utf8::{decode_utf8, encode_utf8, valid_utf8};

verus! {

/// The byte that ends a line, before the line feed.
pub const CR: u8 = 13;

/// The byte that parts a header's name from its value.
pub const COLON: u8 = 58;

/// The position of the first `x` in `s` at or after `from`.
pub open spec fn spec_find(s: Seq<u8>, x: u8, from: int) -> Option<int>
    decreases s.len() - from,
{
    if from < 0 || from >= s.len() {
        None
    } else if s[from] == x {
        Some(from)
    } else {
        spec_find(s, x, from + 1)
    }
}

/// What `spec_find` finds is the first `x` at or after `from`, and where it
/// finds nothing there is none.
pub proof fn lemma_find(s: Seq<u8>, x: u8, from: int)
    requires
        0 <= from,
    ensures
        match spec_find(s, x, from) {
            Some(i) => from <= i < s.len() && s[i] == x && forall|j: int|
                from <= j < i ==> s[j] != x,
            None => forall|j: int| from <= j < s.len() ==> s[j] != x,
        },
    decreases s.len() - from,
{
    if from < s.len() && s[from] != x {
        lemma_find(s, x, from + 1);
    }
}

/// The first `x` at or after `from` is what `spec_find` finds.
pub proof fn lemma_find_first(s: Seq<u8>, x: u8, from: int, i: int)
    requires
        0 <= from <= i < s.len(),
        s[i] == x,
        forall|j: int| from <= j < i ==> s[j] != x,
    ensures
        spec_find(s, x, from) == Some(i),
    decreases i - from,
{
    if from < i {
        lemma_find_first(s, x, from + 1, i);
    }
}

/// Where there is no `x` at or after `from`, `spec_find` finds nothing.
pub proof fn lemma_find_none(s: Seq<u8>, x: u8, from: int)
    requires
        forall|j: int| from <= j < s.len() ==> s[j] != x,
    ensures
        spec_find(s, x, from).is_none(),
    decreases s.len() - from,
{
    if 0 <= from < s.len() {
        lemma_find_none(s, x, from + 1);
    }
}

/// The position of the first `x` in `s[start..end]`, if there is one.
pub fn find(x: u8, start: usize, end: usize, s: &[u8]) -> (r: Option<usize>)
    requires
        end <= s@.len(),
    ensures
        match r {
            Some(i) => spec_find(s@.subrange(0, end as int), x, start as int) == Some(i as int),
            None => spec_find(s@.subrange(0, end as int), x, start as int).is_none(),
        },
{
    let ghost part = s@.subrange(0, end as int);
    let mut i: usize = start;
    while i < end
        invariant
            start <= i,
            end <= s@.len(),
            part == s@.subrange(0, end as int),
            forall|j: int| start <= j < i ==> part[j] != x,
        decreases end - i,
    {
        if s[i] == x {
            proof {
                lemma_find_first(part, x, start as int, i as int);
            }
            return Some(i);
        }
        i += 1;
    }
    proof {
        lemma_find_none(part, x, start as int);
    }
    None
}

/// The position of the first carriage return in `s[start..end]`, if there is
/// one.
pub fn find_r(start: usize, end: usize, s: &[u8]) -> (r: Option<usize>)
    requires
        end <= s@.len(),
    ensures
        match r {
            Some(i) => spec_find(s@.subrange(0, end as int), CR, start as int) == Some(i as int),
            None => spec_find(s@.subrange(0, end as int), CR, start as int).is_none(),
        },
{
    find(CR, start, end, s)
}

/// The letter `h`; its capital stands 32 below it, as with every letter.
pub const LOWER_H: u8 = 104;

/// The letter `o`.
pub const LOWER_O: u8 = 111;

/// The letter `s`.
pub const LOWER_S: u8 = 115;

/// The letter `t`.
pub const LOWER_T: u8 = 116;

/// Whether `s` spells `host`, in small or capital letters.
pub open spec fn is_host_name(s: Seq<u8>) -> bool {
    &&& s.len() == 4
    &&& (s[0] == LOWER_H || s[0] == LOWER_H - 32)
    &&& (s[1] == LOWER_O || s[1] == LOWER_O - 32)
    &&& (s[2] == LOWER_S || s[2] == LOWER_S - 32)
    &&& (s[3] == LOWER_T || s[3] == LOWER_T - 32)
}

/// Setting bit 5 of a byte gives a small letter for that letter, small or
/// capital, and for no other byte.
proof fn lemma_fold_case(x: u8)
    by (bit_vector)
    ensures
        (x | 32 == 104) <==> (x == 104 || x == 72),
        (x | 32 == 111) <==> (x == 111 || x == 79),
        (x | 32 == 115) <==> (x == 115 || x == 83),
        (x | 32 == 116) <==> (x == 116 || x == 84),
{
}

/// Whether `s` is the name of the `Host` header.
pub fn eq_host(s: &[u8]) -> (r: bool)
    ensures
        r == is_host_name(s@),
{
    if s.len() != 4 {
        return false;
    }
    proof {
        lemma_fold_case(s@[0]);
        lemma_fold_case(s@[1]);
        lemma_fold_case(s@[2]);
        lemma_fold_case(s@[3]);
    }
    (s[0] | 32) == LOWER_H && (s[1] | 32) == LOWER_O && (s[2] | 32) == LOWER_S && (s[3] | 32)
        == LOWER_T
}

/// The value of the header line `line`, where its name is `host`: all that
/// follows its first colon.
pub open spec fn spec_extract(line: Seq<u8>) -> Option<Seq<u8>> {
    match spec_find(line, COLON, 0) {
        Some(c) => if is_host_name(line.subrange(0, c)) {
            Some(line.subrange(c + 1, line.len() as int))
        } else {
            None
        },
        None => None,
    }
}

/// The value of the header line `s`, where it is a `Host` header.
pub fn extract_domain(s: &[u8]) -> (r: Option<&[u8]>)
    ensures
        match r {
            Some(v) => spec_extract(s@) == Some(v@),
            None => spec_extract(s@).is_none(),
        },
{
    assert(s@.subrange(0, s@.len() as int) == s@);
    match find(COLON, 0, s.len(), s) {
        Some(c) => {
            proof {
                lemma_find(s@, COLON, 0);
            }
            if eq_host(slice_subrange(s, 0, c)) {
                Some(slice_subrange(s, c + 1, s.len()))
            } else {
                None
            }
        },
        None => None,
    }
}

/// Where the scan of a request stands.
#[derive(Debug, Clone, Copy, PartialEq, Eq)]
pub enum State {
    /// In the request line.
    Start,
    /// At the header line that starts at this position.
    ParseHeader(usize),
}

/// Where the scan of a request stands, with a position of any size.
pub enum Cursor {
    Start,
    Header(int),
}

impl View for State {
    type V = Cursor;

    open spec fn view(&self) -> Cursor {
        match self {
            State::Start => Cursor::Start,
            State::ParseHeader(s) => Cursor::Header(*s as int),
        }
    }
}

/// What a scan has come to: where it stands, and the bounds of the `Host`
/// line, once it stands at it and has seen its end.
pub struct Scan {
    pub at: Cursor,
    pub found: Option<(int, int)>,
}

/// Scans the header lines of `b` from the line that starts at `start`, up
/// to the first `Host` line that has ended, or to the first line that has
/// not.
pub open spec fn spec_scan_headers(b: Seq<u8>, start: int) -> Scan
    decreases b.len() + 2 - start,
{
    match spec_find(b, CR, start) {
        Some(end) => if start <= end < b.len() && spec_extract(b.subrange(start, end)).is_none() {
            spec_scan_headers(b, end + 2)
        } else {
            Scan { at: Cursor::Header(start), found: Some((start, end)) }
        },
        None => Scan { at: Cursor::Header(start), found: None },
    }
}

/// Goes on with the scan of `b` from where an earlier scan stood.
pub open spec fn spec_scan_from(b: Seq<u8>, at: Cursor) -> Scan {
    match at {
        Cursor::Start => match spec_find(b, CR, 0) {
            Some(end) => spec_scan_headers(b, end + 2),
            None => Scan { at: Cursor::Start, found: None },
        },
        Cursor::Header(start) => spec_scan_headers(b, start),
    }
}

/// Scans the request `b` from its first byte.
pub open spec fn spec_scan(b: Seq<u8>) -> Scan {
    spec_scan_from(b, Cursor::Start)
}

/// What was found in some bytes is found in the same place when more have
/// followed.
pub proof fn lemma_find_stable(b: Seq<u8>, more: Seq<u8>, x: u8, from: int)
    requires
        0 <= from,
        spec_find(b, x, from).is_some(),
    ensures
        spec_find(b + more, x, from) == spec_find(b, x, from),
{
    lemma_find(b, x, from);
    let i = spec_find(b, x, from).unwrap();
    assert forall|j: int| from <= j < i implies (b + more)[j] != x by {
        assert((b + more)[j] == b[j]);
    }
    assert((b + more)[i] == b[i]);
    lemma_find_first(b + more, x, from, i);
}

/// A scan of the header lines that has found nothing yet goes on, when more
/// bytes have followed, from where it stood.
pub proof fn lemma_scan_headers_resumes(b: Seq<u8>, more: Seq<u8>, start: int)
    requires
        0 <= start,
        spec_scan_headers(b, start).found.is_none(),
    ensures
        spec_scan_headers(b, start).at is Header,
        spec_scan_headers(b + more, start) == spec_scan_from(
            b + more,
            spec_scan_headers(b, start).at,
        ),
    decreases b.len() + 2 - start,
{
    match spec_find(b, CR, start) {
        Some(end) => {
            lemma_find(b, CR, start);
            lemma_find_stable(b, more, CR, start);
            assert((b + more).subrange(start, end) == b.subrange(start, end));
            lemma_scan_headers_resumes(b, more, end + 2);
        },
        None => {},
    }
}

/// A scan that has found nothing yet goes on, when more bytes have followed,
/// from where it stood: to scan what has arrived piece by piece is to scan
/// it whole.
pub proof fn lemma_scan_resumes(b: Seq<u8>, more: Seq<u8>, at: Cursor)
    requires
        at matches Cursor::Header(start) ==> 0 <= start,
        spec_scan_from(b, at).found.is_none(),
    ensures
        spec_scan_from(b + more, at) == spec_scan_from(b + more, spec_scan_from(b, at).at),
{
    match at {
        Cursor::Start => match spec_find(b, CR, 0) {
            Some(end) => {
                lemma_find(b, CR, 0);
                lemma_find_stable(b, more, CR, 0);
                lemma_scan_headers_resumes(b, more, end + 2);
            },
            None => {},
        },
        Cursor::Header(start) => {
            lemma_scan_headers_resumes(b, more, start);
        },
    }
}

/// Goes on with the scan of `buf` from `state`. Gives where the scan stands
/// then, and the bounds of the `Host` line if it has been found.
pub fn scan(buf: &[u8], state: State) -> (r: (State, Option<(usize, usize)>))
    requires
        buf@.len() < usize::MAX,
        state matches State::ParseHeader(s) ==> s <= buf@.len() + 1,
    ensures
        r.0@ == spec_scan_from(buf@, state@).at,
        match r.1 {
            Some((start, end)) => start <= end < buf@.len() && spec_scan_from(buf@, state@).found
                == Some((start as int, end as int)) && spec_extract(
                buf@.subrange(start as int, end as int),
            ).is_some(),
            None => spec_scan_from(buf@, state@).found.is_none(),
        },
        r.0 matches State::ParseHeader(s) ==> s <= buf@.len() + 1,
{
    let len = buf.len();
    assert(buf@.subrange(0, len as int) == buf@);
    let mut start: usize = match state {
        State::Start => match find_r(0, len, buf) {
            Some(end) => {
                proof {
                    lemma_find(buf@, CR, 0);
                }
                end + 2
            },
            None => {
                return (State::Start, None);
            },
        },
        State::ParseHeader(s) => s,
    };
    loop
        invariant
            len == buf@.len(),
            len < usize::MAX,
            start <= len + 1,
            buf@.subrange(0, len as int) == buf@,
            spec_scan_from(buf@, state@) == spec_scan_headers(buf@, start as int),
        decreases len + 1 - start,
    {
        match find_r(start, len, buf) {
            Some(end) => {
                proof {
                    lemma_find(buf@, CR, start as int);
                }
                if extract_domain(slice_subrange(buf, start, end)).is_some() {
                    return (State::ParseHeader(start), Some((start, end)));
                }
                start = end + 2;
            },
            None => {
                return (State::ParseHeader(start), None);
            },
        }
    }
}

/// Whether `c` is white space, as Unicode's property `White_Space` has it.
pub open spec fn is_white_space(c: char) -> bool {
    ||| '\u{9}' <= c <= '\u{d}'
    ||| c == ' '
    ||| c == '\u{85}'
    ||| c == '\u{a0}'
    ||| c == '\u{1680}'
    ||| '\u{2000}' <= c <= '\u{200a}'
    ||| c == '\u{2028}'
    ||| c == '\u{2029}'
    ||| c == '\u{202f}'
    ||| c == '\u{205f}'
    ||| c == '\u{3000}'
}

/// `s` without the white space it starts with.
pub open spec fn spec_trim_start(s: Seq<char>) -> Seq<char>
    decreases s.len(),
{
    if s.len() > 0 && is_white_space(s[0]) {
        spec_trim_start(s.drop_first())
    } else {
        s
    }
}

/// `s` without the white space it ends with.
pub open spec fn spec_trim_end(s: Seq<char>) -> Seq<char>
    decreases s.len(),
{
    if s.len() > 0 && is_white_space(s.last()) {
        spec_trim_end(s.drop_last())
    } else {
        s
    }
}

/// `s` without the white space around it.
pub open spec fn spec_trim(s: Seq<char>) -> Seq<char> {
    spec_trim_end(spec_trim_start(s))
}

/// `str::trim`: the text without the white space at its start and at its
/// end, where white space is what has Unicode's property `White_Space`.
#[verifier::external_body]
pub(crate) fn trim(s: &str) -> (r: &str)
    ensures
        r@ == spec_trim(s@),
{
    s.trim()
}

/// A buffer starts with room for this many bytes, and grows by doubling.
pub const BUF_SIZE: usize = 1024;

/// The `Host` line has to end within this many bytes.
pub const MAX_BUF_SIZE: usize = 4096;

/// What the sniffer has found: the host that the request names, and all the
/// bytes that were taken from the stream to find it, in their order.
#[derive(Debug, Clone, PartialEq, Eq)]
pub struct ParseResult {
    pub buf: Vec<u8>,
    pub domain: String,
}

/// Why the sniffer gives up on a request.
#[derive(Debug, Clone, Copy, PartialEq, Eq)]
pub enum SniffError {
    /// The stream ended before the `Host` line did.
    UnexpectedEof,
    /// The `Host` line did not end within `MAX_BUF_SIZE` bytes.
    HeaderTooLarge,
    /// The value of the `Host` line is not UTF-8.
    InvalidHost,
}

/// What taking in some bytes of a request leads to.
pub enum Sniffed {
    /// The `Host` line has not ended yet; these bytes are held.
    More(Seq<u8>),
    /// The request names `domain`; `buf` is all that was taken in.
    Done { buf: Seq<u8>, domain: Seq<char> },
    UnexpectedEof,
    HeaderTooLarge,
    InvalidHost,
}

/// The room of a buffer that holds `len` bytes: 1024, 2048 or 4096,
/// whichever is the first to be more than `len`.
pub open spec fn spec_capacity(len: int) -> int {
    if len < BUF_SIZE {
        BUF_SIZE as int
    } else if len < 2 * BUF_SIZE {
        2 * BUF_SIZE
    } else {
        MAX_BUF_SIZE as int
    }
}

/// The step of a sniffer that holds `taken` and is handed `data`, the result
/// of one read: an empty `data` says that the stream has ended.
pub open spec fn spec_feed(taken: Seq<u8>, data: Seq<u8>) -> Sniffed {
    let all = taken + data;
    if data.len() == 0 {
        Sniffed::UnexpectedEof
    } else {
        match spec_scan(all).found {
            Some((start, end)) => {
                let value = spec_extract(all.subrange(start, end)).unwrap();
                if valid_utf8(value) {
                    Sniffed::Done { buf: all, domain: spec_trim(decode_utf8(value)) }
                } else {
                    Sniffed::InvalidHost
                }
            },
            None => if all.len() >= MAX_BUF_SIZE {
                Sniffed::HeaderTooLarge
            } else {
                Sniffed::More(all)
            },
        }
    }
}

/// Finds the host that a request names, read by read, and keeps every byte
/// it is handed.
pub struct HostSniffer {
    buf: Vec<u8>,
    state: State,
}

/// What a sniffer reports of a read that went well.
pub enum Sniff {
    /// The `Host` line has not ended yet: read again, and feed this sniffer.
    More(HostSniffer),
    /// The host is found.
    Done(ParseResult),
}

/// The outcome that a sniffer's report stands for.
pub open spec fn spec_sniffed(r: Result<Sniff, SniffError>) -> Sniffed {
    match r {
        Ok(Sniff::More(s)) => Sniffed::More(s.taken()),
        Ok(Sniff::Done(p)) => Sniffed::Done { buf: p.buf@, domain: p.domain@ },
        Err(SniffError::UnexpectedEof) => Sniffed::UnexpectedEof,
        Err(SniffError::HeaderTooLarge) => Sniffed::HeaderTooLarge,
        Err(SniffError::InvalidHost) => Sniffed::InvalidHost,
    }
}

impl HostSniffer {
    #[verifier::type_invariant]
    spec fn inv(self) -> bool {
        &&& self.buf@.len() < MAX_BUF_SIZE
        &&& spec_scan(self.buf@) == Scan { at: self.state@, found: None }
        &&& self.state matches State::ParseHeader(s) ==> s <= self.buf@.len() + 1
    }

    /// The bytes taken in so far.
    pub closed spec fn taken(self) -> Seq<u8> {
        self.buf@
    }

    pub fn new() -> (r: Self)
        ensures
            r.taken() == Seq::<u8>::empty(),
    {
        Self { buf: Vec::with_capacity(BUF_SIZE), state: State::Start }
    }

    /// How many bytes the next read may bring at most: never none.
    pub fn room(&self) -> (n: usize)
        ensures
            n == spec_capacity(self.taken().len() as int) - self.taken().len(),
            1 <= n <= 2 * BUF_SIZE,
    {
        proof {
            use_type_invariant(self);
        }
        let len = self.buf.len();
        if len < BUF_SIZE {
            BUF_SIZE - len
        } else if len < 2 * BUF_SIZE {
            2 * BUF_SIZE - len
        } else {
            MAX_BUF_SIZE - len
        }
    }

    /// Takes in `data`, the bytes that one read has brought; none say that
    /// the stream has ended.
    pub fn feed(self, data: &[u8]) -> (r: Result<Sniff, SniffError>)
        requires
            data@.len() <= spec_capacity(self.taken().len() as int) - self.taken().len(),
        ensures
            spec_sniffed(r) == spec_feed(self.taken(), data@),
    {
        proof {
            use_type_invariant(&self);
        }
        if data.len() == 0 {
            return Err(SniffError::UnexpectedEof);
        }
        let ghost taken = self.buf@;
        let mut buf = self.buf;
        put_raw(&mut buf, data);
        proof {
            lemma_scan_resumes(taken, data@, Cursor::Start);
        }
        let (state, found) = scan(buf.as_slice(), self.state);
        match found {
            Some((start, end)) => {
                let line = slice_subrange(buf.as_slice(), start, end);
                let domain = match extract_domain(line) {
                    Some(value) => match from_utf8(value) {
                        Some(text) => trim(text).to_owned(),
                        None => {
                            return Err(SniffError::InvalidHost);
                        },
                    },
                    None => {
                        return Err(SniffError::InvalidHost);
                    },
                };
                Ok(Sniff::Done(ParseResult { buf, domain }))
            },
            None => {
                if buf.len() >= MAX_BUF_SIZE {
                    Err(SniffError::HeaderTooLarge)
                } else {
                    proof {
                        lemma_scan_resumes(buf@, Seq::empty(), Cursor::Start);
                        assert(buf@ + Seq::<u8>::empty() == buf@);
                    }
                    Ok(Sniff::More(HostSniffer { buf, state }))
                }
            },
        }
    }
}

/// In the first `n` bytes, what is found is what is found in all of them,
/// where that lies within the first `n`.
pub proof fn lemma_find_prefix(b: Seq<u8>, n: int, x: u8, from: int)
    requires
        0 <= from,
        0 <= n <= b.len(),
    ensures
        spec_find(b.take(n), x, from) == match spec_find(b, x, from) {
            Some(i) => if i < n {
                Some(i)
            } else {
                None
            },
            None => None,
        },
{
    let p = b.take(n);
    lemma_find(b, x, from);
    match spec_find(b, x, from) {
        Some(i) => {
            if i < n {
                assert forall|j: int| from <= j < i implies p[j] != x by {
                    assert(p[j] == b[j]);
                }
                lemma_find_first(p, x, from, i);
            } else {
                assert forall|j: int| from <= j < p.len() implies p[j] != x by {
                    assert(p[j] == b[j]);
                }
                lemma_find_none(p, x, from);
            }
        },
        None => {
            assert forall|j: int| from <= j < p.len() implies p[j] != x by {
                assert(p[j] == b[j]);
            }
            lemma_find_none(p, x, from);
        },
    }
}

/// The line that a scan of the header lines finds is a `Host` line that
/// ends at a carriage return.
pub proof fn lemma_scan_headers_found(b: Seq<u8>, start: int)
    requires
        0 <= start,
        spec_scan_headers(b, start).found.is_some(),
    ensures
        ({
            let (s, e) = spec_scan_headers(b, start).found.unwrap();
            &&& start <= s <= e < b.len()
            &&& b[e] == CR
            &&& spec_extract(b.subrange(s, e)).is_some()
        }),
    decreases b.len() + 2 - start,
{
    lemma_find(b, CR, start);
    match spec_find(b, CR, start) {
        Some(end) => {
            if spec_extract(b.subrange(start, end)).is_none() {
                lemma_scan_headers_found(b, end + 2);
            }
        },
        None => {},
    }
}

/// A scan of the header lines of the first `n` bytes finds the `Host` line
/// if and only if they reach past the end of that line.
pub proof fn lemma_scan_headers_prefix(b: Seq<u8>, n: int, start: int)
    requires
        0 <= start,
        0 <= n <= b.len(),
        spec_scan_headers(b, start).found.is_some(),
    ensures
        spec_scan_headers(b.take(n), start).found == if n > spec_scan_headers(
            b,
            start,
        ).found.unwrap().1 {
            spec_scan_headers(b, start).found
        } else {
            None
        },
    decreases b.len() + 2 - start,
{
    lemma_find(b, CR, start);
    lemma_find_prefix(b, n, CR, start);
    lemma_scan_headers_found(b, start);
    match spec_find(b, CR, start) {
        Some(end) => {
            if end < n {
                assert(b.take(n).subrange(start, end) == b.subrange(start, end));
                if spec_extract(b.subrange(start, end)).is_none() {
                    lemma_scan_headers_prefix(b, n, end + 2);
                }
            }
        },
        None => {},
    }
}

/// Of a request, the first `n` bytes let the `Host` line be found if and
/// only if they reach past the end of that line. So a line that ends within
/// the first `MAX_BUF_SIZE` bytes is found from these, and one that ends a
/// byte later is not.
pub proof fn lemma_scan_prefix(b: Seq<u8>, n: int)
    requires
        0 <= n <= b.len(),
        spec_scan(b).found.is_some(),
    ensures
        spec_scan(b.take(n)).found == if n > spec_scan(b).found.unwrap().1 {
            spec_scan(b).found
        } else {
            None
        },
{
    lemma_find(b, CR, 0);
    lemma_find_prefix(b, n, CR, 0);
    match spec_find(b, CR, 0) {
        Some(end) => {
            lemma_scan_headers_found(b, end + 2);
            if end < n {
                lemma_scan_headers_prefix(b, n, end + 2);
            }
        },
        None => {},
    }
}

/// The limit is sharp: a request whose `Host` line ends within the first
/// `MAX_BUF_SIZE` bytes is not refused as too large when these have been
/// taken in, and one whose `Host` line ends a byte later, or further on, is.
pub proof fn lemma_limit_is_sharp(b: Seq<u8>)
    requires
        b.len() >= MAX_BUF_SIZE,
        spec_scan(b).found.is_some(),
    ensures
        spec_scan(b).found.unwrap().1 < MAX_BUF_SIZE ==> !(spec_feed(
            Seq::empty(),
            b.take(MAX_BUF_SIZE as int),
        ) is HeaderTooLarge) && !(spec_feed(Seq::empty(), b.take(MAX_BUF_SIZE as int)) is More),
        spec_scan(b).found.unwrap().1 >= MAX_BUF_SIZE ==> spec_feed(
            Seq::empty(),
            b.take(MAX_BUF_SIZE as int),
        ) is HeaderTooLarge,
{
    lemma_scan_prefix(b, MAX_BUF_SIZE as int);
    assert(Seq::<u8>::empty() + b.take(MAX_BUF_SIZE as int) == b.take(MAX_BUF_SIZE as int));
}

/// What the sniffer hands on with the host is every byte it was handed, in
/// the order of arrival: whoever sends these first and the rest of the
/// stream after them has sent the request as it came.
pub proof fn lemma_prefix_is_kept(taken: Seq<u8>, data: Seq<u8>)
    requires
        spec_feed(taken, data) is Done,
    ensures
        spec_feed(taken, data)->buf == taken + data,
{
}

/// However a request is cut into reads, the sniffer comes to the same end:
/// once it holds what one read brought and awaits more, the next read leads
/// to what both reads in one would have led to.
pub proof fn lemma_feed_in_pieces(taken: Seq<u8>, first: Seq<u8>, second: Seq<u8>)
    requires
        spec_feed(taken, first) is More,
        second.len() > 0,
    ensures
        spec_feed(taken, first) == Sniffed::More(taken + first),
        spec_feed(taken + first, second) == spec_feed(taken, first + second),
{
    assert((taken + first) + second == taken + (first + second));
}

/// The digits of `n` in base ten, as ASCII, without leading zeros.
pub open spec fn spec_decimal(n: nat) -> Seq<u8>
    decreases n,
{
    if n < 10 {
        seq![(48 + n) as u8]
    } else {
        spec_decimal(n / 10).push((48 + n % 10) as u8)
    }
}

/// Appends the digits of `n` in base ten.
pub fn put_decimal(out: &mut Vec<u8>, n: u16)
    ensures
        final(out)@ == old(out)@ + spec_decimal(n as nat),
{
    let ghost before = out@;
    let mut digits: Vec<u8> = Vec::new();
    if n >= 10000 {
        digits.push(48 + (n / 10000) as u8);
    }
    if n >= 1000 {
        digits.push(48 + ((n / 1000) % 10) as u8);
    }
    if n >= 100 {
        digits.push(48 + ((n / 100) % 10) as u8);
    }
    if n >= 10 {
        digits.push(48 + ((n / 10) % 10) as u8);
    }
    digits.push(48 + (n % 10) as u8);
    assert(digits@ == spec_decimal(n as nat)) by {
        reveal_with_fuel(spec_decimal, 5);
    }
    put_raw(out, digits.as_slice());
}

/// The response that the server sends for `code` and `reason`: a status line
/// and a header that says that no body follows.
pub open spec fn spec_response(code: u16, reason: Seq<char>) -> Seq<u8> {
    encode_utf8("HTTP/1.1 "@) + spec_decimal(code as nat) + encode_utf8(" "@) + encode_utf8(reason)
        + encode_utf8("\r\ncontent-length: 0\r\n\r\n"@)
}

/// The status of a response: its code and the phrase that goes with it.
#[derive(Debug, Clone, Copy, PartialEq, Eq)]
pub struct Status {
    code: u16,
    reason_phrase: &'static str,
}

impl Status {
    pub closed spec fn spec_code(self) -> u16 {
        self.code
    }

    pub closed spec fn spec_reason(self) -> Seq<char> {
        self.reason_phrase@
    }

    pub fn new(code: u16, reason_phrase: &'static str) -> (s: Self)
        ensures
            s.spec_code() == code,
            s.spec_reason() == reason_phrase@,
    {
        Self { code, reason_phrase }
    }

    /// The bytes of the whole response.
    pub fn response(&self) -> (bytes: Vec<u8>)
        ensures
            bytes@ == spec_response(self.spec_code(), self.spec_reason()),
    {
        let mut out: Vec<u8> = Vec::new();
        put_raw(&mut out, "HTTP/1.1 ".as_bytes());
        put_decimal(&mut out, self.code);
        put_raw(&mut out, " ".as_bytes());
        put_raw(&mut out, self.reason_phrase.as_bytes());
        put_raw(&mut out, "\r\ncontent-length: 0\r\n\r\n".as_bytes());
        out
    }
}

/// What an outside client gets where no client of the tunnel serves the host.
pub fn bad_gateway() -> (s: Status)
    ensures
        s.spec_code() == 502,
        s.spec_reason() == "Bad Gateway"@,
{
    Status::new(502, "Bad Gateway")
}

/// What an outside client gets where the client of the tunnel did not come
/// for the connection in time.
pub fn gateway_timeout() -> (s: Status)
    ensures
        s.spec_code() == 504,
        s.spec_reason() == "Gateway Timeout"@,
{
    Status::new(504, "Gateway Timeout")
}

} // verus!
