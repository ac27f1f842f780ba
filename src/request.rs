use vstd::prelude::*;

use crate::bytes::{
    is_ws_exec, line_end, line_end_exec, skip_ws, skip_ws_exec, token_end, token_end_exec,
    trim_end, trim_end_exec,
};
use crate::method::{method_of_token, HttpMethod};

verus! {

/// The header name matched case-insensitively, colon included: `content-length:`.
pub open spec fn length_prefix() -> Seq<u8> {
    seq![
        0x63u8, 0x6fu8, 0x6eu8, 0x74u8, 0x65u8, 0x6eu8, 0x74u8, 0x2du8,
        0x6cu8, 0x65u8, 0x6eu8, 0x67u8, 0x74u8, 0x68u8, 0x3au8,
    ]
}

/// ASCII lower case of one byte.
pub open spec fn ascii_lower(b: u8) -> u8 {
    if 0x41u8 <= b && b <= 0x5au8 {
        (b + 32) as u8
    } else {
        b
    }
}

/// The line `s[i..e]` starts with `content-length:` in any ASCII case.
pub open spec fn is_length_line(s: Seq<u8>, i: int, e: int) -> bool {
    &&& i + 15 <= e
    &&& forall|k: int| 0 <= k < 15 ==> #[trigger] ascii_lower(s[i + k]) == length_prefix()[k]
}

/// The value of a string of decimal digits.
pub open spec fn digits_value(d: Seq<u8>) -> nat
    decreases d.len(),
{
    if d.len() == 0 {
        0
    } else {
        digits_value(d.drop_last()) * 10 + (d.last() - 0x30u8) as nat
    }
}

pub open spec fn is_digit(b: u8) -> bool {
    0x30u8 <= b && b <= 0x39u8
}

/// One or more decimal digits whose value fits in `usize`.
pub open spec fn parse_digits(d: Seq<u8>) -> Option<nat> {
    if d.len() > 0 && (forall|k: int| 0 <= k < d.len() ==> #[trigger] is_digit(d[k]))
        && digits_value(d) <= usize::MAX {
        Some(digits_value(d))
    } else {
        None
    }
}

/// `t` without a leading `+`.
pub open spec fn strip_plus(t: Seq<u8>) -> Seq<u8> {
    if t.len() > 0 && t[0] == 0x2bu8 {
        t.drop_first()
    } else {
        t
    }
}

/// A non-negative integer as `str::parse::<usize>` reads it: an optional `+`,
/// then one or more decimal digits, with a value that fits in `usize`.
pub open spec fn parse_usize(t: Seq<u8>) -> Option<nat> {
    parse_digits(strip_plus(t))
}

/// The value a header line `s[i..e]` gives the body length, if it is a
/// `Content-Length` line whose trimmed value parses.
pub open spec fn line_length(s: Seq<u8>, i: int, e: int) -> Option<nat> {
    if is_length_line(s, i, e) {
        let a = skip_ws(s, i + 15, e);
        parse_usize(s.subrange(a, trim_end(s, a, e)))
    } else {
        None
    }
}

/// The declared body length read from the header lines in `[i, end)`: the
/// last `Content-Length` line whose value parses wins, `acc` when there is none.
pub open spec fn scan_length(s: Seq<u8>, i: int, end: int, acc: nat) -> nat
    decreases end - i,
{
    if i >= end {
        acc
    } else {
        let e = line_end(s, i, end);
        let next = match line_length(s, i, e) {
            Some(v) => v,
            None => acc,
        };
        if i < e <= end {
            scan_length(s, e, end, next)
        } else {
            next
        }
    }
}

/// Reads the `Content-Length` value from `s[a..b]`.
fn parse_usize_exec(s: &[u8], a: usize, b: usize) -> (r: Option<usize>)
    requires
        a <= b <= s@.len(),
    ensures
        r matches Some(v) ==> parse_usize(s@.subrange(a as int, b as int)) == Some(v as nat),
        r is None ==> parse_usize(s@.subrange(a as int, b as int)) is None,
{
    let ghost t = s@.subrange(a as int, b as int);
    let start: usize = if a < b && s[a] == 0x2bu8 {
        a + 1
    } else {
        a
    };
    let ghost d = s@.subrange(start as int, b as int);
    assert(d =~= strip_plus(t));
    if start >= b {
        return None;
    }
    let mut v: usize = 0;
    let mut i: usize = start;
    while i < b
        invariant
            start <= i <= b <= s@.len(),
            d == s@.subrange(start as int, b as int),
            t == s@.subrange(a as int, b as int),
            d == strip_plus(t),
            forall|k: int| start <= k < i ==> is_digit(s@[k]),
            v as nat == digits_value(s@.subrange(start as int, i as int)),
        decreases b - i,
    {
        let c = s[i];
        if c < 0x30u8 || c > 0x39u8 {
            assert(d[i - start] == s@[i as int]);
            assert(!is_digit(d[i - start]));
            assert(!(forall|k: int| 0 <= k < d.len() ==> #[trigger] is_digit(d[k])));
            assert(parse_digits(d) is None);
            return None;
        }
        let digit: usize = (c - 0x30u8) as usize;
        let ghost prev = s@.subrange(start as int, i as int);
        let ghost next = s@.subrange(start as int, i + 1);
        assert(next.drop_last() =~= prev);
        if v > (usize::MAX - digit) / 10 {
            assert(digits_value(next) > usize::MAX) by (nonlinear_arith)
                requires
                    v > (usize::MAX - digit) / 10,
                    digits_value(next) == v * 10 + digit,
                    digit <= 9,
            ;
            proof {
                lemma_digits_value_grows(s@.subrange(start as int, b as int), (i + 1 - start) as int);
                assert(s@.subrange(start as int, b as int).subrange(0, i + 1 - start) =~= next);
            }
            return None;
        }
        assert(v * 10 + digit <= usize::MAX) by (nonlinear_arith)
            requires
                v <= (usize::MAX - digit) / 10,
                digit <= 9,
        ;
        v = v * 10 + digit;
        i = i + 1;
    }
    assert(s@.subrange(start as int, i as int) =~= d);
    Some(v)
}

/// A longer run of digits is worth at least as much as its prefix.
proof fn lemma_digits_value_grows(d: Seq<u8>, n: int)
    requires
        0 <= n <= d.len(),
    ensures
        digits_value(d.subrange(0, n)) <= digits_value(d),
    decreases d.len() - n,
{
    if n < d.len() {
        lemma_digits_value_grows(d, n + 1);
        let p = d.subrange(0, n + 1);
        assert(p.drop_last() =~= d.subrange(0, n));
        let x = digits_value(p.drop_last());
        let y = (p.last() - 0x30u8) as nat;
        assert(digits_value(p) == x * 10 + y);
        assert(x <= x * 10 + y) by (nonlinear_arith);
    } else {
        assert(d.subrange(0, n) =~= d);
    }
}

} // verus!

verus! {

/// A line of `s` that is exactly `\r\n` starts at `i`.
pub open spec fn is_blank_at(s: Seq<u8>, i: int) -> bool {
    &&& 0 <= i
    &&& i + 2 <= s.len()
    &&& s[i] == 13u8
    &&& s[i + 1] == 10u8
    &&& (i == 0 || s[i - 1] == 10u8)
}

/// The index just past the first blank line that starts at or after `i`.
pub open spec fn blank_from(s: Seq<u8>, i: int) -> Option<int>
    decreases s.len() - i,
{
    if i < 0 || i + 2 > s.len() {
        None
    } else if is_blank_at(s, i) {
        Some(i + 2)
    } else {
        blank_from(s, i + 1)
    }
}

/// Where the header block of a stream ends: just past its first blank line.
pub open spec fn header_end(s: Seq<u8>) -> Option<int> {
    blank_from(s, 0)
}

/// What a complete header block says: the method (absent when the verb is
/// not one this server routes), the path, and the declared body length.
/// `None` when the request line holds fewer than two tokens.
pub open spec fn parse_head(head: Seq<u8>) -> Option<(Option<HttpMethod>, Seq<u8>, nat)> {
    let h = head.len() as int;
    let e0 = line_end(head, 0, h);
    let t1s = skip_ws(head, 0, e0);
    let t1e = token_end(head, t1s, e0);
    let t2s = skip_ws(head, t1e, e0);
    let t2e = token_end(head, t2s, e0);
    if t2s < e0 {
        Some(
            (
                method_of_token(head.subrange(t1s, t1e)),
                head.subrange(t2s, t2e),
                scan_length(head, e0, h, 0),
            ),
        )
    } else {
        None
    }
}

/// Why a connection gets no request.
#[derive(PartialEq, Eq, Structural, Clone, Copy, Debug)]
pub enum ReadError {
    /// The stream ended before the blank line, or the request line has
    /// fewer than two tokens.
    MalformedRequest,
    /// The stream ended before the declared body had arrived.
    IncompleteBody,
}

/// What the bytes received so far decide.
pub enum Outcome {
    /// Nothing is decided until more bytes arrive.
    Pending,
    /// A complete request: method, path and body.
    Request(Option<HttpMethod>, Seq<u8>, Seq<u8>),
    /// The connection carries no request.
    Failure(ReadError),
}

/// The outcome of reading a request from the bytes `s`; `closed` says the
/// peer will send nothing more.
pub open spec fn request_outcome(s: Seq<u8>, closed: bool) -> Outcome {
    match header_end(s) {
        None => if closed {
            Outcome::Failure(ReadError::MalformedRequest)
        } else {
            Outcome::Pending
        },
        Some(h) => match parse_head(s.subrange(0, h)) {
            None => Outcome::Failure(ReadError::MalformedRequest),
            Some((m, p, n)) => if h + n <= s.len() {
                Outcome::Request(m, p, s.subrange(h, h + n))
            } else if closed {
                Outcome::Failure(ReadError::IncompleteBody)
            } else {
                Outcome::Pending
            },
        },
    }
}

fn line_length_exec(s: &[u8], i: usize, e: usize) -> (r: Option<usize>)
    requires
        i <= e <= s@.len(),
    ensures
        r matches Some(v) ==> line_length(s@, i as int, e as int) == Some(v as nat),
        r is None ==> line_length(s@, i as int, e as int) is None,
{
    let prefix: [u8; 15] = [
        0x63u8, 0x6fu8, 0x6eu8, 0x74u8, 0x65u8, 0x6eu8, 0x74u8, 0x2du8,
        0x6cu8, 0x65u8, 0x6eu8, 0x67u8, 0x74u8, 0x68u8, 0x3au8,
    ];
    assert(prefix@ =~= length_prefix());
    if e - i < 15 {
        return None;
    }
    let mut k: usize = 0;
    while k < 15
        invariant
            i + 15 <= e <= s@.len(),
            k <= 15,
            prefix@ == length_prefix(),
            forall|j: int| 0 <= j < k ==> #[trigger] ascii_lower(s@[i + j]) == length_prefix()[j],
        decreases 15 - k,
    {
        let b = s[i + k];
        let lower: u8 = if 0x41u8 <= b && b <= 0x5au8 {
            b + 32
        } else {
            b
        };
        if lower != prefix[k] {
            assert(ascii_lower(s@[i + k as int]) != length_prefix()[k as int]);
            return None;
        }
        k = k + 1;
    }
    let a = skip_ws_exec(s, i + 15, e);
    let z = trim_end_exec(s, a, e);
    parse_usize_exec(s, a, z)
}

/// The declared body length that the header lines in `s[i..end]` give.
fn scan_length_exec(s: &[u8], i: usize, end: usize) -> (r: usize)
    requires
        i <= end <= s@.len(),
    ensures
        r as nat == scan_length(s@, i as int, end as int, 0),
{
    let mut acc: usize = 0;
    let mut j: usize = i;
    while j < end
        invariant
            i <= j <= end <= s@.len(),
            scan_length(s@, j as int, end as int, acc as nat) == scan_length(
                s@,
                i as int,
                end as int,
                0,
            ),
        decreases end - j,
    {
        let e = line_end_exec(s, j, end);
        match line_length_exec(s, j, e) {
            Some(v) => {
                acc = v;
            },
            None => {},
        }
        j = e;
    }
    acc
}

/// Copies `s[a..b]`.
fn copy_range(s: &[u8], a: usize, b: usize) -> (r: Vec<u8>)
    requires
        a <= b <= s@.len(),
    ensures
        r@ == s@.subrange(a as int, b as int),
{
    let mut r: Vec<u8> = Vec::new();
    crate::bytes::push_all(&mut r, &s[a..b]);
    r
}

/// Reads a complete header block: method, path and declared body length.
pub fn parse_head_exec(head: &[u8]) -> (r: Option<(Option<HttpMethod>, Vec<u8>, usize)>)
    ensures
        r matches Some((m, p, n)) ==> parse_head(head@) == Some((m, p@, n as nat)),
        r is None ==> parse_head(head@) is None,
{
    let h = head.len();
    let e0 = line_end_exec(head, 0, h);
    let t1s = skip_ws_exec(head, 0, e0);
    let t1e = token_end_exec(head, t1s, e0);
    let t2s = skip_ws_exec(head, t1e, e0);
    let t2e = token_end_exec(head, t2s, e0);
    if t2s < e0 {
        let m = HttpMethod::from_token(head, t1s, t1e);
        let p = copy_range(head, t2s, t2e);
        let n = scan_length_exec(head, e0, h);
        Some((m, p, n))
    } else {
        None
    }
}

} // verus!

verus! {

/// A request read off a connection.
#[derive(Debug)]
pub struct ParsedRequest {
    /// Absent when the verb is not one this server routes.
    pub method: Option<HttpMethod>,
    pub path: Vec<u8>,
    /// Exactly as many bytes as the request declared.
    pub body: Vec<u8>,
}

/// What the reader says after a chunk of input.
#[derive(Debug)]
pub enum ReadStep {
    /// More bytes are needed.
    NeedMore,
    /// The request is complete.
    Done(ParsedRequest),
    /// The connection carries no request.
    Failed(ReadError),
}

impl ReadStep {
    pub open spec fn view(&self) -> Outcome {
        match self {
            ReadStep::NeedMore => Outcome::Pending,
            ReadStep::Done(r) => Outcome::Request(r.method, r.path@, r.body@),
            ReadStep::Failed(e) => Outcome::Failure(*e),
        }
    }
}

/// Reads one request from a byte stream that arrives in pieces of any size.
pub struct RequestReader {
    buf: Vec<u8>,
    /// No blank line starts before this index of `buf`.
    scan: usize,
}

impl RequestReader {
    /// Every byte received so far.
    pub closed spec fn received(&self) -> Seq<u8> {
        self.buf@
    }

    pub closed spec fn wf(&self) -> bool {
        &&& self.scan <= self.buf@.len()
        &&& (self.scan == 0 || self.scan + 1 <= self.buf@.len())
        &&& forall|i: int| 0 <= i < self.scan ==> !is_blank_at(self.buf@, i)
    }

    pub fn new() -> (r: RequestReader)
        ensures
            r.wf(),
            r.received() == Seq::<u8>::empty(),
    {
        RequestReader { buf: Vec::new(), scan: 0 }
    }

    /// Takes the next chunk of the stream; an empty chunk means that the peer
    /// closed the connection. The answer is decided by everything received.
    pub fn feed(&mut self, chunk: &[u8]) -> (r: ReadStep)
        requires
            old(self).wf(),
        ensures
            final(self).wf(),
            final(self).received() == old(self).received() + chunk@,
            r@ == request_outcome(final(self).received(), chunk@.len() == 0),
    {
        let ghost before = self.buf@;
        crate::bytes::push_all(&mut self.buf, chunk);
        assert forall|j: int| 0 <= j < self.scan implies !is_blank_at(self.buf@, j) by {
            assert(!is_blank_at(before, j));
            assert(self.buf@[j] == before[j] && self.buf@[j + 1] == before[j + 1]);
            if j > 0 {
                assert(self.buf@[j - 1] == before[j - 1]);
            }
        }
        let closed = chunk.len() == 0;
        let len = self.buf.len();
        let ghost s = self.buf@;
        let mut i: usize = self.scan;
        let mut found: bool = false;
        while !found && 2 <= len - i
            invariant
                s == self.buf@,
                len == s.len(),
                i <= len,
                i == 0 || i + 1 <= len,
                forall|j: int| 0 <= j < i ==> !is_blank_at(s, j),
                found ==> is_blank_at(s, i as int),
            decreases len - i + (if found { 0int } else { 1int }),
        {
            if self.buf[i] == 13u8 && self.buf[i + 1] == 10u8 && (i == 0 || self.buf[i - 1]
                == 10u8) {
                found = true;
            } else {
                i = i + 1;
            }
        }
        self.scan = i;
        proof {
            lemma_blank_from_skip(s, 0, i as int);
        }
        if !found {
            if closed {
                return ReadStep::Failed(ReadError::MalformedRequest);
            } else {
                return ReadStep::NeedMore;
            }
        }
        let h = i + 2;
        let all = self.buf.as_slice();
        match parse_head_exec(&all[0..h]) {
            None => ReadStep::Failed(ReadError::MalformedRequest),
            Some((m, p, n)) => {
                if n <= len - h {
                    let body = copy_range(all, h, h + n);
                    ReadStep::Done(ParsedRequest { method: m, path: p, body })
                } else if closed {
                    ReadStep::Failed(ReadError::IncompleteBody)
                } else {
                    ReadStep::NeedMore
                }
            },
        }
    }
}

/// With no blank line starting in `[j, k)`, the search may begin at `k`.
proof fn lemma_blank_from_skip(s: Seq<u8>, j: int, k: int)
    requires
        0 <= j <= k,
        forall|m: int| j <= m < k ==> !is_blank_at(s, m),
        k == 0 || k + 1 <= s.len(),
    ensures
        blank_from(s, j) == blank_from(s, k),
    decreases k - j,
{
    if j < k {
        lemma_blank_from_skip(s, j + 1, k);
    }
}

} // verus!

verus! {

proof fn lemma_blank_from_bounds(s: Seq<u8>, i: int)
    ensures
        blank_from(s, i) matches Some(h) ==> 0 <= i && i + 2 <= h <= s.len(),
    decreases s.len() - i,
{
    if 0 <= i && i + 2 <= s.len() && !is_blank_at(s, i) {
        lemma_blank_from_bounds(s, i + 1);
    }
}

proof fn lemma_blank_from_extend(s: Seq<u8>, t: Seq<u8>, i: int)
    requires
        0 <= i,
        blank_from(s, i) is Some,
    ensures
        blank_from(s + t, i) == blank_from(s, i),
    decreases s.len() - i,
{
    let u = s + t;
    assert(i + 2 <= s.len());
    assert(u[i] == s[i] && u[i + 1] == s[i + 1]);
    if i > 0 {
        assert(u[i - 1] == s[i - 1]);
    }
    assert(is_blank_at(u, i) == is_blank_at(s, i));
    if !is_blank_at(s, i) {
        lemma_blank_from_extend(s, t, i + 1);
    }
}

/// The parsed header block of `s`, once it is complete and well formed.
pub open spec fn head_of(s: Seq<u8>) -> Option<(Option<HttpMethod>, Seq<u8>, nat)> {
    match header_end(s) {
        Some(h) => parse_head(s.subrange(0, h)),
        None => None,
    }
}

/// A request's body holds exactly the declared number of bytes, and it is
/// complete as soon as that many bytes follow the header block.
pub proof fn lemma_body_has_declared_length(s: Seq<u8>, closed: bool)
    requires
        head_of(s) is Some,
    ensures
        head_of(s) matches Some((_, _, n)) && ({
            let h = header_end(s)->0;
            &&& request_outcome(s, closed) matches Outcome::Request(_, _, b) ==> b.len() == n
            &&& (h + n <= s.len() <==> request_outcome(s, closed) is Request)
        }),
{
    lemma_blank_from_bounds(s, 0);
}

/// A stream that ends before its declared body is complete yields no request.
pub proof fn lemma_early_close_is_incomplete_body(s: Seq<u8>)
    requires
        head_of(s) matches Some((_, _, n)) && header_end(s)->0 + n > s.len(),
    ensures
        request_outcome(s, true) == Outcome::Failure(ReadError::IncompleteBody),
{
}

/// Once the bytes received decide the request (or its failure), more bytes
/// change nothing: a stream read in pieces of any size, one byte at a time
/// included, gives what it gives when read at once.
pub proof fn lemma_decision_is_final(s: Seq<u8>, t: Seq<u8>, closed: bool)
    requires
        !(request_outcome(s, false) is Pending),
    ensures
        request_outcome(s + t, closed) == request_outcome(s, false),
{
    lemma_blank_from_extend(s, t, 0);
    lemma_blank_from_bounds(s, 0);
    let h = header_end(s)->0;
    assert((s + t).subrange(0, h) =~= s.subrange(0, h));
    match parse_head(s.subrange(0, h)) {
        None => {},
        Some((m, p, n)) => {
            assert((s + t).subrange(h, h + n) =~= s.subrange(h, h + n));
        },
    }
}

} // verus!
