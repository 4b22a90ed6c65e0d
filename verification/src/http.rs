//! A minimal HTTP/1.1 request reader and response writer. Reading is a
//! state machine fed one event at a time (a byte, the end of the stream, an
//! I/O error or the deadline passing); the caller does the reading.

use vstd::prelude::*;

use crate::text::{chars_of, decimal, decimal_chars, string_from, utf8_string};
use crate::html::elements::chars_eq;
use vstd::string::StringSliceAdditionalSpecFns;
use vstd::utf8::{decode_utf8, valid_utf8};

verus! {

/// A parsed request: method, path and query parameters.
#[derive(Debug)]
pub struct Request {
    pub method: String,
    pub path: String,
    pub query: Vec<(String, String)>,
}

/// Why a request could not be read.
#[derive(Debug, Clone, Copy, PartialEq, Eq, Structural)]
pub enum RequestError {
    /// A line went over what was left of the size budget.
    TooLarge,
    /// The stream ended before the blank line ending the headers.
    ConnectionClosed,
    /// The request line is not `METHOD TARGET VERSION`, a line is not
    /// UTF-8, or reading failed.
    Malformed,
    /// The deadline passed.
    TimedOut,
}

/// The first position of `c` in `s`.
pub open spec fn find(s: Seq<char>, c: char) -> Option<int>
    decreases s.len(),
{
    if s.len() == 0 {
        None
    } else if s[0] == c {
        Some(0)
    } else {
        match find(s.drop_first(), c) {
            Some(i) => Some(i + 1),
            None => None,
        }
    }
}

/// The `key=value` pairs of a query string: its `&`-separated pieces,
/// each split at its first `=`; pieces without `=` are dropped.
pub open spec fn query_pairs(qs: Seq<char>) -> Seq<(Seq<char>, Seq<char>)>
    decreases qs.len(),
{
    let piece = match find(qs, '&') {
        Some(i) => qs.take(i),
        None => qs,
    };
    let here = match find(piece, '=') {
        Some(e) => seq![(piece.take(e), piece.skip(e + 1))],
        None => Seq::empty(),
    };
    match find(qs, '&') {
        Some(i) => if 0 <= i < qs.len() {
            here + query_pairs(qs.skip(i + 1))
        } else {
            here
        },
        None => here,
    }
}

/// A request line `METHOD TARGET VERSION ...` split into its method, the
/// path of its target and the target's query string (after the first
/// `?`); `None` without two spaces.
pub open spec fn request_line(line: Seq<char>) -> Option<(Seq<char>, Seq<char>, Seq<char>)> {
    match find(line, ' ') {
        None => None,
        Some(i) => {
            let rest = line.skip(i + 1);
            match find(rest, ' ') {
                None => None,
                Some(j) => {
                    let target = rest.take(j);
                    match find(target, '?') {
                        Some(k) => Some((line.take(i), target.take(k), target.skip(k + 1))),
                        None => Some((line.take(i), target, Seq::empty())),
                    }
                },
            }
        },
    }
}

proof fn lemma_find(s: Seq<char>, c: char, i: int)
    requires
        0 <= i <= s.len(),
        forall|k: int| 0 <= k < i ==> s[k] != c,
    ensures
        i < s.len() && s[i] == c ==> find(s, c) == Some(i),
        i == s.len() ==> find(s, c) is None,
    decreases i,
{
    if i > 0 {
        lemma_find(s.drop_first(), c, i - 1);
    } else if s.len() > 0 && s[0] != c && i == s.len() {
    }
}

proof fn lemma_find_bounds(s: Seq<char>, c: char)
    ensures
        find(s, c) matches Some(i) ==> 0 <= i < s.len() && s[i] == c && forall|k: int| 0 <= k < i ==> s[k] != c,
        find(s, c) is None ==> forall|k: int| 0 <= k < s.len() ==> s[k] != c,
    decreases s.len(),
{
    if s.len() > 0 && s[0] != c {
        lemma_find_bounds(s.drop_first(), c);
        assert forall|k: int| 1 <= k < s.len() implies s[k] == s.drop_first()[k - 1] by {}
    }
}

/// The first position of `c` in `s[start..end]`, counted from `start`.
fn find_in(s: &Vec<char>, start: usize, end: usize, c: char) -> (r: Option<usize>)
    requires
        start <= end <= s.len(),
    ensures
        match r {
            Some(i) => find(s@.subrange(start as int, end as int), c) == Some(i - start) && start <= i < end,
            None => find(s@.subrange(start as int, end as int), c) is None,
        },
{
    let ghost sub = s@.subrange(start as int, end as int);
    let mut i = start;
    while i < end
        invariant
            start <= i <= end <= s.len(),
            sub == s@.subrange(start as int, end as int),
            forall|k: int| 0 <= k < i - start ==> sub[k] != c,
        decreases end - i,
    {
        if s[i] == c {
            proof {
                lemma_find(sub, c, i - start);
            }
            return Some(i);
        }
        i += 1;
    }
    proof {
        lemma_find(sub, c, end - start);
    }
    None
}

/// `s[start..end]` as a string.
fn string_of(s: &Vec<char>, start: usize, end: usize) -> (r: String)
    requires
        start <= end <= s.len(),
    ensures
        r@ == s@.subrange(start as int, end as int),
{
    let mut v: Vec<char> = Vec::new();
    let mut i = start;
    while i < end
        invariant
            start <= i <= end <= s.len(),
            v@ == s@.subrange(start as int, i as int),
        decreases end - i,
    {
        v.push(s[i]);
        i += 1;
        assert(v@ =~= s@.subrange(start as int, i as int));
    }
    string_from(&v)
}

/// The pairs of the query string `s[start..end]`.
fn parse_query(s: &Vec<char>, start: usize, end: usize) -> (q: Vec<(String, String)>)
    requires
        start <= end <= s.len(),
    ensures
        q@.len() == query_pairs(s@.subrange(start as int, end as int)).len(),
        forall|k: int|
            0 <= k < q@.len() ==> (#[trigger] q@[k]).0@ == query_pairs(s@.subrange(start as int, end as int))[k].0
                && q@[k].1@ == query_pairs(s@.subrange(start as int, end as int))[k].1,
    decreases end - start,
{
    let ghost qs = s@.subrange(start as int, end as int);
    let amp = find_in(s, start, end, '&');
    let piece_end = match amp {
        Some(i) => i,
        None => end,
    };
    let ghost piece = s@.subrange(start as int, piece_end as int);
    proof {
        lemma_find_bounds(qs, '&');
        match amp {
            Some(i) => {
                assert(piece =~= qs.take(i - start));
            },
            None => {
                assert(piece =~= qs);
            },
        }
    }
    let mut q: Vec<(String, String)> = Vec::new();
    let eq = find_in(s, start, piece_end, '=');
    match eq {
        Some(e) => {
            let k = string_of(s, start, e);
            let v = string_of(s, e + 1, piece_end);
            proof {
                lemma_find_bounds(piece, '=');
                assert(k@ =~= piece.take(e - start));
                assert(v@ =~= piece.skip(e - start + 1));
            }
            q.push((k, v));
        },
        None => {},
    }
    let ghost here = match find(piece, '=') {
        Some(e) => seq![(piece.take(e), piece.skip(e + 1))],
        None => Seq::<(Seq<char>, Seq<char>)>::empty(),
    };
    match amp {
        Some(i) => {
            let rest = parse_query(s, i + 1, end);
            let ghost q0 = q@;
            let mut k: usize = 0;
            let mut rest = rest;
            let mut all = q;
            proof {
                assert(s@.subrange(i + 1, end as int) =~= qs.skip(i - start + 1));
            }
            let n = rest.len();
            let mut tail: Vec<(String, String)> = Vec::new();
            while k < n
                invariant
                    k <= n,
                    n == rest.len(),
                    all@.len() == q0.len() + k,
                    forall|x: int| 0 <= x < q0.len() ==> #[trigger] all@[x] == q0[x],
                    forall|x: int| 0 <= x < k ==> #[trigger] all@[q0.len() + x].0@ == rest@[x].0@ && all@[q0.len() + x].1@ == rest@[x].1@,
                decreases n - k,
            {
                let pair = (rest[k].0.clone(), rest[k].1.clone());
                all.push(pair);
                k += 1;
            }
            proof {
                let want = here + query_pairs(qs.skip(i - start + 1));
                assert(query_pairs(qs) == want);
                assert forall|x: int| 0 <= x < all@.len() implies (#[trigger] all@[x]).0@ == want[x].0 && all@[x].1@ == want[x].1 by {
                    if x < q0.len() {
                    } else {
                        assert(all@[q0.len() + (x - q0.len())] == all@[x]);
                    }
                }
            }
            all
        },
        None => {
            proof {
                assert(query_pairs(qs) == here);
            }
            q
        },
    }
}

impl Request {
    /// The value of the first query parameter named `key`.
    pub fn query_param(&self, key: &str) -> (r: Option<&str>)
        ensures
            match r {
                Some(v) => exists|k: int|
                    0 <= k < self.query@.len() && (#[trigger] self.query@[k]).0@ == key@ && v@
                        == self.query@[k].1@ && forall|j: int|
                        0 <= j < k ==> (#[trigger] self.query@[j]).0@ != key@,
                None => forall|k: int| 0 <= k < self.query@.len() ==> (#[trigger] self.query@[k]).0@ != key@,
            },
    {
        let want = chars_of(key);
        let mut k: usize = 0;
        while k < self.query.len()
            invariant
                k <= self.query.len(),
                want@ == key@,
                forall|j: int| 0 <= j < k ==> (#[trigger] self.query@[j]).0@ != key@,
            decreases self.query.len() - k,
        {
            let name = chars_of(self.query[k].0.as_str());
            if chars_eq(&name, &want) {
                let v = self.query[k].1.as_str();
                assert(self.query@[k as int].0@ == key@);
                return Some(v);
            }
            k += 1;
        }
        None
    }
}

/// One thing that happened on the connection.
#[derive(Debug, Clone, Copy, PartialEq, Eq, Structural)]
pub enum ReadEvent {
    /// The next byte of the stream.
    Byte(u8),
    /// The stream ended.
    Eof,
    /// Reading failed.
    IoError,
    /// The deadline passed before the next read.
    TimedOut,
}

/// What the reader wants next, or how it ended.
#[derive(Debug)]
pub enum ReadStep {
    Continue,
    Done(Request),
    Failed(RequestError),
}

/// `line` without one trailing carriage return.
pub open spec fn strip_cr(line: Seq<u8>) -> Seq<u8> {
    if line.len() > 0 && line.last() == 13 {
        line.drop_last()
    } else {
        line
    }
}

/// Reads a request line and header lines, ending at the first empty line.
/// Every line (without its `\n`) must fit what is left of a size budget,
/// which each line's length (without a trailing `\r`) uses up.
pub struct RequestReader {
    line: Vec<u8>,
    remaining: usize,
    head: Option<(String, String, Vec<(String, String)>)>,
}

impl RequestReader {
    /// The bytes of the current line read so far.
    pub closed spec fn spec_line(&self) -> Seq<u8> {
        self.line@
    }

    /// What is left of the size budget.
    pub closed spec fn spec_remaining(&self) -> nat {
        self.remaining as nat
    }

    /// Whether the request line has been read.
    pub closed spec fn has_head(&self) -> bool {
        self.head is Some
    }

    /// The method, path and query string of the request line, once read.
    pub closed spec fn spec_head(&self) -> (Seq<char>, Seq<char>, Seq<(Seq<char>, Seq<char>)>) {
        match self.head {
            Some((m, p, q)) => (m@, p@, Seq::new(q@.len(), |k: int| (q@[k].0@, q@[k].1@))),
            None => (Seq::empty(), Seq::empty(), Seq::empty()),
        }
    }

    pub closed spec fn wf(&self) -> bool {
        self.line.len() <= self.remaining
    }

    pub fn new(max_total: usize) -> (r: Self)
        ensures
            r.wf(),
            r.spec_line() == Seq::<u8>::empty(),
            r.spec_remaining() == max_total,
            !r.has_head(),
    {
        Self { line: Vec::new(), remaining: max_total, head: None }
    }

    /// Takes one event. The stream ending, failing or timing out fails the
    /// read; a byte other than `\n` extends the line (failing when the line
    /// outgrows the budget); a `\n` ends the line: the first line must be a
    /// request line, and the first empty line after it ends the request.
    pub fn step(&mut self, event: ReadEvent) -> (r: ReadStep)
        requires
            old(self).wf(),
        ensures
            final(self).wf(),
            event == ReadEvent::TimedOut ==> (r matches ReadStep::Failed(RequestError::TimedOut)),
            event == ReadEvent::Eof ==> (r matches ReadStep::Failed(RequestError::ConnectionClosed)),
            event == ReadEvent::IoError ==> (r matches ReadStep::Failed(RequestError::Malformed)),
            event is Byte && event->0 != 10 ==> {
                let line = old(self).spec_line().push(event->0);
                &&& line.len() > old(self).spec_remaining() ==> (r matches ReadStep::Failed(
                    RequestError::TooLarge,
                ))
                &&& line.len() <= old(self).spec_remaining() ==> (r matches ReadStep::Continue
                    && final(self).spec_line() == line && final(self).spec_remaining()
                    == old(self).spec_remaining() && final(self).has_head() == old(self).has_head()
                    && final(self).spec_head() == old(self).spec_head())
            },
            event == ReadEvent::Byte(10) ==> {
                let line = strip_cr(old(self).spec_line());
                let left = if line.len() <= old(self).spec_remaining() {
                    (old(self).spec_remaining() - line.len()) as nat
                } else {
                    0
                };
                &&& !valid_utf8(line) ==> (r matches ReadStep::Failed(RequestError::Malformed))
                &&& valid_utf8(line) && !old(self).has_head() ==> match request_line(
                    decode_utf8(line),
                ) {
                    None => (r matches ReadStep::Failed(RequestError::Malformed)),
                    Some((m, p, q)) => (r matches ReadStep::Continue && final(self).has_head()
                        && final(self).spec_head() == (m, p, query_pairs(q))
                        && final(self).spec_line() == Seq::<u8>::empty()
                        && final(self).spec_remaining() == left),
                }
                &&& valid_utf8(line) && old(self).has_head() && line.len() == 0 ==> (r matches ReadStep::Done(req)
                    && req.method@ == old(self).spec_head().0 && req.path@ == old(self).spec_head().1
                    && Seq::new(req.query@.len(), |k: int| (req.query@[k].0@, req.query@[k].1@))
                    == old(self).spec_head().2)
                &&& valid_utf8(line) && old(self).has_head() && line.len() > 0 ==> (r matches ReadStep::Continue
                    && final(self).has_head() && final(self).spec_head() == old(self).spec_head()
                    && final(self).spec_line() == Seq::<u8>::empty()
                    && final(self).spec_remaining() == left)
            },
    {
        match event {
            ReadEvent::TimedOut => ReadStep::Failed(RequestError::TimedOut),
            ReadEvent::Eof => ReadStep::Failed(RequestError::ConnectionClosed),
            ReadEvent::IoError => ReadStep::Failed(RequestError::Malformed),
            ReadEvent::Byte(b) => {
                if b != 10 {
                    if self.line.len() >= self.remaining {
                        return ReadStep::Failed(RequestError::TooLarge);
                    }
                    self.line.push(b);
                    return ReadStep::Continue;
                }
                let mut line: Vec<u8> = Vec::new();
                std::mem::swap(&mut line, &mut self.line);
                if line.len() > 0 && line[line.len() - 1] == 13 {
                    line.pop();
                }
                let ghost stripped = line@;
                let len = line.len();
                let left = if len <= self.remaining {
                    self.remaining - len
                } else {
                    0
                };
                let text = match utf8_string(line) {
                    Some(t) => t,
                    None => {
                        return ReadStep::Failed(RequestError::Malformed);
                    },
                };
                match self.head {
                    None => {
                        let cs = chars_of(text.as_str());
                        match parse_request_line(&cs) {
                            Some(h) => {
                                self.head = Some(h);
                                self.remaining = left;
                                ReadStep::Continue
                            },
                            None => ReadStep::Failed(RequestError::Malformed),
                        }
                    },
                    Some(_) => {
                        self.remaining = left;
                        if len == 0 {
                            let mut taken: Option<(String, String, Vec<(String, String)>)> = None;
                            std::mem::swap(&mut taken, &mut self.head);
                            match taken {
                                Some((method, path, query)) => ReadStep::Done(Request { method, path, query }),
                                None => ReadStep::Failed(RequestError::Malformed),
                            }
                        } else {
                            ReadStep::Continue
                        }
                    },
                }
            },
        }
    }
}

/// Splits a request line into its method, path and query pairs.
fn parse_request_line(cs: &Vec<char>) -> (r: Option<(String, String, Vec<(String, String)>)>)
    ensures
        match request_line(cs@) {
            None => r is None,
            Some((m, p, q)) => (r matches Some((rm, rp, rq)) && rm@ == m && rp@ == p
                && Seq::new(rq@.len(), |k: int| (rq@[k].0@, rq@[k].1@)) == query_pairs(q)),
        },
{
    let n = cs.len();
    let ghost line = cs@;
    proof {
        lemma_find_bounds(line, ' ');
        assert(line.subrange(0, n as int) =~= line);
    }
    let sp1 = match find_in(cs, 0, n, ' ') {
        Some(i) => i,
        None => {
            return None;
        },
    };
    let ghost rest = line.skip(sp1 + 1);
    proof {
        assert(line.subrange(sp1 + 1, n as int) =~= rest);
        lemma_find_bounds(rest, ' ');
    }
    let sp2 = match find_in(cs, sp1 + 1, n, ' ') {
        Some(j) => j,
        None => {
            return None;
        },
    };
    let ghost target = rest.take(sp2 - sp1 - 1);
    proof {
        assert(line.subrange(sp1 + 1, sp2 as int) =~= target);
        lemma_find_bounds(target, '?');
    }
    let method = string_of(cs, 0, sp1);
    proof {
        assert(method@ =~= line.take(sp1 as int));
    }
    match find_in(cs, sp1 + 1, sp2, '?') {
        Some(k) => {
            let path = string_of(cs, sp1 + 1, k);
            let query = parse_query(cs, k + 1, sp2);
            proof {
                assert(path@ =~= target.take(k - sp1 - 1));
                assert(line.subrange(k + 1, sp2 as int) =~= target.skip(k - sp1));
                let qp = query_pairs(target.skip(k - sp1));
                assert(Seq::new(query@.len(), |x: int| (query@[x].0@, query@[x].1@)) =~= qp);
            }
            Some((method, path, query))
        },
        None => {
            let path = string_of(cs, sp1 + 1, sp2);
            let query: Vec<(String, String)> = Vec::new();
            proof {
                assert(path@ =~= target);
                assert(query_pairs(Seq::<char>::empty()) =~= Seq::<(Seq<char>, Seq<char>)>::empty());
                assert(Seq::new(query@.len(), |x: int| (query@[x].0@, query@[x].1@)) =~= query_pairs(Seq::<char>::empty()));
            }
            Some((method, path, query))
        },
    }
}

/// The bytes of the decimal digits of `n`.
pub open spec fn decimal_bytes(n: nat) -> Seq<u8> {
    decimal(n).map_values(|c: char| c as u8)
}

/// The header `name: value` line.
pub open spec fn header_line(name: Seq<u8>, value: Seq<u8>) -> Seq<u8> {
    name + seq![58u8, 32] + value + seq![13u8, 10]
}

/// The extra header lines, in order.
pub open spec fn header_lines(headers: Seq<(Seq<u8>, Seq<u8>)>) -> Seq<u8>
    decreases headers.len(),
{
    if headers.len() == 0 {
        Seq::empty()
    } else {
        header_lines(headers.drop_last()) + header_line(headers.last().0, headers.last().1)
    }
}

/// A complete response: status line, content type and length, `Connection:
/// close`, the extra headers, a blank line and the body.
pub open spec fn response_bytes(
    status: u16,
    reason: Seq<u8>,
    content_type: Seq<u8>,
    body: Seq<u8>,
    headers: Seq<(Seq<u8>, Seq<u8>)>,
) -> Seq<u8> {
    "HTTP/1.1 "@.map_values(|c: char| c as u8) + decimal_bytes(status as nat) + seq![32u8] + reason
        + seq![13u8, 10] + "Content-Type: "@.map_values(|c: char| c as u8) + content_type + seq![
        13u8,
        10,
    ] + "Content-Length: "@.map_values(|c: char| c as u8) + decimal_bytes(body.len()) + seq![
        13u8,
        10,
    ] + "Connection: close\r\n"@.map_values(|c: char| c as u8) + header_lines(headers) + seq![
        13u8,
        10,
    ] + body
}

/// Appends `bytes` to `out`.
fn push_all(out: &mut Vec<u8>, bytes: &[u8])
    ensures
        final(out)@ == old(out)@ + bytes@,
{
    let mut i: usize = 0;
    while i < bytes.len()
        invariant
            i <= bytes.len(),
            out@ == old(out)@ + bytes@.take(i as int),
        decreases bytes.len() - i,
    {
        out.push(bytes[i]);
        i += 1;
        assert(bytes@.take(i as int) =~= bytes@.take(i - 1).push(bytes@[i - 1]));
    }
    assert(bytes@.take(bytes.len() as int) =~= bytes@);
}

/// Appends the ASCII characters `s` as bytes.
fn push_ascii(out: &mut Vec<u8>, s: &str)
    ensures
        final(out)@ == old(out)@ + s@.map_values(|c: char| c as u8),
{
    let cs = chars_of(s);
    let mut i: usize = 0;
    while i < cs.len()
        invariant
            i <= cs.len(),
            cs@ == s@,
            out@ == old(out)@ + cs@.take(i as int).map_values(|c: char| c as u8),
        decreases cs.len() - i,
    {
        out.push(cs[i] as u8);
        i += 1;
        assert(cs@.take(i as int).map_values(|c: char| c as u8) =~= cs@.take(i - 1).map_values(|c: char| c as u8).push(cs@[i - 1] as u8));
    }
    assert(cs@.take(cs.len() as int) =~= cs@);
}

/// Appends the decimal digits of `n`.
fn push_decimal(out: &mut Vec<u8>, n: u64)
    ensures
        final(out)@ == old(out)@ + decimal_bytes(n as nat),
{
    let ds = decimal_chars(n);
    let mut i: usize = 0;
    while i < ds.len()
        invariant
            i <= ds.len(),
            ds@ == decimal(n as nat),
            out@ == old(out)@ + ds@.take(i as int).map_values(|c: char| c as u8),
        decreases ds.len() - i,
    {
        out.push(ds[i] as u8);
        i += 1;
        assert(ds@.take(i as int).map_values(|c: char| c as u8) =~= ds@.take(i - 1).map_values(|c: char| c as u8).push(ds@[i - 1] as u8));
    }
    assert(ds@.take(ds.len() as int) =~= ds@);
}

/// Appends a response with no extra headers to `out`.
pub fn write_response(out: &mut Vec<u8>, status: u16, reason: &str, content_type: &str, body: &[u8])
    ensures
        final(out)@ == old(out)@ + response_bytes(
            status,
            reason.spec_bytes(),
            content_type.spec_bytes(),
            body@,
            Seq::empty(),
        ),
{
    let no_headers: Vec<(&str, &str)> = Vec::new();
    write_response_with_headers(out, status, reason, content_type, body, no_headers.as_slice());
    assert(Seq::new(0, |k: int| (no_headers@[k].0.spec_bytes(), no_headers@[k].1.spec_bytes())) =~= Seq::<(Seq<u8>, Seq<u8>)>::empty());
}

/// Appends a response with extra headers to `out`.
pub fn write_response_with_headers(
    out: &mut Vec<u8>,
    status: u16,
    reason: &str,
    content_type: &str,
    body: &[u8],
    extra_headers: &[(&str, &str)],
)
    ensures
        final(out)@ == old(out)@ + response_bytes(
            status,
            reason.spec_bytes(),
            content_type.spec_bytes(),
            body@,
            Seq::new(
                extra_headers@.len(),
                |k: int| (extra_headers@[k].0.spec_bytes(), extra_headers@[k].1.spec_bytes()),
            ),
        ),
{
    let ghost start = out@;
    push_ascii(out, "HTTP/1.1 ");
    push_decimal(out, status as u64);
    out.push(32);
    push_all(out, reason.as_bytes());
    out.push(13);
    out.push(10);
    push_ascii(out, "Content-Type: ");
    push_all(out, content_type.as_bytes());
    out.push(13);
    out.push(10);
    push_ascii(out, "Content-Length: ");
    push_decimal(out, body.len() as u64);
    out.push(13);
    out.push(10);
    push_ascii(out, "Connection: close\r\n");
    let ghost before_headers = out@;
    let ghost hs = Seq::new(
        extra_headers@.len(),
        |k: int| (extra_headers@[k].0.spec_bytes(), extra_headers@[k].1.spec_bytes()),
    );
    let mut i: usize = 0;
    while i < extra_headers.len()
        invariant
            i <= extra_headers.len(),
            hs == Seq::new(
                extra_headers@.len(),
                |k: int| (extra_headers@[k].0.spec_bytes(), extra_headers@[k].1.spec_bytes()),
            ),
            out@ == before_headers + header_lines(hs.take(i as int)),
        decreases extra_headers.len() - i,
    {
        let (name, value) = extra_headers[i];
        push_all(out, name.as_bytes());
        out.push(58);
        out.push(32);
        push_all(out, value.as_bytes());
        out.push(13);
        out.push(10);
        proof {
            assert(hs.take(i + 1).drop_last() =~= hs.take(i as int));
            assert(out@ =~= before_headers + header_lines(hs.take(i + 1)));
        }
        i += 1;
    }
    out.push(13);
    out.push(10);
    push_all(out, body);
    proof {
        assert(hs.take(extra_headers.len() as int) =~= hs);
        assert(out@ =~= start + response_bytes(
            status,
            reason.spec_bytes(),
            content_type.spec_bytes(),
            body@,
            hs,
        ));
    }
}

} // verus!
