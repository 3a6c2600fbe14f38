//! The per-connection request: it accumulates the raw head bytes until
//! the wire parser reports them complete, then carries method, path,
//! protocol, headers, cookies and the growing body until the declared
//! `Content-Length` has arrived.

use vstd::prelude::*;

use crate::text::{
    bytes_of, idx_of, is_prefix_of, lemma_idx_of, parse_usize, parsed_usize, push_bytes,
    dec_digits, find_byte, starts_with, trim, trim_quotes, spec_trim, spec_trim_quotes,
};
use vstd::string::StringSliceAdditionalSpecFns;

verus! {

/// The view of a list of single-valued name/value pairs, in wire order.
pub open spec fn pairs_model(ps: Seq<(Vec<u8>, Vec<u8>)>) -> Seq<(Seq<u8>, Seq<u8>)> {
    Seq::new(ps.len(), |i: int| (ps[i].0@, ps[i].1@))
}

/// Appending an executable pair appends its view to the model.
pub proof fn lemma_pairs_model_push(ps: Seq<(Vec<u8>, Vec<u8>)>, p: (Vec<u8>, Vec<u8>))
    ensures
        pairs_model(ps.push(p)) =~= pairs_model(ps).push((p.0@, p.1@)),
{
}

/// The value of the last pair named `name` — on a repeated name the last
/// one wins, the way a map built by repeated insertion behaves.
pub open spec fn lookup_last(hs: Seq<(Seq<u8>, Seq<u8>)>, name: Seq<u8>) -> Option<Seq<u8>>
    decreases hs.len(),
{
    if hs.len() == 0 {
        None
    } else if hs.last().0 == name {
        Some(hs.last().1)
    } else {
        lookup_last(hs.drop_last(), name)
    }
}

/// Finds the value of the last header named `name`, copied out.
pub fn lookup_header(hs: &Vec<(Vec<u8>, Vec<u8>)>, name: &[u8]) -> (r: Option<Vec<u8>>)
    ensures
        match r {
            Some(v) => lookup_last(pairs_model(hs@), name@) == Some(v@),
            None => lookup_last(pairs_model(hs@), name@) is None,
        },
{
    let mut i: usize = hs.len();
    assert(pairs_model(hs@).take(i as int) =~= pairs_model(hs@));
    while i > 0
        invariant
            i <= hs.len(),
            lookup_last(pairs_model(hs@), name@) == lookup_last(pairs_model(hs@).take(i as int),
                name@),
        decreases i,
    {
        i = i - 1;
        let ghost prefix = pairs_model(hs@).take(i + 1);
        assert(prefix.last() == pairs_model(hs@)[i as int]);
        assert(prefix.drop_last() =~= pairs_model(hs@).take(i as int));
        if crate::text::bytes_eq(hs[i].0.as_slice(), name) {
            assert(prefix.last().0 == name@);
            return Some(bytes_of(hs[i].1.as_slice()));
        }
        assert(prefix.last().0 != name@);
    }
    assert(pairs_model(hs@).take(0) =~= Seq::<(Seq<u8>, Seq<u8>)>::empty());
    None
}

/// One piece of a `Cookie` header: trimmed, and split at its first `=`
/// into a name/value pair; a piece without `=` contributes nothing.
pub open spec fn cookie_piece(piece: Seq<u8>) -> Seq<(Seq<u8>, Seq<u8>)> {
    let t = spec_trim(piece);
    match idx_of(t, 61) {
        Some(j) => if 0 <= j < t.len() {
            seq![(t.take(j), t.skip(j + 1))]
        } else {
            Seq::empty()
        },
        None => Seq::empty(),
    }
}

/// The name/value pairs of a `Cookie` header value: the pieces between
/// `;` separators, each trimmed and split at its first `=`.
pub open spec fn cookie_pairs(s: Seq<u8>) -> Seq<(Seq<u8>, Seq<u8>)>
    decreases s.len(),
{
    match idx_of(s, 59) {
        Some(i) => if 0 <= i < s.len() {
            cookie_piece(s.take(i)) + cookie_pairs(s.skip(i + 1))
        } else {
            cookie_piece(s)
        },
        None => cookie_piece(s),
    }
}

/// Splits one cookie piece, exactly as `cookie_piece` describes.
fn parse_cookie_piece(piece: &[u8]) -> (r: Option<(Vec<u8>, Vec<u8>)>)
    ensures
        match r {
            Some(p) => cookie_piece(piece@) =~= seq![(p.0@, p.1@)],
            None => cookie_piece(piece@) =~= Seq::<(Seq<u8>, Seq<u8>)>::empty(),
        },
{
    let t = trim(piece);
    proof {
        lemma_idx_of(t@, 61);
    }
    match find_byte(t, 61) {
        Some(j) => {
            let tlen = t.len();
            assert(j < t@.len());
            let key = bytes_of(vstd::slice::slice_subrange(t, 0, j));
            let value = bytes_of(vstd::slice::slice_subrange(t, j + 1, tlen));
            assert(key@ =~= spec_trim(piece@).take(j as int));
            assert(value@ =~= spec_trim(piece@).skip(j + 1));
            Some((key, value))
        },
        None => None,
    }
}

/// Parses a `Cookie` header value, exactly as `cookie_pairs` describes.
fn parse_cookies(s: &[u8]) -> (r: Vec<(Vec<u8>, Vec<u8>)>)
    ensures
        pairs_model(r@) == cookie_pairs(s@),
{
    let mut out: Vec<(Vec<u8>, Vec<u8>)> = Vec::new();
    let mut start: usize = 0;
    assert(s@.skip(0) =~= s@);
    loop
        invariant
            start <= s.len(),
            pairs_model(out@) + cookie_pairs(s@.skip(start as int)) =~= cookie_pairs(s@),
        decreases s.len() - start,
    {
        let rest = vstd::slice::slice_subrange(s, start, s.len());
        proof {
            lemma_idx_of(rest@, 59);
        }
        match find_byte(rest, 59) {
            Some(i) => {
                let piece = vstd::slice::slice_subrange(s, start, start + i);
                assert(piece@ =~= rest@.take(i as int));
                let ghost before = pairs_model(out@);
                match parse_cookie_piece(piece) {
                    Some(p) => {
                        proof {
                            lemma_pairs_model_push(out@, p);
                        }
                        out.push(p);
                    },
                    None => {},
                }
                proof {
                    assert(rest@.skip(i + 1) =~= s@.skip(start + i + 1));
                    assert(pairs_model(out@) =~= before + cookie_piece(rest@.take(i as int)));
                }
                start = start + i + 1;
            },
            None => {
                let ghost before = pairs_model(out@);
                match parse_cookie_piece(rest) {
                    Some(p) => {
                        proof {
                            lemma_pairs_model_push(out@, p);
                        }
                        out.push(p);
                    },
                    None => {},
                }
                proof {
                    assert(pairs_model(out@) =~= before + cookie_piece(rest@));
                    assert(pairs_model(out@) =~= cookie_pairs(s@));
                }
                return out;
            },
        }
    }
}

/// What one piece of a `Content-Type` value contributes: the boundary
/// after `boundary=`, unquoted, if the trimmed piece starts that way.
pub open spec fn piece_boundary(piece: Seq<u8>) -> Option<Seq<u8>> {
    let t = spec_trim(piece);
    if is_prefix_of(("boundary=").spec_bytes(), t) {
        Some(spec_trim_quotes(t.skip(9)))
    } else {
        None
    }
}

/// The multipart boundary declared in a `Content-Type` value: the first
/// `;`-separated piece that starts with `boundary=`, trimmed and
/// unquoted.
pub open spec fn boundary_in(s: Seq<u8>) -> Option<Seq<u8>>
    decreases s.len(),
{
    match idx_of(s, 59) {
        Some(i) => if 0 <= i < s.len() {
            match piece_boundary(s.take(i)) {
                Some(b) => Some(b),
                None => boundary_in(s.skip(i + 1)),
            }
        } else {
            piece_boundary(s)
        },
        None => piece_boundary(s),
    }
}

/// Reads the boundary out of one piece, as `piece_boundary` describes.
fn parse_piece_boundary(piece: &[u8]) -> (r: Option<Vec<u8>>)
    ensures
        match r {
            Some(b) => piece_boundary(piece@) == Some(b@),
            None => piece_boundary(piece@) is None,
        },
{
    let t = trim(piece);
    let marker = ("boundary=").as_bytes();
    if starts_with(t, marker) {
        proof {
            reveal_strlit("boundary=");
            assert(("boundary=")@.len() == 9);
            assert(vstd::string::is_ascii("boundary="));
            vstd::string::is_ascii_spec_bytes("boundary=");
            assert(marker@.len() == 9);
        }
        let tail = vstd::slice::slice_subrange(t, 9, t.len());
        assert(tail@ =~= spec_trim(piece@).skip(9));
        Some(bytes_of(trim_quotes(tail)))
    } else {
        None
    }
}

/// Finds the boundary in a `Content-Type` value, as `boundary_in`
/// describes.
fn parse_boundary(s: &[u8]) -> (r: Option<Vec<u8>>)
    ensures
        match r {
            Some(b) => boundary_in(s@) == Some(b@),
            None => boundary_in(s@) is None,
        },
{
    let mut start: usize = 0;
    assert(s@.skip(0) =~= s@);
    loop
        invariant
            start <= s.len(),
            boundary_in(s@) == boundary_in(s@.skip(start as int)),
        decreases s.len() - start,
    {
        let rest = vstd::slice::slice_subrange(s, start, s.len());
        proof {
            lemma_idx_of(rest@, 59);
        }
        match find_byte(rest, 59) {
            Some(i) => {
                let piece = vstd::slice::slice_subrange(s, start, start + i);
                assert(piece@ =~= rest@.take(i as int));
                match parse_piece_boundary(piece) {
                    Some(b) => {
                        return Some(b);
                    },
                    None => {},
                }
                proof {
                    assert(rest@.skip(i + 1) =~= s@.skip(start + i + 1));
                }
                start = start + i + 1;
            },
            None => {
                return parse_piece_boundary(rest);
            },
        }
    }
}

} // verus!

verus! {

/// The fields the wire parser extracts from a complete request head.
pub struct HeadFields {
    pub head_len: usize,
    pub method: Vec<u8>,
    pub path: Vec<u8>,
    pub minor: u8,
    pub headers: Vec<(Vec<u8>, Vec<u8>)>,
}

/// The mathematical shape of a parsed head.
pub struct HeadFieldsModel {
    pub head_len: int,
    pub method: Seq<u8>,
    pub path: Seq<u8>,
    pub minor: u8,
    pub headers: Seq<(Seq<u8>, Seq<u8>)>,
}

impl View for HeadFields {
    type V = HeadFieldsModel;

    open spec fn view(&self) -> HeadFieldsModel {
        HeadFieldsModel {
            head_len: self.head_len as int,
            method: self.method@,
            path: self.path@,
            minor: self.minor,
            headers: pairs_model(self.headers@),
        }
    }
}

/// What one attempt of the wire parser reports on a byte prefix.
pub enum HeadOutcome {
    Complete(HeadFields),
    Partial,
    Malformed,
}

/// The mathematical shape of one parse attempt's outcome.
pub enum HeadModel {
    Complete(HeadFieldsModel),
    Partial,
    Malformed,
}

impl View for HeadOutcome {
    type V = HeadModel;

    open spec fn view(&self) -> HeadModel {
        match self {
            HeadOutcome::Complete(f) => HeadModel::Complete(f@),
            HeadOutcome::Partial => HeadModel::Partial,
            HeadOutcome::Malformed => HeadModel::Malformed,
        }
    }
}

/// What the wire-format parser makes of a byte sequence: a complete
/// head with its fields, a request for more bytes, or a refusal.  A
/// function of the bytes alone.
pub uninterp spec fn parse_head(data: Seq<u8>) -> HeadModel;

/// Relies on httparse::Request::parse (with room for 64 headers): the
/// outcome depends on the bytes alone, and a complete head's length is
/// an offset into them.
#[verifier::external_body]
fn parse_head_bytes(data: &[u8]) -> (r: HeadOutcome)
    ensures
        r@ == parse_head(data@),
        match r {
            HeadOutcome::Complete(f) => f.head_len <= data@.len(),
            HeadOutcome::Partial => true,
            HeadOutcome::Malformed => true,
        },
{
    let mut headers = [httparse::EMPTY_HEADER; 64];
    let mut req = httparse::Request::new(&mut headers);
    match req.parse(data) {
        Ok(httparse::Status::Complete(head_len)) => HeadOutcome::Complete(HeadFields {
            head_len,
            method: req.method.unwrap_or("").as_bytes().to_vec(),
            path: req.path.unwrap_or("").as_bytes().to_vec(),
            minor: req.version.unwrap_or(1),
            headers: req.headers.iter().map(|h| (h.name.as_bytes().to_vec(), h.value.to_vec())).collect(),
        }),
        Ok(httparse::Status::Partial) => HeadOutcome::Partial,
        Err(_) => HeadOutcome::Malformed,
    }
}

/// What the multipart decoder makes of a body and a boundary: the
/// field/file name and raw content of each part, or a refusal.  A
/// function of the two byte sequences alone.
pub uninterp spec fn multipart_fields_of(body: Seq<u8>, boundary: Seq<u8>) -> Option<
    Seq<(Seq<u8>, Seq<u8>)>,
>;

/// Relies on multipart::server::Multipart::with_body and read_entry:
/// walks the parts of the body under the given boundary; the parts
/// depend on the two inputs alone.
#[verifier::external_body]
fn multipart_decode(body: &[u8], boundary: &[u8]) -> (r: Option<Vec<(Vec<u8>, Vec<u8>)>>)
    ensures
        match r {
            Some(v) => multipart_fields_of(body@, boundary@) == Some(pairs_model(v@)),
            None => multipart_fields_of(body@, boundary@) is None,
        },
{
    let bnd = String::from_utf8_lossy(boundary).into_owned();
    let mut mp = multipart::server::Multipart::with_body(std::io::Cursor::new(body), bnd);
    let mut out: Vec<(Vec<u8>, Vec<u8>)> = Vec::new();
    loop {
        match mp.read_entry() {
            Ok(Some(mut f)) => {
                let mut data = Vec::new();
                let ok = std::io::Read::read_to_end(&mut f.data, &mut data).is_ok();
                let name = f.headers.filename.clone().unwrap_or_else(|| f.headers.name.to_string());
                if ok { out.push((name.into_bytes(), data)); }
            },
            Ok(None) => return Some(out),
            Err(_) => return None,
        }
    }
}

/// The protocol string of a request head with the given minor version.
pub open spec fn protocol_bytes(minor: u8) -> Seq<u8> {
    ("HTTP/1.").spec_bytes() + dec_digits(minor as nat)
}

/// The cookie pairs a header map declares, from its last `Cookie` value.
pub open spec fn cookie_header_pairs(hs: Seq<(Seq<u8>, Seq<u8>)>) -> Seq<(Seq<u8>, Seq<u8>)> {
    match lookup_last(hs, ("Cookie").spec_bytes()) {
        Some(v) => cookie_pairs(v),
        None => Seq::empty(),
    }
}

/// The body length a header map declares: its last `Content-Length`
/// value read as a decimal number, or zero when absent or unreadable.
pub open spec fn spec_content_length(hs: Seq<(Seq<u8>, Seq<u8>)>) -> nat {
    match lookup_last(hs, ("Content-Length").spec_bytes()) {
        Some(v) => match parsed_usize(v) {
            Some(n) => n,
            None => 0,
        },
        None => 0,
    }
}

/// The multipart boundary a header map declares, from its last
/// `Content-Type` value.
pub open spec fn spec_boundary_of(hs: Seq<(Seq<u8>, Seq<u8>)>) -> Option<Seq<u8>> {
    match lookup_last(hs, ("Content-Type").spec_bytes()) {
        Some(v) => boundary_in(v),
        None => None,
    }
}

/// The mathematical shape of an in-flight request.
#[verifier::ext_equal]
pub struct RequestModel {
    pub header_done: bool,
    pub server_id: usize,
    pub fd: i32,
    pub raw: Seq<u8>,
    pub method: Seq<u8>,
    pub path: Seq<u8>,
    pub protocol: Seq<u8>,
    pub headers: Seq<(Seq<u8>, Seq<u8>)>,
    pub cookies: Seq<(Seq<u8>, Seq<u8>)>,
    pub body: Seq<u8>,
    pub dispatched: bool,
}

/// How one read step changes a request: before the head is complete the
/// bytes join the retained buffer, which is offered whole to the wire
/// parser; a complete head fills the parsed fields and starts the body
/// with whatever followed the head; afterwards bytes extend the body.
pub open spec fn read_step(m: RequestModel, data: Seq<u8>) -> RequestModel {
    if m.header_done {
        RequestModel { body: m.body + data, ..m }
    } else {
        let fed = m.raw + data;
        match parse_head(fed) {
            HeadModel::Complete(f) => RequestModel {
                header_done: true,
                method: f.method,
                path: f.path,
                protocol: protocol_bytes(f.minor),
                headers: f.headers,
                cookies: cookie_header_pairs(f.headers),
                body: m.body + fed.skip(f.head_len),
                raw: Seq::empty(),
                ..m
            },
            HeadModel::Partial => RequestModel { raw: fed, ..m },
            HeadModel::Malformed => RequestModel { raw: fed, ..m },
        }
    }
}

/// Whether head and body are complete, so that dispatch is due.
pub open spec fn model_ready(m: RequestModel) -> bool {
    m.header_done && m.body.len() >= spec_content_length(m.headers)
}

/// One in-flight request: the connection's parse state and, once the
/// head is complete, what it said.
pub struct Request {
    /// Whether the head has been fully parsed.
    pub header_done: bool,
    /// The server the connection arrived on.
    pub server_id: usize,
    /// The connection's socket descriptor, as a plain number; the caller
    /// owns the socket itself.
    pub fd: i32,
    /// Head bytes received so far, retained until the parser reports the
    /// head complete and re-offered whole on each read.
    pub raw: Vec<u8>,
    pub method: Vec<u8>,
    pub path: Vec<u8>,
    pub protocol: Vec<u8>,
    pub headers: Vec<(Vec<u8>, Vec<u8>)>,
    pub cookies: Vec<(Vec<u8>, Vec<u8>)>,
    pub body: Vec<u8>,
    /// Whether this request's handler has already run; a dispatched
    /// request takes no further reads.
    pub dispatched: bool,
}

impl View for Request {
    type V = RequestModel;

    open spec fn view(&self) -> RequestModel {
        RequestModel {
            header_done: self.header_done,
            server_id: self.server_id,
            fd: self.fd,
            raw: self.raw@,
            method: self.method@,
            path: self.path@,
            protocol: self.protocol@,
            headers: pairs_model(self.headers@),
            cookies: pairs_model(self.cookies@),
            body: self.body@,
            dispatched: self.dispatched,
        }
    }
}

impl Request {
    /// The header map of this request, as a model.
    pub open spec fn headers_view(&self) -> Seq<(Seq<u8>, Seq<u8>)> {
        pairs_model(self.headers@)
    }

    /// The cookie map of this request, as a model.
    pub open spec fn cookies_view(&self) -> Seq<(Seq<u8>, Seq<u8>)> {
        pairs_model(self.cookies@)
    }

    /// Whether head and body are complete, so that dispatch is due.
    pub open spec fn spec_ready(&self) -> bool {
        model_ready(self@)
    }

    /// A fresh request for a just-accepted connection: nothing parsed,
    /// nothing buffered.
    pub fn new(fd: i32, server_id: usize) -> (r: Request)
        ensures
            r.header_done == false,
            r.dispatched == false,
            r.server_id == server_id,
            r.fd == fd,
            r.raw@ == Seq::<u8>::empty(),
            r.method@ == Seq::<u8>::empty(),
            r.path@ == Seq::<u8>::empty(),
            r.protocol@ == Seq::<u8>::empty(),
            r.body@ == Seq::<u8>::empty(),
            r.headers_view() == Seq::<(Seq<u8>, Seq<u8>)>::empty(),
            r.cookies_view() == Seq::<(Seq<u8>, Seq<u8>)>::empty(),
    {
        let r = Request {
            header_done: false,
            server_id,
            fd,
            raw: Vec::new(),
            method: Vec::new(),
            path: Vec::new(),
            protocol: Vec::new(),
            headers: Vec::new(),
            cookies: Vec::new(),
            body: Vec::new(),
            dispatched: false,
        };
        assert(r.headers_view() =~= Seq::<(Seq<u8>, Seq<u8>)>::empty());
        assert(r.cookies_view() =~= Seq::<(Seq<u8>, Seq<u8>)>::empty());
        r
    }

    /// The body length this request's headers declare.
    pub fn content_length(&self) -> (n: usize)
        ensures
            n as nat == spec_content_length(self.headers_view()),
    {
        match lookup_header(&self.headers, ("Content-Length").as_bytes()) {
            Some(v) => match parse_usize(v.as_slice()) {
                Some(n) => n,
                None => 0,
            },
            None => 0,
        }
    }

    /// One read step: feeds the bytes one read delivered.  Until the
    /// head is complete the bytes join the retained head buffer, which
    /// is re-offered whole to the wire parser; a complete head fills
    /// method, path, protocol, headers and cookies, and any bytes past
    /// the head start the body.  After that, new bytes extend the body.
    /// Returns whether the request is now complete and due for dispatch.
    pub fn read_cb(&mut self, data: &[u8]) -> (ready: bool)
        ensures
            final(self)@ == read_step(old(self)@, data@),
            ready == model_ready(final(self)@),
    {
        if !self.header_done {
            push_bytes(&mut self.raw, data);
            match parse_head_bytes(self.raw.as_slice()) {
                HeadOutcome::Complete(f) => {
                    let HeadFields { head_len, method, path, minor, headers } = f;
                    self.method = method;
                    self.path = path;
                    let mut protocol: Vec<u8> = Vec::new();
                    push_bytes(&mut protocol, ("HTTP/1.").as_bytes());
                    crate::text::push_dec(&mut protocol, minor as u16);
                    assert(dec_digits(minor as u16 as nat) == dec_digits(minor as nat));
                    self.protocol = protocol;
                    self.headers = headers;
                    let cookies = match lookup_header(&self.headers, ("Cookie").as_bytes()) {
                        Some(v) => parse_cookies(v.as_slice()),
                        None => Vec::new(),
                    };
                    assert(pairs_model(Seq::<(Vec<u8>, Vec<u8>)>::empty()) =~= Seq::<(
                        Seq<u8>,
                        Seq<u8>,
                    )>::empty());
                    self.cookies = cookies;
                    let raw_len = self.raw.len();
                    let rest = vstd::slice::slice_subrange(self.raw.as_slice(), head_len, raw_len);
                    push_bytes(&mut self.body, rest);
                    self.raw = Vec::new();
                    self.header_done = true;
                    assert(self@ =~= read_step(old(self)@, data@));
                },
                HeadOutcome::Partial => {
                    assert(self@ =~= read_step(old(self)@, data@));
                },
                HeadOutcome::Malformed => {
                    assert(self@ =~= read_step(old(self)@, data@));
                },
            }
        } else {
            push_bytes(&mut self.body, data);
            assert(self@ =~= read_step(old(self)@, data@));
        }
        if self.header_done {
            let len = self.body.len();
            len >= self.content_length()
        } else {
            false
        }
    }

    /// The multipart boundary this request's headers declare, if any.
    fn get_boundary(&self) -> (r: Option<Vec<u8>>)
        ensures
            match r {
                Some(b) => spec_boundary_of(self.headers_view()) == Some(b@),
                None => spec_boundary_of(self.headers_view()) is None,
            },
    {
        match lookup_header(&self.headers, ("Content-Type").as_bytes()) {
            Some(v) => parse_boundary(v.as_slice()),
            None => None,
        }
    }

    /// Decodes the body as `multipart/form-data` under the boundary the
    /// `Content-Type` header declares: a pair per part, keyed by file
    /// name (or field name without one).  Absence of a boundary, or a
    /// body the decoder refuses, is `None` — never partial results.
    pub fn parse_multipart(&self) -> (r: Option<Vec<(Vec<u8>, Vec<u8>)>>)
        ensures
            match spec_boundary_of(self.headers_view()) {
                Some(b) => match multipart_fields_of(self.body@, b) {
                    Some(fields) => match r {
                        Some(v) => pairs_model(v@) == fields,
                        None => false,
                    },
                    None => r is None,
                },
                None => r is None,
            },
    {
        match self.get_boundary() {
            Some(b) => multipart_decode(self.body.as_slice(), b.as_slice()),
            None => None,
        }
    }
}

} // verus!

verus! {

/// A complete head is never parsed again: every later read leaves the
/// parsed fields exactly as they are and only grows the body — so a
/// request reaches its completed state once.
pub proof fn lemma_head_completes_once(m: RequestModel, data: Seq<u8>)
    requires
        m.header_done,
    ensures
        read_step(m, data) == (RequestModel { body: m.body + data, ..m }),
{
}

/// Fragmented delivery parses like all-at-once delivery: when a read
/// leaves the head incomplete, feeding the rest later puts the request
/// in exactly the state one combined read would have — however the
/// bytes were split, the head completes once, from the whole prefix.
pub proof fn lemma_fragmented_read(m: RequestModel, d1: Seq<u8>, d2: Seq<u8>)
    requires
        !m.header_done,
        parse_head(m.raw + d1) is Partial,
    ensures
        read_step(read_step(m, d1), d2) == read_step(m, d1 + d2),
{
    let m1 = read_step(m, d1);
    assert(m1 == RequestModel { raw: m.raw + d1, ..m });
    assert(m1.raw + d2 =~= m.raw + (d1 + d2));
    assert(read_step(m1, d2) == read_step(m, d1 + d2));
}

} // verus!
