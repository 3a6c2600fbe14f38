//! The computational half of CGI handling: deriving the subprocess's
//! environment from a request, and folding the subprocess's output into
//! a response.  Spawning the interpreter and piping bytes is
//! input/output and stays with the caller, who hands the collected
//! output and the exit state in.

use vstd::prelude::*;

use crate::request::{pairs_model, Request};
use crate::response_writer::{append_value, HeadersModel, ResponseWriter};
use crate::status::HttpStatus;
use crate::text::{bytes_of, idx_of, lemma_idx_of, push_bytes, find_byte, spec_trim, trim};
use vstd::string::StringSliceAdditionalSpecFns;

verus! {

/// An error of the server's own: a message string.
#[derive(Debug)]
pub struct ServerError(pub String);

/// How one byte of a header name reads as an environment variable name:
/// ASCII letters upper-cased and `-` turned into `_`.
pub open spec fn env_byte(b: u8) -> u8 {
    if b == 45 {
        95
    } else if 97 <= b <= 122 {
        (b - 32) as u8
    } else {
        b
    }
}

/// The environment variable name for a request header: `HTTP_` and the
/// name with letters upper-cased and `-` turned into `_`.
pub open spec fn env_name_of(name: Seq<u8>) -> Seq<u8> {
    ("HTTP_").spec_bytes() + Seq::new(name.len(), |i: int| env_byte(name[i]))
}

/// Builds the environment variable name for one request header.
pub fn cgi_env_name(name: &[u8]) -> (r: Vec<u8>)
    ensures
        r@ == env_name_of(name@),
{
    let mut out: Vec<u8> = Vec::new();
    push_bytes(&mut out, ("HTTP_").as_bytes());
    let ghost base = out@;
    let mut i: usize = 0;
    while i < name.len()
        invariant
            i <= name.len(),
            out@ =~= base + Seq::new(i as nat, |k: int| env_byte(name@[k])),
        decreases name.len() - i,
    {
        let b = name[i];
        let e: u8 = if b == 45 {
            95
        } else if 97 <= b && b <= 122 {
            b - 32
        } else {
            b
        };
        out.push(e);
        assert(out@ =~= base + Seq::new((i + 1) as nat, |k: int| env_byte(name@[k])));
        i = i + 1;
    }
    assert(out@ =~= env_name_of(name@));
    out
}

/// The query string of a request path: what follows the first `?`, or
/// nothing when there is none.
pub open spec fn query_of(path: Seq<u8>) -> Seq<u8> {
    match idx_of(path, 63) {
        Some(i) => if 0 <= i < path.len() {
            path.skip(i + 1)
        } else {
            Seq::empty()
        },
        None => Seq::empty(),
    }
}

/// Extracts the query string from a request path.
pub fn cgi_query_string(path: &[u8]) -> (r: Vec<u8>)
    ensures
        r@ == query_of(path@),
{
    proof {
        lemma_idx_of(path@, 63);
    }
    match find_byte(path, 63) {
        Some(i) => {
            let plen = path.len();
            let r = bytes_of(vstd::slice::slice_subrange(path, i + 1, plen));
            assert(r@ =~= path@.skip(i + 1));
            r
        },
        None => {
            let r: Vec<u8> = Vec::new();
            assert(r@ =~= Seq::<u8>::empty());
            r
        },
    }
}

/// The environment rows the subprocess receives: the request method,
/// the path, the query string, and one `HTTP_`-prefixed row per header.
pub open spec fn env_rows_of(headers: Seq<(Seq<u8>, Seq<u8>)>, i: int) -> Seq<(Seq<u8>, Seq<u8>)>
    decreases i,
{
    if i <= 0 {
        Seq::empty()
    } else {
        env_rows_of(headers, i - 1).push((env_name_of(headers[i - 1].0), headers[i - 1].1))
    }
}

/// Derives the subprocess environment from a request: `REQUEST_METHOD`,
/// `PATH_INFO` and `QUERY_STRING` first, then one row per header.
pub fn cgi_env_pairs(req: &Request) -> (r: Vec<(Vec<u8>, Vec<u8>)>)
    ensures
        pairs_model(r@) == seq![
            (("REQUEST_METHOD").spec_bytes(), req@.method),
            (("PATH_INFO").spec_bytes(), req@.path),
            (("QUERY_STRING").spec_bytes(), query_of(req@.path)),
        ] + env_rows_of(req@.headers, req@.headers.len() as int),
{
    let mut out: Vec<(Vec<u8>, Vec<u8>)> = Vec::new();
    out.push((bytes_of(("REQUEST_METHOD").as_bytes()), bytes_of(req.method.as_slice())));
    out.push((bytes_of(("PATH_INFO").as_bytes()), bytes_of(req.path.as_slice())));
    out.push((bytes_of(("QUERY_STRING").as_bytes()), cgi_query_string(req.path.as_slice())));
    let ghost base = pairs_model(out@);
    assert(base =~= seq![
        (("REQUEST_METHOD").spec_bytes(), req@.method),
        (("PATH_INFO").spec_bytes(), req@.path),
        (("QUERY_STRING").spec_bytes(), query_of(req@.path)),
    ]);
    let mut i: usize = 0;
    while i < req.headers.len()
        invariant
            i <= req.headers@.len(),
            pairs_model(out@) =~= base + env_rows_of(req@.headers, i as int),
        decreases req.headers@.len() - i,
    {
        let name = cgi_env_name(req.headers[i].0.as_slice());
        let value = bytes_of(req.headers[i].1.as_slice());
        proof {
            crate::request::lemma_pairs_model_push(out@, (name, value));
        }
        out.push((name, value));
        assert(pairs_model(out@) =~= base + env_rows_of(req@.headers, i + 1)) by {
            assert(req@.headers[i as int] == (req.headers@[i as int].0@,
                req.headers@[i as int].1@));
        }
        i = i + 1;
    }
    out
}

/// A line of subprocess output, its trailing carriage return removed.
pub open spec fn strip_cr(line: Seq<u8>) -> Seq<u8> {
    if line.len() > 0 && line.last() == 13 {
        line.drop_last()
    } else {
        line
    }
}

/// What one output line contributes: an empty line ends the header
/// section; before that, a `name: value` line (split at the first `:`,
/// both sides trimmed) joins the header rows and anything else is
/// dropped; after it, the line and a newline join the body.
pub open spec fn cgi_line_step(
    line: Seq<u8>,
    headers_end: bool,
    hdrs: Seq<(Seq<u8>, Seq<u8>)>,
    body: Seq<u8>,
) -> (bool, Seq<(Seq<u8>, Seq<u8>)>, Seq<u8>) {
    if line.len() == 0 {
        (true, hdrs, body)
    } else if !headers_end {
        match idx_of(line, 58) {
            Some(j) => if 0 <= j < line.len() {
                (false, hdrs.push((spec_trim(line.take(j)), spec_trim(line.skip(j + 1)))), body)
            } else {
                (false, hdrs, body)
            },
            None => (false, hdrs, body),
        }
    } else {
        (true, hdrs, body + line + seq![10u8])
    }
}

/// The header rows and body that a subprocess's remaining output yields,
/// read line by line from the given state.
pub open spec fn cgi_split(
    s: Seq<u8>,
    headers_end: bool,
    hdrs: Seq<(Seq<u8>, Seq<u8>)>,
    body: Seq<u8>,
) -> (Seq<(Seq<u8>, Seq<u8>)>, Seq<u8>)
    decreases s.len(),
{
    if s.len() == 0 {
        (hdrs, body)
    } else {
        match idx_of(s, 10) {
            Some(i) => if 0 <= i < s.len() {
                let step = cgi_line_step(strip_cr(s.take(i)), headers_end, hdrs, body);
                cgi_split(s.skip(i + 1), step.0, step.1, step.2)
            } else {
                let step = cgi_line_step(strip_cr(s), headers_end, hdrs, body);
                (step.1, step.2)
            },
            None => {
                let step = cgi_line_step(strip_cr(s), headers_end, hdrs, body);
                (step.1, step.2)
            },
        }
    }
}

/// Strips a line's trailing carriage return.
fn exec_strip_cr<'a>(line: &'a [u8]) -> (r: &'a [u8])
    ensures
        r@ == strip_cr(line@),
{
    if line.len() > 0 && line[line.len() - 1] == 13 {
        let r = vstd::slice::slice_subrange(line, 0, line.len() - 1);
        assert(r@ =~= strip_cr(line@));
        r
    } else {
        line
    }
}

/// Splits one header line at its first `:`, trimming both sides.
fn split_header_line(line: &[u8]) -> (r: Option<(Vec<u8>, Vec<u8>)>)
    ensures
        match r {
            Some(p) => idx_of(line@, 58) matches Some(j) && p.0@ == spec_trim(line@.take(j))
                && p.1@ == spec_trim(line@.skip(j + 1)),
            None => idx_of(line@, 58) is None,
        },
{
    proof {
        lemma_idx_of(line@, 58);
    }
    match find_byte(line, 58) {
        Some(j) => {
            let llen = line.len();
            assert(j < line@.len());
            let name = bytes_of(trim(vstd::slice::slice_subrange(line, 0, j)));
            let value = bytes_of(trim(vstd::slice::slice_subrange(line, j + 1, llen)));
            assert(name@ =~= spec_trim(line@.take(j as int)));
            assert(value@ =~= spec_trim(line@.skip(j + 1)));
            Some((name, value))
        },
        None => None,
    }
}

/// Reads a subprocess's collected output into header rows (the lines up
/// to the first blank one) and body bytes (the lines after it, each
/// ending in a newline), exactly as `cgi_split` describes.
pub fn cgi_parse_output(output: &[u8]) -> (r: (Vec<(Vec<u8>, Vec<u8>)>, Vec<u8>))
    ensures
        (pairs_model(r.0@), r.1@) == cgi_split(output@, false, Seq::empty(), Seq::empty()),
{
    let mut hdrs: Vec<(Vec<u8>, Vec<u8>)> = Vec::new();
    let mut body: Vec<u8> = Vec::new();
    let mut headers_end = false;
    let mut start: usize = 0;
    assert(output@.skip(0) =~= output@);
    assert(pairs_model(hdrs@) =~= Seq::<(Seq<u8>, Seq<u8>)>::empty());
    loop
        invariant
            start <= output.len(),
            cgi_split(output@.skip(start as int), headers_end, pairs_model(hdrs@), body@)
                == cgi_split(output@, false, Seq::empty(), Seq::empty()),
        decreases output.len() - start,
    {
        let rest = vstd::slice::slice_subrange(output, start, output.len());
        if rest.len() == 0 {
            return (hdrs, body);
        }
        proof {
            lemma_idx_of(rest@, 10);
        }
        let (line, next): (&[u8], usize) = match find_byte(rest, 10) {
            Some(i) => {
                let l = vstd::slice::slice_subrange(output, start, start + i);
                assert(l@ =~= rest@.take(i as int));
                (l, start + i + 1)
            },
            None => (rest, output.len()),
        };
        let ghost gline = strip_cr(line@);
        let ghost step = cgi_line_step(gline, headers_end, pairs_model(hdrs@), body@);
        let stripped = exec_strip_cr(line);
        if stripped.len() == 0 {
            headers_end = true;
            assert(headers_end == step.0 && pairs_model(hdrs@) =~= step.1 && body@ =~= step.2);
        } else if !headers_end {
            match split_header_line(stripped) {
                Some(p) => {
                    proof {
                        lemma_idx_of(gline, 58);
                        crate::request::lemma_pairs_model_push(hdrs@, p);
                    }
                    hdrs.push(p);
                },
                None => {},
            }
            assert(headers_end == step.0 && pairs_model(hdrs@) =~= step.1 && body@ =~= step.2);
        } else {
            push_bytes(&mut body, stripped);
            body.push(10);
            assert(headers_end == step.0 && pairs_model(hdrs@) =~= step.1 && body@ =~= step.2);
        }
        proof {
            if start + line@.len() < output@.len() {
                assert(rest@.skip(line@.len() as int + 1) =~= output@.skip(start + line@.len() as int + 1));
            }
        }
        start = next;
    }
}

/// The header map after appending every parsed row, in order.
pub open spec fn appended_rows(h: HeadersModel, rows: Seq<(Seq<u8>, Seq<u8>)>, i: int) -> HeadersModel
    decreases i,
{
    if i <= 0 {
        h
    } else {
        append_value(appended_rows(h, rows, i - 1), rows[i - 1].0, rows[i - 1].1)
    }
}

/// Folds a subprocess's parsed output into the response: every header
/// row joins the multi-valued map, the body bytes extend the response
/// body, and the response is finalized — as the subprocess sent it on
/// success, or as a plain 404 when the subprocess failed.
pub fn cgi_finish(
    resp: &mut ResponseWriter,
    rows: Vec<(Vec<u8>, Vec<u8>)>,
    body: Vec<u8>,
    success: bool,
)
    ensures
        success ==> {
            &&& final(resp).headers_view() == appended_rows(old(resp).headers_view(),
                pairs_model(rows@), rows@.len() as int)
            &&& final(resp).body@ == old(resp).body@ + body@
            &&& final(resp).status_code == old(resp).status_code
            &&& final(resp).spec_pending() == Some(final(resp).current_model())
        },
        !success ==> {
            &&& final(resp).headers_view() == appended_rows(old(resp).headers_view(),
                pairs_model(rows@), rows@.len() as int)
            &&& final(resp).body@ == vstd::utf8::encode_utf8(crate::status::spec_reason(404))
            &&& final(resp).status_code == Some(404u16)
            &&& final(resp).spec_pending() == Some(final(resp).current_model())
        },
        final(resp).spec_event_id() == old(resp).spec_event_id(),
{
    let ghost rws = pairs_model(rows@);
    let mut i: usize = 0;
    while i < rows.len()
        invariant
            i <= rows@.len(),
            resp.headers_view() == appended_rows(old(resp).headers_view(), rws, i as int),
            resp.body@ == old(resp).body@,
            resp.status_code == old(resp).status_code,
            resp.spec_event_id() == old(resp).spec_event_id(),
            resp.spec_pending() == old(resp).spec_pending(),
            rws == pairs_model(rows@),
        decreases rows@.len() - i,
    {
        let name = bytes_of(rows[i].0.as_slice());
        let value = bytes_of(rows[i].1.as_slice());
        resp.append_header(name, value);
        assert(rws[i as int] == (rows@[i as int].0@, rows@[i as int].1@));
        i = i + 1;
    }
    if success {
        resp.append_body_and_finalize(body.as_slice());
    } else {
        resp.write_status(HttpStatus::NotFound);
    }
}

} // verus!
