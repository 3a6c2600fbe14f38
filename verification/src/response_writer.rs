//! The response writer: a header map that keeps one list of values per
//! name, an optional status code, a body buffer, and the one-shot wire
//! serialization.  A "terminal" call (`write_string`, `write_json`,
//! `write_status`, `write_html`) finalizes the writer: it stores a
//! snapshot of the buffers, which the reactor later moves into its
//! write-back table and flushes when the socket turns writable.

use vstd::prelude::*;

use crate::status::{spec_code, spec_reason, HttpStatus};
use crate::text::{bytes_of, push_bytes, push_dec, dec_digits};
use vstd::pervasive::VecAdditionalExecFns;
use vstd::string::{StrSliceExecFns, StringSliceAdditionalSpecFns};
use vstd::utf8::encode_utf8;

verus! {

/// The mathematical shape of the header map: a sequence of entries, each
/// a name with the list of its values, in insertion order.
pub type HeadersModel = Seq<(Seq<u8>, Seq<Seq<u8>>)>;

/// The views of a list of header values.
pub open spec fn values_model(vs: Seq<Vec<u8>>) -> Seq<Seq<u8>> {
    Seq::new(vs.len(), |i: int| vs[i]@)
}

/// The view of the executable header map.
pub open spec fn headers_model(hs: Seq<(Vec<u8>, Vec<Vec<u8>>)>) -> HeadersModel {
    Seq::new(hs.len(), |i: int| (hs[i].0@, values_model(hs[i].1@)))
}

/// The position of the entry named `name`, if one exists.  Entries are
/// only ever created through `insert_single` and `append_value`, so at
/// most one entry carries a given name.
pub open spec fn find_key(h: HeadersModel, name: Seq<u8>) -> Option<int>
    decreases h.len(),
{
    if h.len() == 0 {
        None
    } else if h[0].0 == name {
        Some(0)
    } else {
        match find_key(h.drop_first(), name) {
            Some(i) => Some(i + 1),
            None => None,
        }
    }
}

/// What `find_key` returns: the first matching position, or a proof that
/// no entry matches.
pub proof fn lemma_find_key(h: HeadersModel, name: Seq<u8>)
    ensures
        match find_key(h, name) {
            Some(i) => 0 <= i < h.len() && h[i].0 == name && (forall|j: int|
                0 <= j < i ==> h[j].0 != name),
            None => forall|j: int| 0 <= j < h.len() ==> h[j].0 != name,
        },
    decreases h.len(),
{
    if h.len() > 0 && h[0].0 != name {
        let tail = h.drop_first();
        lemma_find_key(tail, name);
        assert(forall|j: int| 0 <= j < tail.len() ==> tail[j] == h[j + 1]);
        match find_key(tail, name) {
            Some(i) => {
                assert(find_key(h, name) == Some(i + 1));
                assert(h[i + 1].0 == name);
                assert(forall|j: int| 0 < j < i + 1 ==> h[j].0 == tail[j - 1].0);
                assert(forall|j: int| 0 <= j < i + 1 ==> h[j].0 != name);
            },
            None => {
                assert(forall|j: int| 0 < j < h.len() ==> h[j].0 == tail[j - 1].0);
                assert(forall|j: int| 0 <= j < h.len() ==> h[j].0 != name);
            },
        }
    }
}

/// The map after a single-valued insert: the existing entry for `name`
/// is replaced by the one value, or a fresh entry is appended.
pub open spec fn insert_single(h: HeadersModel, name: Seq<u8>, value: Seq<u8>) -> HeadersModel {
    match find_key(h, name) {
        Some(i) => h.update(i, (name, seq![value])),
        None => h.push((name, seq![value])),
    }
}

/// The map after appending one more value under `name`, keeping the
/// values already there.
pub open spec fn append_value(h: HeadersModel, name: Seq<u8>, value: Seq<u8>) -> HeadersModel {
    match find_key(h, name) {
        Some(i) => h.update(i, (name, h[i].1.push(value))),
        None => h.push((name, seq![value])),
    }
}

/// Finds the entry named `name` in the executable map.
fn find_header(hs: &Vec<(Vec<u8>, Vec<Vec<u8>>)>, name: &[u8]) -> (r: Option<usize>)
    ensures
        match r {
            Some(i) => find_key(headers_model(hs@), name@) == Some(i as int),
            None => find_key(headers_model(hs@), name@) is None,
        },
{
    proof {
        lemma_find_key(headers_model(hs@), name@);
    }
    let mut i: usize = 0;
    while i < hs.len()
        invariant
            i <= hs.len(),
            forall|j: int| 0 <= j < i ==> headers_model(hs@)[j].0 != name@,
        decreases hs.len() - i,
    {
        if crate::text::bytes_eq(hs[i].0.as_slice(), name) {
            proof {
                assert(headers_model(hs@)[i as int].0 == name@);
                lemma_find_key(headers_model(hs@), name@);
                match find_key(headers_model(hs@), name@) {
                    Some(k) => {
                        assert(!(k < i)) by {
                            if k < i {
                                assert(headers_model(hs@)[k].0 != name@);
                            }
                        }
                        assert(!(k > i)) by {
                            if k > i {
                                assert(headers_model(hs@)[i as int].0 != name@);
                            }
                        }
                    },
                    None => {
                        assert(headers_model(hs@)[i as int].0 != name@);
                    },
                }
            }
            return Some(i);
        }
        i = i + 1;
    }
    None
}

/// Appending an executable entry appends its view to the model.
proof fn lemma_values_model_push(vs: Seq<Vec<u8>>, v: Vec<u8>)
    ensures
        values_model(vs.push(v)) =~= values_model(vs).push(v@),
{
}

/// Appending an executable entry appends its view to the model.
proof fn lemma_headers_model_push(hs: Seq<(Vec<u8>, Vec<Vec<u8>>)>, e: (Vec<u8>, Vec<Vec<u8>>))
    ensures
        headers_model(hs.push(e)) =~= headers_model(hs).push((e.0@, values_model(e.1@))),
{
}

/// Updating one executable entry updates its view in the model.
proof fn lemma_headers_model_update(
    hs: Seq<(Vec<u8>, Vec<Vec<u8>>)>,
    i: int,
    e: (Vec<u8>, Vec<Vec<u8>>),
)
    requires
        0 <= i < hs.len(),
    ensures
        headers_model(hs.update(i, e)) =~= headers_model(hs).update(i, (e.0@, values_model(
            e.1@,
        ))),
{
}

/// Copies a list of header values.
fn clone_values(vs: &Vec<Vec<u8>>) -> (r: Vec<Vec<u8>>)
    ensures
        values_model(r@) == values_model(vs@),
{
    let mut out: Vec<Vec<u8>> = Vec::new();
    let mut j: usize = 0;
    while j < vs.len()
        invariant
            j <= vs.len(),
            values_model(out@) =~= values_model(vs@).take(j as int),
        decreases vs.len() - j,
    {
        let b = bytes_of(vs[j].as_slice());
        proof {
            lemma_values_model_push(out@, b);
        }
        out.push(b);
        assert(values_model(out@) =~= values_model(vs@).take(j + 1));
        j = j + 1;
    }
    assert(values_model(vs@).take(vs@.len() as int) =~= values_model(vs@));
    out
}

/// Replaces (or creates) the entry for `name` with the single `value`.
fn exec_insert_single(hs: &mut Vec<(Vec<u8>, Vec<Vec<u8>>)>, name: Vec<u8>, value: Vec<u8>)
    ensures
        headers_model(final(hs)@) == insert_single(headers_model(old(hs)@), name@, value@),
{
    let ghost before = headers_model(hs@);
    let ghost v = value@;
    let mut vals: Vec<Vec<u8>> = Vec::new();
    vals.push(value);
    assert(values_model(vals@) =~= seq![v]);
    match find_header(hs, name.as_slice()) {
        Some(i) => {
            proof {
                lemma_find_key(before, name@);
                lemma_headers_model_update(hs@, i as int, (name, vals));
            }
            hs.set(i, (name, vals));
            assert(headers_model(hs@) =~= insert_single(before, name@, v));
        },
        None => {
            proof {
                lemma_headers_model_push(hs@, (name, vals));
            }
            hs.push((name, vals));
            assert(headers_model(hs@) =~= insert_single(before, name@, v));
        },
    }
}

/// Appends `value` to the entry for `name`, creating the entry if it is
/// not there yet.
fn exec_append_value(hs: &mut Vec<(Vec<u8>, Vec<Vec<u8>>)>, name: Vec<u8>, value: Vec<u8>)
    ensures
        headers_model(final(hs)@) == append_value(headers_model(old(hs)@), name@, value@),
{
    let ghost before = headers_model(hs@);
    let ghost v = value@;
    match find_header(hs, name.as_slice()) {
        Some(i) => {
            proof {
                lemma_find_key(before, name@);
            }
            let mut vals = clone_values(&hs[i].1);
            proof {
                lemma_values_model_push(vals@, value);
            }
            vals.push(value);
            assert(values_model(vals@) =~= before[i as int].1.push(v));
            proof {
                lemma_headers_model_update(hs@, i as int, (name, vals));
            }
            hs.set(i, (name, vals));
            assert(headers_model(hs@) =~= append_value(before, name@, v)) by {
                assert(headers_model(hs@)[i as int].0 == name@);
                assert(name@ == before[i as int].0);
            }
        },
        None => {
            let mut vals: Vec<Vec<u8>> = Vec::new();
            vals.push(value);
            assert(values_model(vals@) =~= seq![v]);
            proof {
                lemma_headers_model_push(hs@, (name, vals));
            }
            hs.push((name, vals));
            assert(headers_model(hs@) =~= append_value(before, name@, v));
        },
    }
}

/// Copies a header map, entry by entry.
fn clone_headers(hs: &Vec<(Vec<u8>, Vec<Vec<u8>>)>) -> (r: Vec<(Vec<u8>, Vec<Vec<u8>>)>)
    ensures
        headers_model(r@) == headers_model(hs@),
{
    let mut out: Vec<(Vec<u8>, Vec<Vec<u8>>)> = Vec::new();
    let mut i: usize = 0;
    while i < hs.len()
        invariant
            i <= hs.len(),
            headers_model(out@) =~= headers_model(hs@).take(i as int),
        decreases hs.len() - i,
    {
        let name = bytes_of(hs[i].0.as_slice());
        let vals = clone_values(&hs[i].1);
        proof {
            lemma_headers_model_push(out@, (name, vals));
        }
        out.push((name, vals));
        assert(headers_model(out@) =~= headers_model(hs@).take(i + 1));
        i = i + 1;
    }
    assert(headers_model(hs@).take(hs@.len() as int) =~= headers_model(hs@));
    out
}

/// A finalized response awaiting its socket's write-readiness: the exact
/// buffers the handler left behind.
pub struct ResponseSnapshot {
    pub status_code: Option<u16>,
    pub headers: Vec<(Vec<u8>, Vec<Vec<u8>>)>,
    pub body: Vec<u8>,
}

/// The mathematical shape of a finalized response.
pub struct ResponseModel {
    pub status_code: Option<u16>,
    pub headers: HeadersModel,
    pub body: Seq<u8>,
}

impl View for ResponseSnapshot {
    type V = ResponseModel;

    open spec fn view(&self) -> ResponseModel {
        ResponseModel {
            status_code: self.status_code,
            headers: headers_model(self.headers@),
            body: self.body@,
        }
    }
}

/// The two bytes that end every line of the head.
pub open spec fn crlf() -> Seq<u8> {
    seq![13u8, 10u8]
}

/// The status a response is sent with when none was set.
pub open spec fn effective_code(status: Option<u16>) -> u16 {
    match status {
        Some(c) => c,
        None => 200,
    }
}

/// The serialized status line: `HTTP/1.1 <code> <reason>\r\n`.
pub open spec fn status_line_bytes(code: u16) -> Seq<u8> {
    ("HTTP/1.1 ").spec_bytes() + dec_digits(code as nat) + (" ").spec_bytes() + encode_utf8(
        spec_reason(code),
    ) + crlf()
}

/// One `Name: Value\r\n` line per value of one entry.
pub open spec fn rendered_values(name: Seq<u8>, vals: Seq<Seq<u8>>) -> Seq<u8>
    decreases vals.len(),
{
    if vals.len() == 0 {
        Seq::empty()
    } else {
        name + (": ").spec_bytes() + vals[0] + crlf() + rendered_values(name, vals.drop_first())
    }
}

/// The serialized header block, entry after entry in map order.
pub open spec fn rendered_headers(h: HeadersModel) -> Seq<u8>
    decreases h.len(),
{
    if h.len() == 0 {
        Seq::empty()
    } else {
        rendered_values(h[0].0, h[0].1) + rendered_headers(h.drop_first())
    }
}

/// The full wire form of a finalized response: status line, header
/// lines, a blank line, then the raw body.
pub open spec fn rendered(m: ResponseModel) -> Seq<u8> {
    status_line_bytes(effective_code(m.status_code)) + rendered_headers(m.headers) + crlf()
        + m.body
}

impl ResponseSnapshot {
    /// Serializes this response exactly as `rendered` describes it.
    pub fn render(&self) -> (out: Vec<u8>)
        ensures
            out@ == rendered(self@),
    {
        let mut out: Vec<u8> = Vec::new();
        let code = match self.status_code {
            Some(c) => c,
            None => 200,
        };
        let status = HttpStatus::from_code(code);
        push_bytes(&mut out, ("HTTP/1.1 ").as_bytes());
        push_dec(&mut out, code);
        push_bytes(&mut out, (" ").as_bytes());
        push_bytes(&mut out, status.reason_phrase().as_bytes());
        out.push(13);
        out.push(10);
        assert(out@ =~= status_line_bytes(effective_code(self@.status_code)));
        let ghost sl = out@;
        let mut i: usize = 0;
        while i < self.headers.len()
            invariant
                i <= self.headers.len(),
                out@ =~= sl + rendered_up_to(self@.headers, i as int),
            decreases self.headers.len() - i,
        {
            let ghost h = self@.headers;
            let ghost before_entry = out@;
            let name = &self.headers[i].0;
            let vals = &self.headers[i].1;
            let mut j: usize = 0;
            while j < vals.len()
                invariant
                    i < self.headers.len(),
                    j <= vals.len(),
                    h == self@.headers,
                    name@ == h[i as int].0,
                    values_model(vals@) == h[i as int].1,
                    out@ =~= before_entry + rendered_first_values(h[i as int].0,
                        h[i as int].1, j as int),
                decreases vals.len() - j,
            {
                push_bytes(&mut out, name.as_slice());
                push_bytes(&mut out, (": ").as_bytes());
                push_bytes(&mut out, vals[j].as_slice());
                out.push(13);
                out.push(10);
                proof {
                    lemma_rendered_first_values_step(h[i as int].0, h[i as int].1, j as int);
                    assert(out@ =~= before_entry + rendered_first_values(h[i as int].0,
                        h[i as int].1, j + 1));
                }
                j = j + 1;
            }
            proof {
                lemma_rendered_first_values_all(h[i as int].0, h[i as int].1);
                lemma_rendered_up_to_step(h, i as int);
                assert(out@ =~= sl + rendered_up_to(h, i + 1));
            }
            i = i + 1;
        }
        proof {
            lemma_rendered_up_to_all(self@.headers);
        }
        out.push(13);
        out.push(10);
        push_bytes(&mut out, self.body.as_slice());
        assert(out@ =~= rendered(self@));
        out
    }
}

/// The lines of the first `j` values of one entry.
pub open spec fn rendered_first_values(name: Seq<u8>, vals: Seq<Seq<u8>>, j: int) -> Seq<u8>
    decreases j,
{
    if j <= 0 {
        Seq::empty()
    } else {
        rendered_first_values(name, vals, j - 1) + name + (": ").spec_bytes() + vals[j - 1]
            + crlf()
    }
}

proof fn lemma_rendered_first_values_step(name: Seq<u8>, vals: Seq<Seq<u8>>, j: int)
    requires
        0 <= j < vals.len(),
    ensures
        rendered_first_values(name, vals, j + 1) =~= rendered_first_values(name, vals, j) + name
            + (": ").spec_bytes() + vals[j] + crlf(),
{
}

/// Counting the lines from the front agrees with the recursive render.
proof fn lemma_rendered_first_values_all(name: Seq<u8>, vals: Seq<Seq<u8>>)
    ensures
        rendered_first_values(name, vals, vals.len() as int) =~= rendered_values(name, vals),
    decreases vals.len(),
{
    if vals.len() > 0 {
        lemma_rendered_first_values_all(name, vals.drop_first());
        lemma_rendered_first_values_shift(name, vals, vals.len() as int - 1);
    }
}

/// Rendering `j + 1` leading values of `vals` is one line plus rendering
/// `j` leading values of its tail.
proof fn lemma_rendered_first_values_shift(name: Seq<u8>, vals: Seq<Seq<u8>>, j: int)
    requires
        0 <= j < vals.len(),
    ensures
        rendered_first_values(name, vals, j + 1) =~= name + (": ").spec_bytes() + vals[0] + crlf()
            + rendered_first_values(name, vals.drop_first(), j),
    decreases j,
{
    if j == 0 {
        assert(rendered_first_values(name, vals, 0) == Seq::<u8>::empty());
        assert(rendered_first_values(name, vals.drop_first(), 0) == Seq::<u8>::empty());
    } else {
        lemma_rendered_first_values_shift(name, vals, j - 1);
        assert(vals.drop_first()[j - 1] == vals[j]);
    }
}

/// The serialized form of the first `i` entries of the map.
pub open spec fn rendered_up_to(h: HeadersModel, i: int) -> Seq<u8>
    decreases i,
{
    if i <= 0 {
        Seq::empty()
    } else {
        rendered_up_to(h, i - 1) + rendered_values(h[i - 1].0, h[i - 1].1)
    }
}

proof fn lemma_rendered_up_to_step(h: HeadersModel, i: int)
    requires
        0 <= i < h.len(),
    ensures
        rendered_up_to(h, i + 1) =~= rendered_up_to(h, i) + rendered_values(h[i].0, h[i].1),
{
}

/// Counting the entries from the front agrees with the recursive render.
proof fn lemma_rendered_up_to_all(h: HeadersModel)
    ensures
        rendered_up_to(h, h.len() as int) =~= rendered_headers(h),
    decreases h.len(),
{
    if h.len() > 0 {
        lemma_rendered_up_to_all(h.drop_first());
        lemma_rendered_up_to_shift(h, h.len() as int - 1);
    }
}

proof fn lemma_rendered_up_to_shift(h: HeadersModel, i: int)
    requires
        0 <= i < h.len(),
    ensures
        rendered_up_to(h, i + 1) =~= rendered_values(h[0].0, h[0].1) + rendered_up_to(
            h.drop_first(), i),
    decreases i,
{
    if i == 0 {
        assert(rendered_up_to(h, 0) == Seq::<u8>::empty());
        assert(rendered_up_to(h.drop_first(), 0) == Seq::<u8>::empty());
    } else {
        lemma_rendered_up_to_shift(h, i - 1);
        assert(h.drop_first()[i - 1] == h[i]);
    }
}

} // verus!

// The JSON value type of the `json` crate, declared so that handler-facing
// methods can carry it through; the library reads it only through the two
// trusted calls below.
verus! {

#[verifier::external_type_specification]
#[verifier::external_body]
pub struct ExJsonValue(json::JsonValue);

/// The serialized text of a JSON value, as `json::JsonValue::dump`
/// produces it; a function of the value alone.
pub uninterp spec fn json_text_of(v: json::JsonValue) -> Seq<u8>;

/// The key/value entries of a JSON object (empty for any other JSON
/// value), each value in its display form; a function of the value alone.
pub uninterp spec fn json_entries_of(v: json::JsonValue) -> Seq<(Seq<u8>, Seq<u8>)>;

/// Relies on json::JsonValue::dump: serializes the value to its JSON
/// text, which depends on the value alone.
#[verifier::external_body]
fn json_dump_bytes(v: &json::JsonValue) -> (r: Vec<u8>)
    ensures
        r@ == json_text_of(*v),
{
    v.dump().into_bytes()
}

/// Relies on json::JsonValue::entries (and the display form of each
/// entry's value): an object's entries in order, empty for non-objects;
/// both depend on the value alone.
#[verifier::external_body]
fn json_entry_pairs(v: &json::JsonValue) -> (r: Vec<(Vec<u8>, Vec<u8>)>)
    ensures
        r@.len() == json_entries_of(*v).len(),
        forall|i: int|
            0 <= i < r@.len() ==> (#[trigger] r@[i]).0@ == json_entries_of(*v)[i].0
                && r@[i].1@ == json_entries_of(*v)[i].1,
{
    v.entries().map(|(k, val)| (k.as_bytes().to_vec(), val.to_string().into_bytes())).collect()
}

/// The header map after inserting the first `i` of the given single-valued
/// entries, one after the other.
pub open spec fn inserted_entries(h: HeadersModel, es: Seq<(Seq<u8>, Seq<u8>)>, i: int) -> HeadersModel
    decreases i,
{
    if i <= 0 {
        h
    } else {
        insert_single(inserted_entries(h, es, i - 1), es[i - 1].0, es[i - 1].1)
    }
}

/// One cookie attribute as it is appended to a `Set-Cookie` value:
/// `; Name` or `; Name=Value`.
pub open spec fn attr_bytes(a: (&str, Option<&str>)) -> Seq<u8> {
    ("; ").spec_bytes() + a.0.spec_bytes() + (match a.1 {
        Some(v) => ("=").spec_bytes() + v.spec_bytes(),
        None => Seq::<u8>::empty(),
    })
}

/// The first `i` attributes of a cookie, serialized in order.
pub open spec fn attrs_bytes(attrs: Seq<(&str, Option<&str>)>, i: int) -> Seq<u8>
    decreases i,
{
    if i <= 0 {
        Seq::empty()
    } else {
        attrs_bytes(attrs, i - 1) + attr_bytes(attrs[i - 1])
    }
}

/// The response writer handed to a handler: it accumulates headers, a
/// status and a body, and on any terminal call stores a finalized
/// snapshot for the reactor to flush later.
pub struct ResponseWriter {
    pub event_id: usize,
    pub body: Vec<u8>,
    pub headers: Vec<(Vec<u8>, Vec<Vec<u8>>)>,
    pub status_code: Option<u16>,
    pub pending: Option<ResponseSnapshot>,
}

impl ResponseWriter {
    /// The event identifier of the connection this writer serves.
    pub open spec fn spec_event_id(&self) -> usize {
        self.event_id
    }

    /// The finalized snapshot awaiting flush, if a terminal call was made.
    pub open spec fn spec_pending(&self) -> Option<ResponseModel> {
        match self.pending {
            Some(s) => Some(s@),
            None => None,
        }
    }

    /// The header map of this writer, as a model.
    pub open spec fn headers_view(&self) -> HeadersModel {
        headers_model(self.headers@)
    }

    /// The response this writer would produce if finalized right now.
    pub open spec fn current_model(&self) -> ResponseModel {
        ResponseModel {
            status_code: self.status_code,
            headers: self.headers_view(),
            body: self.body@,
        }
    }

    /// A fresh writer for the connection with the given event identifier:
    /// no headers, no body, no status, nothing finalized.
    pub fn new(event_fd_id: usize) -> (w: ResponseWriter)
        ensures
            w.spec_event_id() == event_fd_id,
            w.body@ == Seq::<u8>::empty(),
            w.headers_view() == Seq::<(Seq<u8>, Seq<Seq<u8>>)>::empty(),
            w.status_code is None,
            w.spec_pending() is None,
    {
        let w = ResponseWriter {
            event_id: event_fd_id,
            body: Vec::new(),
            headers: Vec::new(),
            status_code: None,
            pending: None,
        };
        assert(w.headers_view() =~= Seq::<(Seq<u8>, Seq<Seq<u8>>)>::empty());
        w
    }

    /// Sets the status code the response will be sent with.
    pub fn set_status(&mut self, status_code: u16)
        ensures
            final(self).status_code == Some(status_code),
            final(self).body@ == old(self).body@,
            final(self).headers_view() == old(self).headers_view(),
            final(self).spec_event_id() == old(self).spec_event_id(),
            final(self).spec_pending() == old(self).spec_pending(),
    {
        self.status_code = Some(status_code);
    }

    /// Finalizes the writer: stores a snapshot of the buffers as they
    /// stand, replacing any earlier snapshot — the last finalize wins.
    fn write(&mut self)
        ensures
            final(self).spec_pending() == Some(old(self).current_model()),
            final(self).body@ == old(self).body@,
            final(self).headers_view() == old(self).headers_view(),
            final(self).status_code == old(self).status_code,
            final(self).spec_event_id() == old(self).spec_event_id(),
    {
        let snap = ResponseSnapshot {
            status_code: self.status_code,
            headers: clone_headers(&self.headers),
            body: bytes_of(self.body.as_slice()),
        };
        self.pending = Some(snap);
    }

    /// Appends `str` to the body and finalizes the response.
    pub fn write_string(&mut self, str: &str)
        ensures
            final(self).body@ == old(self).body@ + str.spec_bytes(),
            final(self).headers_view() == old(self).headers_view(),
            final(self).status_code == old(self).status_code,
            final(self).spec_event_id() == old(self).spec_event_id(),
            final(self).spec_pending() == Some(final(self).current_model()),
    {
        push_bytes(&mut self.body, str.as_bytes());
        self.write();
    }

    /// Replaces the body with the given page, marks it `text/html`, and
    /// finalizes the response.  The caller reads the file; this method
    /// takes its contents.
    pub fn write_html(&mut self, contents: &str)
        ensures
            final(self).body@ == contents.spec_bytes(),
            final(self).headers_view() == insert_single(old(self).headers_view(),
                ("Content-Type").spec_bytes(), ("text/html").spec_bytes()),
            final(self).status_code == old(self).status_code,
            final(self).spec_event_id() == old(self).spec_event_id(),
            final(self).spec_pending() == Some(final(self).current_model()),
    {
        exec_insert_single(&mut self.headers, bytes_of(("Content-Type").as_bytes()), bytes_of(
            ("text/html").as_bytes(),
        ));
        self.body = bytes_of(contents.as_bytes());
        self.write();
    }

    /// Replaces the body with the JSON text of `body`, marks it
    /// `application/json`, and finalizes the response.
    pub fn write_json(&mut self, body: json::JsonValue)
        ensures
            final(self).body@ == json_text_of(body),
            final(self).headers_view() == insert_single(old(self).headers_view(),
                ("Content-Type").spec_bytes(), ("application/json").spec_bytes()),
            final(self).status_code == old(self).status_code,
            final(self).spec_event_id() == old(self).spec_event_id(),
            final(self).spec_pending() == Some(final(self).current_model()),
    {
        exec_insert_single(&mut self.headers, bytes_of(("Content-Type").as_bytes()), bytes_of(
            ("application/json").as_bytes(),
        ));
        self.body = json_dump_bytes(&body);
        self.write();
    }

    /// Inserts one single-valued header per entry of the given JSON
    /// object, in entry order; the last value wins on a repeated name.
    pub fn set_headers(&mut self, object: json::JsonValue)
        ensures
            final(self).headers_view() == inserted_entries(old(self).headers_view(),
                json_entries_of(object), json_entries_of(object).len() as int),
            final(self).body@ == old(self).body@,
            final(self).status_code == old(self).status_code,
            final(self).spec_event_id() == old(self).spec_event_id(),
            final(self).spec_pending() == old(self).spec_pending(),
    {
        let ghost es = json_entries_of(object);
        let pairs = json_entry_pairs(&object);
        let mut i: usize = 0;
        while i < pairs.len()
            invariant
                i <= pairs.len(),
                pairs@.len() == es.len(),
                forall|k: int|
                    0 <= k < es.len() ==> (#[trigger] pairs@[k]).0@ == es[k].0 && pairs@[k].1@
                        == es[k].1,
                self.headers_view() == inserted_entries(old(self).headers_view(), es, i as int),
                self.body@ == old(self).body@,
                self.status_code == old(self).status_code,
                self.spec_event_id() == old(self).spec_event_id(),
                self.spec_pending() == old(self).spec_pending(),
            decreases pairs.len() - i,
        {
            let name = bytes_of(pairs[i].0.as_slice());
            let value = bytes_of(pairs[i].1.as_slice());
            exec_insert_single(&mut self.headers, name, value);
            i = i + 1;
        }
    }

    /// Appends one `name=value` cookie to the multi-valued `Set-Cookie`
    /// header; earlier cookies keep their own lines.
    pub fn set_cookie(&mut self, name: &str, value: &str)
        ensures
            final(self).headers_view() == append_value(old(self).headers_view(),
                ("Set-Cookie").spec_bytes(), name.spec_bytes() + ("=").spec_bytes()
                + value.spec_bytes()),
            final(self).body@ == old(self).body@,
            final(self).status_code == old(self).status_code,
            final(self).spec_event_id() == old(self).spec_event_id(),
            final(self).spec_pending() == old(self).spec_pending(),
    {
        let mut cookie: Vec<u8> = Vec::new();
        push_bytes(&mut cookie, name.as_bytes());
        push_bytes(&mut cookie, ("=").as_bytes());
        push_bytes(&mut cookie, value.as_bytes());
        exec_append_value(&mut self.headers, bytes_of(("Set-Cookie").as_bytes()), cookie);
    }

    /// Appends one `name=value; Attr[=Val]...` cookie to the multi-valued
    /// `Set-Cookie` header.
    pub fn set_cookie_with_attributes(
        &mut self,
        name: &str,
        value: &str,
        attributes: &[(&str, Option<&str>)],
    )
        ensures
            final(self).headers_view() == append_value(old(self).headers_view(),
                ("Set-Cookie").spec_bytes(), name.spec_bytes() + ("=").spec_bytes()
                + value.spec_bytes() + attrs_bytes(attributes@, attributes@.len() as int)),
            final(self).body@ == old(self).body@,
            final(self).status_code == old(self).status_code,
            final(self).spec_event_id() == old(self).spec_event_id(),
            final(self).spec_pending() == old(self).spec_pending(),
    {
        let mut cookie: Vec<u8> = Vec::new();
        push_bytes(&mut cookie, name.as_bytes());
        push_bytes(&mut cookie, ("=").as_bytes());
        push_bytes(&mut cookie, value.as_bytes());
        let ghost base = cookie@;
        let mut i: usize = 0;
        while i < attributes.len()
            invariant
                i <= attributes.len(),
                cookie@ == base + attrs_bytes(attributes@, i as int),
            decreases attributes.len() - i,
        {
            let (attr, attr_value) = attributes[i];
            push_bytes(&mut cookie, ("; ").as_bytes());
            push_bytes(&mut cookie, attr.as_bytes());
            match attr_value {
                Some(val) => {
                    push_bytes(&mut cookie, ("=").as_bytes());
                    push_bytes(&mut cookie, val.as_bytes());
                },
                None => {},
            }
            assert(cookie@ =~= base + attrs_bytes(attributes@, i + 1));
            i = i + 1;
        }
        exec_append_value(&mut self.headers, bytes_of(("Set-Cookie").as_bytes()), cookie);
    }

    /// Replaces the body with the status's reason phrase, sets that
    /// status, and finalizes the response.
    pub fn write_status(&mut self, status: HttpStatus)
        ensures
            final(self).body@ == encode_utf8(spec_reason(spec_code(status))),
            final(self).status_code == Some(spec_code(status)),
            final(self).headers_view() == old(self).headers_view(),
            final(self).spec_event_id() == old(self).spec_event_id(),
            final(self).spec_pending() == Some(final(self).current_model()),
    {
        self.body = bytes_of(status.reason_phrase().as_bytes());
        self.set_status(status.code());
        self.write();
    }

    /// Moves the finalized snapshot out, leaving the writer unfinalized;
    /// the reactor stores it in the write-back table.
    pub fn take_pending(&mut self) -> (r: Option<ResponseSnapshot>)
        ensures
            final(self).spec_pending() is None,
            match r {
                Some(s) => old(self).spec_pending() == Some(s@),
                None => old(self).spec_pending() is None,
            },
            final(self).body@ == old(self).body@,
            final(self).headers_view() == old(self).headers_view(),
            final(self).status_code == old(self).status_code,
            final(self).spec_event_id() == old(self).spec_event_id(),
    {
        let r = self.pending.take();
        r
    }
}

/// Two cookies set one after the other stand as two separate values of
/// one `Set-Cookie` entry, and serialize as two separate lines — they
/// never collapse into one.
pub proof fn lemma_cookies_never_collapse(h: HeadersModel, c1: Seq<u8>, c2: Seq<u8>)
    requires
        find_key(h, ("Set-Cookie").spec_bytes()) is None,
    ensures
        ({
            let sck = ("Set-Cookie").spec_bytes();
            let h2 = append_value(append_value(h, sck, c1), sck, c2);
            &&& h2.len() == h.len() + 1
            &&& h2[h.len() as int].0 == sck
            &&& h2[h.len() as int].1 =~= seq![c1, c2]
            &&& rendered_values(sck, h2[h.len() as int].1) =~= sck + (": ").spec_bytes() + c1
                + crlf() + sck + (": ").spec_bytes() + c2 + crlf()
        }),
{
    let sck = ("Set-Cookie").spec_bytes();
    let h1 = append_value(h, sck, c1);
    assert(h1 == h.push((sck, seq![c1])));
    lemma_find_key(h1, sck);
    match find_key(h1, sck) {
        Some(k) => {
            lemma_find_key(h, sck);
            assert(forall|j: int| 0 <= j < h.len() ==> h1[j] == h[j]);
            assert(k == h.len() as int);
        },
        None => {
            assert(h1[h.len() as int].0 == sck);
        },
    }
    let h2 = append_value(h1, sck, c2);
    assert(h2 == h1.update(h.len() as int, (sck, seq![c1].push(c2))));
    assert(h2[h.len() as int].1 =~= seq![c1, c2]);
    let vals = seq![c1, c2];
    assert(vals.drop_first() =~= seq![c2]);
    assert(seq![c2].drop_first() =~= Seq::<Seq<u8>>::empty());
    assert(rendered_values(sck, Seq::<Seq<u8>>::empty()) == Seq::<u8>::empty());
    assert(rendered_values(sck, seq![c2]) =~= sck + (": ").spec_bytes() + c2 + crlf());
    assert(rendered_values(sck, vals) =~= sck + (": ").spec_bytes() + c1 + crlf() + sck + (
    ": ").spec_bytes() + c2 + crlf());
}

} // verus!

verus! {

impl ResponseWriter {
    /// Appends one more value under `name`, keeping the values already
    /// there — the multi-valued insert the header map is built from.
    pub fn append_header(&mut self, name: Vec<u8>, value: Vec<u8>)
        ensures
            final(self).headers_view() == append_value(old(self).headers_view(), name@, value@),
            final(self).body@ == old(self).body@,
            final(self).status_code == old(self).status_code,
            final(self).spec_event_id() == old(self).spec_event_id(),
            final(self).spec_pending() == old(self).spec_pending(),
    {
        exec_append_value(&mut self.headers, name, value);
    }

    /// Appends raw bytes to the body and finalizes the response.
    pub fn append_body_and_finalize(&mut self, bytes: &[u8])
        ensures
            final(self).body@ == old(self).body@ + bytes@,
            final(self).headers_view() == old(self).headers_view(),
            final(self).status_code == old(self).status_code,
            final(self).spec_event_id() == old(self).spec_event_id(),
            final(self).spec_pending() == Some(final(self).current_model()),
    {
        push_bytes(&mut self.body, bytes);
        self.write();
    }
}

} // verus!
