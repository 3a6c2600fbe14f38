//! The reactor core: the registries that tie event identifiers to
//! listeners, in-flight requests and pending writes, the route table,
//! and the two event steps — readable and writable — that drive every
//! connection from accept to teardown.  The caller owns the readiness
//! queue and the sockets; it hands each event's identifier and bytes in
//! and performs the returned actions.

use vstd::prelude::*;

use crate::request::{model_ready, read_step, Request, RequestModel};
use crate::response_writer::{rendered, ResponseModel, ResponseSnapshot, ResponseWriter};
use crate::status::HttpStatus;
use vstd::pervasive::VecAdditionalExecFns;
use vstd::string::StringSliceAdditionalSpecFns;

verus! {

/// A route's handler: one method, invoked with the completed request
/// and a fresh response writer.  Implementations are the application's;
/// the reactor promises nothing about what they do to the writer.
pub trait Handler: Sized {
    fn handle(&self, req: &mut Request, resp: &mut ResponseWriter);
}

/// One registered route: exact path and owning server.
pub struct RouteEntry<H> {
    pub server_id: usize,
    pub path: Vec<u8>,
    pub handler: H,
}

/// The view of the route table: key pair and handler, in table order.
pub open spec fn routes_model<H>(rs: Seq<RouteEntry<H>>) -> Seq<(usize, Seq<u8>, H)> {
    Seq::new(rs.len(), |i: int| (rs[i].server_id, rs[i].path@, rs[i].handler))
}

/// The position of the route for `(sid, path)`, if one exists; routes
/// are registered through `route_put`, so at most one entry matches.
pub open spec fn route_find<H>(rs: Seq<(usize, Seq<u8>, H)>, sid: usize, path: Seq<u8>) -> Option<
    int,
>
    decreases rs.len(),
{
    if rs.len() == 0 {
        None
    } else if rs[0].0 == sid && rs[0].1 == path {
        Some(0)
    } else {
        match route_find(rs.drop_first(), sid, path) {
            Some(i) => Some(i + 1),
            None => None,
        }
    }
}

/// What `route_find` returns: the first matching position, or a proof
/// that no entry matches.
pub proof fn lemma_route_find<H>(rs: Seq<(usize, Seq<u8>, H)>, sid: usize, path: Seq<u8>)
    ensures
        match route_find(rs, sid, path) {
            Some(i) => 0 <= i < rs.len() && rs[i].0 == sid && rs[i].1 == path && (forall|j: int|
                0 <= j < i ==> !(rs[j].0 == sid && rs[j].1 == path)),
            None => forall|j: int| 0 <= j < rs.len() ==> !(rs[j].0 == sid && rs[j].1 == path),
        },
    decreases rs.len(),
{
    if rs.len() > 0 && !(rs[0].0 == sid && rs[0].1 == path) {
        let tail = rs.drop_first();
        lemma_route_find(tail, sid, path);
        assert(forall|j: int| 0 <= j < tail.len() ==> tail[j] == rs[j + 1]);
        match route_find(tail, sid, path) {
            Some(i) => {
                assert(forall|j: int| 0 < j < i + 1 ==> rs[j] == tail[j - 1]);
                assert(forall|j: int| 0 <= j < i + 1 ==> !(rs[j].0 == sid && rs[j].1 == path));
            },
            None => {
                assert(forall|j: int| 0 < j < rs.len() ==> rs[j] == tail[j - 1]);
                assert(forall|j: int|
                    0 <= j < rs.len() ==> !(rs[j].0 == sid && rs[j].1 == path));
            },
        }
    }
}

/// The route table after registering `(sid, path) -> h`: the existing
/// entry for that key is replaced — the last registration wins — or a
/// fresh entry is appended.
pub open spec fn route_put<H>(rs: Seq<(usize, Seq<u8>, H)>, sid: usize, path: Seq<u8>, h: H) -> Seq<
    (usize, Seq<u8>, H),
> {
    match route_find(rs, sid, path) {
        Some(i) => rs.update(i, (sid, path, h)),
        None => rs.push((sid, path, h)),
    }
}

/// The position of the entry keyed `id` in an identifier-keyed table.
pub open spec fn key_find<X>(s: Seq<(usize, X)>, id: usize) -> Option<int>
    decreases s.len(),
{
    if s.len() == 0 {
        None
    } else if s[0].0 == id {
        Some(0)
    } else {
        match key_find(s.drop_first(), id) {
            Some(i) => Some(i + 1),
            None => None,
        }
    }
}

/// What `key_find` returns: the first matching position, or a proof
/// that the identifier keys no entry.
pub proof fn lemma_key_find<X>(s: Seq<(usize, X)>, id: usize)
    ensures
        match key_find(s, id) {
            Some(i) => 0 <= i < s.len() && s[i].0 == id && (forall|j: int|
                0 <= j < i ==> s[j].0 != id),
            None => forall|j: int| 0 <= j < s.len() ==> s[j].0 != id,
        },
    decreases s.len(),
{
    if s.len() > 0 && s[0].0 != id {
        let tail = s.drop_first();
        lemma_key_find(tail, id);
        assert(forall|j: int| 0 <= j < tail.len() ==> tail[j] == s[j + 1]);
        match key_find(tail, id) {
            Some(i) => {
                assert(forall|j: int| 0 < j < i + 1 ==> s[j] == tail[j - 1]);
                assert(forall|j: int| 0 <= j < i + 1 ==> s[j].0 != id);
            },
            None => {
                assert(forall|j: int| 0 < j < s.len() ==> s[j] == tail[j - 1]);
                assert(forall|j: int| 0 <= j < s.len() ==> s[j].0 != id);
            },
        }
    }
}

/// The table after storing `x` under `id`: the entry is replaced, or a
/// fresh one appended.
pub open spec fn key_put<X>(s: Seq<(usize, X)>, id: usize, x: X) -> Seq<(usize, X)> {
    match key_find(s, id) {
        Some(i) => s.update(i, (id, x)),
        None => s.push((id, x)),
    }
}

/// No two entries share an identifier.
pub open spec fn distinct_keys<X>(s: Seq<(usize, X)>) -> bool {
    forall|i: int, j: int| 0 <= i < j < s.len() ==> (#[trigger] s[i]).0 != (#[trigger] s[j]).0
}

/// Every identifier in the table was minted below `n`.
pub open spec fn keys_below<X>(s: Seq<(usize, X)>, n: usize) -> bool {
    forall|i: int| 0 <= i < s.len() ==> (#[trigger] s[i]).0 < n
}

/// No identifier keys both tables.
pub open spec fn keys_disjoint<X, Y>(a: Seq<(usize, X)>, b: Seq<(usize, Y)>) -> bool {
    forall|i: int, j: int|
        0 <= i < a.len() && 0 <= j < b.len() ==> (#[trigger] a[i]).0 != (#[trigger] b[j]).0
}

/// What a readable event asks the caller to do next for a connection.
#[derive(Debug, PartialEq, Eq, Structural)]
pub enum ReadAction {
    /// The identifier names no live, undispatched connection: drop the
    /// event.
    Ignored,
    /// More bytes are needed: re-arm the descriptor for read-readiness.
    KeepReading(i32),
    /// The request completed and was dispatched: re-arm the descriptor
    /// for write-readiness.
    Dispatched(i32),
}

/// What a writable event asks the caller to do: flush the serialized
/// bytes if a response was finalized, then shut the socket down and
/// drop its readiness interest.
#[derive(Debug)]
pub enum WriteAction {
    /// The identifier names no live connection: drop the event.
    Ignored,
    /// The connection's lifecycle ends here.
    Close { fd: i32, bytes: Option<Vec<u8>> },
}

/// The view of the in-flight table.
pub open spec fn req_table_model(v: Seq<(usize, Request)>) -> Seq<(usize, RequestModel)> {
    Seq::new(v.len(), |i: int| (v[i].0, v[i].1@))
}

/// The view of the write-back table.
pub open spec fn write_table_model(v: Seq<(usize, ResponseSnapshot)>) -> Seq<(usize, ResponseModel)> {
    Seq::new(v.len(), |i: int| (v[i].0, v[i].1@))
}

/// The reactor's whole state: bound listeners, the route table, the
/// in-flight requests, the finalized responses awaiting flush, and the
/// one counter every identifier is minted from.
pub struct ServerCore<H> {
    pub routes: Vec<RouteEntry<H>>,
    pub listeners: Vec<(usize, i32)>,
    pub requests: Vec<(usize, Request)>,
    pub writes: Vec<(usize, ResponseSnapshot)>,
    pub next_id: usize,
}

impl<H> ServerCore<H> {
    /// The route table, as a model.
    pub open spec fn routes_view(&self) -> Seq<(usize, Seq<u8>, H)> {
        routes_model(self.routes@)
    }

    /// The in-flight table, as a model.
    pub open spec fn requests_view(&self) -> Seq<(usize, RequestModel)> {
        req_table_model(self.requests@)
    }

    /// The write-back table, as a model.
    pub open spec fn writes_view(&self) -> Seq<(usize, ResponseModel)> {
        write_table_model(self.writes@)
    }

    /// The identifier bookkeeping the reactor maintains: identifiers are
    /// unique within each table, all minted below the counter, and no
    /// listener shares one with a connection — so an event can never
    /// resolve ambiguously.
    pub open spec fn wf(&self) -> bool {
        &&& distinct_keys(self.listeners@)
        &&& distinct_keys(self.requests_view())
        &&& distinct_keys(self.writes_view())
        &&& keys_below(self.listeners@, self.next_id)
        &&& keys_below(self.requests_view(), self.next_id)
        &&& keys_below(self.writes_view(), self.next_id)
        &&& keys_disjoint(self.listeners@, self.requests_view())
        &&& keys_disjoint(self.listeners@, self.writes_view())
    }

    /// A fresh reactor: no listeners, no routes, nothing in flight.
    pub fn new() -> (c: ServerCore<H>)
        ensures
            c.wf(),
            c.routes_view() == Seq::<(usize, Seq<u8>, H)>::empty(),
            c.listeners@ == Seq::<(usize, i32)>::empty(),
            c.requests_view() == Seq::<(usize, RequestModel)>::empty(),
            c.writes_view() == Seq::<(usize, ResponseModel)>::empty(),
            c.next_id == 100,
    {
        let c = ServerCore {
            routes: Vec::new(),
            listeners: Vec::new(),
            requests: Vec::new(),
            writes: Vec::new(),
            next_id: 100,
        };
        proof {
            assert(c.routes_view() =~= Seq::<(usize, Seq<u8>, H)>::empty());
            assert(c.requests_view() =~= Seq::<(usize, RequestModel)>::empty());
            assert(c.writes_view() =~= Seq::<(usize, ResponseModel)>::empty());
        }
        c
    }

    /// Mints one identifier from the shared counter.
    pub fn fresh_id(&mut self) -> (id: usize)
        requires
            old(self).wf(),
            old(self).next_id < usize::MAX,
        ensures
            final(self).wf(),
            id == old(self).next_id,
            final(self).next_id == old(self).next_id + 1,
            final(self).routes_view() == old(self).routes_view(),
            final(self).listeners@ == old(self).listeners@,
            final(self).requests_view() == old(self).requests_view(),
            final(self).writes_view() == old(self).writes_view(),
    {
        let id = self.next_id;
        self.next_id = self.next_id + 1;
        id
    }

    /// The listener's descriptor, when the identifier names a listener.
    pub fn listener_fd(&self, id: usize) -> (r: Option<i32>)
        ensures
            match key_find(self.listeners@, id) {
                Some(i) => r == Some(self.listeners@[i].1),
                None => r is None,
            },
    {
        proof {
            lemma_key_find(self.listeners@, id);
        }
        let mut i: usize = 0;
        while i < self.listeners.len()
            invariant
                i <= self.listeners@.len(),
                forall|j: int| 0 <= j < i ==> (#[trigger] self.listeners@[j]).0 != id,
            decreases self.listeners@.len() - i,
        {
            if self.listeners[i].0 == id {
                proof {
                    lemma_key_find(self.listeners@, id);
                    match key_find(self.listeners@, id) {
                        Some(k) => {
                            assert(!(k < i)) by {
                                if k < i {
                                    assert(self.listeners@[k].0 != id);
                                }
                            }
                            assert(!(k > i)) by {
                                if k > i {
                                    assert(self.listeners@[i as int].0 != id);
                                }
                            }
                        },
                        None => {
                            assert(self.listeners@[i as int].0 != id);
                        },
                    }
                }
                return Some(self.listeners[i].1);
            }
            i = i + 1;
        }
        None
    }

    /// Records a bound listening socket under its server identifier.
    /// The caller has already bound the socket (that is its concern);
    /// this accepts only an identifier minted from the shared counter
    /// and not yet in use, so listeners and connections never collide.
    pub fn register_listener(&mut self, server_id: usize, listener_fd: i32) -> (ok: bool)
        requires
            old(self).wf(),
        ensures
            final(self).wf(),
            ok == (server_id < old(self).next_id && key_find(old(self).listeners@, server_id)
                is None && key_find(old(self).requests_view(), server_id) is None && key_find(
                old(self).writes_view(),
                server_id,
            ) is None),
            ok ==> final(self).listeners@ == old(self).listeners@.push((server_id, listener_fd)),
            !ok ==> final(self).listeners@ == old(self).listeners@,
            final(self).routes_view() == old(self).routes_view(),
            final(self).requests_view() == old(self).requests_view(),
            final(self).writes_view() == old(self).writes_view(),
            final(self).next_id == old(self).next_id,
    {
        if server_id >= self.next_id {
            proof {
                lemma_key_find(self.listeners@, server_id);
                assert(key_find(self.listeners@, server_id) is None);
            }
            return false;
        }
        let in_listeners = self.find_listener_index(server_id).is_some();
        let in_requests = self.find_request_index(server_id).is_some();
        let in_writes = self.find_write_index(server_id).is_some();
        if in_listeners || in_requests || in_writes {
            return false;
        }
        proof {
            lemma_key_find(self.listeners@, server_id);
            lemma_key_find(self.requests_view(), server_id);
            lemma_key_find(self.writes_view(), server_id);
        }
        self.listeners.push((server_id, listener_fd));
        proof {
            assert(self.requests_view() =~= old(self).requests_view());
            assert(self.writes_view() =~= old(self).writes_view());
            assert forall|i: int, j: int|
                0 <= i < self.listeners@.len() && 0 <= j < self.requests_view().len() implies (
            #[trigger] self.listeners@[i]).0 != (#[trigger] self.requests_view()[j]).0 by {
                if i < old(self).listeners@.len() {
                } else {
                    assert(self.listeners@[i].0 == server_id);
                }
            }
            assert forall|i: int, j: int|
                0 <= i < self.listeners@.len() && 0 <= j < self.writes_view().len() implies (
            #[trigger] self.listeners@[i]).0 != (#[trigger] self.writes_view()[j]).0 by {
                if i < old(self).listeners@.len() {
                } else {
                    assert(self.listeners@[i].0 == server_id);
                }
            }
        }
        true
    }

    /// Finds a listener's position by identifier.
    fn find_listener_index(&self, id: usize) -> (r: Option<usize>)
        ensures
            match r {
                Some(i) => key_find(self.listeners@, id) == Some(i as int),
                None => key_find(self.listeners@, id) is None,
            },
    {
        proof {
            lemma_key_find(self.listeners@, id);
        }
        let mut i: usize = 0;
        while i < self.listeners.len()
            invariant
                i <= self.listeners@.len(),
                forall|j: int| 0 <= j < i ==> (#[trigger] self.listeners@[j]).0 != id,
            decreases self.listeners@.len() - i,
        {
            if self.listeners[i].0 == id {
                proof {
                    key_find_pin(self.listeners@, id, i as int);
                }
                return Some(i);
            }
            i = i + 1;
        }
        None
    }

    /// Finds an in-flight request's position by event identifier.
    fn find_request_index(&self, id: usize) -> (r: Option<usize>)
        ensures
            match r {
                Some(i) => key_find(self.requests_view(), id) == Some(i as int),
                None => key_find(self.requests_view(), id) is None,
            },
    {
        proof {
            lemma_key_find(self.requests_view(), id);
        }
        let mut i: usize = 0;
        while i < self.requests.len()
            invariant
                i <= self.requests@.len(),
                forall|j: int| 0 <= j < i ==> (#[trigger] self.requests_view()[j]).0 != id,
            decreases self.requests@.len() - i,
        {
            if self.requests[i].0 == id {
                proof {
                    assert(self.requests_view()[i as int].0 == id);
                    key_find_pin(self.requests_view(), id, i as int);
                }
                return Some(i);
            }
            assert(self.requests_view()[i as int].0 != id);
            i = i + 1;
        }
        None
    }

    /// Finds a pending write's position by event identifier.
    fn find_write_index(&self, id: usize) -> (r: Option<usize>)
        ensures
            match r {
                Some(i) => key_find(self.writes_view(), id) == Some(i as int),
                None => key_find(self.writes_view(), id) is None,
            },
    {
        proof {
            lemma_key_find(self.writes_view(), id);
        }
        let mut i: usize = 0;
        while i < self.writes.len()
            invariant
                i <= self.writes@.len(),
                forall|j: int| 0 <= j < i ==> (#[trigger] self.writes_view()[j]).0 != id,
            decreases self.writes@.len() - i,
        {
            if self.writes[i].0 == id {
                proof {
                    assert(self.writes_view()[i as int].0 == id);
                    key_find_pin(self.writes_view(), id, i as int);
                }
                return Some(i);
            }
            assert(self.writes_view()[i as int].0 != id);
            i = i + 1;
        }
        None
    }
}

/// When position `i` matches and none before it does, `key_find` finds
/// exactly `i`.
proof fn key_find_pin<X>(s: Seq<(usize, X)>, id: usize, i: int)
    requires
        0 <= i < s.len(),
        s[i].0 == id,
        forall|j: int| 0 <= j < i ==> (#[trigger] s[j]).0 != id,
    ensures
        key_find(s, id) == Some(i),
{
    lemma_key_find(s, id);
    match key_find(s, id) {
        Some(k) => {
            assert(!(k < i)) by {
                if k < i {
                    assert(s[k].0 != id);
                }
            }
            assert(!(k > i)) by {
                if k > i {
                    assert(s[i].0 != id);
                }
            }
        },
        None => {
            assert(s[i].0 != id);
        },
    }
}

} // verus!

verus! {

/// Removing a table entry removes its view from the model.
proof fn lemma_req_model_remove(v: Seq<(usize, Request)>, i: int)
    requires
        0 <= i < v.len(),
    ensures
        req_table_model(v.remove(i)) =~= req_table_model(v).remove(i),
{
    assert(forall|k: int| 0 <= k < i ==> v.remove(i)[k] == v[k]);
    assert(forall|k: int| i <= k < v.len() - 1 ==> v.remove(i)[k] == v[k + 1]);
}

/// Inserting a table entry inserts its view into the model.
proof fn lemma_req_model_insert(v: Seq<(usize, Request)>, i: int, e: (usize, Request))
    requires
        0 <= i <= v.len(),
    ensures
        req_table_model(v.insert(i, e)) =~= req_table_model(v).insert(i, (e.0, e.1@)),
{
    assert(forall|k: int| 0 <= k < i ==> v.insert(i, e)[k] == v[k]);
    assert(v.insert(i, e)[i] == e);
    assert(forall|k: int| i < k < v.len() + 1 ==> v.insert(i, e)[k] == v[k - 1]);
}

/// Appending a table entry appends its view to the model.
proof fn lemma_req_model_push(v: Seq<(usize, Request)>, e: (usize, Request))
    ensures
        req_table_model(v.push(e)) =~= req_table_model(v).push((e.0, e.1@)),
{
}

/// Removing a table entry removes its view from the model.
proof fn lemma_write_model_remove(v: Seq<(usize, ResponseSnapshot)>, i: int)
    requires
        0 <= i < v.len(),
    ensures
        write_table_model(v.remove(i)) =~= write_table_model(v).remove(i),
{
    assert(forall|k: int| 0 <= k < i ==> v.remove(i)[k] == v[k]);
    assert(forall|k: int| i <= k < v.len() - 1 ==> v.remove(i)[k] == v[k + 1]);
}

/// Updating a table entry updates its view in the model.
proof fn lemma_write_model_update(
    v: Seq<(usize, ResponseSnapshot)>,
    i: int,
    e: (usize, ResponseSnapshot),
)
    requires
        0 <= i < v.len(),
    ensures
        write_table_model(v.update(i, e)) =~= write_table_model(v).update(i, (e.0, e.1@)),
{
}

/// Appending a table entry appends its view to the model.
proof fn lemma_write_model_push(v: Seq<(usize, ResponseSnapshot)>, e: (usize, ResponseSnapshot))
    ensures
        write_table_model(v.push(e)) =~= write_table_model(v).push((e.0, e.1@)),
{
}

/// Updating a route entry updates its view in the model.
proof fn lemma_routes_model_update<H>(v: Seq<RouteEntry<H>>, i: int, e: RouteEntry<H>)
    requires
        0 <= i < v.len(),
    ensures
        routes_model(v.update(i, e)) =~= routes_model(v).update(i, (e.server_id, e.path@,
            e.handler)),
{
}

/// Appending a route entry appends its view to the model.
proof fn lemma_routes_model_push<H>(v: Seq<RouteEntry<H>>, e: RouteEntry<H>)
    ensures
        routes_model(v.push(e)) =~= routes_model(v).push((e.server_id, e.path@, e.handler)),
{
}

/// When position `i` matches and none before it does, `route_find`
/// finds exactly `i`.
proof fn route_find_pin<H>(rs: Seq<(usize, Seq<u8>, H)>, sid: usize, path: Seq<u8>, i: int)
    requires
        0 <= i < rs.len(),
        rs[i].0 == sid && rs[i].1 == path,
        forall|j: int| 0 <= j < i ==> !((#[trigger] rs[j]).0 == sid && rs[j].1 == path),
    ensures
        route_find(rs, sid, path) == Some(i),
{
    lemma_route_find(rs, sid, path);
    match route_find(rs, sid, path) {
        Some(k) => {
            assert(!(k < i)) by {
                if k < i {
                    assert(!(rs[k].0 == sid && rs[k].1 == path));
                }
            }
            assert(!(k > i)) by {
                if k > i {
                    assert(!(rs[i].0 == sid && rs[i].1 == path));
                }
            }
        },
        None => {
            assert(!(rs[i].0 == sid && rs[i].1 == path));
        },
    }
}

/// The request after dispatch: the same state, marked dispatched.
pub open spec fn dispatched_of(m: RequestModel) -> RequestModel {
    RequestModel { dispatched: true, ..m }
}

/// The response the reactor itself writes when no route matches: status
/// 404 with the standard reason phrase as body, and no headers.
pub open spec fn not_found_model() -> ResponseModel {
    ResponseModel {
        status_code: Some(404u16),
        headers: Seq::empty(),
        body: vstd::utf8::encode_utf8(crate::status::spec_reason(404)),
    }
}

impl<H: Handler> ServerCore<H> {
    /// Finds the route registered for this exact server and path.
    fn find_route_index(&self, sid: usize, path: &[u8]) -> (r: Option<usize>)
        ensures
            match r {
                Some(i) => route_find(self.routes_view(), sid, path@) == Some(i as int),
                None => route_find(self.routes_view(), sid, path@) is None,
            },
    {
        proof {
            lemma_route_find(self.routes_view(), sid, path@);
        }
        let mut i: usize = 0;
        while i < self.routes.len()
            invariant
                i <= self.routes@.len(),
                forall|j: int|
                    0 <= j < i ==> !((#[trigger] self.routes_view()[j]).0 == sid
                        && self.routes_view()[j].1 == path@),
            decreases self.routes@.len() - i,
        {
            if self.routes[i].server_id == sid && crate::text::bytes_eq(
                self.routes[i].path.as_slice(),
                path,
            ) {
                proof {
                    assert(self.routes_view()[i as int].0 == sid);
                    assert(self.routes_view()[i as int].1 == path@);
                    route_find_pin(self.routes_view(), sid, path@, i as int);
                }
                return Some(i);
            }
            assert(!(self.routes_view()[i as int].0 == sid && self.routes_view()[i as int].1
                == path@));
            i = i + 1;
        }
        None
    }

    /// Stores a finalized response under its event identifier,
    /// overwriting any earlier snapshot — the last finalize wins.
    fn put_write(&mut self, id: usize, snap: ResponseSnapshot)
        ensures
            final(self).writes_view() == key_put(old(self).writes_view(), id, snap@),
            final(self).routes@ == old(self).routes@,
            final(self).listeners@ == old(self).listeners@,
            final(self).requests@ == old(self).requests@,
            final(self).next_id == old(self).next_id,
    {
        match self.find_write_index(id) {
            Some(i) => {
                proof {
                    lemma_key_find(self.writes_view(), id);
                    lemma_write_model_update(self.writes@, i as int, (id, snap));
                }
                self.writes.set(i, (id, snap));
                assert(self.writes_view() =~= key_put(old(self).writes_view(), id, snap@));
            },
            None => {
                proof {
                    lemma_write_model_push(self.writes@, (id, snap));
                }
                self.writes.push((id, snap));
                assert(self.writes_view() =~= key_put(old(self).writes_view(), id, snap@));
            },
        }
    }

    /// Removes and returns the finalized response for an identifier.
    fn take_write(&mut self, id: usize) -> (r: Option<ResponseSnapshot>)
        ensures
            match key_find(old(self).writes_view(), id) {
                Some(i) => r is Some && Some(r.unwrap()@) == Some(old(self).writes_view()[i].1)
                    && final(self).writes_view() == old(self).writes_view().remove(i),
                None => r is None && final(self).writes_view() == old(self).writes_view(),
            },
            final(self).routes@ == old(self).routes@,
            final(self).listeners@ == old(self).listeners@,
            final(self).requests@ == old(self).requests@,
            final(self).next_id == old(self).next_id,
    {
        match self.find_write_index(id) {
            Some(i) => {
                proof {
                    lemma_key_find(self.writes_view(), id);
                    assert(i < self.writes@.len());
                    lemma_write_model_remove(self.writes@, i as int);
                }
                let (_, snap) = self.writes.remove(i);
                Some(snap)
            },
            None => None,
        }
    }

    /// Accepts a just-established connection on a listener: mints a
    /// fresh event identifier and records the new in-flight request
    /// under it.  Refuses an identifier that names no listener, or a
    /// counter that cannot grow.
    pub fn accepted(&mut self, listener_id: usize, conn_fd: i32) -> (r: Option<usize>)
        requires
            old(self).wf(),
        ensures
            final(self).wf(),
            final(self).routes@ == old(self).routes@,
            final(self).listeners@ == old(self).listeners@,
            final(self).writes_view() == old(self).writes_view(),
            match r {
                Some(id) => {
                    &&& key_find(old(self).listeners@, listener_id) is Some
                    &&& old(self).next_id < usize::MAX
                    &&& id == old(self).next_id
                    &&& final(self).next_id == old(self).next_id + 1
                    &&& final(self).requests_view() == old(self).requests_view().push(
                        (id, fresh_request_model(conn_fd, listener_id)),
                    )
                },
                None => {
                    &&& (key_find(old(self).listeners@, listener_id) is None || old(
                        self,
                    ).next_id == usize::MAX)
                    &&& final(self).next_id == old(self).next_id
                    &&& final(self).requests_view() == old(self).requests_view()
                },
            },
    {
        if self.find_listener_index(listener_id).is_none() {
            return None;
        }
        if self.next_id == usize::MAX {
            return None;
        }
        let id = self.next_id;
        self.next_id = self.next_id + 1;
        let req = Request::new(conn_fd, listener_id);
        proof {
            assert(req@ =~= fresh_request_model(conn_fd, listener_id));
            lemma_req_model_push(self.requests@, (id, req));
            lemma_key_find(old(self).requests_view(), id);
            assert(forall|j: int|
                0 <= j < old(self).requests_view().len() ==> (#[trigger] old(
                    self,
                ).requests_view()[j]).0 != id);
        }
        self.requests.push((id, req));
        proof {
            assert(self.requests_view() =~= old(self).requests_view().push(
                (id, fresh_request_model(conn_fd, listener_id)),
            ));
            assert(self.writes_view() =~= old(self).writes_view());
        }
        Some(id)
    }
}

/// The state of a connection the moment it is accepted.
pub open spec fn fresh_request_model(fd: i32, server_id: usize) -> RequestModel {
    RequestModel {
        header_done: false,
        server_id: server_id,
        fd: fd,
        raw: Seq::empty(),
        method: Seq::empty(),
        path: Seq::empty(),
        protocol: Seq::empty(),
        headers: Seq::empty(),
        cookies: Seq::empty(),
        body: Seq::empty(),
        dispatched: false,
    }
}

/// A server bound by the application: its identity is the server
/// identifier minted at creation.
#[derive(Debug, Clone, Copy, PartialEq, Eq, Structural)]
pub struct HttpServer {
    pub server_id: usize,
}

impl HttpServer {
    /// Mints a server identity from the reactor's shared counter.
    pub fn new<H: Handler>(core: &mut ServerCore<H>) -> (s: HttpServer)
        requires
            old(core).wf(),
            old(core).next_id < usize::MAX,
        ensures
            final(core).wf(),
            s.server_id == old(core).next_id,
            final(core).next_id == old(core).next_id + 1,
            final(core).routes_view() == old(core).routes_view(),
            final(core).listeners@ == old(core).listeners@,
            final(core).requests_view() == old(core).requests_view(),
            final(core).writes_view() == old(core).writes_view(),
    {
        let server_id = core.fresh_id();
        HttpServer { server_id }
    }

    /// Registers `handler` for `path` on this server.  The key is the
    /// exact pair: the same path on another server is another route,
    /// and the last registration for a pair wins.
    pub fn handle_route<H: Handler>(&self, core: &mut ServerCore<H>, path: &str, handler: H)
        ensures
            final(core).routes_view() == route_put(old(core).routes_view(), self.server_id,
                path.spec_bytes(), handler),
            final(core).listeners@ == old(core).listeners@,
            final(core).requests_view() == old(core).requests_view(),
            final(core).writes_view() == old(core).writes_view(),
            final(core).next_id == old(core).next_id,
            old(core).wf() ==> final(core).wf(),
    {
        let ghost before = core.routes_view();
        let path_bytes = crate::text::bytes_of(path.as_bytes());
        let entry = RouteEntry { server_id: self.server_id, path: path_bytes, handler };
        match core.find_route_index(self.server_id, entry.path.as_slice()) {
            Some(i) => {
                proof {
                    lemma_route_find(before, self.server_id, path.spec_bytes());
                    lemma_routes_model_update(core.routes@, i as int, entry);
                }
                core.routes.set(i, entry);
                assert(core.routes_view() =~= route_put(before, self.server_id,
                    path.spec_bytes(), entry.handler));
            },
            None => {
                proof {
                    lemma_routes_model_push(core.routes@, entry);
                }
                core.routes.push(entry);
                assert(core.routes_view() =~= route_put(before, self.server_id,
                    path.spec_bytes(), entry.handler));
            },
        }
        proof {
            assert(core.requests_view() =~= old(core).requests_view());
            assert(core.writes_view() =~= old(core).writes_view());
        }
    }

    /// Records this server's bound listening socket with the reactor.
    /// The caller binds the address and hands in the socket's
    /// descriptor; binding itself is input/output and stays outside.
    pub fn listen_on<H: Handler>(&self, core: &mut ServerCore<H>, listener_fd: i32) -> (ok: bool)
        requires
            old(core).wf(),
        ensures
            final(core).wf(),
            ok == (self.server_id < old(core).next_id && key_find(old(core).listeners@,
                self.server_id) is None && key_find(old(core).requests_view(), self.server_id)
                is None && key_find(old(core).writes_view(), self.server_id) is None),
            ok ==> final(core).listeners@ == old(core).listeners@.push(
                (self.server_id, listener_fd),
            ),
            !ok ==> final(core).listeners@ == old(core).listeners@,
            final(core).routes_view() == old(core).routes_view(),
            final(core).requests_view() == old(core).requests_view(),
            final(core).writes_view() == old(core).writes_view(),
            final(core).next_id == old(core).next_id,
    {
        core.register_listener(self.server_id, listener_fd)
    }
}

} // verus!

verus! {

impl<H: Handler> ServerCore<H> {
    /// Drives one read-readiness event.  An identifier that names no
    /// live connection, or one whose request was already dispatched, is
    /// ignored — dispatch happens at most once per connection.  Fresh
    /// bytes feed the request's parse state; when head and body are
    /// complete the request is dispatched right here: the matching
    /// handler runs with a fresh writer, or — with no route for the
    /// request's own server and exact path — a 404 with the standard
    /// reason phrase as body is finalized instead, and whatever was
    /// finalized lands in the write-back table under this identifier.
    pub fn on_readable(&mut self, event_id: usize, data: &[u8]) -> (r: ReadAction)
        requires
            old(self).wf(),
        ensures
            final(self).wf(),
            final(self).routes_view() == old(self).routes_view(),
            final(self).listeners@ == old(self).listeners@,
            final(self).next_id == old(self).next_id,
            match key_find(old(self).requests_view(), event_id) {
                None => r == ReadAction::Ignored && final(self).requests_view() == old(
                    self,
                ).requests_view() && final(self).writes_view() == old(self).writes_view(),
                Some(i) => {
                    let m0 = old(self).requests_view()[i].1;
                    if m0.dispatched {
                        r == ReadAction::Ignored && final(self).requests_view() == old(
                            self,
                        ).requests_view() && final(self).writes_view() == old(self).writes_view()
                    } else {
                        let m1 = read_step(m0, data@);
                        if !model_ready(m1) {
                            &&& r == ReadAction::KeepReading(m1.fd)
                            &&& final(self).requests_view() == old(self).requests_view().update(
                                i,
                                (event_id, m1),
                            )
                            &&& final(self).writes_view() == old(self).writes_view()
                        } else {
                            &&& r == ReadAction::Dispatched(m1.fd)
                            &&& (exists|m2: RequestModel|
                                m2.dispatched && final(self).requests_view() == old(
                                    self,
                                ).requests_view().update(i, (event_id, m2)))
                            &&& match route_find(old(self).routes_view(), m1.server_id, m1.path) {
                                None => final(self).requests_view() == old(
                                    self,
                                ).requests_view().update(i, (event_id, dispatched_of(m1)))
                                    && final(self).writes_view() == key_put(
                                    old(self).writes_view(),
                                    event_id,
                                    not_found_model(),
                                ),
                                Some(_) => final(self).writes_view() == old(self).writes_view()
                                    || (exists|rm: ResponseModel|
                                    final(self).writes_view() == key_put(
                                        old(self).writes_view(),
                                        event_id,
                                        rm,
                                    )),
                            }
                        }
                    }
                },
            },
    {
        let idx = match self.find_request_index(event_id) {
            Some(i) => i,
            None => {
                return ReadAction::Ignored;
            },
        };
        proof {
            lemma_key_find(self.requests_view(), event_id);
            assert(idx < self.requests@.len());
        }
        if self.requests[idx].1.dispatched {
            return ReadAction::Ignored;
        }
        proof {
            lemma_req_model_remove(self.requests@, idx as int);
        }
        let (_, mut req) = self.requests.remove(idx);
        let ghost removed = old(self).requests_view().remove(idx as int);
        let ready = req.read_cb(data);
        let fd = req.fd;
        if ready {
            let mut w = ResponseWriter::new(event_id);
            match self.find_route_index(req.server_id, req.path.as_slice()) {
                Some(ri) => {
                    proof {
                        lemma_route_find(self.routes_view(), req@.server_id, req@.path);
                    }
                    let handler = &self.routes[ri].handler;
                    handler.handle(&mut req, &mut w);
                },
                None => {
                    w.write_status(HttpStatus::NotFound);
                    assert(w.spec_pending() == Some(not_found_model())) by {
                        assert(w.current_model() =~= not_found_model());
                    }
                },
            }
            let ghost wbefore = self.writes_view();
            match w.take_pending() {
                Some(snap) => {
                    let ghost xv = snap@;
                    self.put_write(event_id, snap);
                    proof {
                        lemma_wf_writes_put(wbefore, self.writes_view(), event_id, xv,
                            old(self).listeners@, old(self).next_id, old(self).requests_view(),
                            idx as int);
                    }
                },
                None => {},
            }
            req.dispatched = true;
            proof {
                lemma_req_model_insert(self.requests@, idx as int, (event_id, req));
                assert(removed.insert(idx as int, (event_id, req@)) =~= old(
                    self,
                ).requests_view().update(idx as int, (event_id, req@)));
            }
            self.requests.insert(idx, (event_id, req));
            proof {
                lemma_wf_after_update(old(self).requests_view(), self.requests_view(), idx as int,
                    event_id, old(self).listeners@, old(self).next_id);
            }
            ReadAction::Dispatched(fd)
        } else {
            proof {
                lemma_req_model_insert(self.requests@, idx as int, (event_id, req));
                assert(removed.insert(idx as int, (event_id, req@)) =~= old(
                    self,
                ).requests_view().update(idx as int, (event_id, req@)));
            }
            self.requests.insert(idx, (event_id, req));
            proof {
                lemma_wf_after_update(old(self).requests_view(), self.requests_view(), idx as int,
                    event_id, old(self).listeners@, old(self).next_id);
            }
            ReadAction::KeepReading(fd)
        }
    }

    /// Drives one write-readiness event: the end of a connection's
    /// lifecycle.  The finalized response for this identifier — when a
    /// handler produced one — is serialized for the caller to flush;
    /// the write-back entry and the in-flight request are both removed
    /// either way, so a 404 tears the connection down through exactly
    /// the same path as any handler response.
    pub fn on_writable(&mut self, event_id: usize) -> (r: WriteAction)
        requires
            old(self).wf(),
        ensures
            final(self).wf(),
            final(self).routes_view() == old(self).routes_view(),
            final(self).listeners@ == old(self).listeners@,
            final(self).next_id == old(self).next_id,
            match key_find(old(self).requests_view(), event_id) {
                None => r is Ignored && final(self).requests_view() == old(self).requests_view()
                    && final(self).writes_view() == old(self).writes_view(),
                Some(i) => {
                    &&& final(self).requests_view() == old(self).requests_view().remove(i)
                    &&& match r {
                        WriteAction::Close { fd, bytes } => {
                            &&& fd == old(self).requests_view()[i].1.fd
                            &&& match key_find(old(self).writes_view(), event_id) {
                                Some(j) => bytes matches Some(b) && b@ == rendered(
                                    old(self).writes_view()[j].1,
                                ) && final(self).writes_view() == old(self).writes_view().remove(
                                    j,
                                ),
                                None => bytes is None && final(self).writes_view() == old(
                                    self,
                                ).writes_view(),
                            }
                        },
                        WriteAction::Ignored => false,
                    }
                },
            },
    {
        let idx = match self.find_request_index(event_id) {
            Some(i) => i,
            None => {
                return WriteAction::Ignored;
            },
        };
        proof {
            lemma_key_find(self.requests_view(), event_id);
            assert(idx < self.requests@.len());
            lemma_req_model_remove(self.requests@, idx as int);
        }
        let (_, req) = self.requests.remove(idx);
        let fd = req.fd;
        let bytes = match self.take_write(event_id) {
            Some(snap) => Some(snap.render()),
            None => None,
        };
        proof {
            lemma_wf_after_remove(old(self).requests_view(), final(self).requests_view(),
                idx as int, old(self).listeners@, old(self).next_id);
            lemma_key_find(old(self).writes_view(), event_id);
            match key_find(old(self).writes_view(), event_id) {
                Some(j) => {
                    lemma_wf_after_remove(old(self).writes_view(), final(self).writes_view(),
                        j, old(self).listeners@, old(self).next_id);
                },
                None => {},
            }
        }
        WriteAction::Close { fd, bytes }
    }
}

/// Replacing an entry's value in place, under its own key, preserves
/// every identifier property of the table.
proof fn lemma_wf_after_update<X, Y>(
    before: Seq<(usize, X)>,
    after: Seq<(usize, X)>,
    i: int,
    id: usize,
    listeners: Seq<(usize, Y)>,
    next_id: usize,
)
    requires
        0 <= i < before.len(),
        before[i].0 == id,
        after.len() == before.len(),
        forall|k: int| 0 <= k < after.len() ==> (#[trigger] after[k]).0 == before[k].0,
        distinct_keys(before),
        keys_below(before, next_id),
        keys_disjoint(listeners, before),
    ensures
        distinct_keys(after),
        keys_below(after, next_id),
        keys_disjoint(listeners, after),
{
}

/// Removing an entry preserves every identifier property of the table.
proof fn lemma_wf_after_remove<X, Y>(
    before: Seq<(usize, X)>,
    after: Seq<(usize, X)>,
    i: int,
    listeners: Seq<(usize, Y)>,
    next_id: usize,
)
    requires
        0 <= i < before.len(),
        after =~= before.remove(i),
        distinct_keys(before),
        keys_below(before, next_id),
        keys_disjoint(listeners, before),
    ensures
        distinct_keys(after),
        keys_below(after, next_id),
        keys_disjoint(listeners, after),
{
    assert(forall|k: int| 0 <= k < i ==> after[k] == before[k]);
    assert(forall|k: int| i <= k < before.len() - 1 ==> after[k] == before[k + 1]);
    assert forall|a: int, b: int| 0 <= a < b < after.len() implies (#[trigger] after[a]).0 != (
    #[trigger] after[b]).0 by {
        let a0: int = if a < i {
            a
        } else {
            a + 1
        };
        let b0: int = if b < i {
            b
        } else {
            b + 1
        };
        assert(after[a] == before[a0] && after[b] == before[b0]);
        assert(before[a0].0 != before[b0].0);
    }
}

/// Storing a response under a live connection's identifier preserves
/// the write-back table's identifier properties.
proof fn lemma_wf_writes_put<Y>(
    before: Seq<(usize, ResponseModel)>,
    after: Seq<(usize, ResponseModel)>,
    id: usize,
    x: ResponseModel,
    listeners: Seq<(usize, Y)>,
    next_id: usize,
    requests: Seq<(usize, RequestModel)>,
    k: int,
)
    requires
        after == key_put(before, id, x),
        distinct_keys(before),
        keys_below(before, next_id),
        keys_disjoint(listeners, before),
        keys_below(requests, next_id),
        keys_disjoint(listeners, requests),
        0 <= k < requests.len() && requests[k].0 == id,
    ensures
        distinct_keys(after),
        keys_below(after, next_id),
        keys_disjoint(listeners, after),
{
    lemma_key_find(before, id);
    assert(id < next_id);
    assert(forall|i: int| 0 <= i < listeners.len() ==> (#[trigger] listeners[i]).0 != id);
    match key_find(before, id) {
        Some(i) => {
            assert(forall|j: int|
                0 <= j < after.len() ==> (#[trigger] after[j]).0 == before[j].0);
        },
        None => {
            assert(forall|j: int| 0 <= j < before.len() ==> (#[trigger] before[j]).0 != id);
        },
    }
}

} // verus!

verus! {

/// Route resolution is exact-match: registering a handler for one
/// (server, path) pair never changes what any other pair resolves to —
/// not the same path on another server, and not another path on the
/// same server — while the registered pair resolves to the new handler.
pub proof fn lemma_route_exact<H>(
    rs: Seq<(usize, Seq<u8>, H)>,
    sid: usize,
    path: Seq<u8>,
    h: H,
    other_sid: usize,
    other_path: Seq<u8>,
)
    requires
        !(other_sid == sid && other_path == path),
    ensures
        ({
            let rs2 = route_put(rs, sid, path, h);
            &&& match route_find(rs2, sid, path) {
                Some(i) => rs2[i] == (sid, path, h),
                None => false,
            }
            &&& match route_find(rs, other_sid, other_path) {
                Some(i) => route_find(rs2, other_sid, other_path) == Some(i) && rs2[i] == rs[i],
                None => route_find(rs2, other_sid, other_path) is None,
            }
        }),
{
    let rs2 = route_put(rs, sid, path, h);
    lemma_route_find(rs, sid, path);
    lemma_route_put_finds(rs, sid, path, h);
    lemma_route_find(rs, other_sid, other_path);
    lemma_route_find(rs2, other_sid, other_path);
    match route_find(rs, sid, path) {
        Some(k) => {
            assert(forall|j: int| 0 <= j < rs2.len() && j != k ==> rs2[j] == rs[j]);
            match route_find(rs, other_sid, other_path) {
                Some(i) => {
                    assert(i != k);
                    assert(rs2[i] == rs[i]);
                    route_find_pin(rs2, other_sid, other_path, i);
                },
                None => {
                    assert(forall|j: int|
                        0 <= j < rs2.len() ==> !((#[trigger] rs2[j]).0 == other_sid && rs2[j].1
                            == other_path));
                },
            }
        },
        None => {
            assert(forall|j: int| 0 <= j < rs.len() ==> rs2[j] == rs[j]);
            match route_find(rs, other_sid, other_path) {
                Some(i) => {
                    route_find_pin(rs2, other_sid, other_path, i);
                },
                None => {
                    assert(forall|j: int|
                        0 <= j < rs2.len() ==> !((#[trigger] rs2[j]).0 == other_sid && rs2[j].1
                            == other_path));
                },
            }
        },
    }
}

/// A just-registered pair resolves to its own handler.
pub proof fn lemma_route_put_finds<H>(rs: Seq<(usize, Seq<u8>, H)>, sid: usize, path: Seq<u8>, h: H)
    ensures
        ({
            let rs2 = route_put(rs, sid, path, h);
            match route_find(rs2, sid, path) {
                Some(i) => rs2[i] == (sid, path, h),
                None => false,
            }
        }),
{
    let rs2 = route_put(rs, sid, path, h);
    lemma_route_find(rs, sid, path);
    match route_find(rs, sid, path) {
        Some(k) => {
            assert(forall|j: int| 0 <= j < k ==> rs2[j] == rs[j]);
            route_find_pin(rs2, sid, path, k);
        },
        None => {
            assert(forall|j: int| 0 <= j < rs.len() ==> rs2[j] == rs[j]);
            route_find_pin(rs2, sid, path, rs.len() as int);
        },
    }
}

/// Two servers may register the same path with different handlers, and
/// each resolves only to its own: a request carries its server's
/// identifier, and resolution keys on the exact pair.
pub proof fn lemma_same_path_two_servers<H>(
    rs: Seq<(usize, Seq<u8>, H)>,
    sid1: usize,
    sid2: usize,
    path: Seq<u8>,
    h1: H,
    h2: H,
)
    requires
        sid1 != sid2,
    ensures
        ({
            let rs2 = route_put(route_put(rs, sid1, path, h1), sid2, path, h2);
            &&& match route_find(rs2, sid1, path) {
                Some(i) => rs2[i] == (sid1, path, h1),
                None => false,
            }
            &&& match route_find(rs2, sid2, path) {
                Some(i) => rs2[i] == (sid2, path, h2),
                None => false,
            }
        }),
{
    let rs1 = route_put(rs, sid1, path, h1);
    lemma_route_put_finds(rs, sid1, path, h1);
    lemma_route_put_finds(rs1, sid2, path, h2);
    lemma_route_exact(rs1, sid2, path, h2, sid1, path);
    let rs2 = route_put(rs1, sid2, path, h2);
    lemma_route_find(rs1, sid1, path);
    match route_find(rs1, sid1, path) {
        Some(i) => {
            assert(route_find(rs2, sid1, path) == Some(i) && rs2[i] == rs1[i]);
        },
        None => {},
    }
}

} // verus!
