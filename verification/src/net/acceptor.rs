//! Client connections: requests out of the bytes that arrive, and responses on
//! their way back.

use std::collections::HashMap;

use vstd::prelude::*;
use vstd::slice::slice_subrange;

use crate::buffer::bytes_new;
use crate::channel;
use crate::channel::{ReplyModel, ShardResponse};
use crate::protocol::codec;
use crate::protocol::codec::{decode_request, ProtocolError};
use crate::protocol::types::{Request, RequestModel, Response, ResponseModel, Status};

verus! {

/// The bytes of a connection that are not yet a request.
pub struct RequestBuffer {
    bytes: Vec<u8>,
}

impl View for RequestBuffer {
    type V = Seq<u8>;

    closed spec fn view(&self) -> Seq<u8> {
        self.bytes@
    }
}

/// Bytes without their first `n`.
pub(crate) fn drop_front(bytes: &Vec<u8>, n: usize) -> (rest: Vec<u8>)
    requires
        n <= bytes@.len(),
    ensures
        rest@ == bytes@.skip(n as int),
{
    let mut rest: Vec<u8> = Vec::new();
    rest.extend_from_slice(slice_subrange(bytes.as_slice(), n, bytes.len()));
    assert(rest@ =~= bytes@.skip(n as int));
    rest
}

impl RequestBuffer {
    /// A buffer without bytes.
    pub fn new() -> (b: Self)
        ensures
            b@ == Seq::<u8>::empty(),
    {
        RequestBuffer { bytes: Vec::new() }
    }

    /// Takes in bytes that arrived.
    pub fn feed(&mut self, data: &[u8])
        ensures
            final(self)@ == old(self)@ + data@,
    {
        self.bytes.extend_from_slice(data);
        assert(self@ =~= old(self)@ + data@);
    }

    /// Takes the next complete request out of the buffer; `None` asks for more
    /// bytes.
    pub fn next_request(&mut self) -> (r: Result<Option<Request>, ProtocolError>)
        ensures
            match codec::decoded_request(old(self)@) {
                Ok(Some((req, n))) => {
                    &&& r matches Ok(Some(got)) && got@ == req
                    &&& final(self)@ == old(self)@.skip(n as int)
                },
                Ok(None) => r == Ok::<Option<Request>, ProtocolError>(None) && final(self)@ == old(
                    self,
                )@,
                Err(e) => r == Err::<Option<Request>, ProtocolError>(e) && final(self)@ == old(
                    self,
                )@,
            },
            match r {
                Ok(Some(req)) => {
                    &&& drained(old(self)@).0 == seq![req@] + drained(final(self)@).0
                    &&& drained(old(self)@).1 == drained(final(self)@).1
                },
                Ok(None) => drained(old(self)@) == (
                    Seq::<RequestModel>::empty(),
                    Ok::<Seq<u8>, ProtocolError>(final(self)@),
                ),
                Err(e) => drained(old(self)@) == (
                    Seq::<RequestModel>::empty(),
                    Err::<Seq<u8>, ProtocolError>(e),
                ),
            },
    {
        match decode_request(self.bytes.as_slice()) {
            Ok(Some((req, n))) => {
                self.bytes = drop_front(&self.bytes, n);
                Ok(Some(req))
            },
            Ok(None) => Ok(None),
            Err(e) => Err(e),
        }
    }
}

/// The response to a request whose shard does not take it.
pub fn shard_unavailable() -> (r: Response)
    ensures
        r@ == (ResponseModel {
            status: Status::ErrShardUnavailable,
            epoch: 0,
            offset: 0,
            payload: Seq::empty(),
        }),
{
    let r = Response { status: Status::ErrShardUnavailable, epoch: 0, offset: 0, payload: bytes_new() };
    assert(r@.payload =~= Seq::empty());
    r
}

/// The responses that wait for their connections.
#[verifier::ext_equal]
pub struct ResponsesModel {
    pub waiting: Map<u64, Seq<ReplyModel>>,
    pub next_connection_id: u64,
}

/// The queues after a connection was opened under the next id.
pub open spec fn after_accept(q: ResponsesModel) -> ResponsesModel {
    ResponsesModel {
        waiting: q.waiting.insert(q.next_connection_id, Seq::empty()),
        next_connection_id: (q.next_connection_id + 1) as u64,
    }
}

/// The queues after a response was handed to its connection, if that one is open.
pub open spec fn after_dispatch(q: ResponsesModel, reply: ReplyModel) -> ResponsesModel {
    if q.waiting.contains_key(reply.connection_id) {
        ResponsesModel {
            waiting: q.waiting.insert(
                reply.connection_id,
                q.waiting[reply.connection_id].push(reply),
            ),
            ..q
        }
    } else {
        q
    }
}

/// The responses that wait for a connection.
pub open spec fn waiting_for(q: ResponsesModel, connection_id: u64) -> Seq<ReplyModel> {
    if q.waiting.contains_key(connection_id) {
        q.waiting[connection_id]
    } else {
        Seq::empty()
    }
}

/// The queues after the responses of a connection were taken.
pub open spec fn after_take(q: ResponsesModel, connection_id: u64) -> ResponsesModel {
    if q.waiting.contains_key(connection_id) {
        ResponsesModel { waiting: q.waiting.insert(connection_id, Seq::empty()), ..q }
    } else {
        q
    }
}

/// The queues after a connection was closed.
pub open spec fn after_close(q: ResponsesModel, connection_id: u64) -> ResponsesModel {
    ResponsesModel { waiting: q.waiting.remove(connection_id), ..q }
}

/// Responses on their way to the connections that are open.
pub struct ResponseQueues {
    queues: HashMap<u64, Vec<ShardResponse>>,
    next_connection_id: u64,
}

impl View for ResponseQueues {
    type V = ResponsesModel;

    closed spec fn view(&self) -> ResponsesModel {
        ResponsesModel {
            waiting: self.queues@.map_values(
                |q: Vec<ShardResponse>| channel::reply_models(q@),
            ),
            next_connection_id: self.next_connection_id,
        }
    }
}

impl ResponseQueues {
    /// No connection is open.
    pub fn new() -> (q: Self)
        ensures
            q@ == (ResponsesModel { waiting: Map::empty(), next_connection_id: 0 }),
    {
        broadcast use vstd::std_specs::hash::group_hash_axioms;

        let q = ResponseQueues { queues: HashMap::new(), next_connection_id: 0 };
        assert(q@.waiting =~= Map::empty());
        q
    }

    /// Opens a connection under the next id.
    pub fn accept(&mut self) -> (id: u64)
        requires
            old(self)@.next_connection_id < u64::MAX,
        ensures
            id == old(self)@.next_connection_id,
            final(self)@ == (ResponsesModel {
                waiting: old(self)@.waiting.insert(id, Seq::empty()),
                next_connection_id: (id + 1) as u64,
            }),
            final(self)@ == after_accept(old(self)@),
    {
        broadcast use vstd::std_specs::hash::group_hash_axioms;

        let id: u64 = self.next_connection_id;
        self.next_connection_id = id + 1;
        let queue: Vec<ShardResponse> = Vec::new();
        self.queues.insert(id, queue);
        assert(channel::reply_models(queue@) =~= Seq::empty());
        assert(self@.waiting =~= old(self)@.waiting.insert(id, Seq::empty()));
        id
    }

    /// Queues a response for its connection; it is dropped if that one is closed.
    pub fn dispatch(&mut self, response: ShardResponse)
        ensures
            final(self)@ == (if old(self)@.waiting.contains_key(response.connection_id) {
                ResponsesModel {
                    waiting: old(self)@.waiting.insert(
                        response.connection_id,
                        old(self)@.waiting[response.connection_id].push(response@),
                    ),
                    ..old(self)@
                }
            } else {
                old(self)@
            }),
            final(self)@ == after_dispatch(old(self)@, response@),
    {
        broadcast use vstd::std_specs::hash::group_hash_axioms;

        let id: u64 = response.connection_id;
        match self.queues.remove(&id) {
            Some(found) => {
                let mut queue: Vec<ShardResponse> = found;
                let ghost before = channel::reply_models(queue@);
                queue.push(response);
                assert(channel::reply_models(queue@) =~= before.push(response@));
                self.queues.insert(id, queue);
                assert(self@.waiting =~= old(self)@.waiting.insert(id, before.push(response@)));
            },
            None => {
                assert(self@.waiting =~= old(self)@.waiting);
            },
        }
    }

    /// Takes the responses that wait for a connection, oldest first.
    pub fn take(&mut self, connection_id: u64) -> (all: Vec<ShardResponse>)
        ensures
            channel::reply_models(all@) == (if old(self)@.waiting.contains_key(connection_id) {
                old(self)@.waiting[connection_id]
            } else {
                Seq::empty()
            }),
            final(self)@ == (if old(self)@.waiting.contains_key(connection_id) {
                ResponsesModel {
                    waiting: old(self)@.waiting.insert(connection_id, Seq::empty()),
                    ..old(self)@
                }
            } else {
                old(self)@
            }),
            channel::reply_models(all@) == waiting_for(old(self)@, connection_id),
            final(self)@ == after_take(old(self)@, connection_id),
    {
        broadcast use vstd::std_specs::hash::group_hash_axioms;

        match self.queues.remove(&connection_id) {
            Some(queue) => {
                let empty: Vec<ShardResponse> = Vec::new();
                self.queues.insert(connection_id, empty);
                assert(channel::reply_models(empty@) =~= Seq::empty());
                assert(self@.waiting =~= old(self)@.waiting.insert(connection_id, Seq::empty()));
                queue
            },
            None => {
                let none: Vec<ShardResponse> = Vec::new();
                assert(channel::reply_models(none@) =~= Seq::empty());
                assert(self@.waiting =~= old(self)@.waiting);
                none
            },
        }
    }

    /// Closes a connection and drops what waits for it.
    pub fn close(&mut self, connection_id: u64)
        ensures
            final(self)@ == (ResponsesModel {
                waiting: old(self)@.waiting.remove(connection_id),
                ..old(self)@
            }),
            final(self)@ == after_close(old(self)@, connection_id),
    {
        broadcast use vstd::std_specs::hash::group_hash_axioms;

        let _ = self.queues.remove(&connection_id);
        assert(self@.waiting =~= old(self)@.waiting.remove(connection_id));
    }
}

/// The requests in the bytes of a connection, and the bytes behind them or the
/// error that they end with.
pub open spec fn drained(buf: Seq<u8>) -> (Seq<RequestModel>, Result<Seq<u8>, ProtocolError>)
    decreases buf.len(),
{
    match codec::decoded_request(buf) {
        Ok(Some((req, n))) => {
            let (more, end) = drained(buf.skip(n as int));
            (seq![req] + more, end)
        },
        Ok(None) => (Seq::empty(), Ok(buf)),
        Err(e) => (Seq::empty(), Err(e)),
    }
}

/// The requests of a connection do not depend on how its bytes were cut on their
/// way: taking out what is complete early and the rest when it arrives gives the
/// same requests, and the same error, as taking all at once.
pub proof fn law_requests_do_not_depend_on_chunks(first: Seq<u8>, more: Seq<u8>)
    ensures
        match drained(first).1 {
            Ok(rest) => {
                &&& drained(first + more).0 == drained(first).0 + drained(rest + more).0
                &&& drained(first + more).1 == drained(rest + more).1
            },
            Err(e) => drained(first + more) == drained(first),
        },
    decreases first.len(),
{
    match codec::decoded_request(first) {
        Ok(Some((req, n))) => {
            codec::law_request_decoding_is_incremental(first, more);
            assert((first + more).skip(n as int) =~= first.skip(n as int) + more);
            law_requests_do_not_depend_on_chunks(first.skip(n as int), more);
            let (a, end) = drained(first.skip(n as int));
            match end {
                Ok(rest) => {
                    assert(seq![req] + (a + drained(rest + more).0) =~= (seq![req] + a) + drained(
                        rest + more,
                    ).0);
                },
                Err(_) => {},
            }
        },
        Ok(None) => {
            assert(Seq::<RequestModel>::empty() + drained(first + more).0 =~= drained(
                first + more,
            ).0);
        },
        Err(_) => {
            codec::law_request_decoding_is_incremental(first, more);
        },
    }
}

/// Requests as their clients sent them, one behind the other.
pub open spec fn sent(reqs: Seq<RequestModel>) -> Seq<u8>
    decreases reqs.len(),
{
    if reqs.len() == 0 {
        Seq::empty()
    } else {
        codec::request_bytes(reqs[0]) + sent(reqs.skip(1))
    }
}

/// The requests that were sent are the requests that come out, in order, and no
/// byte is left.
pub proof fn law_requests_come_out_as_sent(reqs: Seq<RequestModel>)
    requires
        forall|i: int| 0 <= i < reqs.len() ==> (#[trigger] reqs[i]).payload.len() <= u32::MAX,
    ensures
        drained(sent(reqs)) == (reqs, Ok::<Seq<u8>, ProtocolError>(Seq::empty())),
    decreases reqs.len(),
{
    if reqs.len() == 0 {
        assert(drained(Seq::<u8>::empty()).0 =~= reqs);
    } else {
        let rest = sent(reqs.skip(1));
        assert forall|i: int| 0 <= i < reqs.skip(1).len() implies (
        #[trigger] reqs.skip(1)[i]).payload.len() <= u32::MAX by {
            assert(reqs.skip(1)[i] == reqs[i + 1]);
        }
        law_requests_come_out_as_sent(reqs.skip(1));
        codec::law_request_roundtrip(reqs[0], rest);
        let n = codec::request_bytes(reqs[0]).len() as int;
        assert(sent(reqs).skip(n) =~= rest);
        assert(seq![reqs[0]] + reqs.skip(1) =~= reqs);
    }
}

/// A response reaches the connection that it goes to and no other, behind those that
/// wait there already. Nothing waits for a connection that is not open.
pub proof fn law_response_reaches_its_connection(
    q: ResponsesModel,
    reply: ReplyModel,
    other: u64,
)
    requires
        other != reply.connection_id,
    ensures
        ({
            let after = after_dispatch(q, reply);
            let id = reply.connection_id;
            &&& after.waiting.dom() == q.waiting.dom()
            &&& q.waiting.contains_key(id) ==> waiting_for(after, id).len() == waiting_for(
                q,
                id,
            ).len() + 1 && waiting_for(after, id).last() == reply && waiting_for(
                after,
                id,
            ).drop_last() == waiting_for(q, id)
            &&& !q.waiting.contains_key(id) ==> after == q && waiting_for(after, id).len() == 0
            &&& waiting_for(after, other) == waiting_for(q, other)
            &&& after.next_connection_id == q.next_connection_id
        }),
{
    let after = after_dispatch(q, reply);
    let id = reply.connection_id;
    assert(after.waiting.dom() =~= q.waiting.dom());
    if q.waiting.contains_key(id) {
        assert(waiting_for(after, id).drop_last() =~= waiting_for(q, id));
    }
}

/// Taking the responses of a connection gives all that wait for it, oldest first, once:
/// afterwards none waits, the connection is still open, and those of others stay.
pub proof fn law_responses_are_taken_once(q: ResponsesModel, id: u64, other: u64)
    requires
        other != id,
    ensures
        ({
            let after = after_take(q, id);
            &&& q.waiting.contains_key(id) ==> waiting_for(q, id) == q.waiting[id]
            &&& !q.waiting.contains_key(id) ==> waiting_for(q, id).len() == 0
            &&& waiting_for(after, id).len() == 0
            &&& after.waiting.dom() == q.waiting.dom()
            &&& waiting_for(after, other) == waiting_for(q, other)
            &&& after.next_connection_id == q.next_connection_id
        }),
{
    assert(after_take(q, id).waiting.dom() =~= q.waiting.dom());
}

/// Connections are numbered from one to the next, and a number is not given again. A
/// new one is open and nothing waits for it; one that is closed is not, and what waited
/// for it is gone. The others stay as they are.
pub proof fn law_connections_are_numbered(q: ResponsesModel, id: u64, other: u64)
    requires
        q.next_connection_id < u64::MAX,
    ensures
        ({
            let opened = after_accept(q);
            let closed = after_close(q, id);
            &&& opened.next_connection_id == q.next_connection_id + 1
            &&& opened.waiting.contains_key(q.next_connection_id)
            &&& waiting_for(opened, q.next_connection_id).len() == 0
            &&& other != q.next_connection_id ==> opened.waiting.contains_key(other)
                == q.waiting.contains_key(other) && waiting_for(opened, other) == waiting_for(
                q,
                other,
            )
            &&& closed.next_connection_id == q.next_connection_id
            &&& !closed.waiting.contains_key(id)
            &&& other != id ==> closed.waiting.contains_key(other) == q.waiting.contains_key(other)
                && waiting_for(closed, other) == waiting_for(q, other)
        }),
{
}

} // verus!
