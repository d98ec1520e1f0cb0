//! The dispatcher: what a node decides on each message that arrives, on
//! each request that it sends and on each tick of its sweeper. The caller
//! moves the bytes and keeps the time; the routing table, the store and the
//! table of pending requests are owned here.

use crate::assoc::Assoc;
use crate::id::Id;
use crate::kbucket::KBUCKET_MAX_LENGTH;
use crate::routing::closest_of;
use crate::routing::table_upsert;
use crate::routing::views;
use crate::routing::NodeInfo;
use crate::routing::NodeInfoView;
use crate::routing::RoutingTable;
use crate::rpc::Message;
use crate::rpc::RequestHandle;
use crate::rpc::RequestPayload;
use crate::rpc::ResponseHandle;
use crate::rpc::ResponsePayload;
use crate::routing::ROUTING_TABLE_MAX_LENGTH;
use crate::storage::stale_keys;
use crate::storage::STALE_NANOS;
use crate::storage::Store;
use vstd::prelude::*;

verus! {

/// Seconds to wait for a response before a request is abandoned
pub const RESPONSE_TIMEOUT_SECS: u64 = 1;

/// Seconds between two sweeps of the store
pub const SWEEP_INTERVAL_SECS: u64 = 3600;

/// Number of received messages that may wait for the dispatcher
pub const CHANNEL_CAPACITY: usize = 50;

/// What the caller is to do after a message was dispatched.
pub enum Action<H> {
    /// Send `message` to `destination`.
    Reply { message: Message, destination: NodeInfo },
    /// Complete the request that `handle` stands for with `payload`.
    Deliver { handle: H, payload: ResponsePayload },
    /// Nothing: the response answers no request that is pending.
    Drop,
}

/// The buckets of `router` after the peer `source` was seen: it is
/// upserted, unless it carries the local identifier, which the routing
/// table never holds.
pub open spec fn refreshed(router: RoutingTable, source: NodeInfoView) -> Seq<Seq<NodeInfoView>> {
    if source.id == router.local().id {
        router.buckets()
    } else {
        table_upsert(router.buckets(), router.local().id, source, router.ceiling()).0
    }
}

/// The state of a node. `H` is the handle through which a pending request
/// is completed; the dispatcher keeps it and hands it back, no more.
pub struct Dispatcher<H> {
    pub node_info: NodeInfo,
    pub router: RoutingTable,
    pub store: Store<String, String>,
    pub pending: Assoc<Id, H>,
}

/// What handling the request `message` makes of a node and answers: the
/// sender is refreshed, a `Store` is written at `now`, and `reply` carries
/// `response_id`, the node's own details, the request's identifier and
/// the payload that the request calls for.
pub open spec fn request_handled<H>(
    pre: Dispatcher<H>,
    post: Dispatcher<H>,
    message: RequestHandle,
    response_id: Id,
    now: u128,
    reply: ResponseHandle,
) -> bool {
    &&& post.node_info == pre.node_info
    &&& post.pending == pre.pending
    &&& post.router.buckets() == refreshed(pre.router, message.source@)
    &&& post.router.ceiling() == pre.router.ceiling()
    &&& post.store.ttl() == pre.store.ttl()
    &&& post.store.entries() == match message.request {
        RequestPayload::Store { key, value } => pre.store.entries().insert(key@, (value, now)),
        _ => pre.store.entries(),
    }
    &&& reply.id == response_id
    &&& reply.source == pre.node_info
    &&& reply.request_id == message.id
    &&& match message.request {
        RequestPayload::FindNode { id } => match reply.response {
            ResponsePayload::FindNode { closest } => views(closest@) == closest_of(
                post.router.buckets(),
                pre.node_info@.id,
                id@,
                KBUCKET_MAX_LENGTH as nat,
            ),
            _ => false,
        },
        _ => reply.response == ResponsePayload::Pong,
    }
}

/// What handling the response `message` makes of a node and gives back:
/// the sender is refreshed and the request that is answered is pending no
/// longer; `r` is its handle with the response's payload, or nothing
/// where no such request was pending.
pub open spec fn response_handled<H>(
    pre: Dispatcher<H>,
    post: Dispatcher<H>,
    message: ResponseHandle,
    r: Option<(H, ResponsePayload)>,
) -> bool {
    &&& post.node_info == pre.node_info
    &&& post.store == pre.store
    &&& post.router.buckets() == refreshed(pre.router, message.source@)
    &&& post.router.ceiling() == pre.router.ceiling()
    &&& post.pending.map() == pre.pending.map().remove(message.request_id@)
    &&& match r {
        Some((handle, payload)) => pre.pending.map().contains_key(message.request_id@) && handle
            == pre.pending.map()[message.request_id@] && payload == message.response,
        None => !pre.pending.map().contains_key(message.request_id@),
    }
}

/// What dispatching `message` makes of a node and asks of the caller: a
/// request is handled and its reply is owed to its sender; a response is
/// handled and its payload, if a request was pending for it, is to be
/// delivered through that request's handle.
pub open spec fn dispatched<H>(
    pre: Dispatcher<H>,
    post: Dispatcher<H>,
    message: Message,
    response_id: Id,
    now: u128,
    action: Action<H>,
) -> bool {
    match message {
        Message::Request(request) => match action {
            Action::Reply { message: Message::Response(reply), destination } => destination
                == request.source && request_handled(pre, post, request, response_id, now, reply),
            _ => false,
        },
        Message::Response(response) => match action {
            Action::Deliver { handle, payload } => response_handled(
                pre,
                post,
                response,
                Some((handle, payload)),
            ),
            Action::Drop => response_handled(pre, post, response, None),
            _ => false,
        },
    }
}

/// The time at which a node wrote what `message` asked it to store.
pub open spec fn written_at<H>(post: Dispatcher<H>, message: Message) -> u128 {
    match message {
        Message::Request(
            RequestHandle { request: RequestPayload::Store { key, value }, .. },
        ) => post.store.times()[key@],
        _ => 0,
    }
}

/// The identifier that the reply to send carries.
pub open spec fn reply_id<H>(action: Action<H>) -> Id {
    match action {
        Action::Reply { message: Message::Response(reply), .. } => reply.id,
        _ => arbitrary(),
    }
}

impl<H> Dispatcher<H> {
    /// The parts are well formed, and the routing table is the local node's.
    pub open spec fn wf(&self) -> bool {
        &&& self.router.wf()
        &&& self.store.wf()
        &&& self.pending.wf()
        &&& self.router.local() == self.node_info@
    }

    /// A node with the given identity, an empty store, a routing table of
    /// one empty bucket and no pending request
    pub fn with_node_info(node_info: NodeInfo) -> (d: Dispatcher<H>)
        ensures
            d.wf(),
            d.node_info == node_info,
            d.router.buckets() == seq![Seq::<NodeInfoView>::empty()],
            d.store.entries() == Map::<Seq<char>, (String, u128)>::empty(),
            d.store.ttl() == STALE_NANOS,
            d.router.ceiling() == ROUTING_TABLE_MAX_LENGTH,
            d.pending.map() == Map::<Seq<u8>, H>::empty(),
    {
        let router = RoutingTable::new(node_info.clone());
        Dispatcher { node_info, router, store: Store::new(), pending: Assoc::new() }
    }

    /// A node at `address` with a random [`Id`], an empty store, a routing
    /// table of one empty bucket and no pending request
    pub fn new(address: String) -> (d: Dispatcher<H>)
        ensures
            d.wf(),
            d.node_info.address == address,
            d.router.buckets() == seq![Seq::<NodeInfoView>::empty()],
            d.store.entries() == Map::<Seq<char>, (String, u128)>::empty(),
            d.store.ttl() == STALE_NANOS,
            d.router.ceiling() == ROUTING_TABLE_MAX_LENGTH,
            d.pending.map() == Map::<Seq<u8>, H>::empty(),
    {
        Self::with_node_info(NodeInfo { id: Id::random(), address })
    }

    /// Note that `source` was heard from: refresh it in the routing table.
    fn refresh(&mut self, source: &NodeInfo)
        requires
            old(self).wf(),
        ensures
            final(self).wf(),
            final(self).node_info == old(self).node_info,
            final(self).store == old(self).store,
            final(self).pending == old(self).pending,
            final(self).router.buckets() == refreshed(old(self).router, source@),
            final(self).router.ceiling() == old(self).router.ceiling(),
    {
        if source.id != self.node_info.id {
            self.router.upsert(source.clone());
        }
    }

    /// Handle a request: refresh its sender, do what it asks, and make the
    /// response, which carries `response_id` and is owed to the sender.
    /// A `Store` is written at the time `now`.
    pub fn handle_request_with(&mut self, message: RequestHandle, response_id: Id, now: u128) -> (reply:
        ResponseHandle)
        requires
            old(self).wf(),
        ensures
            final(self).wf(),
            request_handled(*old(self), *final(self), message, response_id, now, reply),
    {
        self.refresh(&message.source);
        let response = match message.request {
            RequestPayload::Ping => ResponsePayload::Pong,
            RequestPayload::Store { key, value } => {
                self.store.upsert_at(key, value, now);
                ResponsePayload::Pong
            },
            RequestPayload::FindNode { id } => ResponsePayload::FindNode {
                closest: self.router.closest(&id, KBUCKET_MAX_LENGTH),
            },
        };
        ResponseHandle {
            id: response_id,
            source: self.node_info.clone(),
            request_id: message.id,
            response,
        }
    }

    /// Handle a response: refresh its sender, and take the request that it
    /// answers out of the pending table. With the request's handle comes
    /// the payload to complete it with; a response that answers no pending
    /// request is dropped.
    pub fn handle_response(&mut self, message: ResponseHandle) -> (r: Option<(H, ResponsePayload)>)
        requires
            old(self).wf(),
        ensures
            final(self).wf(),
            response_handled(*old(self), *final(self), message, r),
    {
        self.refresh(&message.source);
        match self.pending.remove(&message.request_id) {
            Some(handle) => Some((handle, message.response)),
            None => None,
        }
    }

    /// Dispatch one message that arrived; see `handle_request_with` and
    /// `handle_response`. A request is answered to its sender.
    pub fn dispatch_with(&mut self, message: Message, response_id: Id, now: u128) -> (action:
        Action<H>)
        requires
            old(self).wf(),
        ensures
            final(self).wf(),
            dispatched(*old(self), *final(self), message, response_id, now, action),
    {
        match message {
            Message::Request(request) => {
                let destination = request.source.clone();
                let reply = self.handle_request_with(request, response_id, now);
                Action::Reply { message: Message::Response(reply), destination }
            },
            Message::Response(response) => match self.handle_response(response) {
                Some((handle, payload)) => Action::Deliver { handle, payload },
                None => Action::Drop,
            },
        }
    }

    /// Dispatch one message that arrived, with a random [`Id`] for the
    /// response and the store's clock for the time
    pub fn dispatch(&mut self, message: Message) -> (action: Action<H>)
        requires
            old(self).wf(),
        ensures
            final(self).wf(),
            dispatched(
                *old(self),
                *final(self),
                message,
                reply_id(action),
                written_at(*final(self), message),
                action,
            ),
    {
        let response_id = Id::random();
        let now = self.store.now();
        self.dispatch_with(message, response_id, now)
    }

    /// Start a request: note under `request_id` that it is pending, with
    /// the `handle` to complete it through, and make the message to send
    pub fn begin_request_with(&mut self, request: RequestPayload, request_id: Id, handle: H) -> (message:
        RequestHandle)
        requires
            old(self).wf(),
        ensures
            final(self).wf(),
            final(self).node_info == old(self).node_info,
            final(self).router == old(self).router,
            final(self).store == old(self).store,
            final(self).pending.map() == old(self).pending.map().insert(request_id@, handle),
            message.id == request_id,
            message.source == old(self).node_info,
            message.request == request,
    {
        self.pending.insert(request_id, handle);
        RequestHandle { id: request_id, source: self.node_info.clone(), request }
    }

    /// Start a request under a random [`Id`]; see `begin_request_with`
    pub fn begin_request(&mut self, request: RequestPayload, handle: H) -> (message: RequestHandle)
        requires
            old(self).wf(),
        ensures
            final(self).wf(),
            final(self).node_info == old(self).node_info,
            final(self).router == old(self).router,
            final(self).store == old(self).store,
            final(self).pending.map() == old(self).pending.map().insert(message.id@, handle),
            message.source == old(self).node_info,
            message.request == request,
    {
        self.begin_request_with(request, Id::random(), handle)
    }

    /// Give a request up, as when no response came in time: it is pending
    /// no longer. Its handle is returned, if it was still pending.
    pub fn abandon(&mut self, request_id: &Id) -> (r: Option<H>)
        requires
            old(self).wf(),
        ensures
            final(self).wf(),
            final(self).node_info == old(self).node_info,
            final(self).router == old(self).router,
            final(self).store == old(self).store,
            final(self).pending.map() == old(self).pending.map().remove(request_id@),
            match r {
                Some(handle) => old(self).pending.map().contains_key(request_id@) && handle == old(
                    self,
                ).pending.map()[request_id@],
                None => !old(self).pending.map().contains_key(request_id@),
            },
    {
        self.pending.remove(request_id)
    }

    /// Sweep the store at the time that its clock shows, which is
    /// returned: what is stale then is removed
    pub fn sweep(&mut self) -> (now: u128)
        requires
            old(self).wf(),
        ensures
            final(self).wf(),
            final(self).node_info == old(self).node_info,
            final(self).router == old(self).router,
            final(self).pending == old(self).pending,
            final(self).store.ttl() == old(self).store.ttl(),
            final(self).store.entries() == old(self).store.entries().remove_keys(
                stale_keys(old(self).store.times(), now, old(self).store.ttl()),
            ),
    {
        self.store.remove_stale()
    }
}

} // verus!
