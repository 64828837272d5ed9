//! The decisions of the handler of one connection: which event it reports next to the
//! behaviour, which request it opens a stream for, and when it lets the connection idle.
use vstd::prelude::*;

use crate::file_get::{OutboundRequest, OutboundRequestView, RequestId};
use crate::message::FileGetMessage;

verus! {

/// What the handler reports to the behaviour.
#[derive(Debug)]
pub enum FileGetHandlerEvent {
    /// The peer sent a request.
    Request { request_id: RequestId, message: FileGetMessage },
    /// The response to our request came in.
    Response(RequestId),
    /// Our response was sent in full.
    ResponseSent(RequestId),
    /// Our response was not sent in full.
    ResponseOmission(RequestId),
    /// Our request timed out.
    OutboundTimeout(RequestId),
    /// The peer speaks none of the protocols of our request.
    OutboundUnsupportedProtocols(RequestId),
    /// The peer's request timed out.
    InboundTimeout(RequestId),
    /// We speak none of the protocols of the peer's request.
    InboundUnsupportedProtocols(RequestId),
}

pub enum FileGetHandlerEventView {
    Request { request_id: RequestId, file_name: Seq<char> },
    Response(RequestId),
    ResponseSent(RequestId),
    ResponseOmission(RequestId),
    OutboundTimeout(RequestId),
    OutboundUnsupportedProtocols(RequestId),
    InboundTimeout(RequestId),
    InboundUnsupportedProtocols(RequestId),
}

impl View for FileGetHandlerEvent {
    type V = FileGetHandlerEventView;

    open spec fn view(&self) -> FileGetHandlerEventView {
        match self {
            FileGetHandlerEvent::Request { request_id, message } =>
                FileGetHandlerEventView::Request {
                request_id: *request_id,
                file_name: message.file_name@,
            },
            FileGetHandlerEvent::Response(id) => FileGetHandlerEventView::Response(*id),
            FileGetHandlerEvent::ResponseSent(id) => FileGetHandlerEventView::ResponseSent(*id),
            FileGetHandlerEvent::ResponseOmission(id) => FileGetHandlerEventView::ResponseOmission(
                *id,
            ),
            FileGetHandlerEvent::OutboundTimeout(id) => FileGetHandlerEventView::OutboundTimeout(
                *id,
            ),
            FileGetHandlerEvent::OutboundUnsupportedProtocols(id) =>
                FileGetHandlerEventView::OutboundUnsupportedProtocols(*id),
            FileGetHandlerEvent::InboundTimeout(id) => FileGetHandlerEventView::InboundTimeout(*id),
            FileGetHandlerEvent::InboundUnsupportedProtocols(id) =>
                FileGetHandlerEventView::InboundUnsupportedProtocols(*id),
        }
    }
}

/// How an upgrade of a stream failed.
#[derive(Debug, Clone, Copy, PartialEq, Eq, Structural)]
pub enum UpgradeFailure {
    /// It timed out.
    Timeout,
    /// The protocol could not be negotiated or applied.
    Upgrade,
    /// Any other failure; it closes the connection.
    Other,
}

/// What happened on the connection.
#[derive(Debug, Clone, Copy, PartialEq, Eq, Structural)]
pub enum ConnectionEvent {
    /// A stream opened by the peer was fully handled; `sent` tells whether our response
    /// was sent in full.
    FullyNegotiatedInbound { sent: bool, request_id: RequestId },
    /// A stream we opened was fully handled: the response came in.
    FullyNegotiatedOutbound { request_id: RequestId },
    /// A stream opened by the peer failed.
    ListenUpgradeError { error: UpgradeFailure, request_id: RequestId },
    /// A stream we opened failed.
    DialUpgradeError { error: UpgradeFailure, request_id: RequestId },
    /// The address of the connection changed.
    AddressChange,
}

/// Whether the connection is to be kept open.
#[derive(Debug, Clone, Copy, PartialEq, Eq, Structural)]
pub enum KeepAlive {
    /// Keep it open.
    Yes,
    /// Keep it open for twice the timeout after it became idle, then let it close.
    UntilIdleTimeout,
}

/// What the handler asks of the connection.
#[derive(Debug)]
pub enum HandlerAction {
    /// Close the connection with the error recorded earlier.
    Close,
    /// Report the event to the behaviour.
    Custom(FileGetHandlerEvent),
    /// Open a stream for the request.
    OutboundSubstreamRequest(OutboundRequest),
}

pub enum HandlerActionView {
    Close,
    Custom(FileGetHandlerEventView),
    OutboundSubstreamRequest(OutboundRequestView),
}

impl View for HandlerAction {
    type V = HandlerActionView;

    open spec fn view(&self) -> HandlerActionView {
        match self {
            HandlerAction::Close => HandlerActionView::Close,
            HandlerAction::Custom(e) => HandlerActionView::Custom(e@),
            HandlerAction::OutboundSubstreamRequest(r) => HandlerActionView::OutboundSubstreamRequest(
                r@,
            ),
        }
    }
}

/// The state of the handler of one connection.
pub struct Handler {
    timeout: std::time::Duration,
    keep_alive: KeepAlive,
    pending_events: std::collections::VecDeque<FileGetHandlerEvent>,
    outbound: std::collections::VecDeque<OutboundRequest>,
    pending_error: bool,
}

/// The view of a handler: the timeout of its streams, whether it keeps the connection
/// open, the events not yet reported, the requests waiting for a stream, and whether an
/// error waits to close the connection.
pub struct HandlerView {
    pub timeout: std::time::Duration,
    pub keep_alive: KeepAlive,
    pub pending_events: Seq<FileGetHandlerEventView>,
    pub outbound: Seq<OutboundRequestView>,
    pub pending_error: bool,
}

impl View for Handler {
    type V = HandlerView;

    closed spec fn view(&self) -> HandlerView {
        HandlerView {
            timeout: self.timeout,
            keep_alive: self.keep_alive,
            pending_events: self.pending_events@.map_values(|e: FileGetHandlerEvent| e@),
            outbound: self.outbound@.map_values(|r: OutboundRequest| r@),
            pending_error: self.pending_error,
        }
    }
}

/// The handler after a connection event: completed streams and failed upgrades are
/// reported as events; a failure that is neither a timeout nor a protocol mismatch is
/// recorded to close the connection.
pub open spec fn connection_event_spec(h: HandlerView, event: ConnectionEvent) -> HandlerView {
    match event {
        ConnectionEvent::FullyNegotiatedInbound { sent, request_id } => HandlerView {
            pending_events: h.pending_events.push(
                if sent {
                    FileGetHandlerEventView::ResponseSent(request_id)
                } else {
                    FileGetHandlerEventView::ResponseOmission(request_id)
                },
            ),
            ..h
        },
        ConnectionEvent::FullyNegotiatedOutbound { request_id } => HandlerView {
            pending_events: h.pending_events.push(FileGetHandlerEventView::Response(request_id)),
            ..h
        },
        ConnectionEvent::ListenUpgradeError { error, request_id } => match error {
            UpgradeFailure::Timeout => HandlerView {
                pending_events: h.pending_events.push(
                    FileGetHandlerEventView::InboundTimeout(request_id),
                ),
                ..h
            },
            UpgradeFailure::Upgrade => HandlerView {
                pending_events: h.pending_events.push(
                    FileGetHandlerEventView::InboundUnsupportedProtocols(request_id),
                ),
                ..h
            },
            UpgradeFailure::Other => HandlerView { pending_error: true, ..h },
        },
        ConnectionEvent::DialUpgradeError { error, request_id } => match error {
            UpgradeFailure::Timeout => HandlerView {
                pending_events: h.pending_events.push(
                    FileGetHandlerEventView::OutboundTimeout(request_id),
                ),
                ..h
            },
            UpgradeFailure::Upgrade => HandlerView {
                pending_events: h.pending_events.push(
                    FileGetHandlerEventView::OutboundUnsupportedProtocols(request_id),
                ),
                ..h
            },
            UpgradeFailure::Other => HandlerView { pending_error: true, ..h },
        },
        ConnectionEvent::AddressChange => h,
    }
}

/// What the handler does next, and its state afterwards: a recorded error closes the
/// connection first; then pending events are reported in order; then requests get a
/// stream in order; otherwise there is nothing to do.
pub open spec fn poll_spec(h: HandlerView) -> (Option<HandlerActionView>, HandlerView) {
    if h.pending_error {
        (Some(HandlerActionView::Close), HandlerView { pending_error: false, ..h })
    } else if h.pending_events.len() > 0 {
        (
            Some(HandlerActionView::Custom(h.pending_events[0])),
            HandlerView { pending_events: h.pending_events.drop_first(), ..h },
        )
    } else if h.outbound.len() > 0 {
        (
            Some(HandlerActionView::OutboundSubstreamRequest(h.outbound[0])),
            HandlerView { outbound: h.outbound.drop_first(), ..h },
        )
    } else {
        (None, h)
    }
}

impl Handler {
    pub fn new(timeout: std::time::Duration) -> (r: Self)
        ensures
            r@ == (HandlerView {
                timeout,
                keep_alive: KeepAlive::Yes,
                pending_events: Seq::empty(),
                outbound: Seq::empty(),
                pending_error: false,
            }),
    {
        let r = Handler {
            timeout,
            keep_alive: KeepAlive::Yes,
            pending_events: std::collections::VecDeque::new(),
            outbound: std::collections::VecDeque::new(),
            pending_error: false,
        };
        assert(r@.pending_events =~= Seq::<FileGetHandlerEventView>::empty());
        assert(r@.outbound =~= Seq::<OutboundRequestView>::empty());
        r
    }

    /// The timeout of the handler's streams.
    pub fn timeout(&self) -> (r: std::time::Duration)
        ensures
            r == self@.timeout,
    {
        self.timeout
    }

    /// Whether the handler keeps the connection open.
    pub fn connection_keep_alive(&self) -> (r: KeepAlive)
        ensures
            r == self@.keep_alive,
    {
        self.keep_alive
    }

    /// The behaviour hands over a request: it waits for a stream, and the connection is
    /// kept open.
    pub fn on_behaviour_event(&mut self, request: OutboundRequest)
        ensures
            final(self)@ == (HandlerView {
                keep_alive: KeepAlive::Yes,
                outbound: old(self)@.outbound.push(request@),
                ..old(self)@
            }),
    {
        self.keep_alive = KeepAlive::Yes;
        let ghost before = self.outbound@;
        self.outbound.push_back(request);
        assert(self.outbound@.map_values(|r: OutboundRequest| r@) =~= before.map_values(
            |r: OutboundRequest| r@,
        ).push(request@));
    }

    fn push_event(&mut self, event: FileGetHandlerEvent)
        ensures
            final(self)@ == (HandlerView {
                pending_events: old(self)@.pending_events.push(event@),
                ..old(self)@
            }),
    {
        let ghost before = self.pending_events@;
        self.pending_events.push_back(event);
        assert(self.pending_events@.map_values(|e: FileGetHandlerEvent| e@) =~= before.map_values(
            |e: FileGetHandlerEvent| e@,
        ).push(event@));
    }

    /// Something happened on the connection.
    pub fn on_connection_event(&mut self, event: ConnectionEvent)
        ensures
            final(self)@ == connection_event_spec(old(self)@, event),
    {
        match event {
            ConnectionEvent::FullyNegotiatedInbound { sent, request_id } => {
                if sent {
                    self.push_event(FileGetHandlerEvent::ResponseSent(request_id));
                } else {
                    self.push_event(FileGetHandlerEvent::ResponseOmission(request_id));
                }
            },
            ConnectionEvent::FullyNegotiatedOutbound { request_id } => {
                self.push_event(FileGetHandlerEvent::Response(request_id));
            },
            ConnectionEvent::ListenUpgradeError { error, request_id } => match error {
                UpgradeFailure::Timeout => {
                    self.push_event(FileGetHandlerEvent::InboundTimeout(request_id));
                },
                UpgradeFailure::Upgrade => {
                    self.push_event(FileGetHandlerEvent::InboundUnsupportedProtocols(request_id));
                },
                UpgradeFailure::Other => {
                    self.pending_error = true;
                },
            },
            ConnectionEvent::DialUpgradeError { error, request_id } => match error {
                UpgradeFailure::Timeout => {
                    self.push_event(FileGetHandlerEvent::OutboundTimeout(request_id));
                },
                UpgradeFailure::Upgrade => {
                    self.push_event(FileGetHandlerEvent::OutboundUnsupportedProtocols(request_id));
                },
                UpgradeFailure::Other => {
                    self.pending_error = true;
                },
            },
            ConnectionEvent::AddressChange => {},
        }
    }

    /// The next thing the handler asks of the connection, before it looks at requests
    /// received from the peer.
    pub fn poll(&mut self) -> (r: Option<HandlerAction>)
        ensures
            ({
                let (action, next) = poll_spec(old(self)@);
                &&& final(self)@ == next
                &&& match r {
                    Some(a) => action == Some(a@),
                    None => action is None,
                }
            }),
    {
        if self.pending_error {
            self.pending_error = false;
            return Some(HandlerAction::Close);
        }
        let ghost events = self.pending_events@;
        if let Some(event) = self.pending_events.pop_front() {
            assert(self.pending_events@.map_values(|e: FileGetHandlerEvent| e@) =~= events.map_values(
                |e: FileGetHandlerEvent| e@,
            ).drop_first());
            return Some(HandlerAction::Custom(event));
        }
        let ghost requests = self.outbound@;
        if let Some(request) = self.outbound.pop_front() {
            assert(self.outbound@.map_values(|r: OutboundRequest| r@) =~= requests.map_values(
                |r: OutboundRequest| r@,
            ).drop_first());
            return Some(HandlerAction::OutboundSubstreamRequest(request));
        }
        None
    }

    /// A request from the peer came in: it is reported, and the connection is kept open.
    pub fn on_inbound_request(&mut self, request_id: RequestId, message: FileGetMessage) -> (r:
        FileGetHandlerEvent)
        ensures
            r@ == (FileGetHandlerEventView::Request { request_id, file_name: message.file_name@ }),
            final(self)@ == (HandlerView { keep_alive: KeepAlive::Yes, ..old(self)@ }),
    {
        self.keep_alive = KeepAlive::Yes;
        FileGetHandlerEvent::Request { request_id, message }
    }

    /// Nothing else to do: with no request of the peer in progress, a connection kept open
    /// starts to idle. Tells whether it started to idle now.
    pub fn on_idle(&mut self, inbound_in_progress: bool) -> (r: bool)
        ensures
            r == (!inbound_in_progress && old(self)@.keep_alive == KeepAlive::Yes),
            final(self)@ == (HandlerView {
                keep_alive: if r {
                    KeepAlive::UntilIdleTimeout
                } else {
                    old(self)@.keep_alive
                },
                ..old(self)@
            }),
    {
        if !inbound_in_progress && self.keep_alive == KeepAlive::Yes {
            self.keep_alive = KeepAlive::UntilIdleTimeout;
            true
        } else {
            false
        }
    }
}

} // verus!

verus! {

/// Whether the handler event is about one of our own requests: its response came in, or
/// it failed.
pub open spec fn about_our_request(e: FileGetHandlerEventView, id: RequestId) -> bool {
    ||| e == FileGetHandlerEventView::Response(id)
    ||| e == FileGetHandlerEventView::OutboundTimeout(id)
    ||| e == FileGetHandlerEventView::OutboundUnsupportedProtocols(id)
}

/// Whether the handler event is about a request of the peer: our response went out, or
/// did not.
pub open spec fn about_peer_request(e: FileGetHandlerEventView, id: RequestId) -> bool {
    ||| e == FileGetHandlerEventView::ResponseSent(id)
    ||| e == FileGetHandlerEventView::ResponseOmission(id)
    ||| e == FileGetHandlerEventView::InboundTimeout(id)
    ||| e == FileGetHandlerEventView::InboundUnsupportedProtocols(id)
}

/// How the handler reports what happens on its streams. A stream that we opened (for one
/// of our requests) is reported as an event about our request: its response when it
/// completes, `OutboundTimeout` when its upgrade timed out and
/// `OutboundUnsupportedProtocols` when the peer refused the protocol. A stream that the
/// peer opened is reported as an event about the peer's request: `ResponseSent` or
/// `ResponseOmission` when it completes, `InboundTimeout` and
/// `InboundUnsupportedProtocols` when its upgrade failed so. Any other upgrade failure
/// closes the connection, and an address change does nothing. The event joins the end of
/// the queue; when nothing was queued, it is the handler's next action.
pub proof fn lemma_stream_events_reported(h: HandlerView, event: ConnectionEvent)
    ensures
        ({
            let w = connection_event_spec(h, event);
            let idle = !h.pending_error && h.pending_events.len() == 0;
            let reports = |e: FileGetHandlerEventView|
                w == (HandlerView { pending_events: h.pending_events.push(e), ..h }) && (idle
                    ==> poll_spec(w).0 == Some(HandlerActionView::Custom(e)));
            let closes = w == (HandlerView { pending_error: true, ..h }) && poll_spec(w).0 == Some(
                HandlerActionView::Close,
            );
            match event {
                ConnectionEvent::FullyNegotiatedOutbound { request_id } => reports(
                    FileGetHandlerEventView::Response(request_id),
                ) && about_our_request(FileGetHandlerEventView::Response(request_id), request_id),
                ConnectionEvent::DialUpgradeError { error, request_id } => match error {
                    UpgradeFailure::Timeout => reports(
                        FileGetHandlerEventView::OutboundTimeout(request_id),
                    ) && about_our_request(
                        FileGetHandlerEventView::OutboundTimeout(request_id),
                        request_id,
                    ),
                    UpgradeFailure::Upgrade => reports(
                        FileGetHandlerEventView::OutboundUnsupportedProtocols(request_id),
                    ) && about_our_request(
                        FileGetHandlerEventView::OutboundUnsupportedProtocols(request_id),
                        request_id,
                    ),
                    UpgradeFailure::Other => closes,
                },
                ConnectionEvent::FullyNegotiatedInbound { sent, request_id } => if sent {
                    reports(FileGetHandlerEventView::ResponseSent(request_id))
                } else {
                    reports(FileGetHandlerEventView::ResponseOmission(request_id))
                },
                ConnectionEvent::ListenUpgradeError { error, request_id } => match error {
                    UpgradeFailure::Timeout => reports(
                        FileGetHandlerEventView::InboundTimeout(request_id),
                    ) && about_peer_request(
                        FileGetHandlerEventView::InboundTimeout(request_id),
                        request_id,
                    ),
                    UpgradeFailure::Upgrade => reports(
                        FileGetHandlerEventView::InboundUnsupportedProtocols(request_id),
                    ) && about_peer_request(
                        FileGetHandlerEventView::InboundUnsupportedProtocols(request_id),
                        request_id,
                    ),
                    UpgradeFailure::Other => closes,
                },
                ConnectionEvent::AddressChange => w == h,
            }
        }),
{
    let w = connection_event_spec(h, event);
    if !h.pending_error && h.pending_events.len() == 0 {
        assert(w.pending_events.len() > 0 ==> w.pending_events[0] == w.pending_events.last());
    }
}

/// A stream that we opened never yields an event about a request of the peer, and one
/// that the peer opened never one about our request.
pub proof fn lemma_stream_direction(h: HandlerView, event: ConnectionEvent)
    ensures
        ({
            let w = connection_event_spec(h, event);
            match event {
                ConnectionEvent::DialUpgradeError { request_id, .. } => w.pending_events.len()
                    > h.pending_events.len() ==> about_our_request(
                    w.pending_events.last(),
                    request_id,
                ),
                ConnectionEvent::FullyNegotiatedOutbound { request_id } => about_our_request(
                    w.pending_events.last(),
                    request_id,
                ),
                ConnectionEvent::ListenUpgradeError { request_id, .. } => w.pending_events.len()
                    > h.pending_events.len() ==> about_peer_request(
                    w.pending_events.last(),
                    request_id,
                ),
                ConnectionEvent::FullyNegotiatedInbound { request_id, .. } => about_peer_request(
                    w.pending_events.last(),
                    request_id,
                ),
                ConnectionEvent::AddressChange => w == h,
            }
        }),
{
}

} // verus!

verus! {

/// The order in which the handler acts: a recorded failure closes the connection before
/// anything else; then queued events are reported, oldest first; then our queued requests
/// get a stream, oldest first; otherwise there is nothing to do. Each action takes its
/// item off its queue and leaves the rest as it was.
pub proof fn lemma_poll_order(h: HandlerView)
    ensures
        ({
            let (action, w) = poll_spec(h);
            &&& w.timeout == h.timeout
            &&& w.keep_alive == h.keep_alive
            &&& !w.pending_error
            &&& if h.pending_error {
                &&& action == Some(HandlerActionView::Close)
                &&& w.pending_events == h.pending_events
                &&& w.outbound == h.outbound
            } else if h.pending_events.len() > 0 {
                &&& action == Some(HandlerActionView::Custom(h.pending_events[0]))
                &&& h.pending_events == seq![h.pending_events[0]] + w.pending_events
                &&& w.outbound == h.outbound
            } else if h.outbound.len() > 0 {
                &&& action == Some(HandlerActionView::OutboundSubstreamRequest(h.outbound[0]))
                &&& h.outbound == seq![h.outbound[0]] + w.outbound
                &&& w.pending_events == h.pending_events
            } else {
                &&& action is None
                &&& w == h
            }
        }),
{
    let (action, w) = poll_spec(h);
    if !h.pending_error && h.pending_events.len() > 0 {
        assert(h.pending_events =~= seq![h.pending_events[0]] + w.pending_events);
    } else if !h.pending_error && h.outbound.len() > 0 {
        assert(h.outbound =~= seq![h.outbound[0]] + w.outbound);
    }
}

} // verus!
