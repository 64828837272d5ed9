//! The request-response behaviour that fetches files from peers: which connection carries
//! each request, which requests wait for a connection, which answers are still owed, and
//! which events are reported to the application.
//!
//! Peers and addresses are identified by their byte encodings, connections by their numbers.
use vstd::prelude::*;

use crate::handler::{FileGetHandlerEvent, FileGetHandlerEventView, Handler, HandlerView, KeepAlive};
use crate::message::FileGetMessage;

verus! {

/// The identifier of a request, unique among the requests of one generator.
#[derive(Debug, Clone, Copy, PartialEq, Eq, Hash, Structural)]
pub struct RequestId(pub u64);

impl From<u64> for RequestId {
    fn from(value: u64) -> (r: Self) {
        RequestId(value)
    }
}

impl vstd::std_specs::convert::FromSpecImpl<u64> for RequestId {
    open spec fn obeys_from_spec() -> bool {
        true
    }

    open spec fn from_spec(value: u64) -> Self {
        RequestId(value)
    }
}

/// Hands out request identifiers in increasing order, starting from 1 and wrapping
/// around after the largest `u64`.
#[derive(Debug)]
pub struct RequestIdGenerator {
    next: u64,
}

impl RequestIdGenerator {
    /// The identifier that the next call of `next_id` hands out.
    pub closed spec fn next_value(&self) -> u64 {
        self.next
    }

    pub fn new() -> (r: Self)
        ensures
            r.next_value() == 1,
    {
        RequestIdGenerator { next: 1 }
    }

    pub fn next_id(&mut self) -> (r: RequestId)
        ensures
            r.0 == old(self).next_value(),
            final(self).next_value() == old(self).next_value().wrapping_add(1),
    {
        let id = self.next;
        self.next = self.next.wrapping_add(1);
        RequestId(id)
    }
}

/// How many identifiers a generator hands out before the series repeats.
pub open spec fn id_space() -> int {
    0x1_0000_0000_0000_0000
}

/// The identifier that a generator hands out `k` calls after the one that handed out
/// `start`.
pub open spec fn nth_id(start: u64, k: nat) -> u64 {
    ((start + k) % id_space()) as u64
}

/// The identifiers of a generator form a series: when a call hands out `nth_id(start, k)`,
/// the generator's next value, and so the next call's result, is `nth_id(start, k + 1)`.
pub proof fn lemma_next_id_follows(start: u64, k: nat)
    ensures
        nth_id(start, k).wrapping_add(1) == nth_id(start, k + 1),
{
    let m = id_space();
    let a = (start + k) % m;
    let b = (start + k + 1) % m;
    assert(0 <= a < m && b == if a + 1 < m { a + 1 } else { 0 }) by (nonlinear_arith)
        requires
            m == 0x1_0000_0000_0000_0000,
            a == (start + k) % m,
            b == (start + k + 1) % m,
            start + k >= 0,
    ;
}

/// Fewer than `id_space()` calls of one generator hand out distinct identifiers.
pub proof fn lemma_ids_distinct(start: u64, i: nat, j: nat)
    requires
        i < j < id_space(),
    ensures
        nth_id(start, i) != nth_id(start, j),
{
    let m = id_space();
    let a = (start + i) % m;
    let b = (start + j) % m;
    assert(a != b) by (nonlinear_arith)
        requires
            m == 0x1_0000_0000_0000_0000,
            a == (start + i) % m,
            b == (start + j) % m,
            0 <= start + i < start + j,
            j - i < m,
    ;
}

/// The configuration of the behaviour: how long a request may take.
#[derive(Debug, Clone, Copy)]
pub struct FileGetConfig {
    pub timeout: std::time::Duration,
}

impl FileGetConfig {
    pub fn new(timeout: std::time::Duration) -> (r: Self)
        ensures
            r.timeout == timeout,
    {
        Self { timeout }
    }
}

/// Why a request sent to a peer failed.
#[derive(Debug, Clone, Copy, PartialEq, Eq, Structural)]
pub enum OutboundFailure {
    /// The peer could not be dialed.
    DialFailure,
    /// No response came in time.
    Timeout,
    /// The connection closed before the response came.
    ConnectionClosed,
    /// The peer speaks none of the protocols offered.
    UnsupportedProtocols,
}

/// Why a request received from a peer was not answered.
#[derive(Debug, Clone, Copy, PartialEq, Eq, Structural)]
pub enum InboundFailure {
    /// The request or its response did not arrive in time.
    Timeout,
    /// The connection closed before the response was sent.
    ConnectionClosed,
    /// The local node speaks none of the protocols the peer offered.
    UnsupportedProtocols,
    /// The response was not sent in full.
    ResponseOmission,
}

/// A request for a file, on its way to a peer.
#[derive(Debug)]
pub struct OutboundRequest {
    pub request_id: RequestId,
    pub file_name: String,
}

pub struct OutboundRequestView {
    pub request_id: RequestId,
    pub file_name: Seq<char>,
}

impl View for OutboundRequest {
    type V = OutboundRequestView;

    open spec fn view(&self) -> OutboundRequestView {
        OutboundRequestView { request_id: self.request_id, file_name: self.file_name@ }
    }
}

/// What the behaviour reports to the application.
#[derive(Debug)]
#[allow(inconsistent_fields)]
pub enum FileGetEvent {
    /// A peer asks for a file.
    RequestReceived { peer_id: Vec<u8>, request_id: RequestId, message: FileGetMessage },
    /// The response to a request came in.
    ResponseReceived { peer_id: Vec<u8>, request_id: RequestId },
    /// The response to a request of a peer was sent.
    ResponseSent { peer_id: Vec<u8>, request_id: RequestId },
    /// A request sent to a peer failed.
    OutboundFailure { peer_id: Vec<u8>, request_id: RequestId, error: OutboundFailure },
    /// A request of a peer was not answered.
    InboundFailure { peer_id: Vec<u8>, request_id: RequestId, error: InboundFailure },
}

#[allow(inconsistent_fields)]
pub enum FileGetEventView {
    RequestReceived { peer_id: Seq<u8>, request_id: RequestId, file_name: Seq<char> },
    ResponseReceived { peer_id: Seq<u8>, request_id: RequestId },
    ResponseSent { peer_id: Seq<u8>, request_id: RequestId },
    OutboundFailure { peer_id: Seq<u8>, request_id: RequestId, error: OutboundFailure },
    InboundFailure { peer_id: Seq<u8>, request_id: RequestId, error: InboundFailure },
}

impl View for FileGetEvent {
    type V = FileGetEventView;

    open spec fn view(&self) -> FileGetEventView {
        match self {
            FileGetEvent::RequestReceived { peer_id, request_id, message } =>
                FileGetEventView::RequestReceived {
                peer_id: peer_id@,
                request_id: *request_id,
                file_name: message.file_name@,
            },
            FileGetEvent::ResponseReceived { peer_id, request_id } =>
                FileGetEventView::ResponseReceived { peer_id: peer_id@, request_id: *request_id },
            FileGetEvent::ResponseSent { peer_id, request_id } => FileGetEventView::ResponseSent {
                peer_id: peer_id@,
                request_id: *request_id,
            },
            FileGetEvent::OutboundFailure { peer_id, request_id, error } =>
                FileGetEventView::OutboundFailure {
                peer_id: peer_id@,
                request_id: *request_id,
                error: *error,
            },
            FileGetEvent::InboundFailure { peer_id, request_id, error } =>
                FileGetEventView::InboundFailure {
                peer_id: peer_id@,
                request_id: *request_id,
                error: *error,
            },
        }
    }
}

/// What the behaviour asks the network to do.
#[derive(Debug)]
pub enum BehaviourAction {
    /// Dial the peer.
    Dial { peer_id: Vec<u8> },
    /// Hand the request to the handler of the given connection to the peer.
    NotifyHandler { peer_id: Vec<u8>, connection_id: usize, request: OutboundRequest },
    /// Report the event to the application.
    GenerateEvent(FileGetEvent),
}

pub enum BehaviourActionView {
    Dial { peer_id: Seq<u8> },
    NotifyHandler { peer_id: Seq<u8>, connection_id: usize, request: OutboundRequestView },
    GenerateEvent(FileGetEventView),
}

impl View for BehaviourAction {
    type V = BehaviourActionView;

    open spec fn view(&self) -> BehaviourActionView {
        match self {
            BehaviourAction::Dial { peer_id } => BehaviourActionView::Dial { peer_id: peer_id@ },
            BehaviourAction::NotifyHandler { peer_id, connection_id, request } =>
                BehaviourActionView::NotifyHandler {
                peer_id: peer_id@,
                connection_id: *connection_id,
                request: request@,
            },
            BehaviourAction::GenerateEvent(e) => BehaviourActionView::GenerateEvent(e@),
        }
    }
}

/// An established connection to a peer.
#[derive(Debug)]
pub struct Connection {
    id: usize,
    address: Option<Vec<u8>>,
    /// The requests of the peer that still wait for our response.
    pending_outbound_responses: Vec<RequestId>,
    /// Our requests that still wait for the peer's response.
    pending_inbound_responses: Vec<RequestId>,
}

pub struct ConnectionView {
    pub id: usize,
    pub address: Option<Seq<u8>>,
    pub pending_outbound_responses: Seq<RequestId>,
    pub pending_inbound_responses: Seq<RequestId>,
}

pub open spec fn address_view(a: Option<Vec<u8>>) -> Option<Seq<u8>> {
    match a {
        Some(v) => Some(v@),
        None => None,
    }
}

impl View for Connection {
    type V = ConnectionView;

    closed spec fn view(&self) -> ConnectionView {
        ConnectionView {
            id: self.id,
            address: address_view(self.address),
            pending_outbound_responses: self.pending_outbound_responses@,
            pending_inbound_responses: self.pending_inbound_responses@,
        }
    }
}

/// The items kept for one peer.
#[derive(Debug)]
pub struct PeerEntry<T> {
    pub peer_id: Vec<u8>,
    pub items: Vec<T>,
}

impl<T: View> View for PeerEntry<T> {
    type V = (Seq<u8>, Seq<T::V>);

    open spec fn view(&self) -> (Seq<u8>, Seq<T::V>) {
        (self.peer_id@, self.items@.map_values(|t: T| t@))
    }
}

/// A table keyed by peers, as a sequence of (peer, items) pairs. Tables are sequences of
/// (key, value) pairs.
pub open spec fn entries_view<T: View>(entries: Seq<PeerEntry<T>>) -> Seq<(Seq<u8>, Seq<T::V>)> {
    entries.map_values(|e: PeerEntry<T>| e@)
}

/// Whether the table holds the key.
pub open spec fn has_key<K, V>(entries: Seq<(K, V)>, key: K) -> bool {
    exists|i: int| 0 <= i < entries.len() && (#[trigger] entries[i]).0 == key
}

/// The position of the key in the table (meaningful when the table holds it).
pub open spec fn key_index<K, V>(entries: Seq<(K, V)>, key: K) -> int {
    choose|i: int| 0 <= i < entries.len() && (#[trigger] entries[i]).0 == key
}

/// No key occurs twice in the table.
pub open spec fn distinct_keys<K, V>(entries: Seq<(K, V)>) -> bool {
    forall|i: int, j: int|
        0 <= i < entries.len() && 0 <= j < entries.len() && i != j ==> (#[trigger] entries[i]).0
            != (#[trigger] entries[j]).0
}

/// The table with `item` appended to the items of the peer; a peer it does not hold yet
/// is added at the end with that one item.
pub open spec fn append_item<V>(entries: Seq<(Seq<u8>, Seq<V>)>, key: Seq<u8>, item: V) -> Seq<
    (Seq<u8>, Seq<V>),
> {
    if has_key(entries, key) {
        let i = key_index(entries, key);
        entries.update(i, (key, entries[i].1.push(item)))
    } else {
        entries.push((key, seq![item]))
    }
}

/// Whether two byte strings are equal.
pub fn bytes_eq(a: &Vec<u8>, b: &Vec<u8>) -> (r: bool)
    ensures
        r == (a@ == b@),
{
    if a.len() != b.len() {
        return false;
    }
    let mut i: usize = 0;
    while i < a.len()
        invariant
            a.len() == b.len(),
            i <= a.len(),
            forall|k: int| 0 <= k < i ==> a@[k] == b@[k],
        decreases a.len() - i,
    {
        if a[i] != b[i] {
            return false;
        }
        i = i + 1;
    }
    assert(a@ =~= b@);
    true
}

/// A copy of a byte string.
pub fn bytes_copy(a: &Vec<u8>) -> (r: Vec<u8>)
    ensures
        r@ == a@,
{
    let mut r: Vec<u8> = Vec::new();
    let mut i: usize = 0;
    while i < a.len()
        invariant
            i <= a.len(),
            r@ == a@.take(i as int),
        decreases a.len() - i,
    {
        r.push(a[i]);
        i = i + 1;
        assert(r@ =~= a@.take(i as int));
    }
    assert(a@.take(a.len() as int) =~= a@);
    r
}

/// The position of the peer in the table, if the table holds it.
pub fn find_peer<T: View>(entries: &Vec<PeerEntry<T>>, peer_id: &Vec<u8>) -> (r: Option<usize>)
    requires
        distinct_keys(entries_view(entries@)),
    ensures
        match r {
            Some(i) => i < entries.len() && has_key(entries_view(entries@), peer_id@) && i
                == key_index(entries_view(entries@), peer_id@),
            None => !has_key(entries_view(entries@), peer_id@),
        },
{
    let ghost ev = entries_view(entries@);
    let mut i: usize = 0;
    while i < entries.len()
        invariant
            i <= entries.len(),
            ev == entries_view(entries@),
            distinct_keys(ev),
            forall|k: int| 0 <= k < i ==> (#[trigger] ev[k]).0 != peer_id@,
        decreases entries.len() - i,
    {
        if bytes_eq(&entries[i].peer_id, peer_id) {
            assert(ev[i as int].0 == peer_id@);
            assert(has_key(ev, peer_id@));
            let ghost j = key_index(ev, peer_id@);
            assert(ev[j].0 == peer_id@);
            assert(j == i);
            return Some(i);
        }
        i = i + 1;
    }
    None
}

} // verus!

verus! {

/// `s` with every occurrence of `x` removed, the rest kept in order.
pub open spec fn without<A>(s: Seq<A>, x: A) -> Seq<A>
    decreases s.len(),
{
    if s.len() == 0 {
        s
    } else if s.last() == x {
        without(s.drop_last(), x)
    } else {
        without(s.drop_last(), x).push(s.last())
    }
}

/// `s` with `x` added at the end unless it already holds it: inserting into a set kept
/// in insertion order.
pub open spec fn insert_id(s: Seq<RequestId>, x: RequestId) -> Seq<RequestId> {
    if s.contains(x) {
        s
    } else {
        s.push(x)
    }
}

proof fn lemma_remove_insert<A>(s: Seq<A>, k: int, x: A)
    requires
        0 <= k < s.len(),
    ensures
        s.remove(k).insert(k, x) == s.update(k, x),
{
    assert(s.remove(k).insert(k, x) =~= s.update(k, x));
}

proof fn lemma_entries_view_update<T: View>(s: Seq<PeerEntry<T>>, k: int, e: PeerEntry<T>)
    requires
        0 <= k < s.len(),
    ensures
        entries_view(s.update(k, e)) == entries_view(s).update(k, e@),
{
    assert(entries_view(s.update(k, e)) =~= entries_view(s).update(k, e@));
}

proof fn lemma_map_values_update<A, B>(s: Seq<A>, k: int, x: A, f: spec_fn(A) -> B)
    requires
        0 <= k < s.len(),
    ensures
        s.update(k, x).map_values(f) == s.map_values(f).update(k, f(x)),
{
    assert(s.update(k, x).map_values(f) =~= s.map_values(f).update(k, f(x)));
}

proof fn lemma_contains_push<A>(s: Seq<A>, x: A, y: A)
    ensures
        s.push(x).contains(y) <==> (s.contains(y) || x == y),
{
    if s.contains(y) {
        let i = choose|i: int| 0 <= i < s.len() && s[i] == y;
        assert(s.push(x)[i] == y);
    }
    if x == y {
        assert(s.push(x)[s.len() as int] == y);
    }
    if s.push(x).contains(y) {
        let i = choose|i: int| 0 <= i < s.push(x).len() && s.push(x)[i] == y;
        if i < s.len() {
            assert(s[i] == y);
        }
    }
}

proof fn lemma_no_duplicates_push<A>(s: Seq<A>, x: A)
    requires
        s.no_duplicates(),
        !s.contains(x),
    ensures
        s.push(x).no_duplicates(),
{
    let t = s.push(x);
    assert forall|i: int, j: int| 0 <= i < t.len() && 0 <= j < t.len() && i != j implies t[i]
        != t[j] by {
        if i < s.len() && j < s.len() {
            assert(s[i] != s[j]);
        } else if i < s.len() {
            assert(s[i] == t[i]);
        } else {
            assert(s[j] == t[j]);
        }
    }
}

/// `without(s, x)` holds the elements of `s` other than `x`, and no element twice when `s`
/// holds none twice.
proof fn lemma_without<A>(s: Seq<A>, x: A)
    ensures
        forall|y: A| #[trigger] without(s, x).contains(y) <==> (s.contains(y) && y != x),
        s.no_duplicates() ==> without(s, x).no_duplicates(),
    decreases s.len(),
{
    if s.len() > 0 {
        let d = s.drop_last();
        let l = s.last();
        lemma_without(d, x);
        assert(s =~= d.push(l));
        assert forall|y: A| #[trigger] without(s, x).contains(y) <==> (s.contains(y) && y != x) by {
            lemma_contains_push(d, l, y);
            assert(without(d, x).contains(y) <==> (d.contains(y) && y != x));
            if l != x {
                lemma_contains_push(without(d, x), l, y);
                assert(without(s, x) == without(d, x).push(l));
            } else {
                assert(without(s, x) == without(d, x));
            }
        }
        if s.no_duplicates() {
            assert(d.no_duplicates());
            if l != x {
                assert(!d.contains(l)) by {
                    if d.contains(l) {
                        let i = choose|i: int| 0 <= i < d.len() && d[i] == l;
                        assert(s[i] == d[i]);
                        assert(s[s.len() - 1] == l);
                        assert(s[i] == s[s.len() - 1]);
                    }
                }
                lemma_no_duplicates_push(without(d, x), l);
            }
        }
    }
}

/// A connection after a change holds no request twice when it held none before.
proof fn lemma_change_connection_distinct(c: ConnectionView, change: ConnectionChange)
    requires
        c.pending_outbound_responses.no_duplicates(),
        c.pending_inbound_responses.no_duplicates(),
    ensures
        change_connection(c, change).0.pending_outbound_responses.no_duplicates(),
        change_connection(c, change).0.pending_inbound_responses.no_duplicates(),
{
    match change {
        ConnectionChange::AddPendingInbound(id) => {
            if !c.pending_inbound_responses.contains(id) {
                lemma_no_duplicates_push(c.pending_inbound_responses, id);
            }
        },
        ConnectionChange::RemovePendingInbound(id) => {
            lemma_without(c.pending_inbound_responses, id);
        },
        ConnectionChange::AddPendingOutbound(id) => {
            if !c.pending_outbound_responses.contains(id) {
                lemma_no_duplicates_push(c.pending_outbound_responses, id);
            }
        },
        ConnectionChange::RemovePendingOutbound(id) => {
            lemma_without(c.pending_outbound_responses, id);
        },
        ConnectionChange::SetAddress(_) => {},
    }
}

/// Appending to a table keeps its peers distinct and its entries non-empty; each item of
/// the new table was already there or is the appended one.
proof fn lemma_append_item<V>(entries: Seq<(Seq<u8>, Seq<V>)>, key: Seq<u8>, item: V)
    requires
        distinct_keys(entries),
        no_empty_entries(entries),
    ensures
        distinct_keys(append_item(entries, key, item)),
        no_empty_entries(append_item(entries, key, item)),
        has_key(append_item(entries, key, item), key),
        forall|i: int, j: int|
            0 <= i < append_item(entries, key, item).len() && 0 <= j < append_item(
                entries,
                key,
                item,
            )[i].1.len() ==> (i < entries.len() && j < entries[i].1.len() && (#[trigger] append_item(
                entries,
                key,
                item,
            )[i].1[j]) == entries[i].1[j]) || append_item(entries, key, item)[i].1[j] == item,
{
    let r = append_item(entries, key, item);
    if has_key(entries, key) {
        let k = key_index(entries, key);
        assert forall|a: int, b: int| 0 <= a < r.len() && 0 <= b < r.len() && a != b implies (
        #[trigger] r[a]).0 != (#[trigger] r[b]).0 by {
            assert(entries[a].0 != entries[b].0);
        }
        assert(r[k].0 == key);
    } else {
        assert forall|a: int, b: int| 0 <= a < r.len() && 0 <= b < r.len() && a != b implies (
        #[trigger] r[a]).0 != (#[trigger] r[b]).0 by {
            if a < entries.len() && b < entries.len() {
                assert(entries[a].0 != entries[b].0);
            } else if a < entries.len() {
                assert(entries[a].0 != key);
            } else {
                assert(entries[b].0 != key);
            }
        }
        assert(r[entries.len() as int].0 == key);
    }
}

/// Whether `ids` holds `id`.
fn contains_id(ids: &Vec<RequestId>, id: RequestId) -> (r: bool)
    ensures
        r == ids@.contains(id),
{
    let mut i: usize = 0;
    while i < ids.len()
        invariant
            i <= ids.len(),
            forall|k: int| 0 <= k < i ==> ids@[k] != id,
        decreases ids.len() - i,
    {
        if ids[i] == id {
            assert(ids@[i as int] == id);
            return true;
        }
        i = i + 1;
    }
    false
}

/// Adds `id` to the set `ids`.
fn insert_id_into(ids: &mut Vec<RequestId>, id: RequestId)
    ensures
        final(ids)@ == insert_id(old(ids)@, id),
{
    if !contains_id(ids, id) {
        ids.push(id);
    }
}

/// Removes `id` from the set `ids`, and tells whether it was there.
fn remove_id_from(ids: &mut Vec<RequestId>, id: RequestId) -> (r: bool)
    ensures
        r == old(ids)@.contains(id),
        final(ids)@ == without(old(ids)@, id),
{
    let found = contains_id(ids, id);
    let mut kept: Vec<RequestId> = Vec::new();
    let mut i: usize = 0;
    while i < ids.len()
        invariant
            i <= ids.len(),
            kept@ == without(ids@.take(i as int), id),
        decreases ids.len() - i,
    {
        let x = ids[i];
        assert(ids@.take(i + 1).drop_last() =~= ids@.take(i as int));
        if x != id {
            kept.push(x);
        }
        i = i + 1;
    }
    assert(ids@.take(ids.len() as int) =~= ids@);
    *ids = kept;
    found
}

impl Connection {
    fn new(id: usize, address: Option<Vec<u8>>) -> (r: Self)
        ensures
            r@ == (ConnectionView {
                id,
                address: address_view(address),
                pending_outbound_responses: Seq::empty(),
                pending_inbound_responses: Seq::empty(),
            }),
    {
        Connection {
            id,
            address,
            pending_inbound_responses: Vec::new(),
            pending_outbound_responses: Vec::new(),
        }
    }
}

/// The view of the behaviour: the next request identifier, the configured timeout, the
/// connections of each peer, the actions not yet handed to the network, the requests
/// that wait for a connection to their peer, and the known addresses of each peer.
pub struct FileGetView {
    pub next_request_id: u64,
    pub timeout: std::time::Duration,
    pub connected: Seq<(Seq<u8>, Seq<ConnectionView>)>,
    pub pending_events: Seq<BehaviourActionView>,
    pub pending_outbound_requests: Seq<(Seq<u8>, Seq<OutboundRequestView>)>,
    pub addresses: Seq<(Seq<u8>, Seq<Seq<u8>>)>,
}

/// Every peer that the table holds has at least one item.
pub open spec fn no_empty_entries<V>(entries: Seq<(Seq<u8>, Seq<V>)>) -> bool {
    forall|i: int| 0 <= i < entries.len() ==> (#[trigger] entries[i]).1.len() > 0
}

/// No connection holds a request twice among those waiting for a response.
pub open spec fn pending_ids_distinct(connected: Seq<(Seq<u8>, Seq<ConnectionView>)>) -> bool {
    forall|i: int, j: int|
        0 <= i < connected.len() && 0 <= j < connected[i].1.len() ==> {
            &&& (#[trigger] connected[i].1[j]).pending_outbound_responses.no_duplicates()
            &&& connected[i].1[j].pending_inbound_responses.no_duplicates()
        }
}

impl FileGetView {
    /// Each table holds each peer at most once, and only with at least one item; no
    /// connection holds a request twice.
    pub open spec fn wf(self) -> bool {
        &&& distinct_keys(self.connected)
        &&& distinct_keys(self.pending_outbound_requests)
        &&& distinct_keys(self.addresses)
        &&& no_empty_entries(self.connected)
        &&& no_empty_entries(self.pending_outbound_requests)
        &&& no_empty_entries(self.addresses)
        &&& pending_ids_distinct(self.connected)
    }
}

/// The behaviour's state.
pub struct FileGet {
    request_id_generator: RequestIdGenerator,
    config: FileGetConfig,
    connected: Vec<PeerEntry<Connection>>,
    pending_events: std::collections::VecDeque<BehaviourAction>,
    pending_outbound_requests: Vec<PeerEntry<OutboundRequest>>,
    addresses: Vec<PeerEntry<Vec<u8>>>,
}

impl View for FileGet {
    type V = FileGetView;

    closed spec fn view(&self) -> FileGetView {
        FileGetView {
            next_request_id: self.request_id_generator.next_value(),
            timeout: self.config.timeout,
            connected: entries_view(self.connected@),
            pending_events: self.pending_events@.map_values(|a: BehaviourAction| a@),
            pending_outbound_requests: entries_view(self.pending_outbound_requests@),
            addresses: entries_view(self.addresses@),
        }
    }
}

/// The address table after removing `address` from the peer's addresses; a peer left
/// without addresses leaves the table.
pub open spec fn remove_address_spec(
    addresses: Seq<(Seq<u8>, Seq<Seq<u8>>)>,
    peer_id: Seq<u8>,
    address: Seq<u8>,
) -> Seq<(Seq<u8>, Seq<Seq<u8>>)> {
    if has_key(addresses, peer_id) {
        let k = key_index(addresses, peer_id);
        let rest = without(addresses[k].1, address);
        if rest.len() == 0 {
            addresses.remove(k)
        } else {
            addresses.update(k, (peer_id, rest))
        }
    } else {
        addresses
    }
}

/// Appends `item` to the items of the peer in the table.
fn push_item<T: View>(entries: &mut Vec<PeerEntry<T>>, peer_id: &Vec<u8>, item: T)
    requires
        distinct_keys(entries_view(old(entries)@)),
    ensures
        entries_view(final(entries)@) == append_item(entries_view(old(entries)@), peer_id@, item@),
        distinct_keys(entries_view(final(entries)@)),
{
    let ghost ev = entries_view(entries@);
    match find_peer(entries, peer_id) {
        Some(k) => {
            let mut e = entries.remove(k);
            let ghost old_items = e.items@;
            e.items.push(item);
            assert(e@ == (peer_id@, ev[k as int].1.push(item@))) by {
                assert(e.items@.map_values(|t: T| t@) =~= old_items.map_values(|t: T| t@).push(
                    item@,
                ));
            }
            entries.insert(k, e);
            proof {
                lemma_remove_insert(old(entries)@, k as int, e);
                lemma_entries_view_update(old(entries)@, k as int, e);
                assert forall|i: int, j: int|
                    0 <= i < entries@.len() && 0 <= j < entries@.len() && i != j implies (
                #[trigger] entries_view(entries@)[i]).0 != (#[trigger] entries_view(
                    entries@,
                )[j]).0 by {
                    assert(ev[i].0 != ev[j].0);
                }
            }
        },
        None => {
            let mut items: Vec<T> = Vec::new();
            items.push(item);
            let e = PeerEntry { peer_id: bytes_copy(peer_id), items };
            assert(e@ == (peer_id@, seq![item@])) by {
                assert(e.items@.map_values(|t: T| t@) =~= seq![item@]);
            }
            entries.push(e);
            proof {
                assert(entries_view(entries@) =~= ev.push(e@));
                assert forall|i: int, j: int|
                    0 <= i < entries@.len() && 0 <= j < entries@.len() && i != j implies (
                #[trigger] entries_view(entries@)[i]).0 != (#[trigger] entries_view(
                    entries@,
                )[j]).0 by {
                    if i < ev.len() && j < ev.len() {
                        assert(ev[i].0 != ev[j].0);
                    } else if i < ev.len() {
                        assert(ev[i].0 != peer_id@);
                    } else {
                        assert(ev[j].0 != peer_id@);
                    }
                }
            }
        },
    }
}

/// Removing an element that `s` does not hold leaves `s` as it is.
proof fn lemma_without_absent<A>(s: Seq<A>, x: A)
    requires
        !s.contains(x),
    ensures
        without(s, x) == s,
    decreases s.len(),
{
    if s.len() > 0 {
        let d = s.drop_last();
        assert(!d.contains(x)) by {
            if d.contains(x) {
                let i = choose|i: int| 0 <= i < d.len() && d[i] == x;
                assert(s[i] == x);
            }
        }
        assert(s.last() != x) by {
            if s.last() == x {
                assert(s[s.len() - 1] == x);
            }
        }
        lemma_without_absent(d, x);
        assert(d.push(s.last()) =~= s);
    }
}

/// Adding an address that the peer does not have and then removing it leaves the address
/// table as it was: a peer that had no addresses has none again.
pub proof fn lemma_add_then_remove_address(v: FileGetView, peer_id: Seq<u8>, address: Seq<u8>)
    requires
        v.wf(),
        !has_key(v.addresses, peer_id) || !v.addresses[key_index(
            v.addresses,
            peer_id,
        )].1.contains(address),
    ensures
        remove_address_spec(append_item(v.addresses, peer_id, address), peer_id, address)
            == v.addresses,
{
    let t = v.addresses;
    let u = append_item(t, peer_id, address);
    lemma_append_item(t, peer_id, address);
    if has_key(t, peer_id) {
        let k = key_index(t, peer_id);
        let l = t[k].1;
        assert(u[k].0 == peer_id);
        let k2 = key_index(u, peer_id);
        assert(u[k2].0 == peer_id);
        assert(k2 == k);
        assert(l.push(address).drop_last() =~= l);
        assert(l.push(address).last() == address);
        lemma_without_absent(l, address);
        assert(without(l.push(address), address) == without(l, address));
        assert(t[k].1.len() > 0);
        assert(t[k] == (peer_id, l));
        assert(u.update(k, (peer_id, l)) =~= t);
    } else {
        let k = t.len() as int;
        assert(u[k].0 == peer_id);
        let k2 = key_index(u, peer_id);
        assert(u[k2].0 == peer_id);
        assert(k2 == k);
        assert(seq![address].last() == address);
        assert(seq![address].drop_last() =~= Seq::<Seq<u8>>::empty());
        assert(without(Seq::<Seq<u8>>::empty(), address) == Seq::<Seq<u8>>::empty());
        assert(without(seq![address], address) == without(Seq::<Seq<u8>>::empty(), address));
        assert(u.remove(k) =~= t);
    }
}

impl FileGet {
    /// The invariant of the state: each table holds each peer at most once.
    pub open spec fn wf(&self) -> bool {
        self@.wf()
    }

    pub fn from_config(config: FileGetConfig) -> (r: Self)
        ensures
            r.wf(),
            r@.next_request_id == 1,
            r@.timeout == config.timeout,
            r@.connected == Seq::<(Seq<u8>, Seq<ConnectionView>)>::empty(),
            r@.pending_events == Seq::<BehaviourActionView>::empty(),
            r@.pending_outbound_requests == Seq::<(Seq<u8>, Seq<OutboundRequestView>)>::empty(),
            r@.addresses == Seq::<(Seq<u8>, Seq<Seq<u8>>)>::empty(),
    {
        let r = FileGet {
            request_id_generator: RequestIdGenerator::new(),
            config,
            connected: Vec::new(),
            pending_events: std::collections::VecDeque::new(),
            pending_outbound_requests: Vec::new(),
            addresses: Vec::new(),
        };
        assert(r@.connected =~= Seq::<(Seq<u8>, Seq<ConnectionView>)>::empty());
        assert(r@.pending_events =~= Seq::<BehaviourActionView>::empty());
        assert(r@.pending_outbound_requests =~= Seq::<
            (Seq<u8>, Seq<OutboundRequestView>),
        >::empty());
        assert(r@.addresses =~= Seq::<(Seq<u8>, Seq<Seq<u8>>)>::empty());
        r
    }

    /// Records an address of a peer.
    pub fn add_address(&mut self, peer_id: &Vec<u8>, address: Vec<u8>)
        requires
            old(self).wf(),
        ensures
            final(self).wf(),
            final(self)@ == (FileGetView {
                addresses: append_item(old(self)@.addresses, peer_id@, address@),
                ..old(self)@
            }),
    {
        push_item(&mut self.addresses, peer_id, address);
    }

    /// Forgets an address of a peer.
    pub fn remove_address(&mut self, peer_id: &Vec<u8>, address: &Vec<u8>)
        requires
            old(self).wf(),
        ensures
            final(self).wf(),
            final(self)@ == (FileGetView {
                addresses: remove_address_spec(old(self)@.addresses, peer_id@, address@),
                ..old(self)@
            }),
    {
        let ghost ev = entries_view(self.addresses@);
        match find_peer(&self.addresses, peer_id) {
            None => {},
            Some(k) => {
                let e = self.addresses.remove(k);
                let ghost items = e.items@.map_values(|a: Vec<u8>| a@);
                let mut kept: Vec<Vec<u8>> = Vec::new();
                let mut i: usize = 0;
                while i < e.items.len()
                    invariant
                        i <= e.items.len(),
                        items == e.items@.map_values(|a: Vec<u8>| a@),
                        kept@.map_values(|a: Vec<u8>| a@) == without(items.take(i as int), address@),
                    decreases e.items.len() - i,
                {
                    assert(items.take(i + 1).drop_last() =~= items.take(i as int));
                    if !bytes_eq(&e.items[i], address) {
                        let ghost before = kept@;
                        kept.push(bytes_copy(&e.items[i]));
                        assert(kept@.map_values(|a: Vec<u8>| a@) =~= before.map_values(
                            |a: Vec<u8>| a@,
                        ).push(items[i as int]));
                    }
                    i = i + 1;
                }
                assert(items.take(e.items.len() as int) =~= items);
                assert(ev[k as int].1 == items);
                if kept.len() != 0 {
                    let ne = PeerEntry { peer_id: e.peer_id, items: kept };
                    self.addresses.insert(k, ne);
                    proof {
                        lemma_remove_insert(old(self).addresses@, k as int, ne);
                        lemma_entries_view_update(old(self).addresses@, k as int, ne);
                        assert forall|a: int, b: int|
                            0 <= a < self.addresses@.len() && 0 <= b < self.addresses@.len() && a
                                != b implies (#[trigger] entries_view(self.addresses@)[a]).0
                            != (#[trigger] entries_view(self.addresses@)[b]).0 by {
                            assert(ev[a].0 != ev[b].0);
                        }
                    }
                } else {
                    proof {
                        assert(entries_view(self.addresses@) =~= ev.remove(k as int));
                        assert forall|a: int, b: int|
                            0 <= a < self.addresses@.len() && 0 <= b < self.addresses@.len() && a
                                != b implies (#[trigger] entries_view(self.addresses@)[a]).0
                            != (#[trigger] entries_view(self.addresses@)[b]).0 by {
                            let a2 = if a < k { a } else { a + 1 };
                            let b2 = if b < k { b } else { b + 1 };
                            assert(ev[a2].0 != ev[b2].0);
                        }
                    }
                }
            },
        }
    }
}

} // verus!

verus! {

/// The position of the first connection with the given number, if any.
pub open spec fn conn_position(conns: Seq<ConnectionView>, id: usize) -> Option<int> {
    if exists|j: int| 0 <= j < conns.len() && (#[trigger] conns[j]).id == id {
        Some(
            choose|j: int|
                0 <= j < conns.len() && (#[trigger] conns[j]).id == id && forall|m: int|
                    0 <= m < j ==> (#[trigger] conns[m]).id != id,
        )
    } else {
        None
    }
}

/// A change to one connection.
pub enum ConnectionChange {
    AddPendingInbound(RequestId),
    RemovePendingInbound(RequestId),
    AddPendingOutbound(RequestId),
    RemovePendingOutbound(RequestId),
    SetAddress(Option<Vec<u8>>),
}

/// The connection after the change, and whether a removed request was pending.
pub open spec fn change_connection(c: ConnectionView, change: ConnectionChange) -> (
    ConnectionView,
    bool,
) {
    match change {
        ConnectionChange::AddPendingInbound(id) => (
            ConnectionView {
                pending_inbound_responses: insert_id(c.pending_inbound_responses, id),
                ..c
            },
            false,
        ),
        ConnectionChange::RemovePendingInbound(id) => (
            ConnectionView {
                pending_inbound_responses: without(c.pending_inbound_responses, id),
                ..c
            },
            c.pending_inbound_responses.contains(id),
        ),
        ConnectionChange::AddPendingOutbound(id) => (
            ConnectionView {
                pending_outbound_responses: insert_id(c.pending_outbound_responses, id),
                ..c
            },
            false,
        ),
        ConnectionChange::RemovePendingOutbound(id) => (
            ConnectionView {
                pending_outbound_responses: without(c.pending_outbound_responses, id),
                ..c
            },
            c.pending_outbound_responses.contains(id),
        ),
        ConnectionChange::SetAddress(a) => (ConnectionView { address: address_view(a), ..c }, false),
    }
}

/// The connection table after changing connection `j` of the peer at position `k`.
pub open spec fn change_connection_at(
    connected: Seq<(Seq<u8>, Seq<ConnectionView>)>,
    k: int,
    j: int,
    change: ConnectionChange,
) -> Seq<(Seq<u8>, Seq<ConnectionView>)> {
    connected.update(
        k,
        (connected[k].0, connected[k].1.update(j, change_connection(connected[k].1[j], change).0)),
    )
}

/// Handing a request to a connection of its peer: the connection at the position given by
/// the request identifier modulo the number of connections records that it waits for the
/// response, and the network is asked to notify that connection's handler. `None` when
/// the peer has no connection.
pub open spec fn dispatch(v: FileGetView, peer_id: Seq<u8>, request: OutboundRequestView) -> Option<
    FileGetView,
> {
    if has_key(v.connected, peer_id) && v.connected[key_index(v.connected, peer_id)].1.len() > 0 {
        let k = key_index(v.connected, peer_id);
        let conns = v.connected[k].1;
        let j = (request.request_id.0 as usize) as int % conns.len() as int;
        Some(
            FileGetView {
                connected: change_connection_at(
                    v.connected,
                    k,
                    j,
                    ConnectionChange::AddPendingInbound(request.request_id),
                ),
                pending_events: v.pending_events.push(
                    BehaviourActionView::NotifyHandler {
                        peer_id,
                        connection_id: conns[j].id,
                        request,
                    },
                ),
                ..v
            },
        )
    } else {
        None
    }
}

/// Handing each of the requests, in order, to a connection of their peer.
pub open spec fn dispatch_all(v: FileGetView, peer_id: Seq<u8>, requests: Seq<OutboundRequestView>) -> FileGetView
    decreases requests.len(),
{
    if requests.len() == 0 {
        v
    } else {
        let v2 = match dispatch(v, peer_id, requests[0]) {
            Some(w) => w,
            None => v,
        };
        dispatch_all(v2, peer_id, requests.drop_first())
    }
}

/// Sending a request: it goes to a connection of the peer if there is one; otherwise the
/// network is asked to dial the peer and the request waits for the connection.
pub open spec fn send_request_spec(v: FileGetView, peer_id: Seq<u8>, request: OutboundRequestView) -> FileGetView {
    match dispatch(v, peer_id, request) {
        Some(w) => w,
        None => FileGetView {
            pending_events: v.pending_events.push(BehaviourActionView::Dial { peer_id }),
            pending_outbound_requests: append_item(v.pending_outbound_requests, peer_id, request),
            ..v
        },
    }
}

/// The events that report a failure of each of our requests to the peer.
pub open spec fn outbound_failures(peer_id: Seq<u8>, ids: Seq<RequestId>, error: OutboundFailure) -> Seq<BehaviourActionView> {
    ids.map_values(
        |id: RequestId|
            BehaviourActionView::GenerateEvent(
                FileGetEventView::OutboundFailure { peer_id, request_id: id, error },
            ),
    )
}

/// The events that report a failure of each of the peer's requests.
pub open spec fn inbound_failures(peer_id: Seq<u8>, ids: Seq<RequestId>, error: InboundFailure) -> Seq<BehaviourActionView> {
    ids.map_values(
        |id: RequestId|
            BehaviourActionView::GenerateEvent(
                FileGetEventView::InboundFailure { peer_id, request_id: id, error },
            ),
    )
}

/// Changing one connection keeps the state well formed.
proof fn lemma_change_connection_at_wf(v: FileGetView, k: int, j: int, change: ConnectionChange)
    requires
        v.wf(),
        0 <= k < v.connected.len(),
        0 <= j < v.connected[k].1.len(),
    ensures
        (FileGetView { connected: change_connection_at(v.connected, k, j, change), ..v }).wf(),
{
    let t = change_connection_at(v.connected, k, j, change);
    let c0 = v.connected[k].1[j];
    assert(c0.pending_outbound_responses.no_duplicates());
    lemma_change_connection_distinct(c0, change);
    assert forall|a: int, b: int| 0 <= a < t.len() && 0 <= b < t.len() && a != b implies (
    #[trigger] t[a]).0 != (#[trigger] t[b]).0 by {
        assert(v.connected[a].0 != v.connected[b].0);
    }
    assert forall|a: int| 0 <= a < t.len() implies (#[trigger] t[a]).1.len() > 0 by {
        assert(v.connected[a].1.len() > 0);
    }
    assert forall|a: int, b: int| 0 <= a < t.len() && 0 <= b < t[a].1.len() implies {
        &&& (#[trigger] t[a].1[b]).pending_outbound_responses.no_duplicates()
        &&& t[a].1[b].pending_inbound_responses.no_duplicates()
    } by {
        if a != k || b != j {
            assert(t[a].1[b] == v.connected[a].1[b]);
        }
    }
}

impl FileGet {
    /// Applies the change to connection `j` of the peer at position `k`.
    fn change_connection(&mut self, k: usize, j: usize, change: ConnectionChange) -> (r: bool)
        requires
            old(self).wf(),
            k < old(self)@.connected.len(),
            j < old(self)@.connected[k as int].1.len(),
        ensures
            final(self).wf(),
            r == change_connection(old(self)@.connected[k as int].1[j as int], change).1,
            final(self)@ == (FileGetView {
                connected: change_connection_at(old(self)@.connected, k as int, j as int, change),
                ..old(self)@
            }),
    {
        let ghost ev = old(self)@.connected;
        let ghost c0 = old(self)@.connected[k as int].1[j as int];
        let mut e = self.connected.remove(k);
        let ghost items0 = e.items@;
        let mut c = e.items.remove(j);
        assert(c@ == c0);
        let r = match change {
            ConnectionChange::AddPendingInbound(id) => {
                insert_id_into(&mut c.pending_inbound_responses, id);
                false
            },
            ConnectionChange::RemovePendingInbound(id) => remove_id_from(
                &mut c.pending_inbound_responses,
                id,
            ),
            ConnectionChange::AddPendingOutbound(id) => {
                insert_id_into(&mut c.pending_outbound_responses, id);
                false
            },
            ConnectionChange::RemovePendingOutbound(id) => remove_id_from(
                &mut c.pending_outbound_responses,
                id,
            ),
            ConnectionChange::SetAddress(a) => {
                c.address = a;
                false
            },
        };
        assert(c@ == change_connection(c0, change).0);
        e.items.insert(j, c);
        proof {
            lemma_remove_insert(items0, j as int, c);
            lemma_map_values_update(items0, j as int, c, |t: Connection| t@);
        }
        assert(e@ == (ev[k as int].0, ev[k as int].1.update(j as int, c@)));
        self.connected.insert(k, e);
        proof {
            lemma_remove_insert(old(self).connected@, k as int, e);
            lemma_entries_view_update(old(self).connected@, k as int, e);
            lemma_change_connection_at_wf(old(self)@, k as int, j as int, change);
            assert forall|a: int, b: int|
                0 <= a < self@.connected.len() && 0 <= b < self@.connected.len() && a != b implies (
            #[trigger] self@.connected[a]).0 != (#[trigger] self@.connected[b]).0 by {
                assert(ev[a].0 != ev[b].0);
            }
        }
        r
    }

    /// Hands the request to a connection of the peer, or gives it back when the peer has
    /// no connection.
    fn try_send_request(&mut self, peer_id: &Vec<u8>, request: OutboundRequest) -> (r: Option<
        OutboundRequest,
    >)
        requires
            old(self).wf(),
        ensures
            final(self).wf(),
            match dispatch(old(self)@, peer_id@, request@) {
                Some(w) => r is None && final(self)@ == w,
                None => r == Some(request) && final(self)@ == old(self)@,
            },
    {
        match find_peer(&self.connected, peer_id) {
            None => Some(request),
            Some(k) => {
                let n = self.connected[k].items.len();
                assert(n == self@.connected[k as int].1.len());
                if n == 0 {
                    return Some(request);
                }
                let j = (request.request_id.0 as usize) % n;
                let conn_id = self.connected[k].items[j].id;
                assert(conn_id == self@.connected[k as int].1[j as int].id);
                self.change_connection(k, j, ConnectionChange::AddPendingInbound(request.request_id));
                let ghost before = self.pending_events@;
                let action = BehaviourAction::NotifyHandler {
                    peer_id: bytes_copy(peer_id),
                    connection_id: conn_id,
                    request,
                };
                self.pending_events.push_back(action);
                assert(self.pending_events@.map_values(|a: BehaviourAction| a@) =~= before.map_values(
                    |a: BehaviourAction| a@,
                ).push(action@));
                None
            },
        }
    }

    /// Sends a request for a file to a peer, and gives back its identifier.
    pub fn send_request(&mut self, peer_id: &Vec<u8>, request: FileGetMessage) -> (r: RequestId)
        requires
            old(self).wf(),
        ensures
            final(self).wf(),
            r.0 == old(self)@.next_request_id,
            final(self)@ == send_request_spec(
                FileGetView {
                    next_request_id: old(self)@.next_request_id.wrapping_add(1),
                    ..old(self)@
                },
                peer_id@,
                OutboundRequestView { request_id: r, file_name: request.file_name@ },
            ),
    {
        let request_id = self.request_id_generator.next_id();
        let request = OutboundRequest { request_id, file_name: request.file_name };
        if let Some(request) = self.try_send_request(peer_id, request) {
            let ghost before = self.pending_events@;
            let action = BehaviourAction::Dial { peer_id: bytes_copy(peer_id) };
            self.pending_events.push_back(action);
            assert(self.pending_events@.map_values(|a: BehaviourAction| a@) =~= before.map_values(
                |a: BehaviourAction| a@,
            ).push(action@));
            push_item(&mut self.pending_outbound_requests, peer_id, request);
        }
        request_id
    }
}

} // verus!

verus! {

/// The connection table after a new connection of the peer, followed, when it is the
/// peer's first connection, by the hand-over of the requests that waited for it.
pub open spec fn connection_established_spec(
    v: FileGetView,
    peer_id: Seq<u8>,
    connection: ConnectionView,
    other_established: usize,
) -> FileGetView {
    let v1 = FileGetView { connected: append_item(v.connected, peer_id, connection), ..v };
    if other_established == 0 && has_key(v1.pending_outbound_requests, peer_id) {
        let k = key_index(v1.pending_outbound_requests, peer_id);
        dispatch_all(
            FileGetView {
                pending_outbound_requests: v1.pending_outbound_requests.remove(k),
                ..v1
            },
            peer_id,
            v1.pending_outbound_requests[k].1,
        )
    } else {
        v1
    }
}

/// A closed connection leaves the table (and its peer with it when it was the last one);
/// each request still pending on it is reported as failed: first the peer's requests we
/// owed a response, as inbound failures (the response could not be sent), then our
/// requests, as outbound failures (no response was received).
pub open spec fn connection_closed_spec(v: FileGetView, peer_id: Seq<u8>, connection_id: usize) -> FileGetView {
    let k = key_index(v.connected, peer_id);
    let conns = v.connected[k].1;
    let j = conn_position(conns, connection_id).unwrap();
    let c = conns[j];
    let rest = conns.remove(j);
    FileGetView {
        connected: if rest.len() == 0 {
            v.connected.remove(k)
        } else {
            v.connected.update(k, (peer_id, rest))
        },
        pending_events: v.pending_events + inbound_failures(
            peer_id,
            c.pending_outbound_responses,
            InboundFailure::ConnectionClosed,
        ) + outbound_failures(peer_id, c.pending_inbound_responses, OutboundFailure::ConnectionClosed),
        ..v
    }
}

/// A failed dial to a peer fails every request that waited for a connection to it.
pub open spec fn dial_failure_spec(v: FileGetView, peer_id: Option<Seq<u8>>) -> FileGetView {
    match peer_id {
        Some(p) => if has_key(v.pending_outbound_requests, p) {
            let k = key_index(v.pending_outbound_requests, p);
            FileGetView {
                pending_outbound_requests: v.pending_outbound_requests.remove(k),
                pending_events: v.pending_events + outbound_failures(
                    p,
                    v.pending_outbound_requests[k].1.map_values(|r: OutboundRequestView| r.request_id),
                    OutboundFailure::DialFailure,
                ),
                ..v
            }
        } else {
            v
        },
        None => v,
    }
}

/// Applying a change to the first connection with the given number of the peer: the new
/// state and whether a removed request was pending. Nothing changes when there is no
/// such connection.
pub open spec fn change_peer_connection(
    v: FileGetView,
    peer_id: Seq<u8>,
    connection_id: usize,
    change: ConnectionChange,
) -> (FileGetView, bool) {
    if has_key(v.connected, peer_id) && conn_position(
        v.connected[key_index(v.connected, peer_id)].1,
        connection_id,
    ) is Some {
        let k = key_index(v.connected, peer_id);
        let j = conn_position(v.connected[k].1, connection_id).unwrap();
        (
            FileGetView { connected: change_connection_at(v.connected, k, j, change), ..v },
            change_connection(v.connected[k].1[j], change).1,
        )
    } else {
        (v, false)
    }
}

/// Whether the peer has a connection with the given number.
pub open spec fn has_connection(v: FileGetView, peer_id: Seq<u8>, connection_id: usize) -> bool {
    has_key(v.connected, peer_id) && conn_position(
        v.connected[key_index(v.connected, peer_id)].1,
        connection_id,
    ) is Some
}

/// The position of the first connection with the given number.
fn find_connection(conns: &Vec<Connection>, id: usize) -> (r: Option<usize>)
    ensures
        match r {
            Some(j) => j < conns.len() && conn_position(conns@.map_values(|c: Connection| c@), id)
                == Some(j as int),
            None => conn_position(conns@.map_values(|c: Connection| c@), id) is None,
        },
{
    let ghost cv = conns@.map_values(|c: Connection| c@);
    let mut j: usize = 0;
    while j < conns.len()
        invariant
            j <= conns.len(),
            cv == conns@.map_values(|c: Connection| c@),
            forall|m: int| 0 <= m < j ==> (#[trigger] cv[m]).id != id,
        decreases conns.len() - j,
    {
        if conns[j].id == id {
            assert(cv[j as int].id == id);
            let ghost w = choose|w: int|
                0 <= w < cv.len() && (#[trigger] cv[w]).id == id && forall|m: int|
                    0 <= m < w ==> (#[trigger] cv[m]).id != id;
            assert(0 <= w < cv.len() && cv[w].id == id && forall|m: int|
                0 <= m < w ==> (#[trigger] cv[m]).id != id);
            assert(w == j) by {
                if w < j {
                    assert(cv[w].id != id);
                } else if w > j {
                    assert(cv[j as int].id != id);
                }
            }
            return Some(j);
        }
        j = j + 1;
    }
    None
}

impl FileGet {
    /// Locates the first connection with the given number of the peer.
    fn locate_connection(&self, peer_id: &Vec<u8>, connection_id: usize) -> (r: Option<(usize, usize)>)
        requires
            self.wf(),
        ensures
            match r {
                Some((k, j)) => has_connection(self@, peer_id@, connection_id) && k
                    == key_index(self@.connected, peer_id@) && Some(j as int) == conn_position(
                    self@.connected[k as int].1,
                    connection_id,
                ) && k < self@.connected.len() && j < self@.connected[k as int].1.len(),
                None => !has_connection(self@, peer_id@, connection_id),
            },
    {
        match find_peer(&self.connected, peer_id) {
            None => None,
            Some(k) => {
                assert(self.connected@[k as int].items@.map_values(|c: Connection| c@)
                    == self@.connected[k as int].1);
                match find_connection(&self.connected[k].items, connection_id) {
                    None => None,
                    Some(j) => Some((k, j)),
                }
            },
        }
    }

    /// Pushes one event per request identifier, reporting an outbound failure.
    fn push_outbound_failures(&mut self, peer_id: &Vec<u8>, ids: &Vec<RequestId>, error: OutboundFailure)
        ensures
            final(self)@ == (FileGetView {
                pending_events: old(self)@.pending_events + outbound_failures(peer_id@, ids@, error),
                ..old(self)@
            }),
    {
        let mut i: usize = 0;
        while i < ids.len()
            invariant
                i <= ids.len(),
                self@ == (FileGetView {
                    pending_events: old(self)@.pending_events + outbound_failures(
                        peer_id@,
                        ids@.take(i as int),
                        error,
                    ),
                    ..old(self)@
                }),
            decreases ids.len() - i,
        {
            let ghost before = self.pending_events@;
            let action = BehaviourAction::GenerateEvent(
                FileGetEvent::OutboundFailure {
                    peer_id: bytes_copy(peer_id),
                    request_id: ids[i],
                    error,
                },
            );
            self.pending_events.push_back(action);
            assert(self.pending_events@.map_values(|a: BehaviourAction| a@) =~= before.map_values(
                |a: BehaviourAction| a@,
            ).push(action@));
            assert(outbound_failures(peer_id@, ids@.take(i + 1), error) =~= outbound_failures(
                peer_id@,
                ids@.take(i as int),
                error,
            ).push(action@));
            i = i + 1;
        }
        assert(ids@.take(ids.len() as int) =~= ids@);
    }

    /// Pushes one event per request identifier, reporting an inbound failure.
    fn push_inbound_failures(&mut self, peer_id: &Vec<u8>, ids: &Vec<RequestId>, error: InboundFailure)
        ensures
            final(self)@ == (FileGetView {
                pending_events: old(self)@.pending_events + inbound_failures(peer_id@, ids@, error),
                ..old(self)@
            }),
    {
        let mut i: usize = 0;
        while i < ids.len()
            invariant
                i <= ids.len(),
                self@ == (FileGetView {
                    pending_events: old(self)@.pending_events + inbound_failures(
                        peer_id@,
                        ids@.take(i as int),
                        error,
                    ),
                    ..old(self)@
                }),
            decreases ids.len() - i,
        {
            let ghost before = self.pending_events@;
            let action = BehaviourAction::GenerateEvent(
                FileGetEvent::InboundFailure {
                    peer_id: bytes_copy(peer_id),
                    request_id: ids[i],
                    error,
                },
            );
            self.pending_events.push_back(action);
            assert(self.pending_events@.map_values(|a: BehaviourAction| a@) =~= before.map_values(
                |a: BehaviourAction| a@,
            ).push(action@));
            assert(inbound_failures(peer_id@, ids@.take(i + 1), error) =~= inbound_failures(
                peer_id@,
                ids@.take(i as int),
                error,
            ).push(action@));
            i = i + 1;
        }
        assert(ids@.take(ids.len() as int) =~= ids@);
    }

    /// Applies the change to the first connection with the given number of the peer, if
    /// there is one, and tells whether a removed request was pending.
    fn change_peer_connection(&mut self, peer_id: &Vec<u8>, connection_id: usize, change: ConnectionChange) -> (r: bool)
        requires
            old(self).wf(),
        ensures
            final(self).wf(),
            (final(self)@, r) == change_peer_connection(old(self)@, peer_id@, connection_id, change),
    {
        match self.locate_connection(peer_id, connection_id) {
            None => false,
            Some((k, j)) => self.change_connection(k, j, change),
        }
    }

    /// Whether the peer has an established connection with the given number.
    pub fn has_connection(&self, peer_id: &Vec<u8>, connection_id: usize) -> (r: bool)
        requires
            self.wf(),
        ensures
            r == has_connection(self@, peer_id@, connection_id),
    {
        self.locate_connection(peer_id, connection_id).is_some()
    }

    /// Whether the request was pending on the connection as one of ours waiting for a
    /// response; it is no longer.
    pub fn remove_pending_inbound_response(
        &mut self,
        peer_id: &Vec<u8>,
        connection_id: usize,
        request_id: RequestId,
    ) -> (r: bool)
        requires
            old(self).wf(),
        ensures
            final(self).wf(),
            (final(self)@, r) == change_peer_connection(
                old(self)@,
                peer_id@,
                connection_id,
                ConnectionChange::RemovePendingInbound(request_id),
            ),
    {
        self.change_peer_connection(
            peer_id,
            connection_id,
            ConnectionChange::RemovePendingInbound(request_id),
        )
    }

    /// Whether the request was pending on the connection as one of the peer's waiting for
    /// our response; it is no longer.
    pub fn remove_pending_outbound_response(
        &mut self,
        peer_id: &Vec<u8>,
        connection_id: usize,
        request_id: RequestId,
    ) -> (r: bool)
        requires
            old(self).wf(),
        ensures
            final(self).wf(),
            (final(self)@, r) == change_peer_connection(
                old(self)@,
                peer_id@,
                connection_id,
                ConnectionChange::RemovePendingOutbound(request_id),
            ),
    {
        self.change_peer_connection(
            peer_id,
            connection_id,
            ConnectionChange::RemovePendingOutbound(request_id),
        )
    }

    /// A new connection to a peer. `address` is the dialed address, `None` when the peer
    /// dialed us; `other_established` counts the other connections to the peer.
    pub fn on_connection_established(
        &mut self,
        peer_id: &Vec<u8>,
        connection_id: usize,
        address: Option<Vec<u8>>,
        other_established: usize,
    )
        requires
            old(self).wf(),
        ensures
            final(self).wf(),
            final(self)@ == connection_established_spec(
                old(self)@,
                peer_id@,
                ConnectionView {
                    id: connection_id,
                    address: address_view(address),
                    pending_outbound_responses: Seq::empty(),
                    pending_inbound_responses: Seq::empty(),
                },
                other_established,
            ),
    {
        push_item(&mut self.connected, peer_id, Connection::new(connection_id, address));
        if other_established == 0 {
            let ghost v1 = self@;
            match find_peer(&self.pending_outbound_requests, peer_id) {
                None => {},
                Some(k) => {
                    let ghost pv = self@.pending_outbound_requests;
                    let entry = self.pending_outbound_requests.remove(k);
                    proof {
                        assert(entries_view(self.pending_outbound_requests@) =~= pv.remove(k as int));
                        assert forall|a: int, b: int|
                            0 <= a < self@.pending_outbound_requests.len() && 0 <= b
                                < self@.pending_outbound_requests.len() && a != b implies (
                        #[trigger] self@.pending_outbound_requests[a]).0 != (
                        #[trigger] self@.pending_outbound_requests[b]).0 by {
                            let a2 = if a < k { a } else { a + 1 };
                            let b2 = if b < k { b } else { b + 1 };
                            assert(pv[a2].0 != pv[b2].0);
                        }
                    }
                    let ghost all = pv[k as int].1;
                    let mut requests = entry.items;
                    let ghost start = self@;
                    assert(requests@.map_values(|r: OutboundRequest| r@) == all);
                    assert(all.skip(0) =~= all);
                    let ghost mut i: int = 0;
                    while requests.len() > 0
                        invariant
                            self.wf(),
                            requests@.map_values(|r: OutboundRequest| r@) == all.skip(i),
                            0 <= i <= all.len(),
                            dispatch_all(start, peer_id@, all) == dispatch_all(
                                self@,
                                peer_id@,
                                all.skip(i),
                            ),
                        decreases requests.len(),
                    {
                        let ghost rv = requests@.map_values(|r: OutboundRequest| r@);
                        let request = requests.remove(0);
                        assert(rv[0] == request@);
                        assert(requests@.map_values(|r: OutboundRequest| r@) =~= rv.drop_first());
                        assert(all.skip(i).drop_first() =~= all.skip(i + 1));
                        let _ = self.try_send_request(peer_id, request);
                        proof {
                            i = i + 1;
                        }
                    }
                    assert(all.skip(i).len() == 0);
                },
            }
        }
    }

    /// Takes connection `j` of the peer at position `k` out of the table; the peer leaves
    /// the table with its last connection.
    fn take_connection(&mut self, k: usize, j: usize) -> (c: Connection)
        requires
            old(self).wf(),
            k < old(self)@.connected.len(),
            j < old(self)@.connected[k as int].1.len(),
        ensures
            final(self).wf(),
            c@ == old(self)@.connected[k as int].1[j as int],
            final(self)@ == (FileGetView {
                connected: if old(self)@.connected[k as int].1.remove(j as int).len() == 0 {
                    old(self)@.connected.remove(k as int)
                } else {
                    old(self)@.connected.update(
                        k as int,
                        (old(self)@.connected[k as int].0, old(self)@.connected[k as int].1.remove(j as int)),
                    )
                },
                ..old(self)@
            }),
    {
        let ghost cv = self@.connected;
        let mut entry = self.connected.remove(k);
        let conn = entry.items.remove(j);
        assert(entry.items@.map_values(|c: Connection| c@) =~= cv[k as int].1.remove(j as int));
        if entry.items.len() == 0 {
            proof {
                assert(entries_view(self.connected@) =~= cv.remove(k as int));
                assert forall|a: int, b: int|
                    0 <= a < self@.connected.len() && 0 <= b < self@.connected.len() && a != b implies (
                #[trigger] self@.connected[a]).0 != (#[trigger] self@.connected[b]).0 by {
                    let a2 = if a < k { a } else { a + 1 };
                    let b2 = if b < k { b } else { b + 1 };
                    assert(cv[a2].0 != cv[b2].0);
                }
            }
        } else {
            self.connected.insert(k, entry);
            proof {
                lemma_remove_insert(old(self).connected@, k as int, entry);
                lemma_entries_view_update(old(self).connected@, k as int, entry);
                assert forall|a: int, b: int|
                    0 <= a < self@.connected.len() && 0 <= b < self@.connected.len() && a != b implies (
                #[trigger] self@.connected[a]).0 != (#[trigger] self@.connected[b]).0 by {
                    assert(cv[a].0 != cv[b].0);
                }
            }
        }
        conn
    }

    /// A connection to a peer closed.
    pub fn on_connection_closed(&mut self, peer_id: &Vec<u8>, connection_id: usize)
        requires
            old(self).wf(),
            has_connection(old(self)@, peer_id@, connection_id),
        ensures
            final(self).wf(),
            final(self)@ == connection_closed_spec(old(self)@, peer_id@, connection_id),
    {
        let (k, j) = match self.locate_connection(peer_id, connection_id) {
            Some(pos) => pos,
            None => { return; },
        };
        let conn = self.take_connection(k, j);
        self.push_inbound_failures(peer_id, &conn.pending_outbound_responses, InboundFailure::ConnectionClosed);
        self.push_outbound_failures(peer_id, &conn.pending_inbound_responses, OutboundFailure::ConnectionClosed);
    }

    /// The address of a connection changed. `new_address` is the dialed address, `None`
    /// when the peer dialed us.
    pub fn on_address_change(&mut self, peer_id: &Vec<u8>, connection_id: usize, new_address: Option<Vec<u8>>)
        requires
            old(self).wf(),
            has_connection(old(self)@, peer_id@, connection_id),
        ensures
            final(self).wf(),
            final(self)@ == change_peer_connection(
                old(self)@,
                peer_id@,
                connection_id,
                ConnectionChange::SetAddress(new_address),
            ).0,
    {
        self.change_peer_connection(peer_id, connection_id, ConnectionChange::SetAddress(new_address));
    }

    /// Dialing a peer failed (`peer_id` is `None` when the dial had no peer in view).
    pub fn on_dial_failure(&mut self, peer_id: Option<&Vec<u8>>)
        requires
            old(self).wf(),
        ensures
            final(self).wf(),
            final(self)@ == dial_failure_spec(
                old(self)@,
                match peer_id {
                    Some(p) => Some(p@),
                    None => None,
                },
            ),
    {
        if let Some(peer_id) = peer_id {
            match find_peer(&self.pending_outbound_requests, peer_id) {
                None => {},
                Some(k) => {
                    let ghost pv = self@.pending_outbound_requests;
                    let entry = self.pending_outbound_requests.remove(k);
                    proof {
                        assert(entries_view(self.pending_outbound_requests@) =~= pv.remove(k as int));
                        assert forall|a: int, b: int|
                            0 <= a < self@.pending_outbound_requests.len() && 0 <= b
                                < self@.pending_outbound_requests.len() && a != b implies (
                        #[trigger] self@.pending_outbound_requests[a]).0 != (
                        #[trigger] self@.pending_outbound_requests[b]).0 by {
                            let a2 = if a < k { a } else { a + 1 };
                            let b2 = if b < k { b } else { b + 1 };
                            assert(pv[a2].0 != pv[b2].0);
                        }
                    }
                    let mut ids: Vec<RequestId> = Vec::new();
                    let mut i: usize = 0;
                    while i < entry.items.len()
                        invariant
                            i <= entry.items.len(),
                            ids@ == entry.items@.map_values(|r: OutboundRequest| r@.request_id).take(i as int),
                        decreases entry.items.len() - i,
                    {
                        ids.push(entry.items[i].request_id);
                        i = i + 1;
                        assert(ids@ =~= entry.items@.map_values(|r: OutboundRequest| r@.request_id).take(i as int));
                    }
                    assert(ids@ =~= pv[k as int].1.map_values(|r: OutboundRequestView| r.request_id));
                    self.push_outbound_failures(peer_id, &ids, OutboundFailure::DialFailure);
                },
            }
        }
    }

    /// The next action for the network, if any, taken out of the queue.
    pub fn poll(&mut self) -> (r: Option<BehaviourAction>)
        requires
            old(self).wf(),
        ensures
            final(self).wf(),
            match r {
                Some(a) => old(self)@.pending_events.len() > 0 && a@ == old(self)@.pending_events[0]
                    && final(self)@ == (FileGetView {
                    pending_events: old(self)@.pending_events.drop_first(),
                    ..old(self)@
                }),
                None => old(self)@.pending_events.len() == 0 && final(self)@ == old(self)@,
            },
    {
        let ghost before = self.pending_events@;
        let r = self.pending_events.pop_front();
        assert(self.pending_events@.map_values(|a: BehaviourAction| a@) =~= before.map_values(
            |a: BehaviourAction| a@,
        ).drop_first() || r is None);
        r
    }
}

} // verus!

verus! {

/// The behaviour after an event of the handler of one of the peer's connections: the
/// request or response is recorded on the connection (or removed from it) and reported
/// to the application.
pub open spec fn handler_event_spec(
    v: FileGetView,
    peer_id: Seq<u8>,
    connection_id: usize,
    event: FileGetHandlerEventView,
) -> FileGetView {
    let report = |v: FileGetView, e: FileGetEventView|
        FileGetView {
            pending_events: v.pending_events.push(BehaviourActionView::GenerateEvent(e)),
            ..v
        };
    match event {
        FileGetHandlerEventView::Request { request_id, file_name } => {
            let v1 = report(
                v,
                FileGetEventView::RequestReceived { peer_id, request_id, file_name },
            );
            if has_connection(v1, peer_id, connection_id) {
                change_peer_connection(
                    v1,
                    peer_id,
                    connection_id,
                    ConnectionChange::AddPendingOutbound(request_id),
                ).0
            } else {
                report(
                    v1,
                    FileGetEventView::InboundFailure {
                        peer_id,
                        request_id,
                        error: InboundFailure::ConnectionClosed,
                    },
                )
            }
        },
        FileGetHandlerEventView::Response(request_id) => report(
            change_peer_connection(
                v,
                peer_id,
                connection_id,
                ConnectionChange::RemovePendingInbound(request_id),
            ).0,
            FileGetEventView::ResponseReceived { peer_id, request_id },
        ),
        FileGetHandlerEventView::ResponseSent(request_id) => report(
            change_peer_connection(
                v,
                peer_id,
                connection_id,
                ConnectionChange::RemovePendingOutbound(request_id),
            ).0,
            FileGetEventView::ResponseSent { peer_id, request_id },
        ),
        FileGetHandlerEventView::ResponseOmission(request_id) => report(
            change_peer_connection(
                v,
                peer_id,
                connection_id,
                ConnectionChange::RemovePendingOutbound(request_id),
            ).0,
            FileGetEventView::InboundFailure {
                peer_id,
                request_id,
                error: InboundFailure::ResponseOmission,
            },
        ),
        FileGetHandlerEventView::OutboundTimeout(request_id) => report(
            change_peer_connection(
                v,
                peer_id,
                connection_id,
                ConnectionChange::RemovePendingInbound(request_id),
            ).0,
            FileGetEventView::OutboundFailure {
                peer_id,
                request_id,
                error: OutboundFailure::Timeout,
            },
        ),
        FileGetHandlerEventView::OutboundUnsupportedProtocols(request_id) => report(
            change_peer_connection(
                v,
                peer_id,
                connection_id,
                ConnectionChange::RemovePendingInbound(request_id),
            ).0,
            FileGetEventView::OutboundFailure {
                peer_id,
                request_id,
                error: OutboundFailure::UnsupportedProtocols,
            },
        ),
        FileGetHandlerEventView::InboundTimeout(request_id) => report(
            change_peer_connection(
                v,
                peer_id,
                connection_id,
                ConnectionChange::RemovePendingOutbound(request_id),
            ).0,
            FileGetEventView::InboundFailure {
                peer_id,
                request_id,
                error: InboundFailure::Timeout,
            },
        ),
        FileGetHandlerEventView::InboundUnsupportedProtocols(request_id) => report(
            change_peer_connection(
                v,
                peer_id,
                connection_id,
                ConnectionChange::RemovePendingOutbound(request_id),
            ).0,
            FileGetEventView::InboundFailure {
                peer_id,
                request_id,
                error: InboundFailure::UnsupportedProtocols,
            },
        ),
    }
}

impl FileGet {
    /// Reports the event to the application.
    fn report(&mut self, event: FileGetEvent)
        requires
            old(self).wf(),
        ensures
            final(self).wf(),
            final(self)@ == (FileGetView {
                pending_events: old(self)@.pending_events.push(
                    BehaviourActionView::GenerateEvent(event@),
                ),
                ..old(self)@
            }),
    {
        let ghost before = self.pending_events@;
        let action = BehaviourAction::GenerateEvent(event);
        self.pending_events.push_back(action);
        assert(self.pending_events@.map_values(|a: BehaviourAction| a@) =~= before.map_values(
            |a: BehaviourAction| a@,
        ).push(action@));
    }

    /// A handler for a new connection.
    pub fn new_handler(&self) -> (r: Handler)
        ensures
            r@ == (HandlerView {
                timeout: self@.timeout,
                keep_alive: KeepAlive::Yes,
                pending_events: Seq::empty(),
                outbound: Seq::empty(),
                pending_error: false,
            }),
    {
        Handler::new(self.config.timeout)
    }

    /// An event of the handler of one of the peer's connections.
    pub fn on_connection_handler_event(
        &mut self,
        peer_id: &Vec<u8>,
        connection_id: usize,
        event: FileGetHandlerEvent,
    )
        requires
            old(self).wf(),
        ensures
            final(self).wf(),
            final(self)@ == handler_event_spec(old(self)@, peer_id@, connection_id, event@),
    {
        match event {
            FileGetHandlerEvent::Request { request_id, message } => {
                self.report(
                    FileGetEvent::RequestReceived {
                        peer_id: bytes_copy(peer_id),
                        request_id,
                        message,
                    },
                );
                match self.locate_connection(peer_id, connection_id) {
                    Some((k, j)) => {
                        self.change_connection(
                            k,
                            j,
                            ConnectionChange::AddPendingOutbound(request_id),
                        );
                    },
                    None => {
                        self.report(
                            FileGetEvent::InboundFailure {
                                peer_id: bytes_copy(peer_id),
                                request_id,
                                error: InboundFailure::ConnectionClosed,
                            },
                        );
                    },
                }
            },
            FileGetHandlerEvent::Response(request_id) => {
                self.remove_pending_inbound_response(peer_id, connection_id, request_id);
                self.report(
                    FileGetEvent::ResponseReceived { peer_id: bytes_copy(peer_id), request_id },
                );
            },
            FileGetHandlerEvent::ResponseSent(request_id) => {
                self.remove_pending_outbound_response(peer_id, connection_id, request_id);
                self.report(FileGetEvent::ResponseSent { peer_id: bytes_copy(peer_id), request_id });
            },
            FileGetHandlerEvent::ResponseOmission(request_id) => {
                self.remove_pending_outbound_response(peer_id, connection_id, request_id);
                self.report(
                    FileGetEvent::InboundFailure {
                        peer_id: bytes_copy(peer_id),
                        request_id,
                        error: InboundFailure::ResponseOmission,
                    },
                );
            },
            FileGetHandlerEvent::OutboundTimeout(request_id) => {
                self.remove_pending_inbound_response(peer_id, connection_id, request_id);
                self.report(
                    FileGetEvent::OutboundFailure {
                        peer_id: bytes_copy(peer_id),
                        request_id,
                        error: OutboundFailure::Timeout,
                    },
                );
            },
            FileGetHandlerEvent::OutboundUnsupportedProtocols(request_id) => {
                self.remove_pending_inbound_response(peer_id, connection_id, request_id);
                self.report(
                    FileGetEvent::OutboundFailure {
                        peer_id: bytes_copy(peer_id),
                        request_id,
                        error: OutboundFailure::UnsupportedProtocols,
                    },
                );
            },
            FileGetHandlerEvent::InboundTimeout(request_id) => {
                self.remove_pending_outbound_response(peer_id, connection_id, request_id);
                self.report(
                    FileGetEvent::InboundFailure {
                        peer_id: bytes_copy(peer_id),
                        request_id,
                        error: InboundFailure::Timeout,
                    },
                );
            },
            FileGetHandlerEvent::InboundUnsupportedProtocols(request_id) => {
                self.remove_pending_outbound_response(peer_id, connection_id, request_id);
                self.report(
                    FileGetEvent::InboundFailure {
                        peer_id: bytes_copy(peer_id),
                        request_id,
                        error: InboundFailure::UnsupportedProtocols,
                    },
                );
            },
        }
    }
}

} // verus!

verus! {

/// Whether the action hands the request to a handler of the peer.
pub open spec fn notifies(a: BehaviourActionView, peer_id: Seq<u8>, request: OutboundRequestView) -> bool {
    a matches BehaviourActionView::NotifyHandler { peer_id: p, request: r, .. } && p == peer_id
        && r == request
}

/// Whether the peer has at least one connection.
pub open spec fn is_connected(v: FileGetView, peer_id: Seq<u8>) -> bool {
    has_key(v.connected, peer_id) && v.connected[key_index(v.connected, peer_id)].1.len() > 0
}

proof fn lemma_dispatch_connected(v: FileGetView, peer_id: Seq<u8>, request: OutboundRequestView)
    requires
        v.wf(),
        is_connected(v, peer_id),
    ensures
        dispatch(v, peer_id, request) is Some,
        ({
            let w = dispatch(v, peer_id, request).unwrap();
            &&& w.wf()
            &&& is_connected(w, peer_id)
            &&& w.pending_outbound_requests == v.pending_outbound_requests
            &&& w.pending_events.len() == v.pending_events.len() + 1
            &&& w.pending_events.drop_last() == v.pending_events
            &&& notifies(w.pending_events.last(), peer_id, request)
        }),
{
    let w = dispatch(v, peer_id, request).unwrap();
    let k = key_index(v.connected, peer_id);
    assert(w.connected[k].0 == peer_id);
    assert forall|a: int, b: int|
        0 <= a < w.connected.len() && 0 <= b < w.connected.len() && a != b implies (
    #[trigger] w.connected[a]).0 != (#[trigger] w.connected[b]).0 by {
        assert(v.connected[a].0 != v.connected[b].0);
    }
    let k2 = key_index(w.connected, peer_id);
    assert(w.connected[k2].0 == peer_id);
    assert(k2 == k);
    assert(w.connected[k].1.len() == v.connected[k].1.len());
    assert(is_connected(w, peer_id));
    assert(w.pending_events.drop_last() =~= v.pending_events);
    assert(notifies(w.pending_events.last(), peer_id, request));
    assert(w.wf());
}

/// When the first connection to a peer is established, every request that waited for it
/// is handed to a handler of that peer, in order, and none waits any longer.
pub proof fn lemma_first_connection_sends_waiting_requests(
    v: FileGetView,
    peer_id: Seq<u8>,
    connection: ConnectionView,
)
    requires
        v.wf(),
        connection.pending_outbound_responses.no_duplicates(),
        connection.pending_inbound_responses.no_duplicates(),
    ensures
        ({
            let w = connection_established_spec(v, peer_id, connection, 0);
            let waiting = if has_key(v.pending_outbound_requests, peer_id) {
                v.pending_outbound_requests[key_index(v.pending_outbound_requests, peer_id)].1
            } else {
                Seq::empty()
            };
            &&& w.wf()
            &&& !has_key(w.pending_outbound_requests, peer_id)
            &&& w.pending_events.len() == v.pending_events.len() + waiting.len()
            &&& w.pending_events.take(v.pending_events.len() as int) == v.pending_events
            &&& forall|i: int|
                0 <= i < waiting.len() ==> notifies(
                    #[trigger] w.pending_events[v.pending_events.len() + i],
                    peer_id,
                    waiting[i],
                )
        }),
{
    let v1 = FileGetView { connected: append_item(v.connected, peer_id, connection), ..v };
    assert(v1.wf()) by {
        lemma_append_item(v.connected, peer_id, connection);
        let t = v1.connected;
        assert forall|a: int, b: int| 0 <= a < t.len() && 0 <= b < t[a].1.len() implies {
            &&& (#[trigger] t[a].1[b]).pending_outbound_responses.no_duplicates()
            &&& t[a].1[b].pending_inbound_responses.no_duplicates()
        } by {
            if t[a].1[b] != connection {
                assert(t[a].1[b] == v.connected[a].1[b]);
            }
        }
    }
    assert(is_connected(v1, peer_id)) by {
        if has_key(v.connected, peer_id) {
            let k = key_index(v.connected, peer_id);
            assert(v1.connected[k].0 == peer_id);
            let k2 = key_index(v1.connected, peer_id);
            assert(v1.connected[k2].0 == peer_id);
            assert(k2 == k);
        } else {
            let k = v.connected.len() as int;
            assert(v1.connected[k].0 == peer_id);
            let k2 = key_index(v1.connected, peer_id);
            assert(v1.connected[k2].0 == peer_id);
            assert(k2 == k);
        }
    }
    if has_key(v1.pending_outbound_requests, peer_id) {
        let k = key_index(v1.pending_outbound_requests, peer_id);
        let waiting = v1.pending_outbound_requests[k].1;
        let v2 = FileGetView {
            pending_outbound_requests: v1.pending_outbound_requests.remove(k),
            ..v1
        };
        assert(v2.wf()) by {
            let t = v1.pending_outbound_requests;
            assert forall|a: int, b: int|
                0 <= a < v2.pending_outbound_requests.len() && 0 <= b
                    < v2.pending_outbound_requests.len() && a != b implies (
            #[trigger] v2.pending_outbound_requests[a]).0 != (
            #[trigger] v2.pending_outbound_requests[b]).0 by {
                let a2 = if a < k { a } else { a + 1 };
                let b2 = if b < k { b } else { b + 1 };
                assert(t[a2].0 != t[b2].0);
            }
        }
        assert(!has_key(v2.pending_outbound_requests, peer_id)) by {
            let t = v1.pending_outbound_requests;
            if has_key(v2.pending_outbound_requests, peer_id) {
                let a = choose|a: int|
                    0 <= a < v2.pending_outbound_requests.len() && (
                    #[trigger] v2.pending_outbound_requests[a]).0 == peer_id;
                let a2 = if a < k { a } else { a + 1 };
                assert(t[a2].0 == peer_id);
                assert(t[k].0 == peer_id);
            }
        }
        lemma_dispatch_all_connected(v2, peer_id, waiting);
    } else {
        assert(v1.pending_events.take(v.pending_events.len() as int) =~= v.pending_events);
    }
}

proof fn lemma_dispatch_all_connected(v: FileGetView, peer_id: Seq<u8>, requests: Seq<OutboundRequestView>)
    requires
        v.wf(),
        is_connected(v, peer_id),
    ensures
        ({
            let w = dispatch_all(v, peer_id, requests);
            &&& w.wf()
            &&& w.pending_outbound_requests == v.pending_outbound_requests
            &&& w.pending_events.len() == v.pending_events.len() + requests.len()
            &&& w.pending_events.take(v.pending_events.len() as int) == v.pending_events
            &&& forall|i: int|
                0 <= i < requests.len() ==> notifies(
                    #[trigger] w.pending_events[v.pending_events.len() + i],
                    peer_id,
                    requests[i],
                )
        }),
    decreases requests.len(),
{
    if requests.len() == 0 {
        assert(v.pending_events.take(v.pending_events.len() as int) =~= v.pending_events);
    } else {
        lemma_dispatch_connected(v, peer_id, requests[0]);
        let u = dispatch(v, peer_id, requests[0]).unwrap();
        let rest = requests.drop_first();
        lemma_dispatch_all_connected(u, peer_id, rest);
        let w = dispatch_all(v, peer_id, requests);
        assert(w == dispatch_all(u, peer_id, rest));
        let n: int = v.pending_events.len() as int;
        assert(w.pending_events.take(n + 1) == u.pending_events);
        assert(w.pending_events.take(n) =~= u.pending_events.take(n));
        assert(u.pending_events.take(n) =~= v.pending_events);
        assert forall|i: int| 0 <= i < requests.len() implies notifies(
            #[trigger] w.pending_events[n + i],
            peer_id,
            requests[i],
        ) by {
            if i == 0 {
                assert(w.pending_events[n] == u.pending_events[n]);
            } else {
                assert(w.pending_events[(n + 1) + (i - 1)] == w.pending_events[n + i]);
                assert(rest[i - 1] == requests[i]);
            }
        }
    }
}

/// After a failed dial to a peer, no request waits for a connection to it.
pub proof fn lemma_dial_failure_clears_waiting(v: FileGetView, peer_id: Seq<u8>)
    requires
        v.wf(),
    ensures
        !has_key(dial_failure_spec(v, Some(peer_id)).pending_outbound_requests, peer_id),
{
    if has_key(v.pending_outbound_requests, peer_id) {
        let t = v.pending_outbound_requests;
        let k = key_index(t, peer_id);
        let r = t.remove(k);
        if has_key(r, peer_id) {
            let a = choose|a: int| 0 <= a < r.len() && (#[trigger] r[a]).0 == peer_id;
            let a2 = if a < k { a } else { a + 1 };
            assert(t[a2].0 == peer_id);
            assert(t[k].0 == peer_id);
        }
    }
}

/// A request to a connected peer is handed to one of its handlers at once; a request to
/// a peer without connection makes the network dial the peer, and waits for it.
pub proof fn lemma_send_request_routes(v: FileGetView, peer_id: Seq<u8>, request: OutboundRequestView)
    requires
        v.wf(),
    ensures
        ({
            let w = send_request_spec(v, peer_id, request);
            &&& w.pending_events.len() == v.pending_events.len() + 1
            &&& if is_connected(v, peer_id) {
                &&& notifies(w.pending_events.last(), peer_id, request)
                &&& w.pending_outbound_requests == v.pending_outbound_requests
            } else {
                &&& w.pending_events.last() == BehaviourActionView::Dial { peer_id }
                &&& w.pending_outbound_requests == append_item(
                    v.pending_outbound_requests,
                    peer_id,
                    request,
                )
            }
        }),
{
    if is_connected(v, peer_id) {
        lemma_dispatch_connected(v, peer_id, request);
    }
}

} // verus!

verus! {

proof fn lemma_first_with_id(conns: Seq<ConnectionView>, id: usize, j: int)
    requires
        0 <= j < conns.len(),
        conns[j].id == id,
    ensures
        exists|w: int|
            0 <= w < conns.len() && (#[trigger] conns[w]).id == id && forall|m: int|
                0 <= m < w ==> (#[trigger] conns[m]).id != id,
    decreases j,
{
    if exists|m: int| 0 <= m < j && (#[trigger] conns[m]).id == id {
        let m = choose|m: int| 0 <= m < j && (#[trigger] conns[m]).id == id;
        lemma_first_with_id(conns, id, m);
    } else {
        assert(forall|m: int| 0 <= m < j ==> (#[trigger] conns[m]).id != id);
        assert(0 <= j < conns.len() && conns[j].id == id && forall|m: int|
            0 <= m < j ==> (#[trigger] conns[m]).id != id);
    }
}

/// `conn_position` finds the first connection with the number, or tells that none has it.
proof fn lemma_conn_position(conns: Seq<ConnectionView>, id: usize)
    ensures
        match conn_position(conns, id) {
            Some(j) => 0 <= j < conns.len() && conns[j].id == id && forall|m: int|
                0 <= m < j ==> (#[trigger] conns[m]).id != id,
            None => forall|j: int| 0 <= j < conns.len() ==> (#[trigger] conns[j]).id != id,
        },
{
    if exists|j: int| 0 <= j < conns.len() && (#[trigger] conns[j]).id == id {
        let j = choose|j: int| 0 <= j < conns.len() && (#[trigger] conns[j]).id == id;
        lemma_first_with_id(conns, id, j);
    }
}

proof fn lemma_conn_position_same_ids(a: Seq<ConnectionView>, b: Seq<ConnectionView>, id: usize)
    requires
        a.len() == b.len(),
        forall|j: int| 0 <= j < a.len() ==> (#[trigger] a[j]).id == b[j].id,
    ensures
        conn_position(a, id) == conn_position(b, id),
{
    lemma_conn_position(a, id);
    lemma_conn_position(b, id);
    match conn_position(a, id) {
        Some(ja) => {
            assert(b[ja].id == id);
            let jb = conn_position(b, id).unwrap();
            if jb < ja {
                assert(a[jb].id == id);
            } else if ja < jb {
                assert(b[ja].id == id);
            }
        },
        None => {
            if conn_position(b, id) is Some {
                let jb = conn_position(b, id).unwrap();
                assert(a[jb].id == id);
            }
        },
    }
}

/// The first connection with the given number of the peer (meaningful when the peer has
/// one).
pub open spec fn connection_of(v: FileGetView, peer_id: Seq<u8>, connection_id: usize) -> ConnectionView {
    let conns = v.connected[key_index(v.connected, peer_id)].1;
    conns[conn_position(conns, connection_id).unwrap()]
}

/// A change to an established connection changes that connection alone.
proof fn lemma_change_peer_connection_at(
    v: FileGetView,
    peer_id: Seq<u8>,
    connection_id: usize,
    change: ConnectionChange,
)
    requires
        v.wf(),
        has_connection(v, peer_id, connection_id),
    ensures
        ({
            let w = change_peer_connection(v, peer_id, connection_id, change).0;
            &&& w.wf()
            &&& has_connection(w, peer_id, connection_id)
            &&& connection_of(w, peer_id, connection_id) == change_connection(
                connection_of(v, peer_id, connection_id),
                change,
            ).0
            &&& w.pending_events == v.pending_events
            &&& w.pending_outbound_requests == v.pending_outbound_requests
            &&& w.addresses == v.addresses
        }),
{
    let k = key_index(v.connected, peer_id);
    let conns = v.connected[k].1;
    lemma_conn_position(conns, connection_id);
    let j = conn_position(conns, connection_id).unwrap();
    let w = change_peer_connection(v, peer_id, connection_id, change).0;
    lemma_change_connection_at_wf(v, k, j, change);
    assert(w.connected[k].0 == peer_id);
    let k2 = key_index(w.connected, peer_id);
    assert(w.connected[k2].0 == peer_id);
    assert(k2 == k);
    let wc = w.connected[k].1;
    assert(wc == conns.update(j, change_connection(conns[j], change).0));
    assert forall|m: int| 0 <= m < conns.len() implies (#[trigger] conns[m]).id == wc[m].id by {}
    lemma_conn_position_same_ids(conns, wc, connection_id);
}

/// The connection's own requests are those of `before` but `id`; the peer's are untouched.
pub open spec fn drops_our_request(before: ConnectionView, after: ConnectionView, id: RequestId) -> bool {
    &&& forall|x: RequestId|
        #[trigger] after.pending_inbound_responses.contains(x) <==> (
        before.pending_inbound_responses.contains(x) && x != id)
    &&& after.pending_outbound_responses == before.pending_outbound_responses
}

/// The peer's requests on the connection are those of `before` but `id`; ours are
/// untouched.
pub open spec fn drops_peer_request(before: ConnectionView, after: ConnectionView, id: RequestId) -> bool {
    &&& forall|x: RequestId|
        #[trigger] after.pending_outbound_responses.contains(x) <==> (
        before.pending_outbound_responses.contains(x) && x != id)
    &&& after.pending_inbound_responses == before.pending_inbound_responses
}

/// What the behaviour does with an event of the handler of an established connection.
/// The event is reported to the application, and the connection's bookkeeping follows
/// it: a request of the peer joins the peer's requests that wait for our response; the
/// response to our request, or its timeout or refused protocol, takes our request off the
/// connection (`Response`, `OutboundTimeout`, `OutboundUnsupportedProtocols`, reported as
/// a received response or an outbound failure); our response sent, or not sent, timed
/// out or refused, takes the peer's request off (reported as a sent response or an
/// inbound failure). Nothing else changes.
pub proof fn lemma_handler_event_bookkeeping(
    v: FileGetView,
    peer_id: Seq<u8>,
    connection_id: usize,
    event: FileGetHandlerEventView,
)
    requires
        v.wf(),
        has_connection(v, peer_id, connection_id),
    ensures
        ({
            let w = handler_event_spec(v, peer_id, connection_id, event);
            let before = connection_of(v, peer_id, connection_id);
            let after = connection_of(w, peer_id, connection_id);
            let reported = |e: FileGetEventView|
                w.pending_events == v.pending_events.push(BehaviourActionView::GenerateEvent(e));
            &&& has_connection(w, peer_id, connection_id)
            &&& after.id == before.id
            &&& after.address == before.address
            &&& w.pending_outbound_requests == v.pending_outbound_requests
            &&& w.addresses == v.addresses
            &&& match event {
                FileGetHandlerEventView::Request { request_id, file_name } => {
                    &&& reported(
                        FileGetEventView::RequestReceived { peer_id, request_id, file_name },
                    )
                    &&& forall|x: RequestId|
                        #[trigger] after.pending_outbound_responses.contains(x) <==> (
                        before.pending_outbound_responses.contains(x) || x == request_id)
                    &&& after.pending_inbound_responses == before.pending_inbound_responses
                },
                FileGetHandlerEventView::Response(id) => {
                    &&& reported(FileGetEventView::ResponseReceived { peer_id, request_id: id })
                    &&& drops_our_request(before, after, id)
                },
                FileGetHandlerEventView::OutboundTimeout(id) => {
                    &&& reported(
                        FileGetEventView::OutboundFailure {
                            peer_id,
                            request_id: id,
                            error: OutboundFailure::Timeout,
                        },
                    )
                    &&& drops_our_request(before, after, id)
                },
                FileGetHandlerEventView::OutboundUnsupportedProtocols(id) => {
                    &&& reported(
                        FileGetEventView::OutboundFailure {
                            peer_id,
                            request_id: id,
                            error: OutboundFailure::UnsupportedProtocols,
                        },
                    )
                    &&& drops_our_request(before, after, id)
                },
                FileGetHandlerEventView::ResponseSent(id) => {
                    &&& reported(FileGetEventView::ResponseSent { peer_id, request_id: id })
                    &&& drops_peer_request(before, after, id)
                },
                FileGetHandlerEventView::ResponseOmission(id) => {
                    &&& reported(
                        FileGetEventView::InboundFailure {
                            peer_id,
                            request_id: id,
                            error: InboundFailure::ResponseOmission,
                        },
                    )
                    &&& drops_peer_request(before, after, id)
                },
                FileGetHandlerEventView::InboundTimeout(id) => {
                    &&& reported(
                        FileGetEventView::InboundFailure {
                            peer_id,
                            request_id: id,
                            error: InboundFailure::Timeout,
                        },
                    )
                    &&& drops_peer_request(before, after, id)
                },
                FileGetHandlerEventView::InboundUnsupportedProtocols(id) => {
                    &&& reported(
                        FileGetEventView::InboundFailure {
                            peer_id,
                            request_id: id,
                            error: InboundFailure::UnsupportedProtocols,
                        },
                    )
                    &&& drops_peer_request(before, after, id)
                },
            }
        }),
{
    let before = connection_of(v, peer_id, connection_id);
    match event {
        FileGetHandlerEventView::Request { request_id, file_name } => {
            let change = ConnectionChange::AddPendingOutbound(request_id);
            let v1 = FileGetView {
                pending_events: v.pending_events.push(
                    BehaviourActionView::GenerateEvent(
                        FileGetEventView::RequestReceived { peer_id, request_id, file_name },
                    ),
                ),
                ..v
            };
            assert(v1.wf());
            assert(connection_of(v1, peer_id, connection_id) == before);
            lemma_change_peer_connection_at(v1, peer_id, connection_id, change);
            let after = connection_of(
                handler_event_spec(v, peer_id, connection_id, event),
                peer_id,
                connection_id,
            );
            assert forall|x: RequestId|
                #[trigger] after.pending_outbound_responses.contains(x) <==> (
                before.pending_outbound_responses.contains(x) || x == request_id) by {
                if !before.pending_outbound_responses.contains(request_id) {
                    lemma_contains_push(before.pending_outbound_responses, request_id, x);
                }
            }
        },
        FileGetHandlerEventView::Response(id) => {
            lemma_removal_event(v, peer_id, connection_id, ConnectionChange::RemovePendingInbound(id));
        },
        FileGetHandlerEventView::OutboundTimeout(id) => {
            lemma_removal_event(v, peer_id, connection_id, ConnectionChange::RemovePendingInbound(id));
        },
        FileGetHandlerEventView::OutboundUnsupportedProtocols(id) => {
            lemma_removal_event(v, peer_id, connection_id, ConnectionChange::RemovePendingInbound(id));
        },
        FileGetHandlerEventView::ResponseSent(id) => {
            lemma_removal_event(v, peer_id, connection_id, ConnectionChange::RemovePendingOutbound(id));
        },
        FileGetHandlerEventView::ResponseOmission(id) => {
            lemma_removal_event(v, peer_id, connection_id, ConnectionChange::RemovePendingOutbound(id));
        },
        FileGetHandlerEventView::InboundTimeout(id) => {
            lemma_removal_event(v, peer_id, connection_id, ConnectionChange::RemovePendingOutbound(id));
        },
        FileGetHandlerEventView::InboundUnsupportedProtocols(id) => {
            lemma_removal_event(v, peer_id, connection_id, ConnectionChange::RemovePendingOutbound(id));
        },
    }
}

/// Taking a request off an established connection: our own (`RemovePendingInbound`) or
/// the peer's (`RemovePendingOutbound`).
proof fn lemma_removal_event(v: FileGetView, peer_id: Seq<u8>, connection_id: usize, change: ConnectionChange)
    requires
        v.wf(),
        has_connection(v, peer_id, connection_id),
        change is RemovePendingInbound || change is RemovePendingOutbound,
    ensures
        ({
            let w = change_peer_connection(v, peer_id, connection_id, change).0;
            let before = connection_of(v, peer_id, connection_id);
            let after = connection_of(w, peer_id, connection_id);
            &&& w.wf()
            &&& has_connection(w, peer_id, connection_id)
            &&& after.id == before.id
            &&& after.address == before.address
            &&& w.pending_events == v.pending_events
            &&& w.pending_outbound_requests == v.pending_outbound_requests
            &&& w.addresses == v.addresses
            &&& change matches ConnectionChange::RemovePendingInbound(id) ==> drops_our_request(before, after, id)
            &&& change matches ConnectionChange::RemovePendingOutbound(id) ==> drops_peer_request(before, after, id)
        }),
{
    let before = connection_of(v, peer_id, connection_id);
    lemma_change_peer_connection_at(v, peer_id, connection_id, change);
    match change {
        ConnectionChange::RemovePendingInbound(id) => {
            lemma_without(before.pending_inbound_responses, id);
        },
        ConnectionChange::RemovePendingOutbound(id) => {
            lemma_without(before.pending_outbound_responses, id);
        },
        _ => {},
    }
}

/// After a failed dial to a peer, each request that waited for the peer is reported as
/// failed with `DialFailure`, once and in order, after the events already queued; none
/// waits any longer, and nothing else changes.
pub proof fn lemma_dial_failure_fails_each_waiting_request(v: FileGetView, peer_id: Seq<u8>)
    requires
        v.wf(),
    ensures
        ({
            let w = dial_failure_spec(v, Some(peer_id));
            let waiting = if has_key(v.pending_outbound_requests, peer_id) {
                v.pending_outbound_requests[key_index(v.pending_outbound_requests, peer_id)].1
            } else {
                Seq::empty()
            };
            let n = v.pending_events.len();
            &&& w.pending_events.len() == n + waiting.len()
            &&& w.pending_events.take(n as int) == v.pending_events
            &&& forall|i: int|
                0 <= i < waiting.len() ==> #[trigger] w.pending_events[n + i]
                    == BehaviourActionView::GenerateEvent(
                    FileGetEventView::OutboundFailure {
                        peer_id,
                        request_id: waiting[i].request_id,
                        error: OutboundFailure::DialFailure,
                    },
                )
            &&& !has_key(w.pending_outbound_requests, peer_id)
            &&& w.connected == v.connected
            &&& w.addresses == v.addresses
        }),
{
    lemma_dial_failure_clears_waiting(v, peer_id);
    let w = dial_failure_spec(v, Some(peer_id));
    let n = v.pending_events.len();
    assert(w.pending_events.take(n as int) =~= v.pending_events);
}

/// A request handed to a connection of its peer waits on that very connection: the
/// network is asked to notify the connection with some number `c`, and the connection
/// with number `c` (the only one changed) now holds the request among those waiting for
/// the peer's response.
pub proof fn lemma_request_waits_where_it_was_sent(
    v: FileGetView,
    peer_id: Seq<u8>,
    request: OutboundRequestView,
)
    requires
        v.wf(),
        is_connected(v, peer_id),
    ensures
        ({
            let w = send_request_spec(v, peer_id, request);
            let k = key_index(v.connected, peer_id);
            let conns = v.connected[k].1;
            &&& w.pending_events.drop_last() == v.pending_events
            &&& w.pending_events.last() matches BehaviourActionView::NotifyHandler {
                peer_id: p,
                connection_id: c,
                request: r,
            } && p == peer_id && r == request && w.connected.len() == v.connected.len() && w.connected[k].0 == peer_id
                && w.connected[k].1.len() == conns.len() && (forall|k2: int|
                0 <= k2 < v.connected.len() && k2 != k ==> #[trigger] w.connected[k2]
                == v.connected[k2]) && exists|j: int|
                0 <= j < conns.len() && (#[trigger] conns[j]).id == c && w.connected[k].1[j].id
                    == c && (forall|x: RequestId|
                    #[trigger] w.connected[k].1[j].pending_inbound_responses.contains(x) <==> (
                    conns[j].pending_inbound_responses.contains(x) || x == request.request_id))
                    && w.connected[k].1[j].pending_outbound_responses
                    == conns[j].pending_outbound_responses && w.connected[k].1[j].address
                    == conns[j].address && forall|j2: int|
                    0 <= j2 < conns.len() && j2 != j ==> #[trigger] w.connected[k].1[j2]
                        == conns[j2]
        }),
{
    lemma_dispatch_connected(v, peer_id, request);
    let w = send_request_spec(v, peer_id, request);
    let k = key_index(v.connected, peer_id);
    let conns = v.connected[k].1;
    let j = (request.request_id.0 as usize) as int % conns.len() as int;
    let c = conns[j];
    assert forall|x: RequestId|
        #[trigger] w.connected[k].1[j].pending_inbound_responses.contains(x) <==> (
        c.pending_inbound_responses.contains(x) || x == request.request_id) by {
        if !c.pending_inbound_responses.contains(request.request_id) {
            lemma_contains_push(c.pending_inbound_responses, request.request_id, x);
        }
    }
    assert(w.connected[k].1[j].id == c.id);
}

} // verus!

verus! {

/// When a connection closes, every request still waiting on it is reported as failed with
/// `ConnectionClosed`, after the events already queued: first each request of the peer
/// that we had not answered, as an inbound failure (our response could not be sent), then
/// each of our requests that the peer had not answered, as an outbound failure (no
/// response was received). Requests that wait for a first connection and known addresses
/// are untouched.
pub proof fn lemma_closed_connection_fails_its_requests(
    v: FileGetView,
    peer_id: Seq<u8>,
    connection_id: usize,
)
    requires
        v.wf(),
        has_connection(v, peer_id, connection_id),
    ensures
        ({
            let w = connection_closed_spec(v, peer_id, connection_id);
            let c = connection_of(v, peer_id, connection_id);
            let theirs = c.pending_outbound_responses;
            let ours = c.pending_inbound_responses;
            let n = v.pending_events.len();
            &&& w.pending_events.len() == n + theirs.len() + ours.len()
            &&& w.pending_events.take(n as int) == v.pending_events
            &&& forall|i: int|
                0 <= i < theirs.len() ==> #[trigger] w.pending_events[n + i]
                    == BehaviourActionView::GenerateEvent(
                    FileGetEventView::InboundFailure {
                        peer_id,
                        request_id: theirs[i],
                        error: InboundFailure::ConnectionClosed,
                    },
                )
            &&& forall|i: int|
                0 <= i < ours.len() ==> #[trigger] w.pending_events[n + theirs.len() + i]
                    == BehaviourActionView::GenerateEvent(
                    FileGetEventView::OutboundFailure {
                        peer_id,
                        request_id: ours[i],
                        error: OutboundFailure::ConnectionClosed,
                    },
                )
            &&& w.pending_outbound_requests == v.pending_outbound_requests
            &&& w.addresses == v.addresses
        }),
{
    let w = connection_closed_spec(v, peer_id, connection_id);
    let n = v.pending_events.len();
    assert(w.pending_events.take(n as int) =~= v.pending_events);
    let c = connection_of(v, peer_id, connection_id);
    let theirs = c.pending_outbound_responses;
    assert forall|i: int| 0 <= i < c.pending_inbound_responses.len() implies #[trigger] w.pending_events[n + theirs.len() + i]
        == BehaviourActionView::GenerateEvent(
        FileGetEventView::OutboundFailure {
            peer_id,
            request_id: c.pending_inbound_responses[i],
            error: OutboundFailure::ConnectionClosed,
        },
    ) by {
        assert(w.pending_events[n + theirs.len() + i] == outbound_failures(
            peer_id,
            c.pending_inbound_responses,
            OutboundFailure::ConnectionClosed,
        )[i]);
    }
}

} // verus!
