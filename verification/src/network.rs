//! The decisions of the node's event loop: what each command asks of the network, which
//! commands wait for an answer from a peer, and which answers network events complete.
//!
//! Peers are identified by their byte encodings; requests of the list-files protocol by
//! their numbers.
use vstd::prelude::*;
use vstd::utf8::encode_utf8;

use crate::command::{Command, CommandResponse, CommandResult, CommandResultView, CommandView, GetFile, ListFiles, strings_view};
use crate::error::{FileSharingError, FileSharingErrorView};
use crate::file_get::{
    bytes_copy, distinct_keys, has_key, id_space, key_index, lemma_ids_distinct, nth_id, RequestId,
};
use crate::message::FileGetMessage;

verus! {

/// The longest rendezvous namespace, in bytes.
pub const MAX_NAMESPACE: usize = 255;

/// `libp2p::rendezvous::Namespace::new`: a string is a namespace when its UTF-8 encoding
/// has at most 255 bytes.
#[verifier::external_body]
fn is_namespace(value: &String) -> (r: bool)
    ensures
        r == (encode_utf8(value@).len() <= MAX_NAMESPACE),
{
    libp2p::rendezvous::Namespace::new(value.clone()).is_ok()
}

/// A registration found at the rendezvous point: a namespace, the peer registered under
/// it, and how many addresses the peer registered.
#[derive(Debug)]
pub struct Registration {
    pub namespace: String,
    pub peer_id: Vec<u8>,
    pub address_count: usize,
}

pub struct RegistrationView {
    pub namespace: Seq<char>,
    pub peer_id: Seq<u8>,
    pub address_count: usize,
}

impl View for Registration {
    type V = RegistrationView;

    open spec fn view(&self) -> RegistrationView {
        RegistrationView {
            namespace: self.namespace@,
            peer_id: self.peer_id@,
            address_count: self.address_count,
        }
    }
}

/// What a command asks of the network.
#[derive(Debug)]
pub enum CommandAction {
    /// Register under the namespace at the rendezvous point, and answer the command.
    Register { namespace: String, rendezvous_point: Vec<u8>, response: CommandResponse },
    /// Ask the rendezvous point for its registrations; the command waits for them.
    Discover { rendezvous_point: Vec<u8> },
    /// Ask the peer for its list of files; the command waits for the answer.
    SendListFiles { peer_id: Vec<u8> },
    /// Ask the peer for the file; the command waits for the answer.
    SendFileGet { peer_id: Vec<u8>, message: FileGetMessage },
    /// Answer the command with the error.
    Reject(FileSharingError),
}

pub enum CommandActionView {
    Register { namespace: Seq<char>, rendezvous_point: Seq<u8>, command_request_id: u64, result: CommandResultView },
    Discover { rendezvous_point: Seq<u8> },
    SendListFiles { peer_id: Seq<u8> },
    SendFileGet { peer_id: Seq<u8>, file_name: Seq<char> },
    Reject(FileSharingErrorView),
}

impl View for CommandAction {
    type V = CommandActionView;

    open spec fn view(&self) -> CommandActionView {
        match self {
            CommandAction::Register { namespace, rendezvous_point, response } =>
                CommandActionView::Register {
                namespace: namespace@,
                rendezvous_point: rendezvous_point@,
                command_request_id: response.command_request_id,
                result: response.result@,
            },
            CommandAction::Discover { rendezvous_point } => CommandActionView::Discover {
                rendezvous_point: rendezvous_point@,
            },
            CommandAction::SendListFiles { peer_id } => CommandActionView::SendListFiles {
                peer_id: peer_id@,
            },
            CommandAction::SendFileGet { peer_id, message } => CommandActionView::SendFileGet {
                peer_id: peer_id@,
                file_name: message.file_name@,
            },
            CommandAction::Reject(e) => CommandActionView::Reject(e@),
        }
    }
}

/// A network event that completes commands.
#[derive(Debug)]
#[allow(inconsistent_fields)]
pub enum NetworkEvent {
    /// The rendezvous point sent its registrations.
    Discovered { registrations: Vec<Registration> },
    /// A peer answered a list-files request.
    ListFilesResponse { request_id: u64, file_names: Vec<String> },
    /// A peer answered a request for a file, and the file was written.
    FileGetResponseReceived { request_id: RequestId },
}

#[allow(inconsistent_fields)]
pub enum NetworkEventView {
    Discovered { registrations: Seq<RegistrationView> },
    ListFilesResponse { request_id: u64, file_names: Seq<Seq<char>> },
    FileGetResponseReceived { request_id: RequestId },
}

impl View for NetworkEvent {
    type V = NetworkEventView;

    open spec fn view(&self) -> NetworkEventView {
        match self {
            NetworkEvent::Discovered { registrations } => NetworkEventView::Discovered {
                registrations: registrations@.map_values(|r: Registration| r@),
            },
            NetworkEvent::ListFilesResponse { request_id, file_names } =>
                NetworkEventView::ListFilesResponse {
                request_id: *request_id,
                file_names: strings_view(file_names@),
            },
            NetworkEvent::FileGetResponseReceived { request_id } =>
                NetworkEventView::FileGetResponseReceived { request_id: *request_id },
        }
    }
}

/// An answer to a command: its identifier and its result.
pub struct ResponseView {
    pub command_request_id: u64,
    pub result: CommandResultView,
}

pub open spec fn response_view(r: CommandResponse) -> ResponseView {
    ResponseView { command_request_id: r.command_request_id, result: r.result@ }
}

/// The event loop's state.
pub struct EventLoop {
    rendezvous_point_peer_id: Option<Vec<u8>>,
    namespace_peers: Vec<(String, Vec<u8>)>,
    pending_command_requests: Vec<(u64, Command)>,
    pending_list_files: Vec<(u64, u64)>,
    pending_file_gets: Vec<(u64, u64)>,
}

/// The view of the event loop: the rendezvous point once it is known, the peer of each
/// namespace, the commands that wait for an answer from the network, and the command
/// that each list-files request and each file request answers.
pub struct EventLoopView {
    pub rendezvous_point_peer_id: Option<Seq<u8>>,
    pub namespace_peers: Seq<(Seq<char>, Seq<u8>)>,
    pub pending_command_requests: Seq<(u64, CommandView)>,
    pub pending_list_files: Seq<(u64, u64)>,
    pub pending_file_gets: Seq<(u64, u64)>,
}

impl EventLoopView {
    /// Each table holds each key at most once.
    pub open spec fn wf(self) -> bool {
        &&& distinct_keys(self.namespace_peers)
        &&& distinct_keys(self.pending_command_requests)
        &&& distinct_keys(self.pending_list_files)
        &&& distinct_keys(self.pending_file_gets)
    }
}

impl View for EventLoop {
    type V = EventLoopView;

    closed spec fn view(&self) -> EventLoopView {
        EventLoopView {
            rendezvous_point_peer_id: match self.rendezvous_point_peer_id {
                Some(p) => Some(p@),
                None => None,
            },
            namespace_peers: self.namespace_peers@.map_values(|e: (String, Vec<u8>)| (e.0@, e.1@)),
            pending_command_requests: self.pending_command_requests@.map_values(
                |e: (u64, Command)| (e.0, e.1@),
            ),
            pending_list_files: self.pending_list_files@,
            pending_file_gets: self.pending_file_gets@,
        }
    }
}

/// The table with `key` bound to `value`, replacing an earlier binding.
pub open spec fn table_insert<K, V>(t: Seq<(K, V)>, key: K, value: V) -> Seq<(K, V)> {
    if has_key(t, key) {
        t.update(key_index(t, key), (key, value))
    } else {
        t.push((key, value))
    }
}

/// The table without the binding of `key`.
pub open spec fn table_remove<K, V>(t: Seq<(K, V)>, key: K) -> Seq<(K, V)> {
    if has_key(t, key) {
        t.remove(key_index(t, key))
    } else {
        t
    }
}

/// The value bound to `key` (meaningful when the table holds it).
pub open spec fn table_get<K, V>(t: Seq<(K, V)>, key: K) -> V {
    t[key_index(t, key)].1
}

/// The peer registered under the user name, if the name is a namespace and a peer was
/// discovered under it.
pub open spec fn peer_of(v: EventLoopView, user_name: Seq<char>) -> Option<Seq<u8>> {
    if encode_utf8(user_name).len() <= MAX_NAMESPACE && has_key(v.namespace_peers, user_name) {
        Some(table_get(v.namespace_peers, user_name))
    } else {
        None
    }
}

/// Whether the command needs the rendezvous point: listing peers, and registering under
/// a valid namespace.
pub open spec fn needs_rendezvous_point(command: CommandView) -> bool {
    match command {
        CommandView::Register { user_name } => encode_utf8(user_name).len() <= MAX_NAMESPACE,
        CommandView::ListPeers => true,
        _ => false,
    }
}

/// What a command asks of the network, and the state afterwards; an error ends the
/// event loop.
///
/// Registering answers at once; listing peers waits for the rendezvous point; listing
/// files and getting a file wait for the peer registered under the user name, and are
/// answered with an error when there is none.
pub open spec fn handle_command_spec(v: EventLoopView, command_request_id: u64, command: CommandView) -> Result<
    (CommandActionView, EventLoopView),
    FileSharingErrorView,
> {
    match command {
        CommandView::Register { user_name } => if encode_utf8(user_name).len() > MAX_NAMESPACE {
            Err(FileSharingErrorView::NamespaceTooLong)
        } else {
            Ok(
                (
                    CommandActionView::Register {
                        namespace: user_name,
                        rendezvous_point: v.rendezvous_point_peer_id.unwrap(),
                        command_request_id,
                        result: CommandResultView::Register,
                    },
                    v,
                ),
            )
        },
        CommandView::ListPeers => Ok(
            (
                CommandActionView::Discover {
                    rendezvous_point: v.rendezvous_point_peer_id.unwrap(),
                },
                EventLoopView {
                    pending_command_requests: table_insert(
                        v.pending_command_requests,
                        command_request_id,
                        command,
                    ),
                    ..v
                },
            ),
        ),
        CommandView::ListFiles { user_name } => match peer_of(v, user_name) {
            Some(peer_id) => Ok(
                (
                    CommandActionView::SendListFiles { peer_id },
                    EventLoopView {
                        pending_command_requests: table_insert(
                            v.pending_command_requests,
                            command_request_id,
                            command,
                        ),
                        ..v
                    },
                ),
            ),
            None => Ok(
                (CommandActionView::Reject(FileSharingErrorView::UserNotRegistered(user_name)), v),
            ),
        },
        CommandView::GetFile { user_name, file_name } => match peer_of(v, user_name) {
            Some(peer_id) => Ok(
                (
                    CommandActionView::SendFileGet { peer_id, file_name },
                    EventLoopView {
                        pending_command_requests: table_insert(
                            v.pending_command_requests,
                            command_request_id,
                            command,
                        ),
                        ..v
                    },
                ),
            ),
            None => Ok(
                (CommandActionView::Reject(FileSharingErrorView::UserNotRegistered(user_name)), v),
            ),
        },
    }
}

/// The position of `key` in a table keyed by numbers.
fn id_position<V: View>(t: &Vec<(u64, V)>, key: u64) -> (r: Option<usize>)
    requires
        distinct_keys(t@.map_values(|e: (u64, V)| (e.0, e.1@))),
    ensures
        ({
            let tv = t@.map_values(|e: (u64, V)| (e.0, e.1@));
            match r {
                Some(i) => i < t.len() && has_key(tv, key) && i == key_index(tv, key),
                None => !has_key(tv, key),
            }
        }),
{
    let ghost tv = t@.map_values(|e: (u64, V)| (e.0, e.1@));
    let mut i: usize = 0;
    while i < t.len()
        invariant
            i <= t.len(),
            tv == t@.map_values(|e: (u64, V)| (e.0, e.1@)),
            distinct_keys(tv),
            forall|k: int| 0 <= k < i ==> (#[trigger] tv[k]).0 != key,
        decreases t.len() - i,
    {
        if t[i].0 == key {
            assert(tv[i as int].0 == key);
            assert(has_key(tv, key));
            let ghost j = key_index(tv, key);
            assert(tv[j].0 == key);
            assert(j == i);
            return Some(i);
        }
        i = i + 1;
    }
    None
}

/// The position of `key` in a table keyed by numbers with numbers as values.
fn number_position(t: &Vec<(u64, u64)>, key: u64) -> (r: Option<usize>)
    requires
        distinct_keys(t@),
    ensures
        match r {
            Some(i) => i < t.len() && has_key(t@, key) && i == key_index(t@, key),
            None => !has_key(t@, key),
        },
{
    let mut i: usize = 0;
    while i < t.len()
        invariant
            i <= t.len(),
            distinct_keys(t@),
            forall|k: int| 0 <= k < i ==> (#[trigger] t@[k]).0 != key,
        decreases t.len() - i,
    {
        if t[i].0 == key {
            assert(t@[i as int].0 == key);
            assert(has_key(t@, key));
            let ghost j = key_index(t@, key);
            assert(t@[j].0 == key);
            assert(j == i);
            return Some(i);
        }
        i = i + 1;
    }
    None
}

proof fn lemma_distinct_remove<K, V>(t: Seq<(K, V)>, k: int)
    requires
        distinct_keys(t),
        0 <= k < t.len(),
    ensures
        distinct_keys(t.remove(k)),
{
    let r = t.remove(k);
    assert forall|a: int, b: int| 0 <= a < r.len() && 0 <= b < r.len() && a != b implies (
    #[trigger] r[a]).0 != (#[trigger] r[b]).0 by {
        let a2 = if a < k { a } else { a + 1 };
        let b2 = if b < k { b } else { b + 1 };
        assert(t[a2].0 != t[b2].0);
    }
}

proof fn lemma_distinct_insert<K, V>(t: Seq<(K, V)>, key: K, value: V)
    requires
        distinct_keys(t),
    ensures
        distinct_keys(table_insert(t, key, value)),
{
    let r = table_insert(t, key, value);
    if has_key(t, key) {
        let i = key_index(t, key);
        assert forall|a: int, b: int| 0 <= a < r.len() && 0 <= b < r.len() && a != b implies (
        #[trigger] r[a]).0 != (#[trigger] r[b]).0 by {
            assert(t[a].0 != t[b].0);
        }
    } else {
        assert forall|a: int, b: int| 0 <= a < r.len() && 0 <= b < r.len() && a != b implies (
        #[trigger] r[a]).0 != (#[trigger] r[b]).0 by {
            if a < t.len() && b < t.len() {
                assert(t[a].0 != t[b].0);
            } else if a < t.len() {
                assert(t[a].0 != key);
            } else {
                assert(t[b].0 != key);
            }
        }
    }
}

impl EventLoop {
    /// The invariant of the state: each table holds each key at most once.
    pub open spec fn wf(&self) -> bool {
        self@.wf()
    }

    pub fn new() -> (r: Self)
        ensures
            r.wf(),
            r@ == (EventLoopView {
                rendezvous_point_peer_id: None,
                namespace_peers: Seq::empty(),
                pending_command_requests: Seq::empty(),
                pending_list_files: Seq::empty(),
                pending_file_gets: Seq::empty(),
            }),
    {
        let r = EventLoop {
            rendezvous_point_peer_id: None,
            namespace_peers: Vec::new(),
            pending_command_requests: Vec::new(),
            pending_list_files: Vec::new(),
            pending_file_gets: Vec::new(),
        };
        assert(r@.namespace_peers =~= Seq::<(Seq<char>, Seq<u8>)>::empty());
        assert(r@.pending_command_requests =~= Seq::<(u64, CommandView)>::empty());
        r
    }

    /// The rendezvous point identified itself.
    pub fn on_rendezvous_point_identified(&mut self, peer_id: Vec<u8>)
        requires
            old(self).wf(),
        ensures
            final(self).wf(),
            final(self)@ == (EventLoopView {
                rendezvous_point_peer_id: Some(peer_id@),
                ..old(self)@
            }),
    {
        self.rendezvous_point_peer_id = Some(peer_id);
    }

    /// Whether connecting to the rendezvous point succeeded: it did when the point
    /// identified itself.
    pub fn rendezvous_point_connected(&self) -> (r: Result<(), FileSharingError>)
        ensures
            match r {
                Ok(()) => self@.rendezvous_point_peer_id is Some,
                Err(e) => self@.rendezvous_point_peer_id is None && e@
                    == FileSharingErrorView::RendezvousPointNotConnected,
            },
    {
        match self.rendezvous_point_peer_id {
            Some(_) => Ok(()),
            None => Err(FileSharingError::RendezvousPointNotConnected),
        }
    }

    /// The peer registered under the user name, if any.
    pub fn get_peer_id(&self, user_name: &String) -> (r: Option<Vec<u8>>)
        requires
            self.wf(),
        ensures
            match r {
                Some(p) => peer_of(self@, user_name@) == Some(p@),
                None => peer_of(self@, user_name@) is None,
            },
    {
        if !is_namespace(user_name) {
            return None;
        }
        let ghost tv = self@.namespace_peers;
        let mut i: usize = 0;
        while i < self.namespace_peers.len()
            invariant
                i <= self.namespace_peers.len(),
                tv == self@.namespace_peers,
                distinct_keys(tv),
                encode_utf8(user_name@).len() <= MAX_NAMESPACE,
                forall|k: int| 0 <= k < i ==> (#[trigger] tv[k]).0 != user_name@,
            decreases self.namespace_peers.len() - i,
        {
            if self.namespace_peers[i].0 == *user_name {
                assert(tv[i as int].0 == user_name@);
                assert(has_key(tv, user_name@));
                let ghost j = key_index(tv, user_name@);
                assert(tv[j].0 == user_name@);
                assert(j == i);
                assert(tv[j].1 == self.namespace_peers@[i as int].1@);
                return Some(bytes_copy(&self.namespace_peers[i].1));
            }
            i = i + 1;
        }
        None
    }

    /// Records that the command waits for an answer from the network.
    fn insert_pending_command(&mut self, command_request_id: u64, command: Command)
        requires
            old(self).wf(),
        ensures
            final(self).wf(),
            final(self)@ == (EventLoopView {
                pending_command_requests: table_insert(
                    old(self)@.pending_command_requests,
                    command_request_id,
                    command@,
                ),
                ..old(self)@
            }),
    {
        let ghost tv = self@.pending_command_requests;
        proof {
            lemma_distinct_insert(tv, command_request_id, command@);
        }
        match id_position(&self.pending_command_requests, command_request_id) {
            Some(i) => {
                let _ = self.pending_command_requests.remove(i);
                self.pending_command_requests.insert(i, (command_request_id, command));
                assert(self@.pending_command_requests =~= tv.update(
                    i as int,
                    (command_request_id, command@),
                ));
            },
            None => {
                self.pending_command_requests.push((command_request_id, command));
                assert(self@.pending_command_requests =~= tv.push((command_request_id, command@)));
            },
        }
    }

    /// Handles a command of the user.
    pub fn handle_command(&mut self, command_request_id: u64, command: Command) -> (r: Result<
        CommandAction,
        FileSharingError,
    >)
        requires
            old(self).wf(),
            needs_rendezvous_point(command@) ==> old(self)@.rendezvous_point_peer_id is Some,
        ensures
            final(self).wf(),
            match handle_command_spec(old(self)@, command_request_id, command@) {
                Ok((action, next)) => r matches Ok(a) && a@ == action && final(self)@ == next,
                Err(e) => r matches Err(err) && err@ == e && final(self)@ == old(self)@,
            },
    {
        match command {
            Command::Register(register) => {
                if !is_namespace(&register.user_name) {
                    return Err(FileSharingError::NamespaceTooLong);
                }
                let rendezvous_point = match &self.rendezvous_point_peer_id {
                    Some(p) => bytes_copy(p),
                    None => { return Err(FileSharingError::RendezvousPointNotConnected); },
                };
                let response = CommandResponse::new(command_request_id, CommandResult::Register);
                Ok(
                    CommandAction::Register {
                        namespace: register.user_name,
                        rendezvous_point,
                        response,
                    },
                )
            },
            Command::ListPeers => {
                let rendezvous_point = match &self.rendezvous_point_peer_id {
                    Some(p) => bytes_copy(p),
                    None => { return Err(FileSharingError::RendezvousPointNotConnected); },
                };
                self.insert_pending_command(command_request_id, Command::ListPeers);
                Ok(CommandAction::Discover { rendezvous_point })
            },
            Command::ListFiles(ListFiles { user_name }) => {
                match self.get_peer_id(&user_name) {
                    Some(peer_id) => {
                        self.insert_pending_command(
                            command_request_id,
                            Command::ListFiles(ListFiles { user_name }),
                        );
                        Ok(CommandAction::SendListFiles { peer_id })
                    },
                    None => Ok(CommandAction::Reject(FileSharingError::UserNotRegistered(user_name))),
                }
            },
            Command::GetFile(GetFile { user_name, file_name }) => {
                let message = FileGetMessage::new(file_name.clone());
                match self.get_peer_id(&user_name) {
                    Some(peer_id) => {
                        self.insert_pending_command(
                            command_request_id,
                            Command::GetFile(GetFile { user_name, file_name }),
                        );
                        Ok(CommandAction::SendFileGet { peer_id, message })
                    },
                    None => Ok(CommandAction::Reject(FileSharingError::UserNotRegistered(user_name))),
                }
            },
        }
    }

    /// Records that the list-files request with the given number answers the command.
    pub fn on_list_files_request_sent(&mut self, request_id: u64, command_request_id: u64)
        requires
            old(self).wf(),
        ensures
            final(self).wf(),
            final(self)@ == (EventLoopView {
                pending_list_files: table_insert(
                    old(self)@.pending_list_files,
                    request_id,
                    command_request_id,
                ),
                ..old(self)@
            }),
    {
        let ghost tv = self@.pending_list_files;
        proof {
            lemma_distinct_insert(tv, request_id, command_request_id);
        }
        match number_position(&self.pending_list_files, request_id) {
            Some(i) => {
                self.pending_list_files.set(i, (request_id, command_request_id));
            },
            None => {
                self.pending_list_files.push((request_id, command_request_id));
            },
        }
    }

    /// Records that the file request answers the command.
    pub fn on_file_get_request_sent(&mut self, request_id: RequestId, command_request_id: u64)
        requires
            old(self).wf(),
        ensures
            final(self).wf(),
            final(self)@ == (EventLoopView {
                pending_file_gets: table_insert(
                    old(self)@.pending_file_gets,
                    request_id.0,
                    command_request_id,
                ),
                ..old(self)@
            }),
    {
        let ghost tv = self@.pending_file_gets;
        proof {
            lemma_distinct_insert(tv, request_id.0, command_request_id);
        }
        match number_position(&self.pending_file_gets, request_id.0) {
            Some(i) => {
                self.pending_file_gets.set(i, (request_id.0, command_request_id));
            },
            None => {
                self.pending_file_gets.push((request_id.0, command_request_id));
            },
        }
    }
}

} // verus!

verus! {

/// The namespace table after the registrations, in order: each registration with at
/// least one address binds its namespace to its peer.
pub open spec fn register_all(
    namespace_peers: Seq<(Seq<char>, Seq<u8>)>,
    registrations: Seq<RegistrationView>,
) -> Seq<(Seq<char>, Seq<u8>)>
    decreases registrations.len(),
{
    if registrations.len() == 0 {
        namespace_peers
    } else {
        let r = registrations.last();
        let before = register_all(namespace_peers, registrations.drop_last());
        if r.address_count > 0 {
            table_insert(before, r.namespace, r.peer_id)
        } else {
            before
        }
    }
}

/// The identifiers of the waiting list-peers commands, in order.
pub open spec fn list_peers_waiting(pending: Seq<(u64, CommandView)>) -> Seq<u64>
    decreases pending.len(),
{
    if pending.len() == 0 {
        Seq::empty()
    } else {
        let before = list_peers_waiting(pending.drop_last());
        if pending.last().1 is ListPeers {
            before.push(pending.last().0)
        } else {
            before
        }
    }
}

/// The waiting commands other than list-peers commands, in order.
pub open spec fn other_than_list_peers(pending: Seq<(u64, CommandView)>) -> Seq<(u64, CommandView)>
    decreases pending.len(),
{
    if pending.len() == 0 {
        pending
    } else {
        let before = other_than_list_peers(pending.drop_last());
        if pending.last().1 is ListPeers {
            before
        } else {
            before.push(pending.last())
        }
    }
}

/// The answers that a network event completes, and the state afterwards.
///
/// Discovered registrations update the namespace table and answer every waiting
/// list-peers command with all known namespaces. The answer to a list-files request
/// answers its command with the peer's file names. The answer to a file request answers
/// its get-file command with the user and file names.
pub open spec fn handle_event_spec(v: EventLoopView, event: NetworkEventView) -> (
    Seq<ResponseView>,
    EventLoopView,
) {
    match event {
        NetworkEventView::Discovered { registrations } => {
            let ns = register_all(v.namespace_peers, registrations);
            let names = ns.map_values(|e: (Seq<char>, Seq<u8>)| e.0);
            (
                list_peers_waiting(v.pending_command_requests).map_values(
                    |id: u64|
                        ResponseView {
                            command_request_id: id,
                            result: CommandResultView::ListPeers(names),
                        },
                ),
                EventLoopView {
                    namespace_peers: ns,
                    pending_command_requests: other_than_list_peers(v.pending_command_requests),
                    ..v
                },
            )
        },
        NetworkEventView::ListFilesResponse { request_id, file_names } => if has_key(
            v.pending_list_files,
            request_id,
        ) {
            let id = table_get(v.pending_list_files, request_id);
            let v1 = EventLoopView {
                pending_list_files: table_remove(v.pending_list_files, request_id),
                ..v
            };
            if has_key(v1.pending_command_requests, id) {
                (
                    seq![
                        ResponseView {
                            command_request_id: id,
                            result: CommandResultView::ListFiles(file_names),
                        },
                    ],
                    EventLoopView {
                        pending_command_requests: table_remove(v1.pending_command_requests, id),
                        ..v1
                    },
                )
            } else {
                (Seq::empty(), v1)
            }
        } else {
            (Seq::empty(), v)
        },
        NetworkEventView::FileGetResponseReceived { request_id } => {
            let id = table_get(v.pending_file_gets, request_id.0);
            let v1 = EventLoopView {
                pending_file_gets: table_remove(v.pending_file_gets, request_id.0),
                pending_command_requests: table_remove(v.pending_command_requests, id),
                ..v
            };
            match table_get(v.pending_command_requests, id) {
                CommandView::GetFile { user_name, file_name } => (
                    seq![
                        ResponseView {
                            command_request_id: id,
                            result: CommandResultView::GetFile { user_name, file_name },
                        },
                    ],
                    v1,
                ),
                _ => (Seq::empty(), v1),
            }
        },
    }
}

/// Whether the event loop can take the event: the answer to a file request must belong
/// to a request that is waiting, whose command is waiting.
pub open spec fn accepts_event(v: EventLoopView, event: NetworkEventView) -> bool {
    match event {
        NetworkEventView::FileGetResponseReceived { request_id } => has_key(
            v.pending_file_gets,
            request_id.0,
        ) && has_key(v.pending_command_requests, table_get(v.pending_file_gets, request_id.0)),
        _ => true,
    }
}

impl EventLoop {
    /// Binds the namespace to the peer.
    fn insert_namespace(&mut self, namespace: String, peer_id: Vec<u8>)
        requires
            old(self).wf(),
        ensures
            final(self).wf(),
            final(self)@ == (EventLoopView {
                namespace_peers: table_insert(old(self)@.namespace_peers, namespace@, peer_id@),
                ..old(self)@
            }),
    {
        let ghost tv = self@.namespace_peers;
        proof {
            lemma_distinct_insert(tv, namespace@, peer_id@);
        }
        let mut i: usize = 0;
        while i < self.namespace_peers.len()
            invariant
                i <= self.namespace_peers.len(),
                tv == self@.namespace_peers,
                self@ == old(self)@,
                distinct_keys(tv),
                distinct_keys(table_insert(tv, namespace@, peer_id@)),
                old(self).wf(),
                forall|k: int| 0 <= k < i ==> (#[trigger] tv[k]).0 != namespace@,
            decreases self.namespace_peers.len() - i,
        {
            if self.namespace_peers[i].0 == namespace {
                assert(tv[i as int].0 == namespace@);
                assert(has_key(tv, namespace@));
                let ghost j = key_index(tv, namespace@);
                assert(tv[j].0 == namespace@);
                assert(j == i);
                let ghost entry = (namespace@, peer_id@);
                self.namespace_peers.set(i, (namespace, peer_id));
                assert(self@.namespace_peers =~= tv.update(i as int, entry));
                return;
            }
            i = i + 1;
        }
        let ghost entry = (namespace@, peer_id@);
        self.namespace_peers.push((namespace, peer_id));
        assert(self@.namespace_peers =~= tv.push(entry));
    }

    /// All known namespaces, in order.
    fn namespace_names(&self) -> (r: Vec<String>)
        ensures
            strings_view(r@) == self@.namespace_peers.map_values(|e: (Seq<char>, Seq<u8>)| e.0),
    {
        let ghost tv = self@.namespace_peers;
        let mut names: Vec<String> = Vec::new();
        let mut i: usize = 0;
        while i < self.namespace_peers.len()
            invariant
                i <= self.namespace_peers.len(),
                tv == self@.namespace_peers,
                strings_view(names@) == tv.map_values(|e: (Seq<char>, Seq<u8>)| e.0).take(i as int),
            decreases self.namespace_peers.len() - i,
        {
            let ghost before = names@;
            names.push(self.namespace_peers[i].0.clone());
            assert(strings_view(names@) =~= strings_view(before).push(tv[i as int].0));
            i = i + 1;
            assert(strings_view(names@) =~= tv.map_values(|e: (Seq<char>, Seq<u8>)| e.0).take(
                i as int,
            ));
        }
        assert(tv.map_values(|e: (Seq<char>, Seq<u8>)| e.0).take(i as int) =~= tv.map_values(
            |e: (Seq<char>, Seq<u8>)| e.0,
        ));
        names
    }

    /// Handles a network event, and gives back the answers to the commands it completes.
    pub fn handle_event(&mut self, event: NetworkEvent) -> (r: Vec<CommandResponse>)
        requires
            old(self).wf(),
            accepts_event(old(self)@, event@),
        ensures
            final(self).wf(),
            ({
                let (responses, next) = handle_event_spec(old(self)@, event@);
                &&& r@.map_values(|c: CommandResponse| response_view(c)) == responses
                &&& final(self)@ == next
            }),
    {
        let mut responses: Vec<CommandResponse> = Vec::new();
        match event {
            NetworkEvent::Discovered { registrations } => {
                let ghost regs = registrations@.map_values(|r: Registration| r@);
                let ghost v0 = self@;
                let mut rest = registrations;
                let ghost mut i: int = 0;
                assert(regs.take(0) =~= Seq::<RegistrationView>::empty());
                while rest.len() > 0
                    invariant
                        self.wf(),
                        0 <= i <= regs.len(),
                        rest@.map_values(|r: Registration| r@) == regs.skip(i),
                        self@ == (EventLoopView {
                            namespace_peers: register_all(v0.namespace_peers, regs.take(i)),
                            ..v0
                        }),
                    decreases rest.len(),
                {
                    let ghost rv = rest@.map_values(|r: Registration| r@);
                    let registration = rest.remove(0);
                    assert(rv[0] == registration@);
                    assert(rest@.map_values(|r: Registration| r@) =~= rv.drop_first());
                    assert(regs.skip(i).drop_first() =~= regs.skip(i + 1));
                    assert(regs.take(i + 1).drop_last() =~= regs.take(i));
                    assert(regs.take(i + 1).last() == registration@);
                    if registration.address_count > 0 {
                        self.insert_namespace(registration.namespace, registration.peer_id);
                    }
                    proof {
                        i = i + 1;
                    }
                }
                assert(regs.take(i) =~= regs);
                let ghost v1 = self@;
                let mut pending: Vec<(u64, Command)> = Vec::new();
                std::mem::swap(&mut pending, &mut self.pending_command_requests);
                let ghost all = v1.pending_command_requests;
                let ghost mut j: int = 0;
                let mut ids: Vec<u64> = Vec::new();
                let mut kept: Vec<(u64, Command)> = Vec::new();
                assert(all.take(0) =~= Seq::<(u64, CommandView)>::empty());
                while pending.len() > 0
                    invariant
                        0 <= j <= all.len(),
                        pending@.map_values(|e: (u64, Command)| (e.0, e.1@)) == all.skip(j),
                        ids@ == list_peers_waiting(all.take(j)),
                        kept@.map_values(|e: (u64, Command)| (e.0, e.1@)) == other_than_list_peers(
                            all.take(j),
                        ),
                    decreases pending.len(),
                {
                    let ghost pv = pending@.map_values(|e: (u64, Command)| (e.0, e.1@));
                    let entry = pending.remove(0);
                    assert(pv[0] == (entry.0, entry.1@));
                    assert(pending@.map_values(|e: (u64, Command)| (e.0, e.1@)) =~= pv.drop_first());
                    assert(all.skip(j).drop_first() =~= all.skip(j + 1));
                    assert(all.take(j + 1).drop_last() =~= all.take(j));
                    assert(all.take(j + 1).last() == (entry.0, entry.1@));
                    let is_list_peers = match entry.1 {
                        Command::ListPeers => true,
                        _ => false,
                    };
                    if is_list_peers {
                        ids.push(entry.0);
                    } else {
                        let ghost kb = kept@;
                        let ghost ev = (entry.0, entry.1@);
                        kept.push(entry);
                        assert(kept@.map_values(|e: (u64, Command)| (e.0, e.1@)) =~= kb.map_values(
                            |e: (u64, Command)| (e.0, e.1@),
                        ).push(ev));
                    }
                    proof {
                        j = j + 1;
                    }
                }
                assert(all.take(j) =~= all);
                self.pending_command_requests = kept;
                proof {
                    lemma_other_than_list_peers_distinct(all);
                }
                let ghost names = self@.namespace_peers.map_values(|e: (Seq<char>, Seq<u8>)| e.0);
                let mut k: usize = 0;
                while k < ids.len()
                    invariant
                        k <= ids.len(),
                        self.wf(),
                        names == self@.namespace_peers.map_values(|e: (Seq<char>, Seq<u8>)| e.0),
                        responses@.map_values(|c: CommandResponse| response_view(c)) == ids@.take(
                            k as int,
                        ).map_values(
                            |id: u64|
                                ResponseView {
                                    command_request_id: id,
                                    result: CommandResultView::ListPeers(names),
                                },
                        ),
                    decreases ids.len() - k,
                {
                    let ghost before = responses@;
                    let response = CommandResponse::new(
                        ids[k],
                        CommandResult::ListPeers(self.namespace_names()),
                    );
                    responses.push(response);
                    assert(responses@.map_values(|c: CommandResponse| response_view(c))
                        =~= before.map_values(|c: CommandResponse| response_view(c)).push(
                        response_view(response),
                    ));
                    assert(ids@.take(k + 1).drop_last() =~= ids@.take(k as int));
                    k = k + 1;
                    assert(responses@.map_values(|c: CommandResponse| response_view(c))
                        =~= ids@.take(k as int).map_values(
                        |id: u64|
                            ResponseView {
                                command_request_id: id,
                                result: CommandResultView::ListPeers(names),
                            },
                    ));
                }
                assert(ids@.take(k as int) =~= ids@);
            },
            NetworkEvent::ListFilesResponse { request_id, file_names } => {
                let ghost v0 = self@;
                match number_position(&self.pending_list_files, request_id) {
                    None => {},
                    Some(i) => {
                        let (_, command_request_id) = self.pending_list_files.remove(i);
                        proof {
                            lemma_distinct_remove(v0.pending_list_files, i as int);
                        }
                        match id_position(&self.pending_command_requests, command_request_id) {
                            None => {},
                            Some(j) => {
                                let ghost pv = self@.pending_command_requests;
                                let _ = self.pending_command_requests.remove(j);
                                assert(self@.pending_command_requests =~= pv.remove(j as int));
                                proof {
                                    lemma_distinct_remove(pv, j as int);
                                }
                                let response = CommandResponse::new(
                                    command_request_id,
                                    CommandResult::ListFiles(file_names),
                                );
                                responses.push(response);
                                assert(responses@.map_values(|c: CommandResponse| response_view(c))
                                    =~= seq![response_view(response)]);
                            },
                        }
                    },
                }
            },
            NetworkEvent::FileGetResponseReceived { request_id } => {
                let ghost v0 = self@;
                let i = match number_position(&self.pending_file_gets, request_id.0) {
                    Some(i) => i,
                    None => { return responses; },
                };
                let (_, command_request_id) = self.pending_file_gets.remove(i);
                proof {
                    lemma_distinct_remove(v0.pending_file_gets, i as int);
                }
                let j = match id_position(&self.pending_command_requests, command_request_id) {
                    Some(j) => j,
                    None => { return responses; },
                };
                let ghost pv = self@.pending_command_requests;
                let (_, command) = self.pending_command_requests.remove(j);
                assert(self@.pending_command_requests =~= pv.remove(j as int));
                assert(pv[j as int].1 == command@);
                proof {
                    lemma_distinct_remove(pv, j as int);
                }
                if let Command::GetFile(GetFile { user_name, file_name }) = command {
                    let response = CommandResponse::new(
                        command_request_id,
                        CommandResult::GetFile { user_name, file_name },
                    );
                    responses.push(response);
                    assert(responses@.map_values(|c: CommandResponse| response_view(c))
                        =~= seq![response_view(response)]);
                }
            },
        }
        responses
    }
}

proof fn lemma_other_than_list_peers_sub(pending: Seq<(u64, CommandView)>)
    ensures
        forall|a: int|
            0 <= a < other_than_list_peers(pending).len() ==> exists|b: int|
                0 <= b < pending.len() && #[trigger] other_than_list_peers(pending)[a] == pending[b],
        forall|a: int, b: int|
            0 <= a < b < other_than_list_peers(pending).len() ==> exists|c: int, d: int|
                0 <= c < d < pending.len() && #[trigger] other_than_list_peers(pending)[a]
                    == pending[c] && #[trigger] other_than_list_peers(pending)[b] == pending[d],
    decreases pending.len(),
{
    if pending.len() > 0 {
        let before = pending.drop_last();
        lemma_other_than_list_peers_sub(before);
        let o = other_than_list_peers(pending);
        let ob = other_than_list_peers(before);
        assert forall|a: int| 0 <= a < o.len() implies exists|b: int|
            0 <= b < pending.len() && #[trigger] o[a] == pending[b] by {
            if a < ob.len() {
                let b = choose|b: int| 0 <= b < before.len() && ob[a] == before[b];
                assert(pending[b] == before[b]);
            } else {
                assert(o[a] == pending[pending.len() - 1]);
            }
        }
        assert forall|a: int, b: int| 0 <= a < b < o.len() implies exists|c: int, d: int|
            0 <= c < d < pending.len() && #[trigger] o[a] == pending[c] && #[trigger] o[b]
                == pending[d] by {
            if b < ob.len() {
                let (c, d) = choose|c: int, d: int|
                    0 <= c < d < before.len() && ob[a] == before[c] && ob[b] == before[d];
                assert(pending[c] == before[c] && pending[d] == before[d]);
            } else {
                let c = choose|c: int| 0 <= c < before.len() && ob[a] == before[c];
                assert(pending[c] == before[c]);
                assert(o[b] == pending[pending.len() - 1]);
            }
        }
    }
}

proof fn lemma_other_than_list_peers_distinct(pending: Seq<(u64, CommandView)>)
    requires
        distinct_keys(pending),
    ensures
        distinct_keys(other_than_list_peers(pending)),
{
    lemma_other_than_list_peers_sub(pending);
    let o = other_than_list_peers(pending);
    assert forall|a: int, b: int| 0 <= a < o.len() && 0 <= b < o.len() && a != b implies (
    #[trigger] o[a]).0 != (#[trigger] o[b]).0 by {
        if a < b {
            let (c, d) = choose|c: int, d: int|
                0 <= c < d < pending.len() && o[a] == pending[c] && o[b] == pending[d];
            assert(pending[c].0 != pending[d].0);
        } else {
            let (c, d) = choose|c: int, d: int|
                0 <= c < d < pending.len() && o[b] == pending[c] && o[a] == pending[d];
            assert(pending[c].0 != pending[d].0);
        }
    }
}

} // verus!

verus! {

proof fn lemma_table_insert_get<K, V>(t: Seq<(K, V)>, key: K, value: V)
    requires
        distinct_keys(t),
    ensures
        has_key(table_insert(t, key, value), key),
        table_get(table_insert(t, key, value), key) == value,
{
    let r = table_insert(t, key, value);
    lemma_distinct_insert(t, key, value);
    let i = if has_key(t, key) { key_index(t, key) } else { t.len() as int };
    assert(r[i].0 == key);
    let j = key_index(r, key);
    assert(r[j].0 == key);
    assert(i == j);
}

proof fn lemma_table_remove_gone<K, V>(t: Seq<(K, V)>, key: K)
    requires
        distinct_keys(t),
    ensures
        !has_key(table_remove(t, key), key),
        distinct_keys(table_remove(t, key)),
{
    if has_key(t, key) {
        let k = key_index(t, key);
        lemma_distinct_remove(t, k);
        let r = t.remove(k);
        if has_key(r, key) {
            let a = choose|a: int| 0 <= a < r.len() && (#[trigger] r[a]).0 == key;
            let a2 = if a < k { a } else { a + 1 };
            assert(t[a2].0 == key);
            assert(t[k].0 == key);
        }
    }
}

/// A list-files command for a user whose peer is known asks that peer for its files;
/// once the request is sent, the peer's answer answers the command with the file names,
/// and neither the command nor the request waits any longer.
pub proof fn lemma_list_files_answered(
    v: EventLoopView,
    command_request_id: u64,
    user_name: Seq<char>,
    request_id: u64,
    file_names: Seq<Seq<char>>,
)
    requires
        v.wf(),
        peer_of(v, user_name) is Some,
    ensures
        ({
            let command = CommandView::ListFiles { user_name };
            let (action, v1) = handle_command_spec(v, command_request_id, command)->Ok_0;
            let v2 = EventLoopView {
                pending_list_files: table_insert(v1.pending_list_files, request_id, command_request_id),
                ..v1
            };
            let (responses, v3) = handle_event_spec(
                v2,
                NetworkEventView::ListFilesResponse { request_id, file_names },
            );
            &&& action == CommandActionView::SendListFiles { peer_id: peer_of(v, user_name).unwrap() }
            &&& responses == seq![
                ResponseView {
                    command_request_id,
                    result: CommandResultView::ListFiles(file_names),
                },
            ]
            &&& !has_key(v3.pending_command_requests, command_request_id)
            &&& !has_key(v3.pending_list_files, request_id)
        }),
{
    let command = CommandView::ListFiles { user_name };
    let (action, v1) = handle_command_spec(v, command_request_id, command)->Ok_0;
    lemma_table_insert_get(v.pending_command_requests, command_request_id, command);
    lemma_distinct_insert(v.pending_command_requests, command_request_id, command);
    lemma_table_insert_get(v.pending_list_files, request_id, command_request_id);
    lemma_distinct_insert(v.pending_list_files, request_id, command_request_id);
    let plf = table_insert(v.pending_list_files, request_id, command_request_id);
    lemma_table_remove_gone(plf, request_id);
    lemma_table_remove_gone(v1.pending_command_requests, command_request_id);
}

/// A get-file command for a user whose peer is known asks that peer for the file; once
/// the request is sent, the peer's answer answers the command with the user and file
/// names, and neither the command nor the request waits any longer.
pub proof fn lemma_get_file_answered(
    v: EventLoopView,
    command_request_id: u64,
    user_name: Seq<char>,
    file_name: Seq<char>,
    request_id: RequestId,
)
    requires
        v.wf(),
        peer_of(v, user_name) is Some,
    ensures
        ({
            let command = CommandView::GetFile { user_name, file_name };
            let (action, v1) = handle_command_spec(v, command_request_id, command)->Ok_0;
            let v2 = EventLoopView {
                pending_file_gets: table_insert(v1.pending_file_gets, request_id.0, command_request_id),
                ..v1
            };
            let event = NetworkEventView::FileGetResponseReceived { request_id };
            let (responses, v3) = handle_event_spec(v2, event);
            &&& action == CommandActionView::SendFileGet {
                peer_id: peer_of(v, user_name).unwrap(),
                file_name,
            }
            &&& accepts_event(v2, event)
            &&& responses == seq![
                ResponseView {
                    command_request_id,
                    result: CommandResultView::GetFile { user_name, file_name },
                },
            ]
            &&& !has_key(v3.pending_command_requests, command_request_id)
            &&& !has_key(v3.pending_file_gets, request_id.0)
        }),
{
    let command = CommandView::GetFile { user_name, file_name };
    let (action, v1) = handle_command_spec(v, command_request_id, command)->Ok_0;
    lemma_table_insert_get(v.pending_command_requests, command_request_id, command);
    lemma_distinct_insert(v.pending_command_requests, command_request_id, command);
    lemma_table_insert_get(v.pending_file_gets, request_id.0, command_request_id);
    lemma_distinct_insert(v.pending_file_gets, request_id.0, command_request_id);
    let pfg = table_insert(v.pending_file_gets, request_id.0, command_request_id);
    lemma_table_remove_gone(pfg, request_id.0);
    lemma_table_remove_gone(v1.pending_command_requests, command_request_id);
}

/// A command for a user under whom no peer is known is rejected, and changes nothing.
pub proof fn lemma_unknown_user_rejected(v: EventLoopView, command_request_id: u64, command: CommandView)
    requires
        match command {
            CommandView::ListFiles { user_name } => peer_of(v, user_name) is None,
            CommandView::GetFile { user_name, .. } => peer_of(v, user_name) is None,
            _ => false,
        },
    ensures
        ({
            let user_name = match command {
                CommandView::ListFiles { user_name } => user_name,
                CommandView::GetFile { user_name, .. } => user_name,
                _ => Seq::empty(),
            };
            handle_command_spec(v, command_request_id, command) == Ok::<_, FileSharingErrorView>(
                (CommandActionView::Reject(FileSharingErrorView::UserNotRegistered(user_name)), v),
            )
        }),
{
}

} // verus!

verus! {

proof fn lemma_list_peers_waiting_contains(s: Seq<(u64, CommandView)>, i: int)
    requires
        0 <= i < s.len(),
        s[i].1 is ListPeers,
    ensures
        list_peers_waiting(s).contains(s[i].0),
    decreases s.len(),
{
    let before = s.drop_last();
    if i < s.len() - 1 {
        lemma_list_peers_waiting_contains(before, i);
        let w = list_peers_waiting(before);
        let k = choose|k: int| 0 <= k < w.len() && w[k] == s[i].0;
        assert(list_peers_waiting(s)[k] == s[i].0);
    } else {
        assert(list_peers_waiting(s).last() == s[i].0);
    }
}

proof fn lemma_other_than_list_peers_kind(s: Seq<(u64, CommandView)>)
    ensures
        forall|a: int|
            0 <= a < other_than_list_peers(s).len() ==> !((#[trigger] other_than_list_peers(
                s,
            )[a]).1 is ListPeers),
    decreases s.len(),
{
    if s.len() > 0 {
        lemma_other_than_list_peers_kind(s.drop_last());
    }
}

/// A list-peers command waits for the rendezvous point's registrations; they answer it
/// with every namespace known after them, and it no longer waits.
pub proof fn lemma_list_peers_answered(
    v: EventLoopView,
    command_request_id: u64,
    registrations: Seq<RegistrationView>,
)
    requires
        v.wf(),
        v.rendezvous_point_peer_id is Some,
    ensures
        ({
            let (action, v1) = handle_command_spec(v, command_request_id, CommandView::ListPeers)->Ok_0;
            let (responses, v2) = handle_event_spec(
                v1,
                NetworkEventView::Discovered { registrations },
            );
            let names = register_all(v.namespace_peers, registrations).map_values(
                |e: (Seq<char>, Seq<u8>)| e.0,
            );
            &&& action == CommandActionView::Discover {
                rendezvous_point: v.rendezvous_point_peer_id.unwrap(),
            }
            &&& responses.contains(
                ResponseView { command_request_id, result: CommandResultView::ListPeers(names) },
            )
            &&& !has_key(v2.pending_command_requests, command_request_id)
        }),
{
    let (action, v1) = handle_command_spec(v, command_request_id, CommandView::ListPeers)->Ok_0;
    let p = v1.pending_command_requests;
    lemma_table_insert_get(v.pending_command_requests, command_request_id, CommandView::ListPeers);
    lemma_distinct_insert(v.pending_command_requests, command_request_id, CommandView::ListPeers);
    let i = key_index(p, command_request_id);
    assert(p[i].0 == command_request_id);
    lemma_list_peers_waiting_contains(p, i);
    let ids = list_peers_waiting(p);
    let k = choose|k: int| 0 <= k < ids.len() && ids[k] == command_request_id;
    let names = register_all(v.namespace_peers, registrations).map_values(
        |e: (Seq<char>, Seq<u8>)| e.0,
    );
    let (responses, v2) = handle_event_spec(v1, NetworkEventView::Discovered { registrations });
    assert(responses[k] == ResponseView {
        command_request_id,
        result: CommandResultView::ListPeers(names),
    });
    lemma_other_than_list_peers_sub(p);
    lemma_other_than_list_peers_kind(p);
    let o = other_than_list_peers(p);
    if has_key(o, command_request_id) {
        let a = choose|a: int| 0 <= a < o.len() && (#[trigger] o[a]).0 == command_request_id;
        let b = choose|b: int| 0 <= b < p.len() && o[a] == p[b];
        assert(p[b].0 == p[i].0);
        assert(b == i);
    }
}

} // verus!

verus! {

/// Whether `id` is the identifier of a list-peers command of `s`.
spec fn is_list_peers_id(s: Seq<(u64, CommandView)>, id: u64) -> bool {
    exists|j: int| 0 <= j < s.len() && (#[trigger] s[j]).0 == id && s[j].1 is ListPeers
}

/// Every identifier in `list_peers_waiting(s)` is that of a list-peers command of `s`.
proof fn lemma_list_peers_waiting_sound(s: Seq<(u64, CommandView)>)
    ensures
        forall|i: int|
            0 <= i < list_peers_waiting(s).len() ==> is_list_peers_id(
                s,
                #[trigger] list_peers_waiting(s)[i],
            ),
    decreases s.len(),
{
    if s.len() > 0 {
        let d = s.drop_last();
        lemma_list_peers_waiting_sound(d);
        let b = list_peers_waiting(d);
        let l = list_peers_waiting(s);
        assert forall|i: int| 0 <= i < l.len() implies is_list_peers_id(s, #[trigger] l[i]) by {
            if i < b.len() {
                assert(l[i] == b[i]);
                assert(is_list_peers_id(d, b[i]));
                let j = choose|j: int| 0 <= j < d.len() && (#[trigger] d[j]).0 == b[i] && d[j].1 is ListPeers;
                assert(s[j] == d[j]);
            } else {
                assert(s.last().1 is ListPeers);
                assert(l[i] == s[s.len() - 1].0);
            }
        }
    }
}

/// A waiting command that is not a list-peers command is kept by `other_than_list_peers`.
proof fn lemma_other_than_list_peers_keeps(s: Seq<(u64, CommandView)>, j: int)
    requires
        0 <= j < s.len(),
        !(s[j].1 is ListPeers),
    ensures
        other_than_list_peers(s).contains(s[j]),
    decreases s.len(),
{
    let d = s.drop_last();
    let o = other_than_list_peers(s);
    if j < s.len() - 1 {
        lemma_other_than_list_peers_keeps(d, j);
        let od = other_than_list_peers(d);
        let a = choose|a: int| 0 <= a < od.len() && od[a] == d[j];
        assert(o[a] == od[a]);
        assert(s[j] == d[j]);
    } else {
        assert(o[o.len() - 1] == s[j]);
    }
}

/// Registrations discovered at the rendezvous point answer the waiting list-peers commands
/// and only them. Each answer carries the identifier of a waiting list-peers command and
/// lists the namespaces known after the registrations; every waiting list-peers command
/// is answered and stops waiting; every other waiting command keeps waiting as it was.
pub proof fn lemma_discovery_answers_only_list_peers(
    v: EventLoopView,
    registrations: Seq<RegistrationView>,
)
    requires
        v.wf(),
    ensures
        ({
            let (responses, w) = handle_event_spec(v, NetworkEventView::Discovered { registrations });
            let p = v.pending_command_requests;
            let names = register_all(v.namespace_peers, registrations).map_values(
                |e: (Seq<char>, Seq<u8>)| e.0,
            );
            &&& forall|i: int|
                0 <= i < responses.len() ==> (#[trigger] responses[i]).result
                    == CommandResultView::ListPeers(names) && exists|j: int|
                    0 <= j < p.len() && (#[trigger] p[j]).0 == responses[i].command_request_id
                        && p[j].1 is ListPeers
            &&& forall|j: int|
                0 <= j < p.len() && (#[trigger] p[j]).1 is ListPeers ==> !has_key(
                    w.pending_command_requests,
                    p[j].0,
                ) && responses.contains(
                    ResponseView {
                        command_request_id: p[j].0,
                        result: CommandResultView::ListPeers(names),
                    },
                )
            &&& forall|j: int|
                0 <= j < p.len() && !((#[trigger] p[j]).1 is ListPeers)
                    ==> w.pending_command_requests.contains(p[j])
            &&& w.namespace_peers == register_all(v.namespace_peers, registrations)
            &&& w.pending_list_files == v.pending_list_files
            &&& w.pending_file_gets == v.pending_file_gets
        }),
{
    let (responses, w) = handle_event_spec(v, NetworkEventView::Discovered { registrations });
    let p = v.pending_command_requests;
    let names = register_all(v.namespace_peers, registrations).map_values(
        |e: (Seq<char>, Seq<u8>)| e.0,
    );
    let ids = list_peers_waiting(p);
    lemma_list_peers_waiting_sound(p);
    assert forall|i: int| 0 <= i < responses.len() implies (#[trigger] responses[i]).result
        == CommandResultView::ListPeers(names) && exists|j: int|
        0 <= j < p.len() && (#[trigger] p[j]).0 == responses[i].command_request_id
            && p[j].1 is ListPeers by {
        assert(responses[i].command_request_id == ids[i]);
        assert(is_list_peers_id(p, ids[i]));
        let j = choose|j: int| 0 <= j < p.len() && (#[trigger] p[j]).0 == ids[i] && p[j].1 is ListPeers;
        assert(p[j].0 == responses[i].command_request_id);
    }
    lemma_other_than_list_peers_sub(p);
    lemma_other_than_list_peers_kind(p);
    assert forall|j: int| 0 <= j < p.len() && (#[trigger] p[j]).1 is ListPeers implies !has_key(
        w.pending_command_requests,
        p[j].0,
    ) && responses.contains(
        ResponseView { command_request_id: p[j].0, result: CommandResultView::ListPeers(names) },
    ) by {
        lemma_list_peers_waiting_contains(p, j);
        let k = choose|k: int| 0 <= k < ids.len() && ids[k] == p[j].0;
        assert(responses[k] == ResponseView {
            command_request_id: p[j].0,
            result: CommandResultView::ListPeers(names),
        });
        let o = w.pending_command_requests;
        if has_key(o, p[j].0) {
            let a = choose|a: int| 0 <= a < o.len() && (#[trigger] o[a]).0 == p[j].0;
            let b = choose|b: int| 0 <= b < p.len() && o[a] == p[b];
            assert(p[b].0 == p[j].0);
            if b != j {
                assert(p[b].0 != p[j].0);
            }
            assert(!(o[a].1 is ListPeers));
        }
    }
    assert forall|j: int| 0 <= j < p.len() && !((#[trigger] p[j]).1 is ListPeers) implies w.pending_command_requests.contains(p[j]) by {
        lemma_other_than_list_peers_keeps(p, j);
    }
}

} // verus!

verus! {

impl EventLoop {
    /// Whether the event loop can take the event: a file that arrived must answer a file
    /// request that is still pending, and that request a command that is still pending.
    pub fn accepts(&self, event: &NetworkEvent) -> (r: bool)
        requires
            self.wf(),
        ensures
            r == accepts_event(self@, event@),
    {
        match event {
            NetworkEvent::FileGetResponseReceived { request_id } => {
                match number_position(&self.pending_file_gets, request_id.0) {
                    Some(i) => {
                        let command_request_id = self.pending_file_gets[i].1;
                        id_position(&self.pending_command_requests, command_request_id).is_some()
                    },
                    None => false,
                }
            },
            _ => true,
        }
    }
}

/// How long a request for a file may take, in seconds.
pub const FILE_GET_TIMEOUT_SECS: u64 = 1800;

/// The interval between two pings of a peer, in seconds.
pub const PING_INTERVAL_SECS: u64 = 1;

/// How long the node waits to listen and to reach the rendezvous point, in seconds.
pub const STARTUP_WAIT_SECS: u64 = 3;

/// Hands out command identifiers in increasing order, starting from 0 and wrapping
/// around after the largest `u64`.
#[derive(Debug)]
pub struct CommandRequestIdGenerator {
    next: u64,
}

impl CommandRequestIdGenerator {
    /// The identifier that the next call of `next_id` hands out.
    pub closed spec fn next_value(&self) -> u64 {
        self.next
    }

    pub fn new() -> (r: Self)
        ensures
            r.next_value() == 0,
    {
        CommandRequestIdGenerator { next: 0 }
    }

    pub fn next_id(&mut self) -> (r: u64)
        ensures
            r == old(self).next_value(),
            final(self).next_value() == old(self).next_value().wrapping_add(1),
    {
        let id = self.next;
        self.next = self.next.wrapping_add(1);
        id
    }
}

/// Counting from 0, the k-th command of a client gets the identifier `k`: its generator
/// starts at `nth_id(0, 0)` and each call of `next_id` moves one step along the series
/// (`lemma_next_id_follows`); so no two of its first 2^64 commands share an identifier.
pub proof fn lemma_command_ids_count(k: nat, l: nat)
    requires
        k < l < id_space(),
    ensures
        nth_id(0, k) == k,
        nth_id(0, k) != nth_id(0, l),
{
    lemma_ids_distinct(0, k, l);
}

/// What happened while the node waits to listen.
#[derive(Debug, Clone, Copy, PartialEq, Eq, Structural)]
pub enum ListenEvent {
    /// The node listens on a new address.
    NewListenAddr,
    /// The listener failed.
    ListenerError,
    /// The wait is over.
    TimedOut,
    /// Anything else.
    Other,
}

/// Whether the wait to listen ends with the event, and if so whether the node listens.
pub fn listen_progress(event: ListenEvent) -> (r: Option<bool>)
    ensures
        r == match event {
            ListenEvent::NewListenAddr => Some(true),
            ListenEvent::ListenerError => Some(false),
            ListenEvent::TimedOut => Some(false),
            ListenEvent::Other => None::<bool>,
        },
{
    match event {
        ListenEvent::NewListenAddr => Some(true),
        ListenEvent::ListenerError => Some(false),
        ListenEvent::TimedOut => Some(false),
        ListenEvent::Other => None,
    }
}

/// The outcome of the wait to listen on the address.
pub fn listen_result(listen_success: bool, local_address: String) -> (r: Result<(), FileSharingError>)
    ensures
        match r {
            Ok(()) => listen_success,
            Err(e) => !listen_success && e@ == FileSharingErrorView::ListenError(local_address@),
        },
{
    if listen_success {
        Ok(())
    } else {
        Err(FileSharingError::ListenError(local_address))
    }
}

/// The secret key bytes derived from a seed: the seed followed by 31 zero bytes.
pub fn secret_key_bytes(seed: u8) -> (r: Vec<u8>)
    ensures
        r@.len() == 32,
        r@[0] == seed,
        forall|i: int| 1 <= i < 32 ==> r@[i] == 0,
{
    let mut bytes: Vec<u8> = Vec::new();
    bytes.push(seed);
    let mut i: usize = 1;
    while i < 32
        invariant
            1 <= i <= 32,
            bytes@.len() == i,
            bytes@[0] == seed,
            forall|k: int| 1 <= k < i ==> bytes@[k] == 0,
        decreases 32 - i,
    {
        bytes.push(0);
        i = i + 1;
    }
    bytes
}

} // verus!
