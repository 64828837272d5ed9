use vstd::prelude::*;

verus! {

/// Errors reported to the user of the file sharing node.
///
/// Errors that come from the networking stack are carried as their rendered message.
#[derive(Debug)]
pub enum FileSharingError {
    /// The typed line is not a command.
    InvalidCommand,
    /// An input/output operation failed.
    Io(String),
    /// Dialing a peer failed.
    DialError(String),
    /// The rendezvous point could not be reached.
    RendezvousPointNotConnected,
    /// A user name is too long to be a rendezvous namespace.
    NamespaceTooLong,
    /// The node could not listen on the given address.
    ListenError(String),
    /// No peer has registered under the given user name.
    UserNotRegistered(String),
}

} // verus!

verus! {

/// An error, with its messages taken as character sequences.
pub enum FileSharingErrorView {
    InvalidCommand,
    Io(Seq<char>),
    DialError(Seq<char>),
    RendezvousPointNotConnected,
    NamespaceTooLong,
    ListenError(Seq<char>),
    UserNotRegistered(Seq<char>),
}

impl View for FileSharingError {
    type V = FileSharingErrorView;

    open spec fn view(&self) -> FileSharingErrorView {
        match self {
            FileSharingError::InvalidCommand => FileSharingErrorView::InvalidCommand,
            FileSharingError::Io(m) => FileSharingErrorView::Io(m@),
            FileSharingError::DialError(m) => FileSharingErrorView::DialError(m@),
            FileSharingError::RendezvousPointNotConnected =>
                FileSharingErrorView::RendezvousPointNotConnected,
            FileSharingError::NamespaceTooLong => FileSharingErrorView::NamespaceTooLong,
            FileSharingError::ListenError(m) => FileSharingErrorView::ListenError(m@),
            FileSharingError::UserNotRegistered(m) => FileSharingErrorView::UserNotRegistered(m@),
        }
    }
}

} // verus!
