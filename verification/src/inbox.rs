//! The receiving end of the channel that results arrive on, with a record of
//! every message taken from it.
use vstd::prelude::*;

verus! {

#[verifier::external_type_specification]
#[verifier::external_body]
#[verifier::reject_recursive_types(T)]
pub struct ExReceiver<T>(crossbeam_channel::Receiver<T>);

/// A channel receiver of `(message id, message)` pairs, with the log of the
/// messages taken from it so far. Only the receiving operations of this module
/// add to the log.
#[verifier::reject_recursive_types(M)]
pub struct Inbox<M> {
    receiver: crossbeam_channel::Receiver<(usize, M)>,
    taken: Ghost<Seq<(usize, M)>>,
    closed: Ghost<bool>,
    found_empty: Ghost<bool>,
}

impl<M> Inbox<M> {
    /// The channel receiver.
    pub closed spec fn receiver(&self) -> crossbeam_channel::Receiver<(usize, M)> {
        self.receiver
    }

    /// Every message taken from the channel so far, in the order taken.
    pub closed spec fn taken(&self) -> Seq<(usize, M)> {
        self.taken@
    }

    /// Whether a blocking receive found the channel empty with every sender
    /// gone; no message can arrive after that.
    pub closed spec fn closed(&self) -> bool {
        self.closed@
    }

    /// Whether the last receive found no message in the channel.
    pub closed spec fn found_empty(&self) -> bool {
        self.found_empty@
    }

    /// An inbox on `receiver` from which nothing was taken yet.
    pub(crate) fn new(receiver: crossbeam_channel::Receiver<(usize, M)>) -> (inbox: Self)
        ensures
            inbox.receiver() == receiver,
            inbox.taken() == Seq::<(usize, M)>::empty(),
            !inbox.closed(),
            !inbox.found_empty(),
    {
        Inbox {
            receiver,
            taken: Ghost(Seq::empty()),
            closed: Ghost(false),
            found_empty: Ghost(false),
        }
    }
}

/// Takes a message out of the channel if one is waiting
/// (`crossbeam_channel::Receiver::try_recv`, its error mapped to `None`), and
/// logs what it took; `None` comes only when the channel holds no message at
/// that moment, which is then recorded. Which message, if any, senders on
/// other threads decide.
#[verifier::external_body]
pub(crate) fn receive_now<M>(inbox: &mut Inbox<M>) -> (item: Option<(usize, M)>)
    ensures
        final(inbox).receiver() == old(inbox).receiver(),
        final(inbox).closed() == old(inbox).closed(),
        final(inbox).found_empty() == (item is None),
        final(inbox).taken() == match item {
            Some(taken) => old(inbox).taken().push(taken),
            None => old(inbox).taken(),
        },
{
    inbox.receiver.try_recv().ok()
}

/// Waits for the next message of the channel
/// (`crossbeam_channel::Receiver::recv`, its error mapped to `None`), and logs
/// what it took. `None` comes only once the channel is empty and every sender
/// is gone, which is then recorded. Which message comes, senders on other
/// threads decide.
#[verifier::external_body]
pub(crate) fn receive_blocking<M>(inbox: &mut Inbox<M>) -> (item: Option<(usize, M)>)
    ensures
        final(inbox).receiver() == old(inbox).receiver(),
        final(inbox).taken() == match item {
            Some(taken) => old(inbox).taken().push(taken),
            None => old(inbox).taken(),
        },
        final(inbox).closed() == (old(inbox).closed() || item is None),
        final(inbox).found_empty() == (item is None),
{
    inbox.receiver.recv().ok()
}

/// Whether the channel is full (`crossbeam_channel::Receiver::is_full`).
/// Nothing is claimed of the result: senders on other threads change it.
#[verifier::external_body]
pub(crate) fn channel_is_full<M>(inbox: &Inbox<M>) -> bool {
    inbox.receiver.is_full()
}

} // verus!
