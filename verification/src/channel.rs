//! The contracts under which the frontier queue uses a `crossbeam` channel.
//!
//! Nothing in this file is proved. Every contract here describes a channel
//! whose two handles have one owner and are used by one thread at a time: the
//! frontier queue keeps both in private fields and never clones or lends them.

use crossbeam::channel::{Receiver, Sender};
use vstd::prelude::*;

verus! {

#[verifier::external_type_specification]
#[verifier::external_body]
#[verifier::reject_recursive_types(T)]
pub struct ExSender<T>(Sender<T>);

#[verifier::external_type_specification]
#[verifier::external_body]
#[verifier::reject_recursive_types(T)]
pub struct ExReceiver<T>(Receiver<T>);

/// The messages that wait in the channel behind `r`, oldest first.
pub uninterp spec fn buffered(r: Receiver<String>) -> Seq<Seq<char>>;

/// The capacity that the channel behind `r` was made with, `None` if it was
/// made without one.
pub uninterp spec fn bound(r: Receiver<String>) -> Option<nat>;

/// Whether `s` sends into the channel that `r` receives from.
pub uninterp spec fn feeds(s: Sender<String>, r: Receiver<String>) -> bool;

/// Whether one more message fits into the channel behind `r`.
pub open spec fn has_room(r: Receiver<String>) -> bool {
    match bound(r) {
        None => true,
        Some(b) => buffered(r).len() < b,
    }
}

/// The largest capacity for which `bounded_channel` is called. The channel
/// allocates all its slots at once, and a slot for a `String` takes less than
/// 64 bytes: up to this capacity the size of the allocation can be computed.
pub open spec fn max_bound() -> nat {
    (usize::MAX / 64) as nat
}

/// `crossbeam::channel::bounded`: a fresh channel that holds at most `cap`
/// messages, with its two handles. The channel is empty.
#[verifier::external_body]
pub(crate) fn bounded_channel(cap: usize) -> (ends: (Sender<String>, Receiver<String>))
    requires
        0 < cap <= max_bound(),
    ensures
        feeds(ends.0, ends.1),
        buffered(ends.1) == Seq::<Seq<char>>::empty(),
        bound(ends.1) == Some(cap as nat),
{
    crossbeam::channel::bounded(cap)
}

/// `crossbeam::channel::unbounded`: a fresh channel that holds any number of
/// messages, with its two handles. The channel is empty.
#[verifier::external_body]
pub(crate) fn unbounded_channel() -> (ends: (Sender<String>, Receiver<String>))
    ensures
        feeds(ends.0, ends.1),
        buffered(ends.1) == Seq::<Seq<char>>::empty(),
        bound(ends.1) is None,
{
    crossbeam::channel::unbounded()
}

/// `Sender::try_send`: appends `url` behind the waiting messages if one more
/// fits, and hands it back, leaving the channel as it was, if none does.
/// The receiving handle is a parameter because the send changes what it will
/// deliver; as long as it is alive the channel is not disconnected, so a full
/// channel is the only failure.
#[verifier::external_body]
#[allow(unused_variables)]
pub(crate) fn try_send(s: &Sender<String>, r: &mut Receiver<String>, url: String) -> (sent: Result<
    (),
    String,
>)
    requires
        feeds(*s, *old(r)),
    ensures
        feeds(*s, *final(r)),
        bound(*final(r)) == bound(*old(r)),
        match sent {
            Ok(_) => has_room(*old(r)) && buffered(*final(r)) == buffered(*old(r)).push(url@),
            Err(back) => !has_room(*old(r)) && back@ == url@ && buffered(*final(r)) == buffered(
                *old(r),
            ),
        },
{
    s.try_send(url).map_err(|e| e.into_inner())
}

/// `Receiver::try_recv`: takes the oldest waiting message out of the channel
/// and returns it; returns `None`, leaving the channel as it was, if none
/// waits (whether or not a sender is still alive).
#[verifier::external_body]
pub(crate) fn try_recv(r: &mut Receiver<String>) -> (got: Option<String>)
    ensures
        bound(*final(r)) == bound(*old(r)),
        forall|s: Sender<String>| #[trigger] feeds(s, *old(r)) ==> feeds(s, *final(r)),
        match got {
            Some(url) => buffered(*old(r)).len() > 0 && url@ == buffered(*old(r))[0] && buffered(
                *final(r),
            ) == buffered(*old(r)).drop_first(),
            None => buffered(*old(r)).len() == 0 && buffered(*final(r)) == buffered(*old(r)),
        },
{
    r.try_recv().ok()
}

/// The `Drop` of a `Sender`: gives up the sending handle, which disconnects
/// the channel if it was the last one. The messages that wait stay in the
/// channel for the receiver.
#[verifier::external_body]
#[allow(unused_variables)]
pub(crate) fn hang_up(s: Sender<String>, r: &mut Receiver<String>)
    requires
        feeds(s, *old(r)),
    ensures
        bound(*final(r)) == bound(*old(r)),
        buffered(*final(r)) == buffered(*old(r)),
{
    drop(s)
}

/// `Receiver::len`: the number of messages that wait in the channel.
#[verifier::external_body]
pub(crate) fn waiting(r: &Receiver<String>) -> (n: usize)
    ensures
        n == buffered(*r).len(),
{
    r.len()
}

} // verus!
