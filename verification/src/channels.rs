//! The crossbeam channel primitives the controller talks to actors through.
//!
//! Everything here is trusted: the channel types are declared opaque, and
//! each operation is a thin wrapper around one library call. What a channel
//! delivers depends on the other threads, so none of the wrappers promises
//! anything about the values moved; the verified routing and mutation logic
//! takes the received values as arguments and is proved for every value.

use vstd::prelude::*;

verus! {

/// Declares crossbeam_channel's sending half, so that it can sit in the
/// registry's fields. Opaque to the verifier.
#[verifier::external_type_specification]
#[verifier::external_body]
#[verifier::reject_recursive_types(T)]
pub struct ExSender<T>(crossbeam_channel::Sender<T>);

/// Declares crossbeam_channel's receiving half. Opaque to the verifier.
#[verifier::external_type_specification]
#[verifier::external_body]
#[verifier::reject_recursive_types(T)]
pub struct ExReceiver<T>(crossbeam_channel::Receiver<T>);

/// Relies on crossbeam_channel::unbounded: returns the two halves of a
/// fresh channel of unbounded capacity.
#[verifier::external_body]
pub fn channel_new<T>() -> (crossbeam_channel::Sender<T>, crossbeam_channel::Receiver<T>) {
    crossbeam_channel::unbounded()
}

/// Relies on crossbeam_channel::Sender::send: it queues the message and
/// fails only when every receiver of the channel has been dropped. On the
/// unbounded channels this library creates the call never blocks; a bounded
/// channel's sender could block until space frees up, which the liveness
/// assumption on actors excludes. Returns whether the message was taken.
#[verifier::external_body]
pub fn channel_send<T>(s: &crossbeam_channel::Sender<T>, v: T) -> bool {
    s.send(v).is_ok()
}

/// Relies on crossbeam_channel::Receiver::try_recv: takes one waiting
/// message without ever blocking; `None` when nothing waits or the channel
/// has disconnected.
#[verifier::external_body]
pub fn channel_try_recv<T>(r: &crossbeam_channel::Receiver<T>) -> Option<T> {
    r.try_recv().ok()
}

/// Relies on crossbeam_channel::Sender::clone: another handle sending into
/// the same channel.
#[verifier::external_body]
pub fn sender_clone<T>(s: &crossbeam_channel::Sender<T>) -> crossbeam_channel::Sender<T> {
    s.clone()
}

} // verus!
