//! Trusted boundary to the `shrev` event channel used as the change log.
//!
//! The `Hierarchy` appends `HierarchyEvent`s to an `EventChannel`; consumers
//! register readers and drain the events at their own pace. The channel's
//! contents are modelled by the uninterpreted [`channel_log`]: the sequence of
//! all events ever written. `shrev` grows its ring buffer before overwriting
//! an event that a live reader has not read, so a reader registered at
//! position `n` observes exactly the events written after `n`, in order.

use vstd::prelude::*;
use shrev::EventChannel;
use shrev::ReaderId;
use crate::entity::HierarchyEvent;

verus! {

#[verifier::external_type_specification]
#[verifier::external_body]
#[verifier::reject_recursive_types(E)]
pub struct ExEventChannel<E>(EventChannel<E>);

#[verifier::external_type_specification]
#[verifier::external_body]
#[verifier::reject_recursive_types(T)]
pub struct ExReaderId<T: 'static>(ReaderId<T>);

/// The sequence of all events ever written to the channel.
pub uninterp spec fn channel_log(c: EventChannel<HierarchyEvent>) -> Seq<HierarchyEvent>;

/// How many events of its channel's log a reader has already observed.
pub uninterp spec fn reader_seen(r: ReaderId<HierarchyEvent>) -> int;

/// Relies on `shrev::EventChannel::new`: a fresh channel holds no events.
#[verifier::external_body]
pub(crate) fn channel_new() -> (c: EventChannel<HierarchyEvent>)
    ensures
        channel_log(c) == Seq::<HierarchyEvent>::empty(),
{
    EventChannel::new()
}

/// Relies on `shrev::EventChannel::single_write`: appends exactly one event
/// to the channel; the ring buffer grows rather than drop an unread event.
#[verifier::external_body]
pub(crate) fn channel_write(c: &mut EventChannel<HierarchyEvent>, e: HierarchyEvent)
    ensures
        channel_log(*final(c)) == channel_log(*old(c)).push(e),
{
    c.single_write(e);
}

/// Relies on `shrev::EventChannel::register_reader`: registering writes no
/// event, and the new reader will only observe events written afterwards.
#[verifier::external_body]
pub(crate) fn channel_register(c: &mut EventChannel<HierarchyEvent>) -> (r: ReaderId<
    HierarchyEvent,
>)
    ensures
        channel_log(*final(c)) == channel_log(*old(c)),
        reader_seen(r) == channel_log(*old(c)).len(),
{
    c.register_reader()
}

} // verus!
