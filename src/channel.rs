use vstd::prelude::*;

verus! {

#[verifier::external_type_specification]
#[verifier::external_body]
#[verifier::reject_recursive_types(T)]
pub struct ExSender<T>(tokio::sync::mpsc::Sender<T>);

#[verifier::external_type_specification]
#[verifier::external_body]
#[verifier::reject_recursive_types(T)]
pub struct ExReceiver<T>(tokio::sync::mpsc::Receiver<T>);

/// Relies on tokio::sync::mpsc::channel: a bounded channel of the given
/// capacity; it panics on a capacity of zero or above the semaphore's
/// maximum number of permits, `usize::MAX >> 3`.
pub assume_specification<T>[ tokio::sync::mpsc::channel::<T> ](buffer: usize) -> (
    tokio::sync::mpsc::Sender<T>,
    tokio::sync::mpsc::Receiver<T>,
)
    requires
        buffer > 0,
        buffer <= usize::MAX >> 3,
;

/// Relies on tokio::sync::mpsc::Sender::is_closed: whether the receiving
/// half is gone, which depends on the other side alone.
pub assume_specification<T>[ tokio::sync::mpsc::Sender::<T>::is_closed ](
    tx: &tokio::sync::mpsc::Sender<T>,
) -> bool;

/// Relies on tokio::sync::mpsc::Sender::try_send: queues one signal without
/// waiting; whether it was queued depends on the receiving half alone.
#[verifier::external_body]
pub(crate) fn send_signal(tx: &tokio::sync::mpsc::Sender<()>) {
    let _ = tx.try_send(());
}

} // verus!
