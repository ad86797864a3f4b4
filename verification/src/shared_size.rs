//! The shared size cell and the condition variable through which the reorder
//! buffer tells a waiting producer how full it is, and the receipts that only
//! the operations on them hand out.
use crate::ordered::{buffer_is_full, is_full_spec};
use vstd::prelude::*;

verus! {

#[verifier::external_type_specification]
#[verifier::external_body]
#[verifier::reject_recursive_types(T)]
pub struct ExMutex<T: ?Sized>(std::sync::Mutex<T>);

#[verifier::external_type_specification]
#[verifier::external_body]
pub struct ExCondvar(std::sync::Condvar);

/// A receipt for a size stored in a shared size cell. Only the operations of
/// this module that store a size make one.
pub struct Published {
    size: usize,
}

impl Published {
    /// The size that was stored.
    pub closed spec fn size(&self) -> usize {
        self.size
    }
}

/// A receipt for having woken one waiting producer. Only `wake_one` makes one.
pub struct Woken {
    signal: (),
}

/// A receipt for a size seen in a shared size cell while waiting for space,
/// with the bound the wait was for. Only `wait_until_not_full` makes one.
pub struct SpaceSeen {
    size: usize,
    bound: usize,
}

impl SpaceSeen {
    /// The size that was seen.
    pub closed spec fn size(&self) -> usize {
        self.size
    }

    /// The bound the wait was for: it waited while the size was at least this.
    pub closed spec fn bound(&self) -> usize {
        self.bound
    }
}

/// Creates the cell that publishes the buffer's current size, holding
/// `initial` (`std::sync::Mutex::new`), with the receipt of that size.
#[verifier::external_body]
pub(crate) fn new_size_cell(initial: usize) -> (made: (std::sync::Mutex<usize>, Published))
    ensures
        made.1.size() == initial,
{
    (std::sync::Mutex::new(initial), Published { size: initial })
}

/// Creates the condition variable that producers wait on
/// (`std::sync::Condvar::new`).
#[verifier::external_body]
pub(crate) fn new_space_signal() -> std::sync::Condvar {
    std::sync::Condvar::new()
}

/// Reads the size published in `cell` under its lock (`std::sync::Mutex::lock`).
/// Nothing is claimed of the value read: the reorder buffer that owns the cell
/// may publish a new size from another thread at any moment. The lock is only
/// held inside the operations of this module, none of which panics while
/// holding it, so the lock is never poisoned and the `unwrap` does not panic.
#[verifier::external_body]
pub(crate) fn read_size(cell: &std::sync::Mutex<usize>) -> usize {
    *cell.lock().unwrap()
}

/// Stores `size` in `cell` under its lock (`std::sync::Mutex::lock`), and
/// hands back the receipt of the size stored. The lock is never poisoned (see
/// `read_size`).
#[verifier::external_body]
pub(crate) fn publish_size(cell: &std::sync::Mutex<usize>, size: usize) -> (stored: Published)
    ensures
        stored.size() == size,
{
    *cell.lock().unwrap() = size;
    Published { size }
}

/// Wakes one thread waiting on `signal` (`std::sync::Condvar::notify_one`),
/// and hands back the receipt of it.
#[verifier::external_body]
pub(crate) fn wake_one(signal: &std::sync::Condvar) -> Woken {
    signal.notify_one();
    Woken { signal: () }
}

/// Blocks until the size published in `cell` is below `max_buffer_size`
/// (`std::sync::Condvar::wait_while`, with the lock of `cell`), and hands back
/// the receipt of the size it saw then and of the bound it waited for.
/// `wait_while` returns only once its
/// condition, here `buffer_is_full`, is false of the guarded value; with
/// `max_buffer_size == 0` it never returns, so that input is left out.
#[verifier::external_body]
pub(crate) fn wait_until_not_full(
    cell: &std::sync::Mutex<usize>,
    signal: &std::sync::Condvar,
    max_buffer_size: usize,
) -> (seen: SpaceSeen)
    requires
        max_buffer_size > 0,
    ensures
        !is_full_spec(max_buffer_size, seen.size()),
        seen.bound() == max_buffer_size,
{
    let guard = cell.lock().unwrap();
    let guard = signal.wait_while(guard, |size| buffer_is_full(max_buffer_size, *size)).unwrap();
    SpaceSeen { size: *guard, bound: max_buffer_size }
}

} // verus!
