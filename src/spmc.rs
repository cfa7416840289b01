//! Identity-keyed rendezvous: results are posted under the identity of the
//! request they answer, and each waiter takes the result for its own identity
//! only, whichever comes first, the post or the wait.
use std::collections::HashMap;
use std::sync::{Condvar, Mutex, MutexGuard};
use vstd::prelude::*;

verus! {

broadcast use vstd::std_specs::hash::group_hash_axioms;

/// `std::sync::Mutex`, held opaque: only the wrappers below touch it.
#[verifier::external_type_specification]
#[verifier::external_body]
#[verifier::reject_recursive_types(T)]
pub struct ExMutex<T: ?Sized>(Mutex<T>);

/// `std::sync::MutexGuard`, held opaque.
#[verifier::external_type_specification]
#[verifier::external_body]
#[verifier::reject_recursive_types(T)]
pub struct ExMutexGuard<'a, T: ?Sized + 'a>(MutexGuard<'a, T>);

/// `std::sync::Condvar`, held opaque.
#[verifier::external_type_specification]
#[verifier::external_body]
pub struct ExCondvar(Condvar);

/// The map `m` once `v` is posted under `id`.
pub open spec fn posted<T>(m: Map<usize, T>, id: usize, v: T) -> Map<usize, T> {
    m.insert(id, v)
}

/// What a waiter for `id` takes from `m`, and what is left.
pub open spec fn taken<T>(m: Map<usize, T>, id: usize) -> (Option<T>, Map<usize, T>) {
    if m.contains_key(id) {
        (Some(m[id]), m.remove(id))
    } else {
        (None, m)
    }
}

/// The results that have been posted and not yet taken, by identity.
pub struct Mailbox<T> {
    entries: HashMap<usize, T>,
}

impl<T> View for Mailbox<T> {
    type V = Map<usize, T>;

    closed spec fn view(&self) -> Map<usize, T> {
        self.entries@
    }
}

impl<T> Mailbox<T> {
    pub fn new() -> (r: Mailbox<T>)
        ensures
            r@ == Map::<usize, T>::empty(),
    {
        Mailbox { entries: HashMap::new() }
    }

    /// Records `item` under `id`.
    pub fn post(&mut self, id: usize, item: T)
        ensures
            final(self)@ == posted(old(self)@, id, item),
    {
        self.entries.insert(id, item);
    }

    /// Removes and returns the entry for `id`, if there is one; entries for
    /// other identities are left alone.
    pub fn take(&mut self, id: usize) -> (r: Option<T>)
        ensures
            (r, final(self)@) == taken(old(self)@, id),
    {
        let r = self.entries.remove(&id);
        proof {
            if old(self)@.contains_key(id) {
                assert(final(self)@ =~= old(self)@.remove(id));
            } else {
                assert(final(self)@ =~= old(self)@);
            }
        }
        r
    }

    /// No entry for `id` is waiting.
    pub fn lacks(&self, id: usize) -> (r: bool)
        ensures
            r == !self@.contains_key(id),
    {
        !self.entries.contains_key(&id)
    }
}

/// A value posted once under `id`, before or after the wait for it begins, is
/// taken by that wait; a later wait for `id` finds nothing, and keeps waiting.
pub proof fn lemma_exactly_once<T>(m: Map<usize, T>, id: usize, v: T)
    requires
        !m.contains_key(id),
    ensures
        taken(m, id) == (None::<T>, m),
        taken(posted(m, id, v), id) == (Some(v), m),
        taken(taken(posted(m, id, v), id).1, id) == (None::<T>, m),
{
    assert(posted(m, id, v).remove(id) =~= m);
}

/// Entries for different identities do not disturb each other: with `a`
/// posted under `i` and `b` under `j`, in either order, the wait for `j`
/// takes `b` and leaves `a` for the wait for `i`.
pub proof fn lemma_non_interference<T>(m: Map<usize, T>, i: usize, a: T, j: usize, b: T)
    requires
        i != j,
        !m.contains_key(i),
        !m.contains_key(j),
    ensures
        posted(posted(m, i, a), j, b) == posted(posted(m, j, b), i, a),
        taken(posted(posted(m, i, a), j, b), j) == (Some(b), posted(m, i, a)),
        taken(posted(m, i, a), i) == (Some(a), m),
{
    assert(posted(posted(m, i, a), j, b) =~= posted(posted(m, j, b), i, a));
    assert(posted(posted(m, i, a), j, b).remove(j) =~= posted(m, i, a));
    assert(posted(m, i, a).remove(i) =~= m);
}

/// Relies on `Mutex::new`: an unlocked lock around `value`.
#[verifier::external_body]
pub(crate) fn new_lock<T>(value: T) -> Mutex<T> {
    Mutex::new(value)
}

/// Relies on `Mutex::lock`: blocks until this thread holds the lock. A lock
/// is poisoned only when a holder panicked; the guard is then taken over as
/// it stands.
#[verifier::external_body]
pub(crate) fn acquire<T>(lock: &Mutex<T>) -> MutexGuard<'_, T> {
    match lock.lock() {
        Ok(guard) => guard,
        Err(poisoned) => poisoned.into_inner(),
    }
}

/// Relies on `DerefMut` for `MutexGuard`: the value that the held lock
/// protects.
#[verifier::external_body]
pub(crate) fn guarded<'b, 'a, T>(guard: &'b mut MutexGuard<'a, T>) -> &'b mut T {
    &mut *guard
}

/// The entries of the mailbox that a held lock protects.
pub uninterp spec fn held(guard: MutexGuard<'_, Mailbox<u64>>) -> Map<usize, u64>;

/// Relies on `DerefMut` for `MutexGuard`: the mailbox that the held lock
/// protects, whose entries `held` names.
#[verifier::external_body]
fn mailbox_in<'b, 'a>(guard: &'b mut MutexGuard<'a, Mailbox<u64>>) -> (r: &'b mut Mailbox<u64>)
    ensures
        (*r)@ == held(*old(guard)),
{
    &mut *guard
}

/// Relies on `Condvar::new`: a condition variable with no waiters.
#[verifier::external_body]
fn new_signal() -> Condvar {
    Condvar::new()
}

/// Relies on `Condvar::notify_all`: wakes every thread waiting on `signal`.
#[verifier::external_body]
fn wake_all(signal: &Condvar) {
    signal.notify_all()
}

/// Relies on `Condvar::wait_while`: gives the lock up while blocked, and
/// returns holding it again once the condition `lacks(id)` is false, that is
/// once an entry for `id` is there; spurious wake-ups and wake-ups meant for
/// other identities are waited out. The flag is `false` when the lock was
/// poisoned: the wait may then have stopped early, and the guard is taken over
/// as it stands, with nothing promised of it.
#[verifier::external_body]
fn wait_for_entry<'a>(signal: &Condvar, guard: MutexGuard<'a, Mailbox<u64>>, id: usize) -> (r: (
    MutexGuard<'a, Mailbox<u64>>,
    bool,
))
    ensures
        r.1 ==> held(r.0).contains_key(id),
{
    match signal.wait_while(guard, |mailbox| mailbox.lacks(id)) {
        Ok(guard) => (guard, true),
        Err(poisoned) => (poisoned.into_inner(), false),
    }
}

/// A blocking rendezvous between the threads that post fitness results (in
/// thousandths) and the threads that wait for them, keyed by identity. Any
/// number of results may be waiting at once.
pub struct Queue {
    container: Mutex<Mailbox<u64>>,
    produced: Condvar,
}

impl Queue {
    pub fn new() -> Queue {
        Queue { container: new_lock(Mailbox::new()), produced: new_signal() }
    }

    /// Posts `item` under `id` and wakes every waiter to look again. Blocks
    /// only for the lock.
    pub fn send(&self, id: usize, item: u64) {
        let mut guard = acquire(&self.container);
        mailbox_in(&mut guard).post(id, item);
        wake_all(&self.produced);
    }

    /// Blocks until an entry for `id` is there, then removes it, as
    /// `Mailbox::take` does, and returns its value. `None` only when the lock
    /// was poisoned, that is when a thread panicked while holding it, and no
    /// entry for `id` was there.
    pub fn wait_for(&self, id: usize) -> Option<u64> {
        let guard = acquire(&self.container);
        let (mut guard, woken) = wait_for_entry(&self.produced, guard, id);
        let mailbox = mailbox_in(&mut guard);
        let taken = mailbox.take(id);
        proof {
            if woken {
                assert(taken is Some);
            }
        }
        taken
    }
}

} // verus!
