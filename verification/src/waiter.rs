//! Contains [Waiter], the part of a queue entry by which its owner is told what has become of it.
use core::task::Waker;
use vstd::prelude::*;

verus! {

/// [core::task::Waker], which is only stored and handed on here.
#[verifier::external_type_specification]
#[verifier::external_body]
pub struct ExWaker(core::task::Waker);

/// If set, the waiter has access to the guarded resource.
pub const WAITER_FLAG_HAS_LOCK: usize = 1;

/// This flag indicates that a higher priority waiter is queued. Thus, if possible the current
/// holder should exit early.
///
/// It is possible for both flags to be set before the waiter is ever polled, if it is asked to leave
/// after it was granted access. In this case, it has the lock, and it is up to the owner of the
/// guard to release the lock if that is desired.
///
/// On a waiter without the lock it says that it asks for more than there is to give. That is taken
/// back if it is granted access nevertheless.
pub const WAITER_FLAG_WANTS_EVICT: usize = 2;

/// What an entry of a queue is to be told: its flags, and the waker of the task that waits for
/// them to be set.
#[derive(Debug)]
pub struct Waiter {
    pub flags: usize,
    pub waker: Option<Waker>,
}

impl Waiter {
    /// Whether the waiter has access to the guarded resource.
    pub open spec fn holds(&self) -> bool {
        self.flags & WAITER_FLAG_HAS_LOCK != 0
    }

    /// Whether the waiter is asked to leave.
    pub open spec fn unwanted(&self) -> bool {
        self.flags & WAITER_FLAG_WANTS_EVICT != 0
    }

    /// A waiter that nobody watches yet.
    pub open spec fn fresh(has_lock: bool) -> Self {
        Waiter {
            flags: if has_lock {
                WAITER_FLAG_HAS_LOCK
            } else {
                0
            },
            waker: None,
        }
    }

    /// The waiter with a flag set. A task that waits for a flag is woken by any.
    pub open spec fn with_flag(self, flag: usize) -> Self {
        Waiter { flags: self.flags | flag, waker: None }
    }

    /// The waiter once it is granted access. If it was turned away before, it no longer is.
    pub open spec fn started(self) -> Self {
        Waiter { flags: self.flags & !WAITER_FLAG_WANTS_EVICT, ..self }.with_flag(
            WAITER_FLAG_HAS_LOCK,
        )
    }

    /// The waiter once it is asked to leave.
    pub open spec fn evicted(self) -> Self {
        self.with_flag(WAITER_FLAG_WANTS_EVICT)
    }

    /// The waiter without the waker.
    pub open spec fn unwatched(self) -> Self {
        Waiter { flags: self.flags, waker: None }
    }

    /// Whether `target` is reached: all of its flags are set, or one of them is.
    pub open spec fn reaches(&self, target: usize) -> bool {
        self.flags & target == target || self.flags & target != 0
    }

    /// Granting access leaves nobody asked to leave. Asking to leave takes access from nobody.
    pub proof fn lemma_flags(self)
        ensures
            self.started().holds(),
            !self.started().unwanted(),
            self.evicted().unwanted(),
            self.evicted().holds() == self.holds(),
            self.reaches(WAITER_FLAG_HAS_LOCK) == self.holds(),
            self.reaches(WAITER_FLAG_WANTS_EVICT) == self.unwanted(),
            self.reaches(WAITER_FLAG_HAS_LOCK | WAITER_FLAG_WANTS_EVICT) == (self.holds()
                || self.unwanted()),
    {
        let f = self.flags;
        assert(((f & !2) | 1) & 1 != 0 && ((f & !2) | 1) & 2 == 0) by (bit_vector);
        assert((f | 2) & 2 != 0 && (f | 2) & 1 == f & 1) by (bit_vector);
        assert(f & 1 == 1 ==> f & 1 != 0) by (bit_vector);
        assert(f & 2 == 2 ==> f & 2 != 0) by (bit_vector);
        assert(f & (1usize | 2usize) == (1usize | 2usize) ==> f & (1usize | 2usize) != 0)
            by (bit_vector);
        assert(f & (1usize | 2usize) != 0 <==> (f & 1 != 0 || f & 2 != 0)) by (bit_vector);
    }

    /// A new waiter has access if told so, isn't asked to leave, and nobody watches it.
    pub proof fn law_fresh(has_lock: bool)
        ensures
            Self::fresh(has_lock).holds() == has_lock,
            !Self::fresh(has_lock).unwanted(),
            Self::fresh(has_lock).waker is None,
    {
        assert(0usize & 1 == 0 && 0usize & 2 == 0 && 1usize & 1 != 0 && 1usize & 2 == 0)
            by (bit_vector);
    }

    /// Granting access hands out the waker that was kept, if any. The waiter has access then, and
    /// isn't asked to leave.
    pub proof fn law_start(waiter: &mut Waiter, woken: Option<Waker>)
        requires
            call_ensures(Waiter::start, (waiter,), woken),
        ensures
            woken == old(waiter).waker,
            final(waiter).waker is None,
            final(waiter).holds(),
            !final(waiter).unwanted(),
    {
        old(waiter).lemma_flags();
    }

    /// Asking to leave hands out the waker that was kept, if any, and takes access from nobody.
    pub proof fn law_evict(waiter: &mut Waiter, woken: Option<Waker>)
        requires
            call_ensures(Waiter::evict, (waiter,), woken),
        ensures
            woken == old(waiter).waker,
            final(waiter).waker is None,
            final(waiter).holds() == old(waiter).holds(),
            final(waiter).unwanted(),
    {
        old(waiter).lemma_flags();
    }

    /// Waiting for access ends exactly if the waiter has it, waiting to be asked to leave exactly if
    /// it is, and waiting for either exactly if one of them is so. Until then, the waker is kept.
    pub proof fn law_wait_for_flag(
        waiter: &mut Waiter,
        waker: Waker,
        target: usize,
        ready: Option<usize>,
    )
        requires
            call_ensures(Waiter::wait_for_flag, (waiter, waker, target), ready),
        ensures
            target == WAITER_FLAG_HAS_LOCK ==> (ready is Some <==> old(waiter).holds()),
            target == WAITER_FLAG_WANTS_EVICT ==> (ready is Some <==> old(waiter).unwanted()),
            target == WAITER_FLAG_HAS_LOCK | WAITER_FLAG_WANTS_EVICT ==> (ready is Some
                <==> old(waiter).holds() || old(waiter).unwanted()),
            ready is Some ==> ready->0 == old(waiter).flags && final(waiter).waker is None,
            ready is None ==> final(waiter).waker == Some(waker),
            final(waiter).flags == old(waiter).flags,
    {
        old(waiter).lemma_flags();
    }

    pub fn new(has_lock: bool) -> (waiter: Self)
        ensures
            waiter == Waiter::fresh(has_lock),
            waiter.holds() == has_lock,
            !waiter.unwanted(),
    {
        assert(0usize & 1 == 0 && 0usize & 2 == 0 && 1usize & 1 != 0 && 1usize & 2 == 0)
            by (bit_vector);
        Self {
            flags: if has_lock {
                WAITER_FLAG_HAS_LOCK
            } else {
                0
            },
            waker: None,
        }
    }

    /// Takes the waker, for the task to be woken.
    fn notify(&mut self) -> (woken: Option<Waker>)
        ensures
            woken == old(self).waker,
            *final(self) == old(self).unwatched(),
    {
        self.waker.take()
    }

    /// Sets a flag. Returns the waker of the task that waits, which is to be woken.
    fn add_flag(&mut self, flag: usize) -> (woken: Option<Waker>)
        ensures
            woken == old(self).waker,
            *final(self) == old(self).with_flag(flag),
    {
        self.flags = self.flags | flag;
        // No need to notify if no waker is set: either it was taken for another flag, or the
        // waiter hasn't been polled yet. Whoever sets the waker looks at the flags first.
        if self.waker.is_some() {
            self.notify()
        } else {
            None
        }
    }

    /// Grants access, and takes back that the waiter asks for more than there is to give. Returns the
    /// waker of the task that waits, which is to be woken.
    pub fn start(&mut self) -> (woken: Option<Waker>)
        ensures
            woken == old(self).waker,
            *final(self) == old(self).started(),
    {
        self.flags = self.flags & !WAITER_FLAG_WANTS_EVICT;
        self.add_flag(WAITER_FLAG_HAS_LOCK)
    }

    /// Asks to leave. Returns the waker of the task that waits, which is to be woken.
    pub fn evict(&mut self) -> (woken: Option<Waker>)
        ensures
            woken == old(self).waker,
            *final(self) == old(self).evicted(),
    {
        self.add_flag(WAITER_FLAG_WANTS_EVICT)
    }

    /// Drops the waker. Returns the flags.
    pub fn clear_waker(&mut self) -> (flags: usize)
        ensures
            flags == old(self).flags,
            *final(self) == old(self).unwatched(),
    {
        self.waker = None;
        self.flags
    }

    pub fn flags(&self) -> (flags: usize)
        ensures
            flags == self.flags,
    {
        self.flags
    }

    pub fn has_lock(&self) -> (has_lock: bool)
        ensures
            has_lock == self.holds(),
    {
        self.flags & WAITER_FLAG_HAS_LOCK != 0
    }

    pub fn wants_evict(&self) -> (wants_evict: bool)
        ensures
            wants_evict == self.unwanted(),
    {
        self.flags & WAITER_FLAG_WANTS_EVICT != 0
    }

    /// Returns the flags if `target` is reached. If it isn't, keeps the waker, for the task to be
    /// woken once a flag is set.
    pub fn wait_for_flag(&mut self, waker: Waker, target: usize) -> (ready: Option<usize>)
        ensures
            old(self).reaches(target) ==> ready == Some(old(self).flags) && *final(self) == old(
                self,
            ).unwatched(),
            !old(self).reaches(target) ==> ready is None && *final(self) == (Waiter {
                flags: old(self).flags,
                waker: Some(waker),
            }),
    {
        let flags: usize = self.clear_waker();
        if flags & target == target || flags & target != 0 {
            return Some(flags);
        }
        self.waker = Some(waker);
        None
    }
}

} // verus!
