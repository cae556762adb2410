use std::sync::Arc;
use std::time::{SystemTime, UNIX_EPOCH};
use vstd::prelude::*;

verus! {

/// `Arc::clone`: a second handle to the same allocation, so it reads the same
/// value.
#[verifier::external_body]
pub(crate) fn share<T>(handle: &Arc<T>) -> (copy: Arc<T>)
    ensures
        *copy == **handle,
{
    Arc::clone(handle)
}

/// A point in time, as its distance in nanoseconds from the Unix epoch and
/// the side of the epoch it lies on.
#[derive(Copy, Clone, Debug, PartialEq, Eq, Structural)]
pub struct Timestamp {
    pub after_epoch: bool,
    pub nanos: u128,
}

impl Timestamp {
    /// Nanoseconds since the Unix epoch, negative before it.
    pub open spec fn value(self) -> int {
        if self.after_epoch {
            self.nanos as int
        } else {
            -(self.nanos as int)
        }
    }
}

/// `SystemTime::now` measured from `UNIX_EPOCH` with `duration_since`: the
/// distance after the epoch, or, when the clock is set before the epoch, the
/// distance before it that the error carries. Nothing is promised of the
/// value: it is the time.
#[verifier::external_body]
pub(crate) fn clock_now() -> Timestamp {
    match SystemTime::now().duration_since(UNIX_EPOCH) {
        Ok(after) => Timestamp { after_epoch: true, nanos: after.as_nanos() },
        Err(before) => Timestamp { after_epoch: false, nanos: before.duration().as_nanos() },
    }
}

/// Nanoseconds from `then` to `now`, or 0 when `then` is later.
pub open spec fn elapsed(now: int, then: int) -> int {
    if now >= then {
        now - then
    } else {
        0
    }
}

/// Whether less than `window` nanoseconds passed from `then` to `now`,
/// counting no time when `then` is later.
pub fn within(now: Timestamp, then: Timestamp, window: u128) -> (recent: bool)
    requires
        window > 0,
    ensures
        recent == (elapsed(now.value(), then.value()) < window),
{
    if now.after_epoch {
        if then.after_epoch {
            if now.nanos >= then.nanos {
                now.nanos - then.nanos < window
            } else {
                true
            }
        } else {
            now.nanos < window && then.nanos < window - now.nanos
        }
    } else {
        if then.after_epoch {
            true
        } else {
            if then.nanos >= now.nanos {
                then.nanos - now.nanos < window
            } else {
                true
            }
        }
    }
}

/// A slot holding a shared value that is read as a whole and replaced as a
/// whole. Readers get their own handle to the value current at the time of
/// the read; replacing the value does not change what they hold.
pub struct Atom<T> {
    data: Arc<T>,
}

impl<T> Atom<T> {
    /// The value currently held.
    pub closed spec fn value(&self) -> T {
        *self.data
    }

    /// A slot holding the given value.
    pub fn new(val: Arc<T>) -> (atom: Self)
        ensures
            atom.value() == *val,
    {
        Atom { data: val }
    }

    /// A handle to the value currently held.
    pub fn get(&self) -> (val: Arc<T>)
        ensures
            *val == self.value(),
    {
        share(&self.data)
    }

    /// Replaces the value held.
    pub fn set(&mut self, val: Arc<T>)
        ensures
            final(self).value() == *val,
        no_unwind
    {
        self.data = val;
    }

    /// Hands the current value to `f`; when `f` returns a new value, that
    /// value replaces the current one, and otherwise the slot is unchanged.
    pub fn update<F: FnOnce(&T) -> Option<Arc<T>>>(&mut self, f: F)
        requires
            f.requires((&old(self).value(),)),
        ensures
            exists|out: Option<Arc<T>>|
                {
                    &&& #[trigger] f.ensures((&old(self).value(),), out)
                    &&& out matches Some(v) ==> final(self).value() == *v
                    &&& out is None ==> final(self).value() == old(self).value()
                },
    {
        let out = f(&*self.data);
        match out {
            Some(v) => {
                self.data = v;
            },
            None => {},
        }
    }
}

impl<T> Clone for Atom<T> {
    /// A new slot holding the value this one holds now.
    fn clone(&self) -> (atom: Self)
        ensures
            atom.value() == self.value(),
    {
        Atom::new(self.get())
    }
}

} // verus!
