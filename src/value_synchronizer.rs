use vstd::prelude::*;

verus! {

/// The version that follows `v`; the counter wraps only after 2^64 mutations.
pub open spec fn next_version(v: u64) -> u64 {
    if v == u64::MAX {
        0
    } else {
        (v + 1) as u64
    }
}

/// What a watcher whose last observed version is `last` gets when it looks at a
/// synchronizer holding `value` at `version`: the value if it changed since, else nothing.
pub open spec fn poll_spec<T>(last: u64, version: u64, value: T) -> Option<T> {
    if version != last {
        Some(value)
    } else {
        None
    }
}

/// A value shared by one writer-side API and up to `WATCHER_COUNT` watchers. Every
/// mutation bumps a version counter; a watcher compares the counter with the version it
/// last observed. The caller's runtime suspends a watcher that finds no change and wakes
/// every suspended watcher after each mutation.
pub struct ValueSynchronizer<const WATCHER_COUNT: usize, T> {
    value: T,
    version: u64,
    watchers: usize,
}

/// Why `watch` refused a new watcher.
#[derive(Debug, Clone, Copy, PartialEq, Eq, Structural)]
pub enum WatchError {
    /// All `WATCHER_COUNT` watchers are taken.
    TooManyWatchers,
}

impl<const WATCHER_COUNT: usize, T> ValueSynchronizer<WATCHER_COUNT, T> {
    pub closed spec fn value(&self) -> T {
        self.value
    }

    pub closed spec fn version(&self) -> u64 {
        self.version
    }

    /// Number of watchers handed out.
    pub closed spec fn watcher_count(&self) -> nat {
        self.watchers as nat
    }

    pub fn new(value: T) -> (r: Self)
        ensures
            r.value() == value,
            r.version() == 0,
            r.watcher_count() == 0,
    {
        ValueSynchronizer { value, version: 0, watchers: 0 }
    }

    /// Applies `f` to the value and returns what it gives; `f` must not suspend.
    pub fn read<U, F: FnOnce(&T) -> U>(&self, f: F) -> (r: U)
        requires
            f.requires((&self.value(),)),
        ensures
            f.ensures((&self.value(),), r),
    {
        f(&self.value)
    }

    /// A snapshot of the value.
    pub fn read_clone(&self) -> (r: T)
        where
            T: Copy,
        ensures
            r == self.value(),
    {
        self.value
    }

    /// Replaces the value by what `f` computes from it, then bumps the version, so that
    /// every watcher sees a change.
    pub fn update<F: FnOnce(&T) -> T>(&mut self, f: F)
        requires
            f.requires((&old(self).value(),)),
        ensures
            f.ensures((&old(self).value(),), final(self).value()),
            final(self).version() == next_version(old(self).version()),
            final(self).watcher_count() == old(self).watcher_count(),
    {
        let v = f(&self.value);
        self.value = v;
        self.version = if self.version == u64::MAX {
            0
        } else {
            self.version + 1
        };
    }

    /// Overwrites the value unconditionally.
    pub fn write(&mut self, v_new: T)
        ensures
            final(self).value() == v_new,
            final(self).version() == next_version(old(self).version()),
            final(self).watcher_count() == old(self).watcher_count(),
    {
        self.value = v_new;
        self.version = if self.version == u64::MAX {
            0
        } else {
            self.version + 1
        };
    }

    /// A new watcher, positioned at the current version so that it has no pending change.
    /// Fails once `WATCHER_COUNT` watchers have been handed out.
    pub fn watch(&mut self) -> (r: Result<Watcher, WatchError>)
        ensures
            final(self).value() == old(self).value(),
            final(self).version() == old(self).version(),
            old(self).watcher_count() < WATCHER_COUNT ==> (r matches Ok(w) && w.last_version()
                == old(self).version() && final(self).watcher_count() == old(self).watcher_count()
                + 1),
            old(self).watcher_count() >= WATCHER_COUNT ==> (r == Err::<Watcher, WatchError>(
                WatchError::TooManyWatchers,
            ) && final(self).watcher_count() == old(self).watcher_count()),
    {
        if self.watchers >= WATCHER_COUNT {
            return Err(WatchError::TooManyWatchers);
        }
        self.watchers = self.watchers + 1;
        Ok(Watcher { last_version: self.version })
    }

    /// The current version; a watcher whose cursor differs has a pending change.
    pub fn current_version(&self) -> (r: u64)
        ensures
            r == self.version(),
    {
        self.version
    }
}

/// One consumer's cursor into a synchronizer: the version it last observed.
pub struct Watcher {
    last_version: u64,
}

impl Watcher {
    pub closed spec fn last_version(&self) -> u64 {
        self.last_version
    }

    /// Whether the synchronizer changed since this watcher last looked.
    pub fn has_changed<const WATCHER_COUNT: usize, T>(
        &self,
        sync: &ValueSynchronizer<WATCHER_COUNT, T>,
    ) -> (r: bool)
        ensures
            r == (sync.version() != self.last_version()),
    {
        sync.version != self.last_version
    }

    /// One look at the synchronizer: when it changed since the last look, the latest value,
    /// and the cursor moves to the current version; otherwise nothing, and the caller
    /// suspends until the next mutation wakes it. Changes not yet seen are coalesced: only
    /// the latest value is delivered.
    pub fn read<const WATCHER_COUNT: usize, T: Copy>(
        &mut self,
        sync: &ValueSynchronizer<WATCHER_COUNT, T>,
    ) -> (r: Option<T>)
        ensures
            r == poll_spec(old(self).last_version(), sync.version(), sync.value()),
            final(self).last_version() == sync.version(),
    {
        if sync.version != self.last_version {
            self.last_version = sync.version;
            Some(sync.value)
        } else {
            None
        }
    }

    /// Moves the cursor to the current version without reading, so that a change made
    /// before this call (such as the caller's own write) is not reported.
    pub fn skip<const WATCHER_COUNT: usize, T>(&mut self, sync: &ValueSynchronizer<WATCHER_COUNT, T>)
        ensures
            final(self).last_version() == sync.version(),
    {
        self.last_version = sync.version;
    }
}

/// A watcher fresh from `watch` reads nothing until the next mutation; after that single
/// mutation it reads the new value.
pub proof fn lemma_fresh_watcher_waits<const N: usize, T>(
    s0: ValueSynchronizer<N, T>,
    s1: ValueSynchronizer<N, T>,
    w: Watcher,
)
    requires
        w.last_version() == s0.version(),
        s1.version() == next_version(s0.version()),
    ensures
        poll_spec(w.last_version(), s0.version(), s0.value()) is None,
        poll_spec(w.last_version(), s1.version(), s1.value()) == Some(s1.value()),
{
}

/// Two mutations with no read in between are delivered once, as the latest value: the
/// read that follows returns the value after the second mutation, and a further read
/// finds nothing.
pub proof fn lemma_updates_coalesce<const N: usize, T>(
    s0: ValueSynchronizer<N, T>,
    s1: ValueSynchronizer<N, T>,
    s2: ValueSynchronizer<N, T>,
    w: Watcher,
)
    requires
        w.last_version() == s0.version(),
        s1.version() == next_version(s0.version()),
        s2.version() == next_version(s1.version()),
    ensures
        poll_spec(w.last_version(), s2.version(), s2.value()) == Some(s2.value()),
        poll_spec(s2.version(), s2.version(), s2.value()) is None,
{
}

/// A change made before `skip` is not reported: after a mutation from `s0` to `s1` and a
/// skip at `s1`, the next read at `s1` finds nothing.
pub proof fn lemma_skip_hides_earlier_change<const N: usize, T>(
    s0: ValueSynchronizer<N, T>,
    s1: ValueSynchronizer<N, T>,
    w: Watcher,
)
    requires
        s1.version() == next_version(s0.version()),
        w.last_version() == s1.version(),
    ensures
        poll_spec(w.last_version(), s1.version(), s1.value()) is None,
{
}

/// One mutation wakes every watcher that was up to date, and each reads the same latest
/// value; a read leaves the synchronizer as it is, so the order of the reads does not
/// matter.
pub proof fn lemma_update_wakes_all<const N: usize, T>(
    s0: ValueSynchronizer<N, T>,
    s1: ValueSynchronizer<N, T>,
    watchers: Seq<Watcher>,
)
    requires
        forall|i: int| 0 <= i < watchers.len() ==> #[trigger] watchers[i].last_version() == s0.version(),
        s1.version() == next_version(s0.version()),
    ensures
        forall|i: int|
            0 <= i < watchers.len() ==> poll_spec(
                #[trigger] watchers[i].last_version(),
                s1.version(),
                s1.value(),
            ) == Some(s1.value()),
{
}

} // verus!
