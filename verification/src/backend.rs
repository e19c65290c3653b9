//! Interchangeable backend drivers behind one contract.
//!
//! Each driver realizes the same committed-state contract: its abstract
//! content is a sorted table of versioned entries ([`Backend::committed`]),
//! snapshots are materialized from it, and a commit applies a whole batch of
//! staged writes at one version. The drivers differ in how they represent
//! that state:
//!
//! - [`MemoryBackend`] keeps the committed table materialized, like an
//!   embedded in-memory engine; it also accepts explicit lock requests,
//!   which its commit-time conflict check subsumes.
//! - [`JournalBackend`] keeps an append-only journal of write records,
//!   like a log-structured engine; the committed table is its replay. It
//!   has no pessimistic locking capability.

use vstd::prelude::*;

use crate::store::{copy_bytes, lemma_upsert_sorted, sorted, spec_apply, spec_upsert, Entry,
    EntryV, Store};

verus! {

/// The tag naming which driver a datastore runs.
#[derive(Clone, Copy, Debug, PartialEq, Eq, Structural)]
pub enum BackendKind {
    Memory,
    Journal,
}

/// Whether the driver offers an explicit pessimistic locking guarantee.
/// The memory driver accepts lock requests (its optimistic commit check
/// already serializes conflicting writers); the journal driver does not.
pub open spec fn spec_supports_lock(kind: BackendKind) -> bool {
    kind == BackendKind::Memory
}

/// Exec form of [`spec_supports_lock`].
pub fn supports_lock(kind: BackendKind) -> (r: bool)
    ensures
        r == spec_supports_lock(kind),
{
    match kind {
        BackendKind::Memory => true,
        BackendKind::Journal => false,
    }
}

/// The committed table a journal denotes: its records replayed in order.
pub open spec fn spec_replay(log: Seq<EntryV>) -> Seq<EntryV>
    decreases log.len(),
{
    if log.len() == 0 {
        Seq::empty()
    } else {
        spec_upsert(spec_replay(log.drop_last()), log.last())
    }
}

/// A replayed journal is a sorted table.
pub proof fn lemma_replay_sorted(log: Seq<EntryV>)
    ensures
        sorted(spec_replay(log)),
    decreases log.len(),
{
    if log.len() > 0 {
        lemma_replay_sorted(log.drop_last());
        lemma_upsert_sorted(spec_replay(log.drop_last()), log.last());
    }
}

/// An embedded engine holding the committed table directly.
pub struct MemoryBackend {
    pub table: Store,
}

/// A log-structured engine holding an append-only journal of write records.
pub struct JournalBackend {
    pub log: Vec<Entry>,
}

/// The active driver of a datastore; exactly one variant is chosen at
/// configuration time.
pub enum Backend {
    Memory(MemoryBackend),
    Journal(JournalBackend),
}

impl Backend {
    /// The driver tag.
    pub open spec fn spec_kind(&self) -> BackendKind {
        match self {
            Backend::Memory(_) => BackendKind::Memory,
            Backend::Journal(_) => BackendKind::Journal,
        }
    }

    /// The driver tag, at run time.
    pub fn kind(&self) -> (r: BackendKind)
        ensures
            r == self.spec_kind(),
    {
        match self {
            Backend::Memory(_) => BackendKind::Memory,
            Backend::Journal(_) => BackendKind::Journal,
        }
    }

    /// The abstract committed table, uniform across drivers.
    pub open spec fn committed(&self) -> Seq<EntryV> {
        match self {
            Backend::Memory(m) => m.table@,
            Backend::Journal(j) => spec_replay(j.log.deep_view()),
        }
    }

    /// Driver-internal well-formedness.
    pub open spec fn wf(&self) -> bool {
        match self {
            Backend::Memory(m) => m.table.wf(),
            Backend::Journal(_) => true,
        }
    }

    /// The committed table of every well-formed driver is sorted.
    pub proof fn lemma_committed_sorted(&self)
        requires
            self.wf(),
        ensures
            sorted(self.committed()),
    {
        match self {
            Backend::Memory(_) => {},
            Backend::Journal(j) => {
                lemma_replay_sorted(j.log.deep_view());
            },
        }
    }

    /// Open a fresh, empty driver of the requested kind.
    pub fn new(kind: BackendKind) -> (r: Backend)
        ensures
            r.wf(),
            r.spec_kind() == kind,
            r.committed() =~= Seq::<EntryV>::empty(),
    {
        match kind {
            BackendKind::Memory => Backend::Memory(MemoryBackend { table: Store::empty() }),
            BackendKind::Journal => {
                let b = Backend::Journal(JournalBackend { log: Vec::new() });
                proof {
                    let empty = Seq::<EntryV>::empty();
                    assert(b.committed() == spec_replay(empty));
                }
                b
            },
        }
    }

    /// Materialize the committed table, the uniform snapshot every new
    /// transaction reads from.
    pub fn materialize(&self) -> (r: Store)
        requires
            self.wf(),
        ensures
            r.wf(),
            r@ == self.committed(),
    {
        proof {
            self.lemma_committed_sorted();
        }
        match self {
            Backend::Memory(m) => m.table.duplicate(),
            Backend::Journal(j) => {
                let mut st = Store::empty();
                let mut i: usize = 0;
                while i < j.log.len()
                    invariant
                        i <= j.log.len(),
                        st.wf(),
                        st@ == spec_replay(j.log.deep_view().take(i as int)),
                    decreases j.log.len() - i,
                {
                    let e = &j.log[i];
                    st.upsert(copy_bytes(&e.key), crate::store::clone_val(&e.val), e.ver);
                    proof {
                        let log = j.log.deep_view();
                        assert(log.take(i + 1).drop_last() =~= log.take(i as int));
                        assert(log.take(i + 1).last() == log[i as int]);
                        assert(log[i as int] == j.log@[i as int]@);
                    }
                    i = i + 1;
                }
                proof {
                    let log = j.log.deep_view();
                    assert(log.take(log.len() as int) =~= log);
                }
                st
            },
        }
    }

    /// Atomically apply a whole batch of staged writes at commit version
    /// `ver`.
    pub fn apply(&mut self, w: &Store, ver: u64)
        requires
            old(self).wf(),
        ensures
            final(self).wf(),
            final(self).spec_kind() == old(self).spec_kind(),
            final(self).committed() == spec_apply(old(self).committed(), w@, ver),
    {
        match self {
            Backend::Memory(m) => {
                m.table.apply(w, ver);
            },
            Backend::Journal(j) => {
                let ghost log0 = j.log.deep_view();
                let mut i: usize = 0;
                while i < w.entries.len()
                    invariant
                        i <= w.entries.len(),
                        spec_replay(j.log.deep_view()) == spec_apply(
                            spec_replay(log0),
                            w@.take(i as int),
                            ver,
                        ),
                    decreases w.entries.len() - i,
                {
                    let ghost logpre = j.log.deep_view();
                    let e = &w.entries[i];
                    j.log.push(
                        Entry { key: copy_bytes(&e.key), val: crate::store::clone_val(&e.val), ver },
                    );
                    proof {
                        let log = j.log.deep_view();
                        assert(log.len() == logpre.len() + 1);
                        assert(forall|m: int| 0 <= m < logpre.len() ==> #[trigger] log[m] == logpre[m]);
                        assert(log.drop_last() =~= logpre);
                        assert(log.last() =~~= EntryV { key: w@[i as int].key, val: w@[i as int].val, ver });
                        assert(w@.take(i + 1).drop_last() =~= w@.take(i as int));
                        assert(w@.take(i + 1).last() == w@[i as int]);
                    }
                    i = i + 1;
                }
                proof {
                    assert(w@.take(w@.len() as int) =~= w@);
                }
            },
        }
    }
}

} // verus!
