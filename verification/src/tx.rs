//! The transaction: the unit of atomic work against one datastore.
//!
//! A transaction is `Active` until `commit` or `cancel` moves it into a
//! terminal state; both terminal states are absorbing, so any further
//! operation (including a second `commit` or `cancel`) fails with
//! `TransactionFinished`. While active, reads see a consistent private
//! snapshot overlaid with the transaction's own staged writes
//! (read-your-writes); writes stage locally and become visible to others
//! only when `commit` applies them as one batch. Commit performs optimistic
//! conflict detection: if any key this transaction read or wrote was
//! committed at a higher version than the transaction's starting version,
//! the commit fails with `ConflictError` and every staged write is
//! discarded.
//!
//! Every operation's contract is stated against a pure transition function
//! (`spec_get`, `spec_set`, ..., `spec_commit`) over the transaction's
//! mathematical image [`TxView`], so the whole state machine is pinned down
//! spec-side.

use vstd::prelude::*;

use crate::ds::{Datastore, DsView};
use crate::err::Error;
use crate::store::{copy_bytes, lookup, scan_filter, sorted, spec_apply, spec_upsert, value_of,
    version_of, EntryV, Store};

verus! {

/// The lifecycle state: `Active`, then one absorbing terminal state.
#[derive(Clone, Copy, Debug, PartialEq, Eq, Structural)]
pub enum TxState {
    Active,
    Committed,
    Cancelled,
}

/// The mathematical image of a transaction.
#[verifier::ext_equal]
pub ghost struct TxView {
    /// Read-write (`true`) or read-only (`false`).
    pub write: bool,
    /// Whether explicit pessimistic exclusivity was requested.
    pub lock: bool,
    /// The lifecycle state.
    pub state: TxState,
    /// The datastore's commit version when this transaction began.
    pub start: u64,
    /// The committed table as of `start`: this transaction's snapshot.
    pub snapshot: Seq<EntryV>,
    /// Staged writes: live values and tombstones, not yet visible outside.
    pub writes: Seq<EntryV>,
    /// Every key this transaction has read, for conflict detection.
    pub reads: Seq<Seq<u8>>,
}

/// Transaction well-formedness: both tables sorted, and a read-only
/// transaction never holds staged writes.
pub open spec fn tx_wf(t: TxView) -> bool {
    &&& sorted(t.snapshot)
    &&& sorted(t.writes)
    &&& (!t.write ==> t.writes.len() == 0)
}

/// The value visible to the transaction under key `k`: its own staged
/// write if it has one (a tombstone reads as absent), otherwise the
/// snapshot value.
pub open spec fn spec_read(t: TxView, k: Seq<u8>) -> Option<Seq<u8>> {
    match lookup(t.writes, k) {
        Some(e) => e.val,
        None => value_of(t.snapshot, k),
    }
}

/// The transaction's whole visible table: staged writes overlaid on the
/// snapshot (the version stamp is irrelevant until commit).
pub open spec fn spec_merged(t: TxView) -> Seq<EntryV> {
    spec_apply(t.snapshot, t.writes, 0)
}

/// Transition of `get`: fails once terminal; otherwise records the key as
/// read and returns the visible value.
pub open spec fn spec_get(t: TxView, k: Seq<u8>) -> (TxView, Result<Option<Seq<u8>>, Error>) {
    if t.state != TxState::Active {
        (t, Err(Error::TransactionFinished))
    } else {
        (TxView { reads: t.reads.push(k), ..t }, Ok(spec_read(t, k)))
    }
}

/// Transition of `exists`: like `get`, reduced to presence.
pub open spec fn spec_exi(t: TxView, k: Seq<u8>) -> (TxView, Result<bool, Error>) {
    if t.state != TxState::Active {
        (t, Err(Error::TransactionFinished))
    } else {
        (TxView { reads: t.reads.push(k), ..t }, Ok(spec_read(t, k) is Some))
    }
}

/// Transition of `set`: fails once terminal or on a read-only transaction;
/// otherwise stages a live value.
pub open spec fn spec_set(t: TxView, k: Seq<u8>, v: Seq<u8>) -> (TxView, Result<(), Error>) {
    if t.state != TxState::Active {
        (t, Err(Error::TransactionFinished))
    } else if !t.write {
        (t, Err(Error::ReadOnlyViolation))
    } else {
        (
            TxView { writes: spec_upsert(t.writes, EntryV { key: k, val: Some(v), ver: 0 }), ..t },
            Ok(()),
        )
    }
}

/// Transition of `delete`: as `set`, staging a tombstone.
pub open spec fn spec_delete(t: TxView, k: Seq<u8>) -> (TxView, Result<(), Error>) {
    if t.state != TxState::Active {
        (t, Err(Error::TransactionFinished))
    } else if !t.write {
        (t, Err(Error::ReadOnlyViolation))
    } else {
        (TxView { writes: spec_upsert(t.writes, EntryV { key: k, val: None, ver: 0 }), ..t }, Ok(()))
    }
}

/// Transition of `scan`: fails once terminal; otherwise returns the live
/// pairs of the visible table with keys in `[lo, hi)` in ascending order,
/// and records every returned key as read.
pub open spec fn spec_scan(t: TxView, lo: Seq<u8>, hi: Seq<u8>) -> (
    TxView,
    Result<Seq<(Seq<u8>, Seq<u8>)>, Error>,
) {
    if t.state != TxState::Active {
        (t, Err(Error::TransactionFinished))
    } else {
        let rs = scan_filter(spec_merged(t), lo, hi);
        (TxView { reads: t.reads + rs.map_values(|p: (Seq<u8>, Seq<u8>)| p.0), ..t }, Ok(rs))
    }
}

/// Transition of `cancel`: fails once terminal; otherwise discards every
/// staged write unconditionally and ends the transaction. Never fails due
/// to conflicts.
pub open spec fn spec_cancel(t: TxView) -> (TxView, Result<(), Error>) {
    if t.state != TxState::Active {
        (t, Err(Error::TransactionFinished))
    } else {
        (TxView { state: TxState::Cancelled, writes: Seq::empty(), ..t }, Ok(()))
    }
}

/// Whether a commit of `t` must be refused: some key `t` read or wrote was
/// committed by another transaction after `t` began.
pub open spec fn spec_conflict(t: TxView, current: Seq<EntryV>) -> bool {
    ||| exists|i: int| 0 <= i < t.reads.len() && version_of(current, #[trigger] t.reads[i]) > t.start
    ||| exists|i: int| 0 <= i < t.writes.len() && version_of(current, (#[trigger] t.writes[i]).key)
        > t.start
}

/// Transition of `commit`: fails once terminal; on a conflict it discards
/// the staged writes and fails with `ConflictError`, leaving the datastore
/// untouched; otherwise it applies the whole batch atomically at the next
/// commit version. A commit with nothing staged always succeeds: conflict
/// validation exists only to serialize writes, so a transaction that wrote
/// nothing (a read-only one in particular) has nothing to conflict with.
pub open spec fn spec_commit(t: TxView, d: DsView) -> (TxView, DsView, Result<(), Error>) {
    if t.state != TxState::Active {
        (t, d, Err(Error::TransactionFinished))
    } else if t.writes.len() > 0 && spec_conflict(t, d.committed) {
        (
            TxView { state: TxState::Cancelled, writes: Seq::empty(), ..t },
            d,
            Err(Error::ConflictError),
        )
    } else {
        (
            TxView { state: TxState::Committed, writes: Seq::empty(), ..t },
            DsView {
                committed: spec_apply(d.committed, t.writes, (d.version + 1) as u64),
                version: (d.version + 1) as u64,
                ..d
            },
            Ok(()),
        )
    }
}

/// A handle to one unit of atomic work against exactly one datastore.
pub struct Transaction {
    pub write: bool,
    pub lock: bool,
    pub state: TxState,
    pub start: u64,
    pub snapshot: Store,
    pub writes: Store,
    pub reads: Vec<Vec<u8>>,
}

impl View for Transaction {
    type V = TxView;

    open spec fn view(&self) -> TxView {
        TxView {
            write: self.write,
            lock: self.lock,
            state: self.state,
            start: self.start,
            snapshot: self.snapshot@,
            writes: self.writes@,
            reads: self.reads.deep_view(),
        }
    }
}

/// The spec image of an exec `get` result.
pub open spec fn get_result_view(r: Result<Option<Vec<u8>>, Error>) -> Result<
    Option<Seq<u8>>,
    Error,
> {
    match r {
        Ok(v) => Ok(v.deep_view()),
        Err(e) => Err(e),
    }
}

/// The spec image of an exec `scan` result.
pub open spec fn scan_result_view(r: Result<Vec<(Vec<u8>, Vec<u8>)>, Error>) -> Result<
    Seq<(Seq<u8>, Seq<u8>)>,
    Error,
> {
    match r {
        Ok(v) => Ok(v.deep_view()),
        Err(e) => Err(e),
    }
}

impl Transaction {
    /// Well-formedness of the handle.
    pub open spec fn wf(&self) -> bool {
        tx_wf(self@)
    }

    /// The value visible in this transaction's view, or `None` if absent.
    /// Reflects this transaction's own staged writes, never another
    /// transaction's uncommitted ones.
    pub fn get(&mut self, k: &Vec<u8>) -> (r: Result<Option<Vec<u8>>, Error>)
        requires
            old(self).wf(),
        ensures
            final(self).wf(),
            (final(self)@, get_result_view(r)) == spec_get(old(self)@, k@),
    {
        if !matches!(self.state, TxState::Active) {
            return Err(Error::TransactionFinished);
        }
        self.reads.push(copy_bytes(k));
        proof {
            assert(self@.reads =~~= old(self)@.reads.push(k@));
            assert(self@ =~~= spec_get(old(self)@, k@).0);
        }
        let r = match self.writes.find(k) {
            Some(i) => crate::store::clone_val(&self.writes.entries[i].val),
            None => self.snapshot.get(k),
        };
        Ok(r)
    }

    /// Whether a live value is visible under `k`.
    pub fn exi(&mut self, k: &Vec<u8>) -> (r: Result<bool, Error>)
        requires
            old(self).wf(),
        ensures
            final(self).wf(),
            (final(self)@, r) == spec_exi(old(self)@, k@),
    {
        if !matches!(self.state, TxState::Active) {
            return Err(Error::TransactionFinished);
        }
        self.reads.push(copy_bytes(k));
        proof {
            assert(self@.reads =~~= old(self)@.reads.push(k@));
            assert(self@ =~~= spec_exi(old(self)@, k@).0);
        }
        let r = match self.writes.find(k) {
            Some(i) => self.writes.entries[i].val.is_some(),
            None => self.snapshot.exists_key(k),
        };
        Ok(r)
    }

    /// Stage a write of `v` under `k`, visible to this transaction at once
    /// and to others only after a successful commit.
    pub fn set(&mut self, k: Vec<u8>, v: Vec<u8>) -> (r: Result<(), Error>)
        requires
            old(self).wf(),
        ensures
            final(self).wf(),
            (final(self)@, r) == spec_set(old(self)@, k@, v@),
    {
        if !matches!(self.state, TxState::Active) {
            return Err(Error::TransactionFinished);
        }
        if !self.write {
            return Err(Error::ReadOnlyViolation);
        }
        let ghost kv = k@;
        let ghost vv = v@;
        let ghost vdv = v.deep_view();
        self.writes.upsert(k, Some(v), 0);
        proof {
            assert(vdv =~= vv);
            assert(self@ =~~= spec_set(old(self)@, kv, vv).0);
        }
        Ok(())
    }

    /// Stage a tombstone under `k`.
    pub fn delete(&mut self, k: Vec<u8>) -> (r: Result<(), Error>)
        requires
            old(self).wf(),
        ensures
            final(self).wf(),
            (final(self)@, r) == spec_delete(old(self)@, k@),
    {
        if !matches!(self.state, TxState::Active) {
            return Err(Error::TransactionFinished);
        }
        if !self.write {
            return Err(Error::ReadOnlyViolation);
        }
        let ghost kv = k@;
        self.writes.upsert(k, None, 0);
        proof {
            assert(self@ =~~= spec_delete(old(self)@, kv).0);
        }
        Ok(())
    }

    /// The live pairs visible in `[lo, hi)`, in strictly ascending key
    /// order; every returned key counts as read.
    pub fn scan(&mut self, lo: &Vec<u8>, hi: &Vec<u8>) -> (r: Result<
        Vec<(Vec<u8>, Vec<u8>)>,
        Error,
    >)
        requires
            old(self).wf(),
        ensures
            final(self).wf(),
            (final(self)@, scan_result_view(r)) == spec_scan(old(self)@, lo@, hi@),
    {
        if !matches!(self.state, TxState::Active) {
            return Err(Error::TransactionFinished);
        }
        let mut merged = self.snapshot.duplicate();
        merged.apply(&self.writes, 0);
        let rs = merged.scan(lo, hi);
        let ghost rsv = rs.deep_view();
        let mut i: usize = 0;
        proof {
            assert(self.reads.deep_view() =~~= old(self).reads.deep_view() + rsv.take(0)
                .map_values(|p: (Seq<u8>, Seq<u8>)| p.0));
        }
        while i < rs.len()
            invariant
                i <= rs.len(),
                rs.deep_view() == rsv,
                self.write == old(self).write,
                self.lock == old(self).lock,
                self.state == old(self).state,
                self.start == old(self).start,
                self.snapshot == old(self).snapshot,
                self.writes == old(self).writes,
                self.reads.deep_view() == old(self).reads.deep_view() + rsv.take(
                    i as int,
                ).map_values(|p: (Seq<u8>, Seq<u8>)| p.0),
            decreases rs.len() - i,
        {
            let ghost pre = self.reads.deep_view();
            self.reads.push(copy_bytes(&rs[i].0));
            proof {
                assert(self.reads.deep_view().len() == pre.len() + 1);
                assert(forall|m: int| 0 <= m < pre.len() ==> #[trigger] self.reads.deep_view()[m]
                    == pre[m]);
                assert(rsv[i as int] == (rs@[i as int].0.deep_view(), rs@[i as int].1.deep_view()));
                assert(self.reads.deep_view().last() =~= rsv[i as int].0);
                assert(self.reads.deep_view() =~~= old(self).reads.deep_view() + rsv.take(i + 1)
                    .map_values(|p: (Seq<u8>, Seq<u8>)| p.0));
            }
            i = i + 1;
        }
        proof {
            assert(rsv.take(rsv.len() as int) =~= rsv);
            assert(self@ =~~= spec_scan(old(self)@, lo@, hi@).0);
        }
        Ok(rs)
    }

    /// Discard every staged write and end the transaction. Never fails due
    /// to conflicts; only a second termination is refused.
    pub fn cancel(&mut self) -> (r: Result<(), Error>)
        requires
            old(self).wf(),
        ensures
            final(self).wf(),
            (final(self)@, r) == spec_cancel(old(self)@),
    {
        if !matches!(self.state, TxState::Active) {
            return Err(Error::TransactionFinished);
        }
        self.state = TxState::Cancelled;
        self.writes = Store::empty();
        proof {
            assert(self@ =~~= spec_cancel(old(self)@).0);
        }
        Ok(())
    }

    /// Attempt to apply every staged write atomically. On a detected
    /// conflict the staged writes are discarded and the caller must retry
    /// the whole transaction; on success the writes become visible together
    /// at the datastore's next commit version.
    pub fn commit(&mut self, ds: &mut Datastore) -> (r: Result<(), Error>)
        requires
            old(self).wf(),
            old(ds).wf(),
            old(ds).version < u64::MAX,
        ensures
            final(self).wf(),
            final(ds).wf(),
            (final(self)@, final(ds)@, r) == spec_commit(old(self)@, old(ds)@),
    {
        if !matches!(self.state, TxState::Active) {
            return Err(Error::TransactionFinished);
        }
        let current = ds.backend.materialize();
        let mut conflict = false;
        let mut i: usize = 0;
        while i < self.reads.len()
            invariant
                i <= self.reads.len(),
                current@ == old(ds)@.committed,
                self == old(self),
                conflict == exists|j: int|
                    0 <= j < i && version_of(current@, #[trigger] self@.reads[j]) > self@.start,
            decreases self.reads.len() - i,
        {
            let v = current.version(&self.reads[i]);
            proof {
                assert(self@.reads[i as int] =~= self.reads@[i as int]@);
            }
            if v > self.start {
                conflict = true;
            }
            i = i + 1;
        }
        let mut j: usize = 0;
        while j < self.writes.entries.len()
            invariant
                j <= self.writes.entries.len(),
                current@ == old(ds)@.committed,
                self == old(self),
                conflict == ((exists|m: int|
                    0 <= m < self@.reads.len() && version_of(current@, #[trigger] self@.reads[m])
                        > self@.start) || (exists|m: int|
                    0 <= m < j && version_of(current@, (#[trigger] self@.writes[m]).key)
                        > self@.start)),
            decreases self.writes.entries.len() - j,
        {
            let v = current.version(&self.writes.entries[j].key);
            proof {
                assert(self@.writes[j as int].key == self.writes.entries@[j as int]@.key);
            }
            if v > self.start {
                conflict = true;
            }
            j = j + 1;
        }
        proof {
            assert(conflict == spec_conflict(self@, old(ds)@.committed));
        }
        if self.writes.entries.len() > 0 && conflict {
            self.state = TxState::Cancelled;
            self.writes = Store::empty();
            proof {
                assert(self@ =~~= spec_commit(old(self)@, old(ds)@).0);
            }
            return Err(Error::ConflictError);
        }
        let ver = ds.version + 1;
        ds.backend.apply(&self.writes, ver);
        ds.version = ver;
        self.state = TxState::Committed;
        self.writes = Store::empty();
        proof {
            assert(self@ =~~= spec_commit(old(self)@, old(ds)@).0);
            assert(ds@ =~~= spec_commit(old(self)@, old(ds)@).1);
        }
        Ok(())
    }
}

} // verus!
