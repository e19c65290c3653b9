//! The isolation and atomicity laws of the transactional layer, proved
//! once over the spec-level transition functions that every exec operation
//! is contracted against.
//!
//! Transactions are plain values that share nothing: each holds its own
//! snapshot, staged writes and read set, so an operation on one can never
//! change another, and the laws below quantify over any transaction of the
//! relevant shape.

use vstd::prelude::*;

use crate::ds::DsView;
use crate::err::Error;
use crate::store::{in_range, lemma_apply_lookup, lemma_lookup_self, lemma_scan_filter_complete,
    lemma_scan_filter_sound, lookup, scan_filter, sorted, spec_apply, value_of, version_of,
    EntryV};
use crate::tx::{spec_cancel, spec_commit, spec_conflict, spec_delete, spec_exi, spec_get,
    spec_merged, spec_read, spec_scan, spec_set, tx_wf, TxState, TxView};

verus! {

/// The image of a transaction freshly opened against a datastore in state
/// `d`, exactly as `Datastore::transaction` ensures it.
pub open spec fn fresh_tx_view(d: DsView, write: bool, lock: bool) -> TxView {
    TxView {
        write,
        lock,
        state: TxState::Active,
        start: d.version,
        snapshot: d.committed,
        writes: Seq::empty(),
        reads: Seq::empty(),
    }
}

/// The visible value of a key equals a lookup in the merged table that
/// `scan` walks: staged writes overlaid on the snapshot.
pub proof fn lemma_merged_read(t: TxView, k: Seq<u8>)
    requires
        tx_wf(t),
    ensures
        value_of(spec_merged(t), k) == spec_read(t, k),
{
    lemma_apply_lookup(t.snapshot, t.writes, 0, k);
}

/// Multi-reader isolation: after the committed table holds `v` under `k`,
/// every read-only transaction opened on it independently reads back
/// exactly `v`, and cancelling it succeeds. A transaction holds no shared
/// state, so cancelling any subset of such readers leaves the datastore
/// and every other reader untouched.
pub proof fn lemma_multireader_isolation(d: DsView, k: Seq<u8>, v: Seq<u8>, t: TxView)
    requires
        value_of(d.committed, k) == Some(v),
        t == fresh_tx_view(d, false, false),
    ensures
        spec_get(t, k).1 == Ok::<Option<Seq<u8>>, Error>(Some(v)),
        spec_cancel(t).1 == Ok::<(), Error>(()),
{
    assert(lookup(t.writes, k) is None);
}

/// Read-your-writes: within one uncommitted write transaction, a `get`
/// after a `set` of `k` to `v` returns `v`, even though no other
/// transaction can see it yet.
pub proof fn lemma_read_your_writes(t: TxView, k: Seq<u8>, v: Seq<u8>)
    requires
        tx_wf(t),
        t.state == TxState::Active,
        t.write,
    ensures
        spec_get(spec_set(t, k, v).0, k).1 == Ok::<Option<Seq<u8>>, Error>(Some(v)),
{
    let t1 = spec_set(t, k, v).0;
    crate::store::lemma_upsert_lookup(t.writes, EntryV { key: k, val: Some(v), ver: 0 }, k);
    assert(lookup(t1.writes, k) == Some(EntryV { key: k, val: Some(v), ver: 0 }));
}

/// Repeatable reads: within one transaction, reading a key twice without
/// an intervening write by that same transaction returns the same value —
/// reads observe a consistent snapshot and never another transaction's
/// uncommitted work.
pub proof fn lemma_repeatable_read(t: TxView, k: Seq<u8>, k2: Seq<u8>)
    requires
        t.state == TxState::Active,
    ensures
        spec_get(spec_get(t, k2).0, k).1 == spec_get(t, k).1,
{
}

/// Atomic visibility: a reader's snapshot is taken at a commit boundary,
/// so for a batch committed without conflict, a fresh reader either sees
/// every one of the batch's keys with its staged contents, or none of
/// them — never a partial subset.
pub proof fn lemma_atomic_visibility(tw: TxView, d: DsView, s: DsView)
    requires
        tx_wf(tw),
        sorted(d.committed),
        tw.state == TxState::Active,
        !spec_conflict(tw, d.committed),
        s == d || s == spec_commit(tw, d).1,
    ensures
        (forall|i: int| 0 <= i < tw.writes.len() ==> spec_get(
            fresh_tx_view(s, false, false),
            (#[trigger] tw.writes[i]).key,
        ).1 == Ok::<Option<Seq<u8>>, Error>(tw.writes[i].val)) || (forall|i: int|
            0 <= i < tw.writes.len() ==> spec_get(
                fresh_tx_view(s, false, false),
                (#[trigger] tw.writes[i]).key,
            ).1 == Ok::<Option<Seq<u8>>, Error>(value_of(d.committed, tw.writes[i].key))),
{
    let r = fresh_tx_view(s, false, false);
    assert forall|i: int| 0 <= i < tw.writes.len() implies spec_read(
        r,
        (#[trigger] tw.writes[i]).key,
    ) == value_of(s.committed, tw.writes[i].key) by {
        assert(lookup(r.writes, tw.writes[i].key) is None);
    }
    if s == spec_commit(tw, d).1 {
        let ver = (d.version + 1) as u64;
        assert forall|i: int| 0 <= i < tw.writes.len() implies value_of(
            s.committed,
            (#[trigger] tw.writes[i]).key,
        ) == tw.writes[i].val by {
            lemma_apply_lookup(d.committed, tw.writes, ver, tw.writes[i].key);
            lemma_lookup_self(tw.writes, i);
        }
    }
}

/// Conflict retry: transactions A and B both begin before A commits; A
/// writes `k` and commits successfully; then B, which read `k` (and staged
/// its own write), cannot silently overwrite A — its commit fails with
/// `ConflictError`.
pub proof fn lemma_conflict_retry(a: TxView, b: TxView, d: DsView, k: Seq<u8>)
    requires
        tx_wf(a),
        sorted(d.committed),
        a.state == TxState::Active,
        b.state == TxState::Active,
        d.version < u64::MAX,
        b.start <= d.version,
        lookup(a.writes, k) is Some,
        b.reads.contains(k),
        lookup(b.writes, k) is Some,
        spec_commit(a, d).2 == Ok::<(), Error>(()),
    ensures
        spec_commit(b, spec_commit(a, d).1).2 == Err::<(), Error>(Error::ConflictError),
{
    let d1 = spec_commit(a, d).1;
    let ver = (d.version + 1) as u64;
    assert(a.writes.len() > 0 && b.writes.len() > 0) by {
        if a.writes.len() == 0 {
            assert(lookup(a.writes, k) is None);
        }
        if b.writes.len() == 0 {
            assert(lookup(b.writes, k) is None);
        }
    }
    assert(!spec_conflict(a, d.committed));
    assert(d1.committed == spec_apply(d.committed, a.writes, ver));
    lemma_apply_lookup(d.committed, a.writes, ver, k);
    assert(version_of(d1.committed, k) == ver);
    let j = choose|j: int| 0 <= j < b.reads.len() && b.reads[j] == k;
    assert(version_of(d1.committed, b.reads[j]) > b.start);
    assert(spec_conflict(b, d1.committed));
}

/// Idempotent termination: both terminal states are absorbing. After a
/// `commit` (successful or conflicted) or a `cancel`, every further
/// operation — including a second `commit` or `cancel` — fails with
/// `TransactionFinished` and changes nothing.
pub proof fn lemma_idempotent_termination(
    t: TxView,
    d: DsView,
    d2: DsView,
    k: Seq<u8>,
    v: Seq<u8>,
    lo: Seq<u8>,
    hi: Seq<u8>,
)
    requires
        t.state == TxState::Active,
    ensures
        ({
            let t1 = spec_commit(t, d).0;
            &&& t1.state != TxState::Active
            &&& spec_get(t1, k) == (t1, Err::<Option<Seq<u8>>, Error>(Error::TransactionFinished))
            &&& spec_exi(t1, k) == (t1, Err::<bool, Error>(Error::TransactionFinished))
            &&& spec_set(t1, k, v) == (t1, Err::<(), Error>(Error::TransactionFinished))
            &&& spec_delete(t1, k) == (t1, Err::<(), Error>(Error::TransactionFinished))
            &&& spec_scan(t1, lo, hi) == (
                t1,
                Err::<Seq<(Seq<u8>, Seq<u8>)>, Error>(Error::TransactionFinished),
            )
            &&& spec_commit(t1, d2) == (t1, d2, Err::<(), Error>(Error::TransactionFinished))
            &&& spec_cancel(t1) == (t1, Err::<(), Error>(Error::TransactionFinished))
        }),
        ({
            let t2 = spec_cancel(t).0;
            &&& t2.state != TxState::Active
            &&& spec_get(t2, k) == (t2, Err::<Option<Seq<u8>>, Error>(Error::TransactionFinished))
            &&& spec_exi(t2, k) == (t2, Err::<bool, Error>(Error::TransactionFinished))
            &&& spec_set(t2, k, v) == (t2, Err::<(), Error>(Error::TransactionFinished))
            &&& spec_delete(t2, k) == (t2, Err::<(), Error>(Error::TransactionFinished))
            &&& spec_scan(t2, lo, hi) == (
                t2,
                Err::<Seq<(Seq<u8>, Seq<u8>)>, Error>(Error::TransactionFinished),
            )
            &&& spec_commit(t2, d2) == (t2, d2, Err::<(), Error>(Error::TransactionFinished))
            &&& spec_cancel(t2) == (t2, Err::<(), Error>(Error::TransactionFinished))
        }),
{
}

/// Scan ordering and content: a scan of an active transaction returns keys
/// in strictly ascending lexicographic order — hence no duplicates — and
/// its pairs are exactly the visible live values with keys in `[lo, hi)`.
pub proof fn lemma_scan_ordering(t: TxView, lo: Seq<u8>, hi: Seq<u8>)
    requires
        tx_wf(t),
        t.state == TxState::Active,
    ensures
        ({
            let rs = scan_filter(spec_merged(t), lo, hi);
            &&& spec_scan(t, lo, hi).1 == Ok::<Seq<(Seq<u8>, Seq<u8>)>, Error>(rs)
            &&& forall|j1: int, j2: int| 0 <= j1 < j2 < rs.len() ==> crate::key::lex_lt(
                (#[trigger] rs[j1]).0,
                (#[trigger] rs[j2]).0,
            )
            &&& forall|j: int| 0 <= j < rs.len() ==> in_range((#[trigger] rs[j]).0, lo, hi)
                && spec_read(t, rs[j].0) == Some(rs[j].1)
            &&& forall|k: Seq<u8>| in_range(k, lo, hi) && (#[trigger] spec_read(t, k)) is Some
                ==> exists|j: int| 0 <= j < rs.len() && (#[trigger] rs[j]) == (
                k,
                spec_read(t, k)->0,
            )
        }),
{
    let m = spec_merged(t);
    crate::store::lemma_apply_sorted(t.snapshot, t.writes, 0);
    lemma_scan_filter_sound(m, lo, hi);
    let rs = scan_filter(m, lo, hi);
    assert forall|j: int| 0 <= j < rs.len() implies in_range((#[trigger] rs[j]).0, lo, hi)
        && spec_read(t, rs[j].0) == Some(rs[j].1) by {
        lemma_merged_read(t, rs[j].0);
    }
    assert forall|k: Seq<u8>| in_range(k, lo, hi) && (#[trigger] spec_read(t, k)) is Some
        implies exists|j: int| 0 <= j < rs.len() && (#[trigger] rs[j]) == (
        k,
        spec_read(t, k)->0,
    ) by {
        lemma_merged_read(t, k);
        lemma_scan_filter_complete(m, lo, hi, k);
    }
}

} // verus!
