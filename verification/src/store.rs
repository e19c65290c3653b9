//! A sorted in-memory table of versioned key-value entries.
//!
//! [`Store`] is the uniform materialized form of a backend's committed
//! state, and also serves as a transaction's private snapshot and staged
//! write set. Entries are kept strictly sorted by key; a deleted key stays
//! behind as a tombstone (`val == None`) so that the version of the commit
//! that deleted it remains visible to conflict detection.

use vstd::prelude::*;

use crate::key::{key_eq, key_le, key_lt, lemma_lex_lt_asymmetric, lemma_lex_lt_irreflexive,
    lemma_lex_lt_total, lemma_lex_lt_transitive, lex_le, lex_lt};

verus! {

/// The mathematical image of one entry: a key, a live value or a tombstone,
/// and the version of the commit that last wrote the key.
#[verifier::ext_equal]
pub ghost struct EntryV {
    pub key: Seq<u8>,
    pub val: Option<Seq<u8>>,
    pub ver: u64,
}

/// One versioned entry; `val == None` is a tombstone left by a delete.
pub struct Entry {
    pub key: Vec<u8>,
    pub val: Option<Vec<u8>>,
    pub ver: u64,
}

impl View for Entry {
    type V = EntryV;

    open spec fn view(&self) -> EntryV {
        EntryV { key: self.key@, val: self.val.deep_view(), ver: self.ver }
    }
}

/// Entries are strictly ascending by key, hence keys are unique.
pub open spec fn sorted(s: Seq<EntryV>) -> bool {
    forall|i: int, j: int| 0 <= i < j < s.len() ==> lex_lt(#[trigger] s[i].key, #[trigger] s[j].key)
}

/// The first entry with key `k`, searching from the front.
pub open spec fn lookup(s: Seq<EntryV>, k: Seq<u8>) -> Option<EntryV>
    decreases s.len(),
{
    if s.len() == 0 {
        None
    } else if s[0].key == k {
        Some(s[0])
    } else {
        lookup(s.drop_first(), k)
    }
}

/// The live value stored under `k`: tombstones and absent keys read as `None`.
pub open spec fn value_of(s: Seq<EntryV>, k: Seq<u8>) -> Option<Seq<u8>> {
    match lookup(s, k) {
        Some(e) => e.val,
        None => None,
    }
}

/// The version of the commit that last wrote `k`; a never-written key
/// reads as version 0, below every real commit version.
pub open spec fn version_of(s: Seq<EntryV>, k: Seq<u8>) -> u64 {
    match lookup(s, k) {
        Some(e) => e.ver,
        None => 0,
    }
}

/// `lookup` finds exactly the (unique, in a sorted table) entry whose key
/// matches.
pub proof fn lemma_lookup_index(s: Seq<EntryV>, k: Seq<u8>)
    requires
        sorted(s),
    ensures
        match lookup(s, k) {
            Some(e) => exists|i: int| 0 <= i < s.len() && s[i] == e && (#[trigger] s[i].key) == k,
            None => forall|i: int| 0 <= i < s.len() ==> (#[trigger] s[i].key) != k,
        },
    decreases s.len(),
{
    if s.len() > 0 && s[0].key != k {
        assert(sorted(s.drop_first())) by {
            assert(forall|i: int, j: int|
                0 <= i < j < s.drop_first().len() ==> lex_lt(
                    #[trigger] s.drop_first()[i].key,
                    #[trigger] s.drop_first()[j].key,
                ));
        }
        lemma_lookup_index(s.drop_first(), k);
        match lookup(s, k) {
            Some(e) => {
                let i = choose|i: int|
                    0 <= i < s.drop_first().len() && s.drop_first()[i] == e && (#[trigger] s.drop_first()[i].key) == k;
                assert(s[i + 1] == e && s[i + 1].key == k);
            },
            None => {
                assert forall|i: int| 0 <= i < s.len() implies (#[trigger] s[i].key) != k by {
                    if i > 0 {
                        assert(s.drop_first()[i - 1] == s[i]);
                    }
                }
            },
        }
    }
}

/// In a sorted table, looking up the key of entry `i` finds entry `i`.
pub proof fn lemma_lookup_self(s: Seq<EntryV>, i: int)
    requires
        sorted(s),
        0 <= i < s.len(),
    ensures
        lookup(s, s[i].key) == Some(s[i]),
{
    lemma_lookup_index(s, s[i].key);
    match lookup(s, s[i].key) {
        Some(e) => {
            let j = choose|j: int| 0 <= j < s.len() && s[j] == e && (#[trigger] s[j].key) == s[i].key;
            if i != j {
                if i < j {
                    assert(lex_lt(s[i].key, s[j].key));
                } else {
                    assert(lex_lt(s[j].key, s[i].key));
                }
                lemma_lex_lt_irreflexive(s[i].key);
            }
        },
        None => {},
    }
}

/// A sorted sequence stays sorted after dropping its first entry.
pub proof fn lemma_sorted_drop_first(s: Seq<EntryV>)
    requires
        sorted(s),
        s.len() > 0,
    ensures
        sorted(s.drop_first()),
{
    assert(forall|i: int, j: int|
        0 <= i < j < s.drop_first().len() ==> lex_lt(
            #[trigger] s.drop_first()[i].key,
            #[trigger] s.drop_first()[j].key,
        ));
}

/// If no key in the first `n` entries matches `k`, the search can skip them.
pub proof fn lemma_lookup_skip(s: Seq<EntryV>, k: Seq<u8>, n: int)
    requires
        0 <= n <= s.len(),
        forall|j: int| 0 <= j < n ==> (#[trigger] s[j].key) != k,
    ensures
        lookup(s, k) == lookup(s.skip(n), k),
    decreases n,
{
    if n > 0 {
        lemma_lookup_skip(s.drop_first(), k, n - 1);
        assert(s.drop_first().skip(n - 1) =~= s.skip(n));
    } else {
        assert(s.skip(0) =~= s);
    }
}

/// Insert `e` in key order, replacing the entry with the same key if any.
pub open spec fn spec_upsert(s: Seq<EntryV>, e: EntryV) -> Seq<EntryV>
    decreases s.len(),
{
    if s.len() == 0 {
        seq![e]
    } else if lex_lt(e.key, s[0].key) {
        seq![e] + s
    } else if e.key == s[0].key {
        seq![e] + s.drop_first()
    } else {
        seq![s[0]] + spec_upsert(s.drop_first(), e)
    }
}

/// Upserting keeps the table sorted.
pub proof fn lemma_upsert_sorted(s: Seq<EntryV>, e: EntryV)
    requires
        sorted(s),
    ensures
        sorted(spec_upsert(s, e)),
    decreases s.len(),
{
    let r = spec_upsert(s, e);
    if s.len() == 0 {
    } else if lex_lt(e.key, s[0].key) {
        assert forall|i: int, j: int| 0 <= i < j < r.len() implies lex_lt(
            #[trigger] r[i].key,
            #[trigger] r[j].key,
        ) by {
            if i == 0 {
                if j > 1 {
                    lemma_lex_lt_transitive(e.key, s[0].key, s[j - 1].key);
                }
            }
        }
    } else if e.key == s[0].key {
        assert forall|i: int, j: int| 0 <= i < j < r.len() implies lex_lt(
            #[trigger] r[i].key,
            #[trigger] r[j].key,
        ) by {
            assert(r[j] == s[j]);
            if i > 0 {
                assert(r[i] == s[i]);
            }
        }
    } else {
        lemma_sorted_drop_first(s);
        lemma_upsert_sorted(s.drop_first(), e);
        lemma_lex_lt_total(e.key, s[0].key);
        let rr = spec_upsert(s.drop_first(), e);
        // every key in the recursive result is either e.key or a key of
        // s.drop_first(), so it stays above s[0].key
        lemma_upsert_keys(s.drop_first(), e);
        assert forall|i: int, j: int| 0 <= i < j < r.len() implies lex_lt(
            #[trigger] r[i].key,
            #[trigger] r[j].key,
        ) by {
            if i == 0 {
                assert(r[j] == rr[j - 1]);
                if rr[j - 1].key == e.key {
                    assert(lex_lt(s[0].key, e.key));
                } else {
                    let m = choose|m: int|
                        0 <= m < s.drop_first().len() && (#[trigger] s.drop_first()[m].key) == rr[j - 1].key;
                    assert(s[m + 1].key == rr[j - 1].key);
                }
            } else {
                assert(r[i] == rr[i - 1]);
                assert(r[j] == rr[j - 1]);
            }
        }
    }
}

/// Every key in an upserted table is `e.key` or a key already present.
pub proof fn lemma_upsert_keys(s: Seq<EntryV>, e: EntryV)
    ensures
        forall|i: int| 0 <= i < spec_upsert(s, e).len() ==> (#[trigger] spec_upsert(s, e)[i].key)
            == e.key || exists|m: int| 0 <= m < s.len() && (#[trigger] s[m].key) == spec_upsert(
            s,
            e,
        )[i].key,
    decreases s.len(),
{
    let r = spec_upsert(s, e);
    if s.len() == 0 {
    } else if lex_lt(e.key, s[0].key) {
        assert forall|i: int| 0 <= i < r.len() implies (#[trigger] r[i].key) == e.key || exists|m: int|
            0 <= m < s.len() && (#[trigger] s[m].key) == r[i].key by {
            if i > 0 {
                assert(s[i - 1].key == r[i].key);
            }
        }
    } else if e.key == s[0].key {
        assert forall|i: int| 0 <= i < r.len() implies (#[trigger] r[i].key) == e.key || exists|m: int|
            0 <= m < s.len() && (#[trigger] s[m].key) == r[i].key by {
            if i > 0 {
                assert(s[i].key == r[i].key);
            }
        }
    } else {
        lemma_upsert_keys(s.drop_first(), e);
        let rr = spec_upsert(s.drop_first(), e);
        assert forall|i: int| 0 <= i < r.len() implies (#[trigger] r[i].key) == e.key || exists|m: int|
            0 <= m < s.len() && (#[trigger] s[m].key) == r[i].key by {
            if i == 0 {
                assert(s[0].key == r[0].key);
            } else {
                assert(r[i] == rr[i - 1]);
                if rr[i - 1].key != e.key {
                    let m = choose|m: int|
                        0 <= m < s.drop_first().len() && (#[trigger] s.drop_first()[m].key) == rr[i - 1].key;
                    assert(s[m + 1].key == r[i].key);
                }
            }
        }
    }
}

/// After an upsert, `e.key` maps to `e` and every other key is unchanged.
pub proof fn lemma_upsert_lookup(s: Seq<EntryV>, e: EntryV, k: Seq<u8>)
    requires
        sorted(s),
    ensures
        lookup(spec_upsert(s, e), k) == if k == e.key {
            Some(e)
        } else {
            lookup(s, k)
        },
    decreases s.len(),
{
    let r = spec_upsert(s, e);
    if s.len() == 0 {
        assert(r == seq![e]);
        assert(r.len() == 1 && r[0] == e);
        if k == e.key {
            assert(lookup(r, k) == Some(e));
        } else {
            assert(r.drop_first() =~= Seq::<EntryV>::empty());
            assert(lookup(Seq::<EntryV>::empty(), k) is None);
            assert(lookup(r, k) == lookup(r.drop_first(), k));
        }
    } else if lex_lt(e.key, s[0].key) {
        assert(r == seq![e] + s);
        assert(r.len() == s.len() + 1 && r[0] == e);
        if k == e.key {
            assert(lookup(r, k) == Some(e));
        } else {
            assert(r.drop_first() =~= s);
            assert(lookup(r, k) == lookup(s, k));
        }
    } else if e.key == s[0].key {
        assert(r == seq![e] + s.drop_first());
        assert(r.len() == s.len() && r[0] == e);
        if k == e.key {
            assert(lookup(r, k) == Some(e));
        } else {
            assert(r.drop_first() =~= s.drop_first());
            assert(lookup(r, k) == lookup(s.drop_first(), k));
            assert(lookup(s, k) == lookup(s.drop_first(), k));
        }
    } else {
        lemma_sorted_drop_first(s);
        lemma_upsert_lookup(s.drop_first(), e, k);
        assert(r == seq![s[0]] + spec_upsert(s.drop_first(), e));
        assert(r.len() == spec_upsert(s.drop_first(), e).len() + 1);
        assert(r[0] == s[0]);
        lemma_lex_lt_total(e.key, s[0].key);
        assert(e.key != s[0].key);
        if k == s[0].key {
            assert(lookup(r, k) == Some(s[0]));
            assert(lookup(s, k) == Some(s[0]));
        } else {
            assert(r.drop_first() =~= spec_upsert(s.drop_first(), e));
            assert(lookup(r, k) == lookup(spec_upsert(s.drop_first(), e), k));
            assert(lookup(s, k) == lookup(s.drop_first(), k));
        }
    }
}

/// The sorted entry table.
pub struct Store {
    pub entries: Vec<Entry>,
}

impl View for Store {
    type V = Seq<EntryV>;

    open spec fn view(&self) -> Seq<EntryV> {
        self.entries.deep_view()
    }
}

impl DeepView for Entry {
    type V = EntryV;

    open spec fn deep_view(&self) -> EntryV {
        self@
    }
}

/// Copy a byte string.
pub fn copy_bytes(v: &Vec<u8>) -> (r: Vec<u8>)
    ensures
        r@ == v@,
{
    let mut r: Vec<u8> = Vec::new();
    let mut i: usize = 0;
    while i < v.len()
        invariant
            i <= v.len(),
            r@ =~= v@.take(i as int),
        decreases v.len() - i,
    {
        r.push(v[i]);
        proof {
            assert(r@ =~= v@.take(i + 1));
        }
        i = i + 1;
    }
    proof {
        assert(v@.take(v@.len() as int) =~= v@);
    }
    r
}

/// Copy a live value or a tombstone.
pub fn clone_val(v: &Option<Vec<u8>>) -> (r: Option<Vec<u8>>)
    ensures
        r.deep_view() == v.deep_view(),
{
    match v {
        Some(b) => Some(copy_bytes(b)),
        None => None,
    }
}

impl Store {
    /// Well-formed: entries strictly ascending by key.
    pub open spec fn wf(&self) -> bool {
        sorted(self@)
    }

    /// An empty table.
    pub fn empty() -> (r: Store)
        ensures
            r.wf(),
            r@ =~= Seq::<EntryV>::empty(),
    {
        Store { entries: Vec::new() }
    }

    /// Copy the whole table.
    pub fn duplicate(&self) -> (r: Store)
        ensures
            r@ == self@,
    {
        let mut entries: Vec<Entry> = Vec::new();
        let mut i: usize = 0;
        while i < self.entries.len()
            invariant
                i <= self.entries.len(),
                entries.deep_view() =~= self@.take(i as int),
            decreases self.entries.len() - i,
        {
            let ghost pre = entries.deep_view();
            let e = &self.entries[i];
            let en = Entry { key: copy_bytes(&e.key), val: clone_val(&e.val), ver: e.ver };
            proof {
                assert(en@ =~~= self@[i as int]);
            }
            entries.push(en);
            proof {
                assert(pre.len() == i);
                assert(entries@.len() == i + 1);
                assert(entries.deep_view().len() == i + 1);
                assert(forall|j: int| 0 <= j < i ==> #[trigger] entries.deep_view()[j] == pre[j]);
                assert(entries.deep_view()[i as int] == en@);
                assert(entries.deep_view() =~~= self@.take(i + 1));
            }
            i = i + 1;
        }
        proof {
            assert(self@.take(self@.len() as int) =~= self@);
        }
        Store { entries }
    }

    /// Find the index of the entry holding `k`, if any.
    pub fn find(&self, k: &Vec<u8>) -> (r: Option<usize>)
        ensures
            match r {
                Some(i) => i < self.entries.len() && self@[i as int].key == k@ && lookup(
                    self@,
                    k@,
                ) == Some(self@[i as int]),
                None => lookup(self@, k@) is None,
            },
    {
        let mut i: usize = 0;
        while i < self.entries.len()
            invariant
                i <= self.entries.len(),
                forall|j: int| 0 <= j < i ==> (#[trigger] self@[j].key) != k@,
            decreases self.entries.len() - i,
        {
            if key_eq(&self.entries[i].key, k) {
                proof {
                    lemma_lookup_skip(self@, k@, i as int);
                    assert(self@.skip(i as int)[0] == self@[i as int]);
                }
                return Some(i);
            }
            i = i + 1;
        }
        proof {
            lemma_lookup_skip(self@, k@, i as int);
            assert(self@.skip(i as int).len() == 0);
        }
        None
    }

    /// The live value under `k`, or `None` for a tombstone or absent key.
    pub fn get(&self, k: &Vec<u8>) -> (r: Option<Vec<u8>>)
        ensures
            r.deep_view() == value_of(self@, k@),
    {
        match self.find(k) {
            Some(i) => clone_val(&self.entries[i].val),
            None => None,
        }
    }

    /// The version under `k`; 0 when the key was never written.
    pub fn version(&self, k: &Vec<u8>) -> (r: u64)
        ensures
            r == version_of(self@, k@),
    {
        match self.find(k) {
            Some(i) => self.entries[i].ver,
            None => 0,
        }
    }

    /// Whether `k` holds a live value.
    pub fn exists_key(&self, k: &Vec<u8>) -> (r: bool)
        ensures
            r == (value_of(self@, k@) is Some),
    {
        match self.find(k) {
            Some(i) => self.entries[i].val.is_some(),
            None => false,
        }
    }

    /// Insert or replace the entry for `k`, keeping the table sorted.
    pub fn upsert(&mut self, k: Vec<u8>, val: Option<Vec<u8>>, ver: u64)
        requires
            old(self).wf(),
        ensures
            final(self).wf(),
            final(self)@ == spec_upsert(old(self)@, EntryV { key: k@, val: val.deep_view(), ver }),
    {
        let ghost e = EntryV { key: k@, val: val.deep_view(), ver };
        let ghost s0 = self@;
        proof {
            lemma_upsert_sorted(s0, e);
        }
        let mut i: usize = 0;
        while i < self.entries.len() && key_lt(&self.entries[i].key, &k)
            invariant
                self@ == s0,
                i <= self.entries.len(),
                forall|j: int| 0 <= j < i ==> lex_lt((#[trigger] self@[j].key), k@),
            decreases self.entries.len() - i,
        {
            i = i + 1;
        }
        // i is the insertion point: everything before it is below k
        if i < self.entries.len() && key_eq(&self.entries[i].key, &k) {
            self.entries.set(i, Entry { key: k, val, ver });
            proof {
                lemma_upsert_at(s0, e, i as int);
                assert(self@ =~= s0.update(i as int, e));
            }
        } else {
            proof {
                if i < s0.len() {
                    lemma_lex_lt_total(s0[i as int].key, e.key);
                }
                lemma_upsert_at(s0, e, i as int);
            }
            self.entries.insert(i, Entry { key: k, val, ver });
            proof {
                assert(self@ =~= s0.take(i as int) + seq![e] + s0.skip(i as int));
            }
        }
    }
}

/// In a sorted table, dropping the last entry only removes that entry's key.
pub proof fn lemma_lookup_drop_last(s: Seq<EntryV>, k: Seq<u8>)
    requires
        sorted(s),
        s.len() > 0,
    ensures
        lookup(s, k) == if s.last().key == k {
            Some(s.last())
        } else {
            lookup(s.drop_last(), k)
        },
    decreases s.len(),
{
    if s.len() == 1 {
        assert(s.drop_last() =~= Seq::<EntryV>::empty());
        assert(lookup(Seq::<EntryV>::empty(), k) is None);
        assert(s[0] == s.last());
    } else {
        if s[0].key == k {
            assert(lex_lt(s[0].key, s.last().key));
            lemma_lex_lt_irreflexive(s[0].key);
            assert(s.last().key != k);
            assert(s.drop_last()[0] == s[0]);
            assert(lookup(s.drop_last(), k) == Some(s[0]));
        } else {
            lemma_sorted_drop_first(s);
            lemma_lookup_drop_last(s.drop_first(), k);
            assert(s.drop_first().last() == s.last());
            assert(s.drop_first().drop_last() =~= s.drop_last().drop_first());
            assert(s.drop_last()[0] == s[0]);
            assert(lookup(s.drop_last(), k) == lookup(s.drop_last().drop_first(), k));
            assert(lookup(s, k) == lookup(s.drop_first(), k));
        }
    }
}

/// Apply a batch of staged writes to a committed table: every written key
/// gets the staged live value or tombstone, stamped with the commit
/// version `ver`; later entries in the batch win over earlier ones.
pub open spec fn spec_apply(s: Seq<EntryV>, w: Seq<EntryV>, ver: u64) -> Seq<EntryV>
    decreases w.len(),
{
    if w.len() == 0 {
        s
    } else {
        spec_upsert(
            spec_apply(s, w.drop_last(), ver),
            EntryV { key: w.last().key, val: w.last().val, ver },
        )
    }
}

/// Applying a batch keeps the table sorted.
pub proof fn lemma_apply_sorted(s: Seq<EntryV>, w: Seq<EntryV>, ver: u64)
    requires
        sorted(s),
    ensures
        sorted(spec_apply(s, w, ver)),
    decreases w.len(),
{
    if w.len() > 0 {
        lemma_apply_sorted(s, w.drop_last(), ver);
        lemma_upsert_sorted(
            spec_apply(s, w.drop_last(), ver),
            EntryV { key: w.last().key, val: w.last().val, ver },
        );
    }
}

/// After a batch, a written key reads back its staged value at version
/// `ver`, and every other key is untouched.
pub proof fn lemma_apply_lookup(s: Seq<EntryV>, w: Seq<EntryV>, ver: u64, k: Seq<u8>)
    requires
        sorted(s),
        sorted(w),
    ensures
        lookup(spec_apply(s, w, ver), k) == match lookup(w, k) {
            Some(e) => Some(EntryV { key: k, val: e.val, ver }),
            None => lookup(s, k),
        },
    decreases w.len(),
{
    if w.len() > 0 {
        assert(sorted(w.drop_last())) by {
            assert(forall|i: int, j: int|
                0 <= i < j < w.drop_last().len() ==> lex_lt(
                    #[trigger] w.drop_last()[i].key,
                    #[trigger] w.drop_last()[j].key,
                ));
        }
        lemma_apply_lookup(s, w.drop_last(), ver, k);
        lemma_apply_sorted(s, w.drop_last(), ver);
        lemma_upsert_lookup(
            spec_apply(s, w.drop_last(), ver),
            EntryV { key: w.last().key, val: w.last().val, ver },
            k,
        );
        lemma_lookup_drop_last(w, k);
    }
}

/// Whether `k` lies in the half-open range `[lo, hi)`.
pub open spec fn in_range(k: Seq<u8>, lo: Seq<u8>, hi: Seq<u8>) -> bool {
    lex_le(lo, k) && lex_lt(k, hi)
}

/// The live entries of `s` whose keys lie in `[lo, hi)`, in table order.
pub open spec fn scan_filter(s: Seq<EntryV>, lo: Seq<u8>, hi: Seq<u8>) -> Seq<(Seq<u8>, Seq<u8>)>
    decreases s.len(),
{
    if s.len() == 0 {
        Seq::empty()
    } else {
        let prefix = scan_filter(s.drop_last(), lo, hi);
        match s.last().val {
            Some(v) => if in_range(s.last().key, lo, hi) {
                prefix.push((s.last().key, v))
            } else {
                prefix
            },
            None => prefix,
        }
    }
}

/// Every scan result entry is a live entry of the table in range, and the
/// result keys are strictly ascending; in particular a scan of a sorted
/// table has no duplicate keys.
pub proof fn lemma_scan_filter_sound(s: Seq<EntryV>, lo: Seq<u8>, hi: Seq<u8>)
    requires
        sorted(s),
    ensures
        forall|j: int| 0 <= j < scan_filter(s, lo, hi).len() ==> {
            let p = #[trigger] scan_filter(s, lo, hi)[j];
            in_range(p.0, lo, hi) && value_of(s, p.0) == Some(p.1)
        },
        forall|j1: int, j2: int| 0 <= j1 < j2 < scan_filter(s, lo, hi).len() ==> lex_lt(
            (#[trigger] scan_filter(s, lo, hi)[j1]).0,
            (#[trigger] scan_filter(s, lo, hi)[j2]).0,
        ),
    decreases s.len(),
{
    let r = scan_filter(s, lo, hi);
    if s.len() > 0 {
        assert(sorted(s.drop_last())) by {
            assert(forall|i: int, j: int|
                0 <= i < j < s.drop_last().len() ==> lex_lt(
                    #[trigger] s.drop_last()[i].key,
                    #[trigger] s.drop_last()[j].key,
                ));
        }
        lemma_scan_filter_sound(s.drop_last(), lo, hi);
        let prefix = scan_filter(s.drop_last(), lo, hi);
        // a key in the prefix result is a key of some earlier entry, so it
        // lies strictly below the last entry's key
        lemma_scan_filter_keys(s.drop_last(), lo, hi);
        assert forall|j: int| 0 <= j < r.len() implies {
            let p = #[trigger] r[j];
            in_range(p.0, lo, hi) && value_of(s, p.0) == Some(p.1)
        } by {
            if j < prefix.len() {
                assert(r[j] == prefix[j]);
                lemma_lookup_drop_last(s, prefix[j].0);
                let m = choose|m: int|
                    0 <= m < s.drop_last().len() && (#[trigger] s.drop_last()[m].key) == prefix[j].0;
                assert(s[m].key == prefix[j].0);
                assert(lex_lt(s[m].key, s.last().key));
                lemma_lex_lt_irreflexive(s.last().key);
                assert(s.last().key != prefix[j].0);
            } else {
                assert(r[j] == (s.last().key, s.last().val->0));
                lemma_lookup_drop_last(s, s.last().key);
            }
        }
        assert forall|j1: int, j2: int| 0 <= j1 < j2 < r.len() implies lex_lt(
            (#[trigger] r[j1]).0,
            (#[trigger] r[j2]).0,
        ) by {
            if j2 < prefix.len() {
                assert(r[j1] == prefix[j1] && r[j2] == prefix[j2]);
            } else if j2 < r.len() && r.len() > prefix.len() {
                assert(r[j1] == prefix[j1]);
                assert(r[j2].0 == s.last().key);
                let m = choose|m: int|
                    0 <= m < s.drop_last().len() && (#[trigger] s.drop_last()[m].key) == prefix[j1].0;
                assert(s[m].key == prefix[j1].0);
                assert(lex_lt(s[m].key, s.last().key));
            }
        }
    }
}

/// Every key in a scan result is the key of some table entry.
pub proof fn lemma_scan_filter_keys(s: Seq<EntryV>, lo: Seq<u8>, hi: Seq<u8>)
    ensures
        forall|j: int| 0 <= j < scan_filter(s, lo, hi).len() ==> exists|m: int|
            0 <= m < s.len() && (#[trigger] s[m].key) == (#[trigger] scan_filter(s, lo, hi)[j]).0,
    decreases s.len(),
{
    let r = scan_filter(s, lo, hi);
    if s.len() > 0 {
        lemma_scan_filter_keys(s.drop_last(), lo, hi);
        let prefix = scan_filter(s.drop_last(), lo, hi);
        assert forall|j: int| 0 <= j < r.len() implies exists|m: int|
            0 <= m < s.len() && (#[trigger] s[m].key) == (#[trigger] r[j]).0 by {
            if j < prefix.len() {
                assert(r[j] == prefix[j]);
                let m = choose|m: int|
                    0 <= m < s.drop_last().len() && (#[trigger] s.drop_last()[m].key) == prefix[j].0;
                assert(s[m].key == r[j].0);
            } else {
                assert(s[s.len() - 1].key == r[j].0);
            }
        }
    }
}

/// Every live entry of the table in range appears in the scan result.
pub proof fn lemma_scan_filter_complete(s: Seq<EntryV>, lo: Seq<u8>, hi: Seq<u8>, k: Seq<u8>)
    requires
        sorted(s),
        in_range(k, lo, hi),
        value_of(s, k) is Some,
    ensures
        exists|j: int| 0 <= j < scan_filter(s, lo, hi).len() && (#[trigger] scan_filter(
            s,
            lo,
            hi,
        )[j]) == (k, value_of(s, k)->0),
    decreases s.len(),
{
    let r = scan_filter(s, lo, hi);
    assert(s.len() > 0);
    lemma_lookup_drop_last(s, k);
    if s.last().key == k {
        assert(r[r.len() - 1] == (k, value_of(s, k)->0));
    } else {
        assert(sorted(s.drop_last())) by {
            assert(forall|i: int, j: int|
                0 <= i < j < s.drop_last().len() ==> lex_lt(
                    #[trigger] s.drop_last()[i].key,
                    #[trigger] s.drop_last()[j].key,
                ));
        }
        lemma_scan_filter_complete(s.drop_last(), lo, hi, k);
        let prefix = scan_filter(s.drop_last(), lo, hi);
        let j = choose|j: int| 0 <= j < prefix.len() && (#[trigger] prefix[j]) == (
            k,
            value_of(s.drop_last(), k)->0,
        );
        assert(r[j] == (k, value_of(s, k)->0));
    }
}

impl Store {
    /// Apply a batch of staged writes at commit version `ver`.
    pub fn apply(&mut self, w: &Store, ver: u64)
        requires
            old(self).wf(),
        ensures
            final(self).wf(),
            final(self)@ == spec_apply(old(self)@, w@, ver),
    {
        let ghost s0 = self@;
        let mut i: usize = 0;
        while i < w.entries.len()
            invariant
                i <= w.entries.len(),
                self.wf(),
                self@ == spec_apply(s0, w@.take(i as int), ver),
            decreases w.entries.len() - i,
        {
            let e = &w.entries[i];
            self.upsert(copy_bytes(&e.key), clone_val(&e.val), ver);
            proof {
                assert(w@.take(i + 1).drop_last() =~= w@.take(i as int));
                assert(w@.take(i + 1).last() == w@[i as int]);
            }
            i = i + 1;
        }
        proof {
            assert(w@.take(w@.len() as int) =~= w@);
        }
    }

    /// All live key-value pairs with keys in `[lo, hi)`, in ascending key
    /// order.
    pub fn scan(&self, lo: &Vec<u8>, hi: &Vec<u8>) -> (r: Vec<(Vec<u8>, Vec<u8>)>)
        ensures
            r.deep_view() == scan_filter(self@, lo@, hi@),
    {
        let mut r: Vec<(Vec<u8>, Vec<u8>)> = Vec::new();
        let mut i: usize = 0;
        while i < self.entries.len()
            invariant
                i <= self.entries.len(),
                r.deep_view() == scan_filter(self@.take(i as int), lo@, hi@),
            decreases self.entries.len() - i,
        {
            let ghost pre = r.deep_view();
            let e = &self.entries[i];
            match &e.val {
                Some(v) => {
                    if key_le(lo, &e.key) && key_lt(&e.key, hi) {
                        r.push((copy_bytes(&e.key), copy_bytes(v)));
                    }
                },
                None => {},
            }
            proof {
                assert(self@.take(i + 1).drop_last() =~= self@.take(i as int));
                assert(self@.take(i + 1).last() == self@[i as int]);
                assert(r.deep_view().len() == scan_filter(self@.take(i + 1), lo@, hi@).len());
                assert(forall|j: int| 0 <= j < pre.len() ==> #[trigger] r.deep_view()[j] == pre[j]);
                assert(r.deep_view() =~~= scan_filter(self@.take(i + 1), lo@, hi@));
            }
            i = i + 1;
        }
        proof {
            assert(self@.take(self@.len() as int) =~= self@);
        }
        r
    }
}

/// Positional form of `spec_upsert`: with every key before `i` below
/// `e.key` and the key at `i` (if any) not below it, the upsert either
/// replaces index `i` or inserts before it.
pub proof fn lemma_upsert_at(s: Seq<EntryV>, e: EntryV, i: int)
    requires
        sorted(s),
        0 <= i <= s.len(),
        forall|j: int| 0 <= j < i ==> lex_lt((#[trigger] s[j].key), e.key),
        i < s.len() ==> !lex_lt(s[i].key, e.key),
    ensures
        i < s.len() && s[i].key == e.key ==> spec_upsert(s, e) == s.update(i, e),
        !(i < s.len() && s[i].key == e.key) ==> spec_upsert(s, e) == s.take(i) + seq![e] + s.skip(
            i,
        ),
    decreases i,
{
    if i == 0 {
        if s.len() == 0 {
            assert(spec_upsert(s, e) =~= s.take(0) + seq![e] + s.skip(0));
        } else if s[0].key == e.key {
            lemma_lex_lt_irreflexive(e.key);
            assert(spec_upsert(s, e) == seq![e] + s.drop_first());
            assert(seq![e] + s.drop_first() =~= s.update(0, e));
        } else {
            lemma_lex_lt_total(e.key, s[0].key);
            assert(lex_lt(e.key, s[0].key));
            assert(spec_upsert(s, e) == seq![e] + s);
            assert(seq![e] + s =~= s.take(0) + seq![e] + s.skip(0));
        }
    } else {
        assert(lex_lt(s[0].key, e.key));
        lemma_lex_lt_asymmetric(s[0].key, e.key);
        assert(s[0].key != e.key);
        assert(spec_upsert(s, e) == seq![s[0]] + spec_upsert(s.drop_first(), e));
        lemma_sorted_drop_first(s);
        assert(forall|j: int|
            0 <= j < i - 1 ==> lex_lt((#[trigger] s.drop_first()[j].key), e.key));
        lemma_upsert_at(s.drop_first(), e, i - 1);
        if i < s.len() && s[i].key == e.key {
            assert(s.drop_first()[i - 1].key == e.key);
            assert(seq![s[0]] + s.drop_first().update(i - 1, e) =~= s.update(i, e));
        } else {
            assert(seq![s[0]] + (s.drop_first().take(i - 1) + seq![e] + s.drop_first().skip(i - 1))
                =~= s.take(i) + seq![e] + s.skip(i));
        }
    }
}

} // verus!
