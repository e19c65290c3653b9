//! The datastore: the long-lived handle to one configured backend.
//!
//! A [`Datastore`] owns the active backend driver, the monotone commit
//! version counter, and the node identity used to disambiguate this
//! instance in multi-node deployments. It is the factory for
//! [`crate::tx::Transaction`] values: any number may be open at once, each
//! against its own materialized snapshot, so readers never serialize
//! against each other or against writers.

use vstd::prelude::*;
use vstd::string::StrSliceExecFns;

use crate::backend::{supports_lock, spec_supports_lock, Backend, BackendKind};
use crate::err::Error;
use crate::store::{EntryV, Store};
use crate::tx::{TxState, Transaction, TxView};

verus! {

/// A character a hexadecimal digit may use: `0`-`9`, `a`-`f` or `A`-`F`.
pub open spec fn is_hex_char(c: char) -> bool {
    (48 <= c as u32 && c as u32 <= 57) || (97 <= c as u32 && c as u32 <= 102) || (65 <= c as u32
        && c as u32 <= 70)
}

/// The canonical textual shape of a node identifier: a UUID,
/// `xxxxxxxx-xxxx-xxxx-xxxx-xxxxxxxxxxxx` with hexadecimal digits.
pub open spec fn spec_is_uuid(s: Seq<char>) -> bool {
    &&& s.len() == 36
    &&& forall|i: int| 0 <= i < 36 ==> if i == 8 || i == 13 || i == 18 || i == 23 {
        (#[trigger] s[i]) == '-'
    } else {
        is_hex_char(s[i])
    }
}

/// Decide whether `s` is a well-formed UUID string.
pub fn is_uuid_text(s: &str) -> (r: bool)
    ensures
        r == spec_is_uuid(s@),
{
    let n = s.unicode_len();
    if n != 36 {
        return false;
    }
    let mut i: usize = 0;
    while i < 36
        invariant
            s@.len() == 36,
            i <= 36,
            forall|j: int| 0 <= j < i ==> if j == 8 || j == 13 || j == 18 || j == 23 {
                (#[trigger] s@[j]) == '-'
            } else {
                is_hex_char(s@[j])
            },
        decreases 36 - i,
    {
        let c = s.get_char(i);
        let u = c as u32;
        let ok = if i == 8 || i == 13 || i == 18 || i == 23 {
            c == '-'
        } else {
            (48 <= u && u <= 57) || (97 <= u && u <= 102) || (65 <= u && u <= 70)
        };
        if !ok {
            return false;
        }
        i = i + 1;
    }
    true
}

/// Configuration handed to [`Datastore::open`] beside the resolved backend
/// kind and address: the externally supplied node identity.
pub struct Config {
    pub node_id: String,
}

/// The mathematical image of a datastore: which driver is active, the
/// committed table, the commit version counter, and the node identity.
#[verifier::ext_equal]
pub ghost struct DsView {
    pub kind: BackendKind,
    pub committed: Seq<EntryV>,
    pub version: u64,
    pub node: Seq<char>,
}

/// The long-lived handle owning one configured backend.
pub struct Datastore {
    pub backend: Backend,
    pub version: u64,
    pub node_id: String,
    pub address: String,
}

impl View for Datastore {
    type V = DsView;

    open spec fn view(&self) -> DsView {
        DsView {
            kind: self.backend.spec_kind(),
            committed: self.backend.committed(),
            version: self.version,
            node: self.node_id@,
        }
    }
}

impl Datastore {
    /// Well-formed: the driver's own invariant holds and the node identity
    /// has the canonical shape.
    pub open spec fn wf(&self) -> bool {
        self.backend.wf() && spec_is_uuid(self.node_id@)
    }

    /// The committed table of a well-formed datastore is sorted.
    pub proof fn lemma_committed_sorted(&self)
        requires
            self.wf(),
        ensures
            crate::store::sorted(self@.committed),
    {
        self.backend.lemma_committed_sorted();
    }

    /// Open a datastore on the backend selected at configuration time.
    ///
    /// Validates the configuration: a node identity that is not a
    /// well-formed UUID is a misconfiguration and fails with
    /// `ConnectionError`. On success the committed table is empty and the
    /// version counter starts at zero.
    pub fn open(kind: BackendKind, address: String, config: Config) -> (r: Result<
        Datastore,
        Error,
    >)
        ensures
            r is Ok <==> spec_is_uuid(config.node_id@),
            r matches Ok(d) ==> {
                &&& d.wf()
                &&& d@.kind == kind
                &&& d@.committed =~= Seq::<EntryV>::empty()
                &&& d@.version == 0
                &&& d@.node == config.node_id@
            },
            r matches Err(e) ==> e == Error::ConnectionError,
    {
        if !is_uuid_text(config.node_id.as_str()) {
            return Err(Error::ConnectionError);
        }
        Ok(Datastore { backend: Backend::new(kind), version: 0, node_id: config.node_id, address })
    }

    /// The node identity of this datastore instance, stable for its whole
    /// lifetime.
    pub fn node(&self) -> (r: &String)
        ensures
            r@ == self@.node,
    {
        &self.node_id
    }

    /// Open a new transaction against this datastore.
    ///
    /// `write` selects a read-write transaction; `lock` additionally
    /// requests explicit pessimistic exclusivity. A lock request on a
    /// read-only transaction, or on a backend without the locking
    /// capability, fails with `UnsupportedFeature` rather than silently
    /// downgrading the guarantee. The new transaction starts `Active` on a
    /// private snapshot of the committed table at the current version, with
    /// nothing staged and nothing read.
    pub fn transaction(&self, write: bool, lock: bool) -> (r: Result<Transaction, Error>)
        requires
            self.wf(),
        ensures
            r is Ok <==> (lock ==> write && spec_supports_lock(self@.kind)),
            r matches Ok(t) ==> {
                &&& t.wf()
                &&& t@ == (TxView {
                    write,
                    lock,
                    state: TxState::Active,
                    start: self@.version,
                    snapshot: self@.committed,
                    writes: Seq::<EntryV>::empty(),
                    reads: Seq::<Seq<u8>>::empty(),
                })
            },
            r matches Err(e) ==> e == Error::UnsupportedFeature,
    {
        if lock && !write {
            return Err(Error::UnsupportedFeature);
        }
        if lock && !supports_lock(self.backend.kind()) {
            return Err(Error::UnsupportedFeature);
        }
        let t = Transaction {
            write,
            lock,
            state: TxState::Active,
            start: self.version,
            snapshot: self.backend.materialize(),
            writes: Store::empty(),
            reads: Vec::new(),
        };
        proof {
            assert(t@.writes =~= Seq::<EntryV>::empty());
            assert(t@.reads =~= Seq::<Seq<u8>>::empty());
            assert(t@ =~~= (TxView {
                write,
                lock,
                state: TxState::Active,
                start: self@.version,
                snapshot: self@.committed,
                writes: Seq::<EntryV>::empty(),
                reads: Seq::<Seq<u8>>::empty(),
            }));
        }
        Ok(t)
    }
}

} // verus!
