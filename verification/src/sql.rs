//! The statement execution contract, with the `THROW` statement as the
//! worked example of how statements consume transactions.
//!
//! A statement declares up front whether it needs a write-mode transaction
//! (`writeable`), and its `compute` receives the execution context, the
//! options bundle, the active transaction and an optional per-row cursor
//! document, returning a computed value or a typed error. `THROW` raises an
//! application-level error: `compute` returns `Error::Thrown` carrying the
//! user-supplied message verbatim, touches nothing, and is never retried.

use vstd::prelude::*;
use vstd::string::{StrSliceExecFns, StringExecFns};

use crate::err::Error;
use crate::tx::Transaction;

verus! {

/// A string literal value of the query language.
pub struct Strand(pub String);

impl View for Strand {
    type V = Seq<char>;

    open spec fn view(&self) -> Seq<char> {
        self.0@
    }
}

impl Strand {
    /// The raw text of the strand.
    pub fn as_str(&self) -> (r: &str)
        ensures
            r@ == self@,
    {
        self.0.as_str()
    }
}

/// A computed value of the query language (the fragment the statement
/// contract needs).
pub enum Value {
    Null,
    Bool(bool),
    Strand(Strand),
}

/// The execution context a statement runs in: carries the cancellation
/// signal of the enclosing task.
pub struct Context {
    pub cancelled: bool,
}

/// The options bundle: the namespace and database the statement targets.
pub struct Options {
    pub ns: String,
    pub db: String,
}

/// The current document cursor, for statements evaluated per row.
pub struct CursorDoc {
    pub doc: Value,
}

/// The `THROW` statement: raises an application-level error with a
/// user-supplied message.
pub struct ThrowStatement {
    pub error: Strand,
}

impl View for ThrowStatement {
    type V = Seq<char>;

    open spec fn view(&self) -> Seq<char> {
        self.error@
    }
}

/// The canonical text of a `THROW` statement.
pub open spec fn spec_throw_text(msg: Seq<char>) -> Seq<char> {
    "THROW '"@ + msg + "'"@
}

impl ThrowStatement {
    /// Whether this statement requires a write-mode transaction: raising an
    /// error writes nothing.
    pub fn writeable(&self) -> (r: bool)
        ensures
            r == false,
    {
        false
    }

    /// Process this statement: always returns the `Thrown` error carrying
    /// exactly this statement's message, with no side effects — the
    /// transaction is untouched, so nothing can be partially committed.
    pub fn compute(
        &self,
        _ctx: &Context,
        _opt: &Options,
        _txn: &Transaction,
        _doc: Option<&CursorDoc>,
    ) -> (r: Result<Value, Error>)
        ensures
            r is Err,
            r matches Err(e) ==> e matches Error::Thrown(m) && m@ == self.error@,
    {
        Err(Error::Thrown(self.error.0.clone()))
    }

    /// The statement rendered back to text, in place of a `Display` impl.
    pub fn to_display_string(&self) -> (r: String)
        ensures
            r@ == spec_throw_text(self@),
    {
        let mut s = String::new();
        s.append("THROW '");
        s.append(self.error.0.as_str());
        s.append("'");
        s
    }
}

/// A whitespace character between tokens.
pub open spec fn is_space(c: char) -> bool {
    c == ' ' || c == '\t' || c == '\r' || c == '\n'
}

/// Exec form of [`is_space`].
pub fn is_space_char(c: char) -> (r: bool)
    ensures
        r == is_space(c),
{
    c == ' ' || c == '\t' || c == '\r' || c == '\n'
}

/// Whether the text opens with the keyword `THROW`, in any letter case.
pub open spec fn spec_matches_throw(s: Seq<char>) -> bool {
    &&& s.len() >= 5
    &&& (s[0] == 't' || s[0] == 'T')
    &&& (s[1] == 'h' || s[1] == 'H')
    &&& (s[2] == 'r' || s[2] == 'R')
    &&& (s[3] == 'o' || s[3] == 'O')
    &&& (s[4] == 'w' || s[4] == 'W')
}

/// The text with its leading whitespace removed.
pub open spec fn skip_ws(s: Seq<char>) -> Seq<char>
    decreases s.len(),
{
    if s.len() > 0 && is_space(s[0]) {
        skip_ws(s.drop_first())
    } else {
        s
    }
}

/// The body of a quoted strand: the characters up to the first closing
/// quote `q`, and the text after it; `None` when the quote never closes.
pub open spec fn strand_body(s: Seq<char>, q: char) -> Option<(Seq<char>, Seq<char>)>
    decreases s.len(),
{
    if s.len() == 0 {
        None
    } else if s[0] == q {
        Some((Seq::empty(), s.drop_first()))
    } else {
        match strand_body(s.drop_first(), q) {
            Some(p) => Some((seq![s[0]] + p.0, p.1)),
            None => None,
        }
    }
}

/// The grammar of a `THROW` statement: the keyword in any case, at least
/// one whitespace character, then a strand quoted by `'` or `"` holding no
/// quote character of its kind. The result is the message and the
/// remaining text.
pub open spec fn spec_throw_parse(s: Seq<char>) -> Option<(Seq<char>, Seq<char>)> {
    if !spec_matches_throw(s) {
        None
    } else {
        let s1 = s.skip(5);
        if s1.len() == 0 || !is_space(s1[0]) {
            None
        } else {
            let s2 = skip_ws(s1);
            if s2.len() == 0 || !(s2[0] == '\'' || s2[0] == '"') {
                None
            } else {
                strand_body(s2.drop_first(), s2[0])
            }
        }
    }
}

/// Skipping whitespace can jump over any all-whitespace prefix at once.
proof fn lemma_skip_ws_skip(s: Seq<char>, i: int)
    requires
        0 <= i <= s.len(),
        forall|j: int| 0 <= j < i ==> is_space(#[trigger] s[j]),
    ensures
        skip_ws(s) == skip_ws(s.skip(i)),
    decreases i,
{
    if i == 0 {
        assert(s.skip(0) =~= s);
    } else {
        lemma_skip_ws_skip(s.drop_first(), i - 1);
        assert(s.drop_first().skip(i - 1) =~= s.skip(i));
    }
}

/// When the first closing quote stands at index `j`, the strand body is
/// the prefix before it and the rest is the text after it.
proof fn lemma_strand_body_found(s: Seq<char>, q: char, j: int)
    requires
        0 <= j < s.len(),
        s[j] == q,
        forall|m: int| 0 <= m < j ==> (#[trigger] s[m]) != q,
    ensures
        strand_body(s, q) == Some((s.take(j), s.skip(j + 1))),
    decreases j,
{
    if j == 0 {
        assert(s.take(0) =~= Seq::<char>::empty());
        assert(s.skip(1) =~= s.drop_first());
    } else {
        lemma_strand_body_found(s.drop_first(), q, j - 1);
        assert(seq![s[0]] + s.drop_first().take(j - 1) =~= s.take(j));
        assert(s.drop_first().skip(j) =~= s.skip(j + 1));
    }
}

/// A strand whose quote never closes does not parse.
proof fn lemma_strand_body_none(s: Seq<char>, q: char)
    requires
        forall|m: int| 0 <= m < s.len() ==> (#[trigger] s[m]) != q,
    ensures
        strand_body(s, q) is None,
    decreases s.len(),
{
    if s.len() > 0 {
        lemma_strand_body_none(s.drop_first(), q);
    }
}

/// Parse a `THROW` statement off the front of `i`: the statement and the
/// remaining text, or `None` when `i` does not open with a well-formed
/// `THROW`.
pub fn throw(i: &str) -> (r: Option<(&str, ThrowStatement)>)
    ensures
        r matches Some(p) ==> spec_throw_parse(i@) == Some((p.1.error@, p.0@)),
        r is None ==> spec_throw_parse(i@) is None,
{
    let n = i.unicode_len();
    if n < 5 {
        return None;
    }
    let c0 = i.get_char(0);
    let c1 = i.get_char(1);
    let c2 = i.get_char(2);
    let c3 = i.get_char(3);
    let c4 = i.get_char(4);
    if !((c0 == 't' || c0 == 'T') && (c1 == 'h' || c1 == 'H') && (c2 == 'r' || c2 == 'R') && (c3
        == 'o' || c3 == 'O') && (c4 == 'w' || c4 == 'W')) {
        return None;
    }
    let ghost s1 = i@.skip(5);
    if n == 5 {
        proof {
            assert(s1.len() == 0);
        }
        return None;
    }
    proof {
        assert(s1[0] == i@[5]);
        assert(s1.len() == n - 5);
    }
    let c5 = i.get_char(5);
    if !is_space_char(c5) {
        return None;
    }
    let mut idx: usize = 5;
    loop
        invariant
            5 <= idx <= n,
            n == i@.len(),
            forall|j: int| 5 <= j < idx ==> is_space(#[trigger] i@[j]),
        ensures
            5 <= idx <= n,
            forall|j: int| 5 <= j < idx ==> is_space(#[trigger] i@[j]),
            idx == n || !is_space(i@[idx as int]),
        decreases n - idx,
    {
        if idx >= n {
            break;
        }
        let c = i.get_char(idx);
        if !is_space_char(c) {
            break;
        }
        idx = idx + 1;
    }
    proof {
        lemma_skip_ws_skip(s1, idx - 5);
        assert(s1.skip(idx - 5) =~= i@.skip(idx as int));
        assert(idx < n ==> !is_space(i@.skip(idx as int)[0]));
        assert(skip_ws(i@.skip(idx as int)) == i@.skip(idx as int));
        assert(skip_ws(s1) == i@.skip(idx as int));
    }
    if idx >= n {
        proof {
            assert(skip_ws(s1).len() == 0);
        }
        return None;
    }
    let q = i.get_char(idx);
    proof {
        assert(skip_ws(s1)[0] == i@[idx as int]);
    }
    if !(q == '\'' || q == '"') {
        return None;
    }
    let body_start = idx + 1;
    let ghost body = i@.skip(body_start as int);
    proof {
        assert(skip_ws(s1).drop_first() =~= body);
    }
    let mut j: usize = body_start;
    loop
        invariant
            body_start <= j <= n,
            n == i@.len(),
            forall|m: int| body_start <= m < j ==> (#[trigger] i@[m]) != q,
        ensures
            body_start <= j <= n,
            forall|m: int| body_start <= m < j ==> (#[trigger] i@[m]) != q,
            j == n || i@[j as int] == q,
        decreases n - j,
    {
        if j >= n {
            break;
        }
        let c = i.get_char(j);
        if c == q {
            break;
        }
        j = j + 1;
    }
    if j >= n {
        proof {
            assert(forall|m: int| 0 <= m < body.len() ==> (#[trigger] body[m]) == i@[
                body_start + m
            ] && body[m] != q);
            lemma_strand_body_none(body, q);
        }
        return None;
    }
    proof {
        assert(body[j - body_start] == i@[j as int]);
        assert(forall|m: int| 0 <= m < j - body_start ==> (#[trigger] body[m]) == i@[
            body_start + m
        ] && body[m] != q);
        lemma_strand_body_found(body, q, j - body_start);
        assert(body.take(j - body_start) =~= i@.subrange(body_start as int, j as int));
        assert(body.skip(j - body_start + 1) =~= i@.subrange(j + 1, n as int));
    }
    let msg = i.substring_char(body_start, j).to_owned();
    let rest = i.substring_char(j + 1, n);
    Some((rest, ThrowStatement { error: Strand(msg) }))
}

/// Every statement kind of the query language in scope here, as one closed
/// tagged union exposing the uniform execution contract.
pub enum Statement {
    Throw(ThrowStatement),
}

impl Statement {
    /// Whether this statement requires a write-mode transaction, declared
    /// before execution begins so the caller can open the transaction in
    /// the right mode.
    pub fn writeable(&self) -> (r: bool)
        ensures
            self matches Statement::Throw(_) ==> r == false,
    {
        match self {
            Statement::Throw(t) => t.writeable(),
        }
    }

    /// Execute this statement against the active transaction.
    pub fn compute(
        &self,
        ctx: &Context,
        opt: &Options,
        txn: &Transaction,
        doc: Option<&CursorDoc>,
    ) -> (r: Result<Value, Error>)
        ensures
            self matches Statement::Throw(t) ==> r is Err && (r matches Err(e) ==> e matches
                Error::Thrown(m) && m@ == t.error@),
    {
        match self {
            Statement::Throw(t) => t.compute(ctx, opt, txn, doc),
        }
    }
}

} // verus!
