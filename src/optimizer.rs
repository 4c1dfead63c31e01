use vstd::prelude::*;

verus! {

/// Whether an attribute with this path is kept: documentation and lint
/// attributes are removed.
pub open spec fn attribute_kept(name: Seq<char>) -> bool {
    !(name == "doc"@ || name == "allow"@)
}

/// Whether a macro path names a debug-only assertion.
pub open spec fn debug_assertion(name: Seq<char>) -> bool {
    name == "debug_assert"@ || name == "debug_assert_eq"@
}

/// Whether the attribute whose path is the single identifier `name` is kept.
pub fn retain_attribute(name: &String) -> (r: bool)
    ensures
        r == attribute_kept(name@),
{
    let doc = String::from_str("doc");
    let allow = String::from_str("allow");
    !(*name == doc || *name == allow)
}

/// Whether the macro whose path is the single identifier `name` is a debug-only
/// assertion.
pub fn is_debug_assert(name: &String) -> (r: bool)
    ensures
        r == debug_assertion(name@),
{
    let plain = String::from_str("debug_assert");
    let eq = String::from_str("debug_assert_eq");
    *name == plain || *name == eq
}

/// The shape of a statement, as far as assertion stripping reads it.
#[derive(Debug)]
pub enum StmtShape {
    /// A statement that is exactly one macro invocation whose path is one identifier.
    MacroCall(String),
    /// Any other statement.
    Other,
}

pub open spec fn stmt_kept(s: StmtShape) -> bool {
    match s {
        StmtShape::MacroCall(name) => !debug_assertion(name@),
        StmtShape::Other => true,
    }
}

/// Which statements of a block are kept: all but the debug-only assertions.
pub fn filter_out_stmts(stmts: &Vec<StmtShape>) -> (r: Vec<bool>)
    ensures
        r.len() == stmts.len(),
        forall|i: int| 0 <= i < stmts.len() ==> #[trigger] r[i] == stmt_kept(stmts[i]),
{
    let mut r: Vec<bool> = Vec::new();
    let mut i: usize = 0;
    while i < stmts.len()
        invariant
            i <= stmts.len(),
            r.len() == i,
            forall|j: int| 0 <= j < i ==> #[trigger] r[j] == stmt_kept(stmts[j]),
        decreases stmts.len() - i,
    {
        let keep = match &stmts[i] {
            StmtShape::MacroCall(name) => !is_debug_assert(name),
            StmtShape::Other => true,
        };
        r.push(keep);
        i = i + 1;
    }
    r
}

/// The part of an expression that the indexing rewrite reads.
#[derive(Debug, PartialEq, Eq)]
pub enum Expr {
    /// An expression left as it is, identified by a number.
    Opaque(u64),
    /// `base[index]`.
    Index(Box<Expr>, Box<Expr>),
    /// `base.get_unchecked_mut(index)`.
    Unchecked(Box<Expr>, Box<Expr>),
    /// `*unsafe { inner }`.
    DerefUnsafe(Box<Expr>),
}

/// An indexing chain with each `[i]` turned into an unchecked access.
pub open spec fn unchecked_chain(e: Expr) -> Expr
    decreases e,
{
    match e {
        Expr::Index(base, index) => Expr::Unchecked(Box::new(unchecked_chain(*base)), index),
        _ => e,
    }
}

/// The rewritten left-hand side of an assignment: an indexing chain becomes an
/// unchecked access chain, dereferenced inside an unsafe block; anything else
/// is left alone.
pub open spec fn lvalue_rewrite(e: Expr) -> Expr {
    match e {
        Expr::Index(_, _) => Expr::DerefUnsafe(Box::new(unchecked_chain(e))),
        _ => e,
    }
}

fn unchecked(e: Expr) -> (r: Expr)
    ensures
        r == unchecked_chain(e),
    decreases e,
{
    match e {
        Expr::Index(base, index) => {
            let inner = unchecked(*base);
            Expr::Unchecked(Box::new(inner), index)
        },
        _ => e,
    }
}

/// Rewrites the left-hand side of an assignment or compound assignment.
pub fn optimize_lvalue(e: Expr) -> (r: Expr)
    ensures
        r == lvalue_rewrite(e),
{
    match e {
        Expr::Index(_, _) => Expr::DerefUnsafe(Box::new(unchecked(e))),
        _ => e,
    }
}

/// An assignment target `a[i]` becomes `*unsafe { a.get_unchecked_mut(i) }`,
/// `a[i][j]` becomes `*unsafe { a.get_unchecked_mut(i).get_unchecked_mut(j) }`,
/// the index expressions are kept as they are, and a target that is not an
/// indexing expression is left unchanged.
pub proof fn lemma_indexing_rewrite(a: Expr, i: Expr, j: Expr)
    requires
        !(a is Index),
    ensures
        lvalue_rewrite(Expr::Index(Box::new(a), Box::new(i)))
            == Expr::DerefUnsafe(Box::new(Expr::Unchecked(Box::new(a), Box::new(i)))),
        lvalue_rewrite(Expr::Index(Box::new(Expr::Index(Box::new(a), Box::new(i))), Box::new(j)))
            == Expr::DerefUnsafe(
            Box::new(Expr::Unchecked(Box::new(Expr::Unchecked(Box::new(a), Box::new(i))), Box::new(j))),
        ),
        lvalue_rewrite(a) == a,
{
    assert(unchecked_chain(Expr::Index(Box::new(a), Box::new(i)))
        == Expr::Unchecked(Box::new(a), Box::new(i)));
}

/// A debug-only assertion statement is never kept, and every other statement is.
pub proof fn lemma_assertions_excluded(s: StmtShape)
    ensures
        stmt_kept(s) <==> !(s is MacroCall && debug_assertion(s->MacroCall_0@)),
{
}

} // verus!
