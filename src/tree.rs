//! Handles for types, scope entries and candidate expressions, and
//! duplicate removal over sequences of candidates.

use itertools::Itertools;
use vstd::prelude::*;

verus! {

/// A type of the analysed program, identified by its interned handle:
/// two handles are equal exactly when they denote the same type.
#[derive(Clone, Copy, Debug, PartialEq, Eq, Hash, Structural)]
pub struct Ty(pub u64);

/// A lexically visible name (local, constant, function, module, ...)
/// identified by its interned handle.
#[derive(Clone, Copy, Debug, PartialEq, Eq, Hash, Structural)]
pub struct ScopeDef(pub u64);

/// A synthesised expression of a known type.
///
/// `Expr` refers to an expression built by a producer, by its interned
/// handle; `Reference` takes a shared reference to the inner expression.
#[derive(Debug, PartialEq, Eq, Hash)]
pub enum TypeTree {
    Expr(u64),
    Reference(Box<TypeTree>),
}

impl TypeTree {
    /// An equal copy of this tree.
    pub fn duplicate(&self) -> (r: TypeTree)
        ensures
            r == *self,
        decreases self,
    {
        match self {
            TypeTree::Expr(h) => TypeTree::Expr(*h),
            TypeTree::Reference(inner) => TypeTree::Reference(Box::new(inner.duplicate())),
        }
    }
}

impl Clone for TypeTree {
    fn clone(&self) -> (r: TypeTree)
        ensures
            r == *self,
    {
        self.duplicate()
    }
}

/// `s` with every element that already occurred earlier removed; the first
/// occurrences keep their order.
pub open spec fn dedup<A>(s: Seq<A>) -> Seq<A>
    decreases s.len(),
{
    if s.len() == 0 {
        s
    } else if s.drop_last().contains(s.last()) {
        dedup(s.drop_last())
    } else {
        dedup(s.drop_last()).push(s.last())
    }
}

/// Removing duplicates keeps exactly the elements that were there.
pub proof fn lemma_dedup_contains<A>(s: Seq<A>, x: A)
    ensures
        dedup(s).contains(x) <==> s.contains(x),
    decreases s.len(),
{
    if s.len() > 0 {
        lemma_dedup_contains(s.drop_last(), x);
        assert(s =~= s.drop_last().push(s.last()));
        if dedup(s.drop_last()).contains(x) {
            let i = choose|i: int| 0 <= i < dedup(s.drop_last()).len() && dedup(s.drop_last())[i] == x;
            if !s.drop_last().contains(s.last()) {
                assert(dedup(s)[i] == x);
            }
        }
        if s.contains(x) && x != s.last() {
            let i = choose|i: int| 0 <= i < s.len() && s[i] == x;
            assert(s.drop_last()[i] == x);
        }
        if x == s.last() && !s.drop_last().contains(s.last()) {
            assert(dedup(s)[dedup(s).len() - 1] == x);
        }
        if x == s.last() {
            assert(s[s.len() - 1] == x);
        }
    }
}

/// The result of removing duplicates holds each element once.
pub proof fn lemma_dedup_distinct<A>(s: Seq<A>)
    ensures
        dedup(s).no_duplicates(),
    decreases s.len(),
{
    if s.len() > 0 {
        lemma_dedup_distinct(s.drop_last());
        lemma_dedup_contains(s.drop_last(), s.last());
    }
}

/// A sequence without duplicates is left as it is.
pub proof fn lemma_dedup_distinct_id<A>(s: Seq<A>)
    requires
        s.no_duplicates(),
    ensures
        dedup(s) == s,
    decreases s.len(),
{
    if s.len() > 0 {
        assert(s.drop_last().no_duplicates());
        lemma_dedup_distinct_id(s.drop_last());
        if s.drop_last().contains(s.last()) {
            let i = choose|i: int| 0 <= i < s.len() - 1 && s.drop_last()[i] == s.last();
            assert(s[i] == s[s.len() - 1]);
        }
        assert(s.drop_last().push(s.last()) =~= s);
    }
}

/// Relies on itertools::Itertools::unique, which yields each element the
/// first time it is seen (by `Eq` and `Hash`) and skips later repeats.
#[verifier::external_body]
pub(crate) fn unique_trees(v: Vec<TypeTree>) -> (r: Vec<TypeTree>)
    ensures
        r@ == dedup(v@),
{
    v.into_iter().unique().collect()
}

} // verus!
