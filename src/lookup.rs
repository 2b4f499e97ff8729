//! The lookup table that keeps all state of one search: which candidates
//! are known for which type, which types each consumer has not seen yet,
//! and which scope entries have stopped being worth searching from.

use std::collections::HashMap;
use vstd::prelude::*;

use crate::tree::{dedup, lemma_dedup_distinct, unique_trees, ScopeDef, Ty, TypeTree};

verus! {

broadcast use vstd::std_specs::hash::group_hash_axioms;

/// How many candidates one insertion call takes from its input.
pub const MAX_VARIATIONS: usize = 10;

/// A scope entry whose hit counter exceeds this is retired.
pub const MAX_ROUNDS_AFTER_HIT: u32 = 2;

/// Independent consumers of "types reached since I last asked".
#[derive(Clone, Copy, Debug, PartialEq, Eq, Hash, Structural)]
pub enum NewTypesKey {
    ImplMethod,
    StructProjection,
}

/// The first `MAX_VARIATIONS` elements of `s` (all of them if fewer).
pub open spec fn capped<A>(s: Seq<A>) -> Seq<A> {
    if s.len() <= MAX_VARIATIONS {
        s
    } else {
        s.take(MAX_VARIATIONS as int)
    }
}

/// The hit counter of `d` after one more round in which it was fulfilled:
/// zero the first time, then one more (saturating).
pub open spec fn bumped(counts: Map<ScopeDef, u32>, d: ScopeDef) -> u32 {
    if !counts.contains_key(d) {
        0
    } else if counts[d] == u32::MAX {
        u32::MAX
    } else {
        (counts[d] + 1) as u32
    }
}

/// `unify` may answer `r` when asked whether `a` could unify with `b`.
pub open spec fn unify_says<F: Fn(Ty, Ty) -> bool>(unify: &F, a: Ty, b: Ty, r: bool) -> bool {
    unify.ensures((a, b), r)
}

/// For some shared reference to `a` that `reference` may build, `unify` may
/// answer `r` when asked whether it could unify with `b`.
pub open spec fn ref_unify_says<F: Fn(Ty, Ty) -> bool, G: Fn(Ty) -> Ty>(
    unify: &F,
    reference: &G,
    a: Ty,
    b: Ty,
    r: bool,
) -> bool {
    exists|rt: Ty| reference.ensures((a,), rt) && unify.ensures((rt, b), r)
}

/// `i` is a position of `s` whose element is accepted, and every element
/// before it is turned down.
pub open spec fn first_where(
    s: Seq<Ty>,
    accepted: spec_fn(Ty) -> bool,
    refused: spec_fn(Ty) -> bool,
    i: int,
) -> bool {
    &&& 0 <= i < s.len()
    &&& accepted(s[i])
    &&& forall|j: int| 0 <= j < i ==> refused(s[j])
}

/// The candidate `t` behind a shared reference.
pub open spec fn referenced(t: TypeTree) -> TypeTree {
    TypeTree::Reference(Box::new(t))
}

/// The abstract state of a lookup table.
pub struct TableModel {
    /// Known types in order of first insertion, each with its candidates.
    pub entries: Seq<(Ty, Seq<TypeTree>)>,
    /// Types not yet handed to the `ImplMethod` consumer.
    pub impl_method_types: Seq<Ty>,
    /// Types not yet handed to the `StructProjection` consumer.
    pub struct_projection_types: Seq<Ty>,
    /// Scope entries that are no longer searched from.
    pub exhausted: Set<ScopeDef>,
    /// Scope entries fulfilled in the current round.
    pub hits: Set<ScopeDef>,
    /// Per scope entry: rounds in which it was fulfilled, less one.
    pub counts: Map<ScopeDef, u32>,
}

impl TableModel {
    pub open spec fn empty() -> TableModel {
        TableModel {
            entries: Seq::empty(),
            impl_method_types: Seq::empty(),
            struct_projection_types: Seq::empty(),
            exhausted: Set::empty(),
            hits: Set::empty(),
            counts: Map::empty(),
        }
    }

    pub open spec fn keys(self) -> Seq<Ty> {
        self.entries.map_values(|e: (Ty, Seq<TypeTree>)| e.0)
    }

    pub open spec fn has_type(self, ty: Ty) -> bool {
        exists|i: int| 0 <= i < self.entries.len() && self.entries[i].0 == ty
    }

    /// The position of `ty` among the entries (meaningful when present).
    pub open spec fn index_of(self, ty: Ty) -> int {
        choose|i: int| 0 <= i < self.entries.len() && self.entries[i].0 == ty
    }

    /// The candidates known for exactly the type `ty`.
    pub open spec fn trees_of(self, ty: Ty) -> Seq<TypeTree> {
        if self.has_type(ty) {
            self.entries[self.index_of(ty)].1
        } else {
            Seq::empty()
        }
    }

    /// The pending types of one consumer.
    pub open spec fn queue(self, key: NewTypesKey) -> Seq<Ty> {
        match key {
            NewTypesKey::ImplMethod => self.impl_method_types,
            NewTypesKey::StructProjection => self.struct_projection_types,
        }
    }

    /// In how many rounds `d` was fulfilled, as its counter records it
    /// (the counter saturates at `u32::MAX`).
    pub open spec fn rounds_fulfilled(self, d: ScopeDef) -> nat {
        if self.counts.contains_key(d) {
            self.counts[d] as nat + 1
        } else {
            0
        }
    }

    /// Each type has one entry, each entry's candidates are distinct, and
    /// each queue holds known types, each at most once.
    pub open spec fn wf(self) -> bool {
        &&& forall|i: int, j: int|
            0 <= i < self.entries.len() && 0 <= j < self.entries.len() && i != j
                ==> self.entries[i].0 != self.entries[j].0
        &&& forall|i: int| 0 <= i < self.entries.len() ==> (#[trigger] self.entries[i]).1.no_duplicates()
        &&& forall|k: NewTypesKey| (#[trigger] self.queue(k)).no_duplicates()
        &&& forall|k: NewTypesKey, i: int|
            0 <= i < self.queue(k).len() ==> self.has_type(#[trigger] self.queue(k)[i])
    }

    /// The state after inserting `trees` as candidates of `ty`.
    pub open spec fn inserted(self, ty: Ty, trees: Seq<TypeTree>) -> TableModel {
        if self.has_type(ty) {
            let i = self.index_of(ty);
            TableModel {
                entries: self.entries.update(i, (ty, dedup(self.entries[i].1 + capped(trees)))),
                ..self
            }
        } else {
            TableModel {
                entries: self.entries.push((ty, dedup(capped(trees)))),
                impl_method_types: self.impl_method_types.push(ty),
                struct_projection_types: self.struct_projection_types.push(ty),
                ..self
            }
        }
    }

    /// The state after the consumer `key` took its pending types.
    pub open spec fn drained(self, key: NewTypesKey) -> TableModel {
        match key {
            NewTypesKey::ImplMethod => TableModel { impl_method_types: Seq::empty(), ..self },
            NewTypesKey::StructProjection => TableModel {
                struct_projection_types: Seq::empty(),
                ..self
            },
        }
    }

    pub open spec fn with_exhausted(self, d: ScopeDef) -> TableModel {
        TableModel { exhausted: self.exhausted.insert(d), ..self }
    }

    pub open spec fn with_fulfilled(self, d: ScopeDef) -> TableModel {
        TableModel { hits: self.hits.insert(d), ..self }
    }

    /// The state at the start of a new round: every entry fulfilled in the
    /// round that ends has its counter bumped and is retired once the
    /// counter exceeds `MAX_ROUNDS_AFTER_HIT`; the round's hits are cleared.
    pub open spec fn next_round(self) -> TableModel {
        TableModel {
            counts: Map::new(
                |d: ScopeDef| self.counts.contains_key(d) || self.hits.contains(d),
                |d: ScopeDef|
                    if self.hits.contains(d) {
                        bumped(self.counts, d)
                    } else {
                        self.counts[d]
                    },
            ),
            exhausted: self.exhausted.union(
                self.hits.filter(|d: ScopeDef| bumped(self.counts, d) > MAX_ROUNDS_AFTER_HIT),
            ),
            hits: Set::empty(),
            ..self
        }
    }
}

/// Bookkeeping of one term search.
pub struct LookupTable {
    data: Vec<(Ty, Vec<TypeTree>)>,
    impl_method_types: Vec<Ty>,
    struct_projection_types: Vec<Ty>,
    exhausted: Vec<ScopeDef>,
    round_hits: Vec<ScopeDef>,
    rounds_since_hit: HashMap<u64, u32>,
}

impl View for LookupTable {
    type V = TableModel;

    closed spec fn view(&self) -> TableModel {
        TableModel {
            entries: entries_of(self.data@),
            impl_method_types: self.impl_method_types@,
            struct_projection_types: self.struct_projection_types@,
            exhausted: self.exhausted@.to_set(),
            hits: self.round_hits@.to_set(),
            counts: Map::new(
                |d: ScopeDef| self.rounds_since_hit@.contains_key(d.0),
                |d: ScopeDef| self.rounds_since_hit@[d.0],
            ),
        }
    }
}

/// An equal copy of `v`.
fn copy_trees(v: &Vec<TypeTree>) -> (r: Vec<TypeTree>)
    ensures
        r@ == v@,
{
    let mut r: Vec<TypeTree> = Vec::new();
    let mut k: usize = 0;
    while k < v.len()
        invariant
            k <= v@.len(),
            r@ == v@.take(k as int),
        decreases v@.len() - k,
    {
        r.push(v[k].duplicate());
        k = k + 1;
    }
    assert(r@ =~= v@);
    r
}

/// Each candidate of `v` behind a shared reference.
fn wrap_trees(v: &Vec<TypeTree>) -> (r: Vec<TypeTree>)
    ensures
        r@ == v@.map_values(|t: TypeTree| referenced(t)),
{
    let mut r: Vec<TypeTree> = Vec::new();
    let mut k: usize = 0;
    while k < v.len()
        invariant
            k <= v@.len(),
            r@ == v@.take(k as int).map_values(|t: TypeTree| referenced(t)),
        decreases v@.len() - k,
    {
        r.push(TypeTree::Reference(Box::new(v[k].duplicate())));
        proof {
            assert(v@.take(k + 1) =~= v@.take(k as int).push(v@[k as int]));
        }
        k = k + 1;
        assert(r@ =~= v@.take(k as int).map_values(|t: TypeTree| referenced(t)));
    }
    assert(v@.take(k as int) =~= v@);
    r
}

proof fn lemma_push_contains<A>(s: Seq<A>, d: A)
    ensures
        forall|x: A| #[trigger] s.push(d).contains(x) == (s.contains(x) || x == d),
        s.no_duplicates() && !s.contains(d) ==> s.push(d).no_duplicates(),
        s.push(d).to_set() == s.to_set().insert(d),
{
    assert forall|x: A| #[trigger] s.push(d).contains(x) == (s.contains(x) || x == d) by {
        if s.contains(x) {
            let j = choose|j: int| 0 <= j < s.len() && s[j] == x;
            assert(s.push(d)[j] == x);
        }
        if x == d {
            assert(s.push(d)[s.len() as int] == x);
        }
        if s.push(d).contains(x) && x != d {
            let j = choose|j: int| 0 <= j < s.len() + 1 && s.push(d)[j] == x;
            assert(s[j] == x);
        }
    }
    if s.no_duplicates() && !s.contains(d) {
        assert forall|i: int, j: int| 0 <= i < s.len() + 1 && 0 <= j < s.len() + 1 && i != j implies s.push(d)[i] != s.push(d)[j] by {
            if i < s.len() && j == s.len() {
                assert(s.contains(s[i]));
            }
            if j < s.len() && i == s.len() {
                assert(s.contains(s[j]));
            }
        }
    }
    assert(s.push(d).to_set() =~= s.to_set().insert(d));
}

/// Whether `d` is in `v`.
pub(crate) fn contains_def(v: &Vec<ScopeDef>, d: ScopeDef) -> (r: bool)
    ensures
        r == v@.contains(d),
{
    let mut k: usize = 0;
    while k < v.len()
        invariant
            k <= v@.len(),
            forall|j: int| 0 <= j < k ==> v@[j] != d,
        decreases v@.len() - k,
    {
        if v[k] == d {
            return true;
        }
        k = k + 1;
    }
    false
}

/// The abstract entries of a table's stored entries.
pub closed spec fn entries_of(data: Seq<(Ty, Vec<TypeTree>)>) -> Seq<(Ty, Seq<TypeTree>)> {
    data.map_values(|e: (Ty, Vec<TypeTree>)| (e.0, e.1@))
}

/// Well-formedness does not depend on the scope-entry bookkeeping, and
/// emptying a queue keeps it.
proof fn lemma_wf_frame(m: TableModel, x: TableModel)
    requires
        m.wf(),
        x.entries == m.entries,
        x.impl_method_types == m.impl_method_types || x.impl_method_types.len() == 0,
        x.struct_projection_types == m.struct_projection_types || x.struct_projection_types.len() == 0,
    ensures
        x.wf(),
{
    assert forall|k: NewTypesKey| (#[trigger] x.queue(k)).no_duplicates() by {
        assert(m.queue(k).no_duplicates());
    }
    assert forall|k: NewTypesKey, i: int|
        0 <= i < x.queue(k).len() implies x.has_type(#[trigger] x.queue(k)[i]) by {
        assert(m.has_type(m.queue(k)[i]));
    }
}

/// Inserting distinct candidates for a type not seen before keeps exactly
/// the first `MAX_VARIATIONS` of them.
pub proof fn lemma_insert_new_type_cap(m: TableModel, ty: Ty, trees: Seq<TypeTree>)
    requires
        m.wf(),
        !m.has_type(ty),
        trees.no_duplicates(),
    ensures
        m.inserted(ty, trees).has_type(ty),
        m.inserted(ty, trees).trees_of(ty) == capped(trees),
        m.inserted(ty, trees).trees_of(ty).len() == if trees.len() <= MAX_VARIATIONS {
            trees.len()
        } else {
            MAX_VARIATIONS as nat
        },
{
    let x = m.inserted(ty, trees);
    let n = m.entries.len() as int;
    assert(x.entries[n].0 == ty);
    assert forall|i: int| 0 <= i < x.entries.len() && i != n implies x.entries[i].0 != ty by {
        assert(x.entries[i] == m.entries[i]);
    }
    assert(x.index_of(ty) == n);
    crate::tree::lemma_dedup_distinct_id(capped(trees));
}

/// The cap holds per insertion call, not per type: a second call for the
/// same type adds new distinct candidates on top of the first call's.
pub proof fn lemma_insert_cap_per_call(
    m: TableModel,
    ty: Ty,
    first: Seq<TypeTree>,
    second: Seq<TypeTree>,
)
    requires
        m.wf(),
        !m.has_type(ty),
        (first + second).no_duplicates(),
    ensures
        m.inserted(ty, first).inserted(ty, second).trees_of(ty) == capped(first) + capped(second),
        first.len() >= MAX_VARIATIONS && second.len() > 0 ==> m.inserted(ty, first).inserted(
            ty,
            second,
        ).trees_of(ty).len() > MAX_VARIATIONS,
{
    let both = first + second;
    assert(first.no_duplicates()) by {
        assert forall|i: int, j: int| 0 <= i < first.len() && 0 <= j < first.len() && i != j implies first[i] != first[j] by {
            assert(both[i] == first[i] && both[j] == first[j]);
        }
    }
    lemma_insert_new_type_cap(m, ty, first);
    let x = m.inserted(ty, first);
    let i = x.index_of(ty);
    let y = x.inserted(ty, second);
    let c = capped(first) + capped(second);
    let a = capped(first).len() as int;
    assert(c.no_duplicates()) by {
        assert forall|p: int, q: int| 0 <= p < c.len() && 0 <= q < c.len() && p != q implies c[p] != c[q] by {
            let pp = if p < a { p } else { first.len() + (p - a) };
            let qq = if q < a { q } else { first.len() + (q - a) };
            assert(c[p] == both[pp]);
            assert(c[q] == both[qq]);
        }
    }
    crate::tree::lemma_dedup_distinct_id(c);
    assert(y.entries[i] == (ty, c));
    assert forall|j: int| 0 <= j < y.entries.len() && j != i implies y.entries[j].0 != ty by {
        assert(y.entries[j] == x.entries[j]);
    }
    assert(y.has_type(ty));
    assert(y.index_of(ty) == i);
}

/// Inserting candidates for a known type appends the first
/// `MAX_VARIATIONS` of them when they are distinct and new to it, whatever
/// it held before, and leaves every other type's candidates alone.
pub proof fn lemma_insert_known_type(m: TableModel, ty: Ty, trees: Seq<TypeTree>, other: Ty)
    requires
        m.wf(),
        m.has_type(ty),
        (m.trees_of(ty) + trees).no_duplicates(),
        other != ty,
    ensures
        m.inserted(ty, trees).trees_of(ty) == m.trees_of(ty) + capped(trees),
        m.inserted(ty, trees).trees_of(ty).len() == m.trees_of(ty).len() + capped(trees).len(),
        m.inserted(ty, trees).trees_of(other) == m.trees_of(other),
{
    let i = m.index_of(ty);
    let old_trees = m.trees_of(ty);
    let both = old_trees + trees;
    let c = old_trees + capped(trees);
    let a = old_trees.len() as int;
    assert(c.no_duplicates()) by {
        assert forall|p: int, q: int| 0 <= p < c.len() && 0 <= q < c.len() && p != q implies c[p] != c[q] by {
            assert(c[p] == both[p]);
            assert(c[q] == both[q]);
        }
    }
    crate::tree::lemma_dedup_distinct_id(c);
    let y = m.inserted(ty, trees);
    assert(y.entries[i] == (ty, c));
    assert forall|j: int| 0 <= j < y.entries.len() && j != i implies y.entries[j] == m.entries[j] by {}
    assert(y.has_type(ty));
    assert(y.index_of(ty) == i);
    if m.has_type(other) {
        let k = m.index_of(other);
        assert(k != i);
        assert(y.entries[k] == m.entries[k]);
        assert(y.has_type(other));
        assert(y.index_of(other) == k);
    } else {
        assert forall|j: int| 0 <= j < y.entries.len() implies y.entries[j].0 != other by {
            if j != i {
                assert(y.entries[j] == m.entries[j]);
            }
        }
    }
}

/// A type seen for the first time is queued once for every consumer, and
/// a consumer that takes its queue twice in a row gets nothing the second
/// time.
pub proof fn lemma_new_type_broadcast(m: TableModel, ty: Ty, trees: Seq<TypeTree>, key: NewTypesKey)
    requires
        m.wf(),
        !m.has_type(ty),
    ensures
        m.inserted(ty, trees).queue(key) == m.queue(key).push(ty),
        !m.queue(key).contains(ty),
        m.inserted(ty, trees).drained(key).queue(key).len() == 0,
        m.inserted(ty, trees).drained(key).drained(key) == m.inserted(ty, trees).drained(key),
{
    if m.queue(key).contains(ty) {
        let j = choose|j: int| 0 <= j < m.queue(key).len() && m.queue(key)[j] == ty;
        assert(m.has_type(m.queue(key)[j]));
    }
}

/// No operation on the table brings a retired scope entry back.
pub proof fn lemma_exhaustion_monotonic(
    m: TableModel,
    ty: Ty,
    trees: Seq<TypeTree>,
    key: NewTypesKey,
    d: ScopeDef,
)
    ensures
        m.exhausted.subset_of(m.inserted(ty, trees).exhausted),
        m.exhausted.subset_of(m.drained(key).exhausted),
        m.exhausted.subset_of(m.with_exhausted(d).exhausted),
        m.exhausted.subset_of(m.with_fulfilled(d).exhausted),
        m.exhausted.subset_of(m.next_round().exhausted),
{
}

/// A scope entry is fulfilled in one more round exactly when it was marked
/// in the round that ends, and a new round retires it exactly when that
/// makes four or more such rounds.
pub proof fn lemma_retired_after_fourth_round(m: TableModel, d: ScopeDef)
    requires
        !m.exhausted.contains(d),
        !m.counts.contains_key(d) || m.counts[d] < u32::MAX,
    ensures
        m.next_round().rounds_fulfilled(d) == m.rounds_fulfilled(d) + if m.hits.contains(d) {
            1nat
        } else {
            0nat
        },
        m.next_round().exhausted.contains(d) <==> (m.hits.contains(d)
            && m.next_round().rounds_fulfilled(d) >= 4),
{
}

/// With distinct keys, the entry found at `i` is the one `index_of` names.
proof fn lemma_index_of(m: TableModel, i: int)
    requires
        m.wf(),
        0 <= i < m.entries.len(),
    ensures
        m.has_type(m.entries[i].0),
        m.index_of(m.entries[i].0) == i,
{
}

impl LookupTable {
    #[verifier::type_invariant]
    spec fn inv(&self) -> bool {
        &&& self@.wf()
        &&& self.exhausted@.no_duplicates()
        &&& self.round_hits@.no_duplicates()
    }

    /// Every table is well formed: one entry per type, distinct candidates
    /// in each entry, and each pending type known and queued once.
    ///
    /// Verified callers call this to learn it; it does nothing at run time.
    pub fn well_formed(&self)
        ensures
            self@.wf(),
    {
        proof {
            use_type_invariant(self);
        }
    }

    /// A table that knows nothing yet.
    pub fn new() -> (r: LookupTable)
        ensures
            r@ == TableModel::empty(),
    {
        let r = LookupTable {
            data: Vec::new(),
            impl_method_types: Vec::new(),
            struct_projection_types: Vec::new(),
            exhausted: Vec::new(),
            round_hits: Vec::new(),
            rounds_since_hit: HashMap::new(),
        };
        assert(r@.entries =~= Seq::empty());
        assert(r@.exhausted =~= Set::empty());
        assert(r@.hits =~= Set::empty());
        assert(r@.counts =~= Map::empty());
        r
    }

    /// Where `ty` has its entry, if anywhere.
    fn position(&self, ty: Ty) -> (r: Option<usize>)
        ensures
            match r {
                Some(i) => i < self.data@.len() && self.data@[i as int].0 == ty,
                None => !self@.has_type(ty),
            },
    {
        let mut i: usize = 0;
        while i < self.data.len()
            invariant
                i <= self.data@.len(),
                forall|j: int| 0 <= j < i ==> self.data@[j].0 != ty,
            decreases self.data@.len() - i,
        {
            if self.data[i].0 == ty {
                return Some(i);
            }
            i = i + 1;
        }
        assert(!self@.has_type(ty)) by {
            if self@.has_type(ty) {
                let j = choose|j: int| 0 <= j < self@.entries.len() && self@.entries[j].0 == ty;
                assert(self.data@[j].0 == ty);
            }
        }
        None
    }

    /// The candidates of the first known type, in order of insertion, that
    /// `unify` says could unify with `ty`; `None` when it says so of none.
    pub fn find<F: Fn(Ty, Ty) -> bool>(&self, unify: &F, ty: Ty) -> (r: Option<Vec<TypeTree>>)
        requires
            forall|a: Ty, b: Ty| unify.requires((a, b)),
        ensures
            match r {
                Some(v) => exists|i: int|
                    first_where(
                        self@.keys(),
                        |t: Ty| unify_says(unify, t, ty, true),
                        |t: Ty| unify_says(unify, t, ty, false),
                        i,
                    ) && v@ == self@.entries[i].1 && v@.no_duplicates(),
                None => forall|i: int|
                    0 <= i < self@.entries.len() ==> unify_says(unify, self@.entries[i].0, ty, false),
            },
    {
        proof {
            use_type_invariant(self);
        }
        let mut i: usize = 0;
        while i < self.data.len()
            invariant
                i <= self.data@.len(),
                forall|a: Ty, b: Ty| unify.requires((a, b)),
                forall|j: int| 0 <= j < i ==> unify_says(unify, #[trigger] self.data@[j].0, ty, false),
                self@.wf(),
            decreases self.data@.len() - i,
        {
            if unify(self.data[i].0, ty) {
                let v = copy_trees(&self.data[i].1);
                assert(self@.entries[i as int].1 == v@);
                assert(first_where(
                    self@.keys(),
                    |t: Ty| unify_says(unify, t, ty, true),
                    |t: Ty| unify_says(unify, t, ty, false),
                    i as int,
                ));
                return Some(v);
            }
            i = i + 1;
        }
        None
    }

    /// Like `find`; when `unify` says of no known type that it could unify
    /// with `ty`, the candidates of the first known type `T` such that a
    /// shared reference to `T` could, each behind a shared reference.
    pub fn find_autoref<F: Fn(Ty, Ty) -> bool, G: Fn(Ty) -> Ty>(
        &self,
        unify: &F,
        reference: &G,
        ty: Ty,
    ) -> (r: Option<Vec<TypeTree>>)
        requires
            forall|a: Ty, b: Ty| unify.requires((a, b)),
            forall|a: Ty| reference.requires((a,)),
        ensures
            match r {
                Some(v) => (exists|i: int|
                    first_where(
                        self@.keys(),
                        |t: Ty| unify_says(unify, t, ty, true),
                        |t: Ty| unify_says(unify, t, ty, false),
                        i,
                    ) && v@ == self@.entries[i].1) || ((forall|i: int|
                    0 <= i < self@.entries.len() ==> unify_says(unify, self@.entries[i].0, ty, false))
                    && exists|i: int|
                    first_where(
                        self@.keys(),
                        |t: Ty| ref_unify_says(unify, reference, t, ty, true),
                        |t: Ty| ref_unify_says(unify, reference, t, ty, false),
                        i,
                    ) && v@ == self@.entries[i].1.map_values(|t: TypeTree| referenced(t))),
                None => forall|i: int|
                    0 <= i < self@.entries.len() ==> unify_says(unify, self@.entries[i].0, ty, false)
                        && ref_unify_says(unify, reference, self@.entries[i].0, ty, false),
            },
    {
        match self.find(unify, ty) {
            Some(v) => {
                return Some(v);
            },
            None => {},
        }
        let ghost none_unify = forall|j: int|
            0 <= j < self@.entries.len() ==> unify_says(unify, self@.entries[j].0, ty, false);
        assert(none_unify);
        let mut i: usize = 0;
        while i < self.data.len()
            invariant
                i <= self.data@.len(),
                forall|a: Ty, b: Ty| unify.requires((a, b)),
                forall|a: Ty| reference.requires((a,)),
                none_unify == forall|j: int|
                    0 <= j < self@.entries.len() ==> unify_says(unify, self@.entries[j].0, ty, false),
                none_unify,
                forall|j: int|
                    0 <= j < i ==> ref_unify_says(unify, reference, #[trigger] self.data@[j].0, ty, false),
            decreases self.data@.len() - i,
        {
            let rt = reference(self.data[i].0);
            if unify(rt, ty) {
                let v = wrap_trees(&self.data[i].1);
                assert(ref_unify_says(unify, reference, self.data@[i as int].0, ty, true));
                assert(self@.entries[i as int].1 == self.data@[i as int].1@);
                assert(first_where(
                    self@.keys(),
                    |t: Ty| ref_unify_says(unify, reference, t, ty, true),
                    |t: Ty| ref_unify_says(unify, reference, t, ty, false),
                    i as int,
                ));
                return Some(v);
            }
            assert(ref_unify_says(unify, reference, self.data@[i as int].0, ty, false));
            i = i + 1;
        }
        None
    }

    /// Records `trees` as candidates of exactly the type `ty`.
    ///
    /// Only the first `MAX_VARIATIONS` of `trees` are taken; candidates
    /// already known for `ty` collapse with equal new ones. A type seen for
    /// the first time is queued for every consumer of new types.
    pub fn insert(&mut self, ty: Ty, trees: Vec<TypeTree>)
        ensures
            final(self)@ == old(self)@.inserted(ty, trees@),
    {
        proof {
            use_type_invariant(&*self);
        }
        let ghost m = self@;
        let ghost given = trees@;
        let pos = self.position(ty);
        let mut trees = trees;
        trees.truncate(MAX_VARIATIONS);
        assert(trees@ == capped(given));
        let mut t = LookupTable::new();
        std::mem::swap(self, &mut t);
        proof {
            use_type_invariant(&t);
        }
        let LookupTable {
            mut data,
            mut impl_method_types,
            mut struct_projection_types,
            exhausted,
            round_hits,
            rounds_since_hit,
        } = t;
        match pos {
            Some(i) => {
                proof {
                    lemma_index_of(m, i as int);
                }
                let mut all: Vec<TypeTree> = Vec::new();
                let mut k: usize = 0;
                while k < data[i].1.len()
                    invariant
                        i < data@.len(),
                        k <= data@[i as int].1@.len(),
                        all@ == data@[i as int].1@.take(k as int),
                    decreases data@[i as int].1@.len() - k,
                {
                    all.push(data[i].1[k].duplicate());
                    k = k + 1;
                }
                assert(all@ == m.entries[i as int].1);
                all.append(&mut trees);
                let ghost all_v = all@;
                let merged = unique_trees(all);
                proof {
                    lemma_dedup_distinct(all_v);
                }
                data[i] = (ty, merged);
                proof {
                    assert(entries_of(data@) =~= m.entries.update(
                        i as int,
                        (ty, dedup(m.entries[i as int].1 + capped(given))),
                    ));
                    let e = entries_of(data@);
                    let x = m.inserted(ty, given);
                    assert(m.has_type(ty));
                    assert(x.impl_method_types == m.impl_method_types);
                    assert(x.struct_projection_types == m.struct_projection_types);
                    assert forall|key: NewTypesKey| #[trigger] x.queue(key) == m.queue(key) by {}
                    assert forall|a: int, b: int|
                        0 <= a < e.len() && 0 <= b < e.len() && a != b implies e[a].0 != e[b].0 by {
                        assert(m.entries[a].0 == e[a].0 && m.entries[b].0 == e[b].0);
                    }
                    assert forall|a: int| 0 <= a < e.len() implies (#[trigger] e[a]).1.no_duplicates() by {
                        if a != i {
                            assert(e[a] == m.entries[a]);
                        }
                    }
                    assert forall|key: NewTypesKey, a: int|
                        0 <= a < m.queue(key).len() implies exists|b: int|
                        0 <= b < e.len() && e[b].0 == #[trigger] m.queue(key)[a] by {
                        let b = choose|b: int| 0 <= b < m.entries.len() && m.entries[b].0 == m.queue(key)[a];
                        assert(e[b].0 == m.entries[b].0);
                    }
                }
            },
            None => {
                let fresh = unique_trees(trees);
                data.push((ty, fresh));
                impl_method_types.push(ty);
                struct_projection_types.push(ty);
                proof {
                    assert(entries_of(data@) =~= m.entries.push((ty, dedup(capped(given)))));
                    let e = entries_of(data@);
                    let n = m.entries.len() as int;
                    assert forall|a: int, b: int|
                        0 <= a < e.len() && 0 <= b < e.len() && a != b implies e[a].0 != e[b].0 by {
                        if a < n && b < n {
                            assert(m.entries[a].0 == e[a].0 && m.entries[b].0 == e[b].0);
                        } else if a < n {
                            assert(m.entries[a].0 == e[a].0);
                        } else {
                            assert(m.entries[b].0 == e[b].0);
                        }
                    }
                    assert forall|a: int| 0 <= a < e.len() implies (#[trigger] e[a]).1.no_duplicates() by {
                        if a < n {
                            assert(e[a] == m.entries[a]);
                        } else {
                            lemma_dedup_distinct(capped(given));
                        }
                    }
                    assert forall|key: NewTypesKey, a: int|
                        0 <= a < m.inserted(ty, given).queue(key).len() implies exists|b: int|
                        0 <= b < e.len() && e[b].0 == #[trigger] m.inserted(ty, given).queue(key)[a] by {
                        let q = m.inserted(ty, given).queue(key);
                        if a < m.queue(key).len() {
                            assert(q[a] == m.queue(key)[a]);
                            let b = choose|b: int| 0 <= b < m.entries.len() && m.entries[b].0 == m.queue(key)[a];
                            assert(e[b].0 == m.entries[b].0);
                        } else {
                            assert(e[n].0 == ty);
                        }
                    }
                    assert forall|key: NewTypesKey| (#[trigger] m.inserted(ty, given).queue(key)).no_duplicates() by {
                        let q = m.queue(key);
                        assert forall|a: int| 0 <= a < q.len() implies q[a] != ty by {
                            assert(m.has_type(q[a]));
                        }
                    }
                }
            },
        }
        proof {
            let x = m.inserted(ty, given);
            assert(entries_of(data@) == x.entries);
            assert(impl_method_types@ == x.queue(NewTypesKey::ImplMethod));
            assert(struct_projection_types@ == x.queue(NewTypesKey::StructProjection));
            assert(x.wf());
        }
        let r = LookupTable {
            data,
            impl_method_types,
            struct_projection_types,
            exhausted,
            round_hits,
            rounds_since_hit,
        };
        assert(r@.counts =~= m.counts);
        assert(r@ == m.inserted(ty, given));
        *self = r;
    }

    /// Every known type, in order of first insertion.
    pub fn iter_types(&self) -> (r: Vec<Ty>)
        ensures
            r@ == self@.keys(),
    {
        let mut r: Vec<Ty> = Vec::new();
        let mut k: usize = 0;
        while k < self.data.len()
            invariant
                k <= self.data@.len(),
                r@ == self@.keys().take(k as int),
            decreases self.data@.len() - k,
        {
            r.push(self.data[k].0);
            proof {
                assert(self@.keys().take(k + 1) =~= self@.keys().take(k as int).push(self@.keys()[k as int]));
            }
            k = k + 1;
        }
        assert(self@.keys().take(k as int) =~= self@.keys());
        r
    }

    /// Hands over the types reached since the consumer `key` last asked,
    /// in the order they were reached, and forgets them for that consumer.
    pub fn new_types(&mut self, key: NewTypesKey) -> (r: Vec<Ty>)
        ensures
            r@ == old(self)@.queue(key),
            final(self)@ == old(self)@.drained(key),
    {
        proof {
            use_type_invariant(&*self);
        }
        let ghost m = self@;
        let mut t = LookupTable::new();
        std::mem::swap(self, &mut t);
        proof {
            use_type_invariant(&t);
        }
        let LookupTable {
            data,
            impl_method_types,
            struct_projection_types,
            exhausted,
            round_hits,
            rounds_since_hit,
        } = t;
        let (r, a, b) = match key {
            NewTypesKey::ImplMethod => (impl_method_types, Vec::new(), struct_projection_types),
            NewTypesKey::StructProjection => (struct_projection_types, impl_method_types, Vec::new()),
        };
        let ghost x = m.drained(key);
        assert(entries_of(data@) == m.entries);
        proof {
            lemma_wf_frame(m, x);
        }
        assert(x.queue(NewTypesKey::ImplMethod) == a@);
        assert(x.queue(NewTypesKey::StructProjection) == b@);
        *self = LookupTable {
            data,
            impl_method_types: a,
            struct_projection_types: b,
            exhausted,
            round_hits,
            rounds_since_hit,
        };
        assert(self@.counts =~= m.counts);
        r
    }

    /// Retires `d`: it is no longer searched from.
    pub fn mark_exhausted(&mut self, d: ScopeDef)
        ensures
            final(self)@ == old(self)@.with_exhausted(d),
    {
        proof {
            use_type_invariant(&*self);
        }
        let ghost m = self@;
        let mut t = LookupTable::new();
        std::mem::swap(self, &mut t);
        proof {
            use_type_invariant(&t);
        }
        let LookupTable {
            data,
            impl_method_types,
            struct_projection_types,
            mut exhausted,
            round_hits,
            rounds_since_hit,
        } = t;
        let ghost e0 = exhausted@;
        proof {
            lemma_push_contains(e0, d);
            assert(entries_of(data@) == m.entries);
            lemma_wf_frame(m, m.with_exhausted(d));
        }
        if !contains_def(&exhausted, d) {
            exhausted.push(d);
        } else {
            assert(e0.to_set() =~= e0.to_set().insert(d));
        }
        *self = LookupTable {
            data,
            impl_method_types,
            struct_projection_types,
            exhausted,
            round_hits,
            rounds_since_hit,
        };
        assert(self@.counts =~= m.counts);
    }

    /// Records that `d` produced something useful in the current round.
    pub fn mark_fulfilled(&mut self, d: ScopeDef)
        ensures
            final(self)@ == old(self)@.with_fulfilled(d),
    {
        proof {
            use_type_invariant(&*self);
        }
        let ghost m = self@;
        let mut t = LookupTable::new();
        std::mem::swap(self, &mut t);
        proof {
            use_type_invariant(&t);
        }
        let LookupTable {
            data,
            impl_method_types,
            struct_projection_types,
            exhausted,
            mut round_hits,
            rounds_since_hit,
        } = t;
        let ghost e0 = round_hits@;
        proof {
            lemma_push_contains(e0, d);
            assert(entries_of(data@) == m.entries);
            lemma_wf_frame(m, m.with_fulfilled(d));
        }
        if !contains_def(&round_hits, d) {
            round_hits.push(d);
        } else {
            assert(e0.to_set() =~= e0.to_set().insert(d));
        }
        *self = LookupTable {
            data,
            impl_method_types,
            struct_projection_types,
            exhausted,
            round_hits,
            rounds_since_hit,
        };
        assert(self@.counts =~= m.counts);
    }

    /// Starts a new round: each scope entry fulfilled in the round that
    /// ends has its counter bumped, and is retired once the counter
    /// exceeds `MAX_ROUNDS_AFTER_HIT`; then the round's marks are cleared.
    pub fn new_round(&mut self)
        ensures
            final(self)@ == old(self)@.next_round(),
    {
        proof {
            use_type_invariant(&*self);
        }
        let ghost m = self@;
        let mut t = LookupTable::new();
        std::mem::swap(self, &mut t);
        proof {
            use_type_invariant(&t);
        }
        let LookupTable {
            data,
            impl_method_types,
            struct_projection_types,
            mut exhausted,
            round_hits,
            mut rounds_since_hit,
        } = t;
        let ghost h0 = rounds_since_hit@;
        let mut i: usize = 0;
        while i < round_hits.len()
            invariant
                i <= round_hits@.len(),
                round_hits@.no_duplicates(),
                exhausted@.no_duplicates(),
                m.hits == round_hits@.to_set(),
                forall|d: ScopeDef| #[trigger] m.counts.contains_key(d) == h0.contains_key(d.0),
                forall|d: ScopeDef| m.counts.contains_key(d) ==> #[trigger] m.counts[d] == h0[d.0],
                forall|k: u64| #[trigger]
                    rounds_since_hit@.contains_key(k) == (h0.contains_key(k)
                        || round_hits@.take(i as int).contains(ScopeDef(k))),
                forall|k: u64| #[trigger]
                    rounds_since_hit@.contains_key(k) ==> rounds_since_hit@[k] == if round_hits@.take(
                        i as int,
                    ).contains(ScopeDef(k)) {
                        bumped(m.counts, ScopeDef(k))
                    } else {
                        h0[k]
                    },
                forall|d: ScopeDef| #[trigger]
                    exhausted@.contains(d) == (m.exhausted.contains(d) || (round_hits@.take(
                        i as int,
                    ).contains(d) && bumped(m.counts, d) > MAX_ROUNDS_AFTER_HIT)),
            decreases round_hits@.len() - i,
        {
            let d = round_hits[i];
            proof {
                assert(round_hits@.take(i + 1) =~= round_hits@.take(i as int).push(d));
                if round_hits@.take(i as int).contains(d) {
                    let j = choose|j: int| 0 <= j < i && round_hits@.take(i as int)[j] == d;
                    assert(round_hits@[j] == round_hits@[i as int]);
                }
            }
            let n: u32 = match rounds_since_hit.get(&d.0) {
                Some(c) => if *c == u32::MAX {
                    u32::MAX
                } else {
                    *c + 1
                },
                None => 0,
            };
            assert(n == bumped(m.counts, d));
            rounds_since_hit.insert(d.0, n);
            proof {
                lemma_push_contains(exhausted@, d);
                lemma_push_contains(round_hits@.take(i as int), d);
            }
            if n > MAX_ROUNDS_AFTER_HIT && !contains_def(&exhausted, d) {
                exhausted.push(d);
            }
            i = i + 1;
        }
        assert(round_hits@.take(i as int) =~= round_hits@);
        let ghost x = m.next_round();
        assert(entries_of(data@) == m.entries);
        proof {
            lemma_wf_frame(m, x);
        }
        assert(exhausted@.to_set() =~= x.exhausted);
        let cleared: Vec<ScopeDef> = Vec::new();
        assert(cleared@.no_duplicates());
        assert(cleared@.to_set() =~= x.hits);
        assert(Map::new(
            |d: ScopeDef| rounds_since_hit@.contains_key(d.0),
            |d: ScopeDef| rounds_since_hit@[d.0],
        ) =~= x.counts);
        *self = LookupTable {
            data,
            impl_method_types,
            struct_projection_types,
            exhausted,
            round_hits: cleared,
            rounds_since_hit,
        };
    }

    /// The retired scope entries, each once.
    pub fn exhausted_scopedefs(&self) -> (r: &Vec<ScopeDef>)
        ensures
            r@.to_set() == self@.exhausted,
            r@.no_duplicates(),
    {
        proof {
            use_type_invariant(self);
        }
        &self.exhausted
    }
}

} // verus!
