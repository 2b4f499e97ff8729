//! The search driver: a seed round, then up to `MAX_ROUNDS` rounds of the
//! remaining producers, stopping one round after the first solution.

use vstd::prelude::*;

use crate::lookup::{contains_def, LookupTable};
use crate::tree::{dedup, lemma_dedup_distinct, unique_trees, ScopeDef, TypeTree};

verus! {

/// Rounds run after the seed round, at most.
pub const MAX_ROUNDS: u32 = 5;

/// The six producers of candidates.
#[derive(Clone, Copy, Debug, PartialEq, Eq, Structural)]
pub enum Producer {
    Trivial,
    FamousTypes,
    TypeConstructor,
    FreeFunction,
    ImplMethod,
    StructProjection,
}

/// The six producers of candidates for one goal type. Each reads the
/// active scope entries and the lookup table, may add to the table, and
/// returns the candidates it found for the goal. `log` records every call
/// with what it returned.
pub trait Tactics {
    /// The calls made so far, in order, each with the candidates returned.
    spec fn log(&self) -> Seq<(Producer, Seq<TypeTree>)>;

    /// Scope entries used directly; also records each entry's own type.
    fn trivial(&mut self, defs: &Vec<ScopeDef>, lookup: &mut LookupTable) -> (r: Vec<TypeTree>)
        ensures
            final(self).log() == old(self).log().push((Producer::Trivial, r@)),
    ;

    /// Well-known values such as `true`, `false` and `()`.
    fn famous_types(&mut self, defs: &Vec<ScopeDef>, lookup: &mut LookupTable) -> (r: Vec<
        TypeTree,
    >)
        ensures
            final(self).log() == old(self).log().push((Producer::FamousTypes, r@)),
    ;

    /// Constructors applied to known values.
    fn type_constructor(&mut self, defs: &Vec<ScopeDef>, lookup: &mut LookupTable) -> (r: Vec<
        TypeTree,
    >)
        ensures
            final(self).log() == old(self).log().push((Producer::TypeConstructor, r@)),
    ;

    /// Free functions applied to known values.
    fn free_function(&mut self, defs: &Vec<ScopeDef>, lookup: &mut LookupTable) -> (r: Vec<
        TypeTree,
    >)
        ensures
            final(self).log() == old(self).log().push((Producer::FreeFunction, r@)),
    ;

    /// Methods applied to known values.
    fn impl_method(&mut self, defs: &Vec<ScopeDef>, lookup: &mut LookupTable) -> (r: Vec<
        TypeTree,
    >)
        ensures
            final(self).log() == old(self).log().push((Producer::ImplMethod, r@)),
    ;

    /// Fields projected out of known values.
    fn struct_projection(&mut self, defs: &Vec<ScopeDef>, lookup: &mut LookupTable) -> (r: Vec<
        TypeTree,
    >)
        ensures
            final(self).log() == old(self).log().push((Producer::StructProjection, r@)),
    ;
}

/// Everything the calls of `log` returned, in order.
pub open spec fn outputs(log: Seq<(Producer, Seq<TypeTree>)>) -> Seq<TypeTree>
    decreases log.len(),
{
    if log.len() == 0 {
        Seq::empty()
    } else {
        outputs(log.drop_last()) + log.last().1
    }
}

/// The producer that a search calls `i`-th: the two seed producers, then
/// the four round producers in order, round after round.
pub open spec fn producer_at(i: int) -> Producer {
    if i == 0 {
        Producer::Trivial
    } else if i == 1 {
        Producer::FamousTypes
    } else if (i - 2) % 4 == 0 {
        Producer::TypeConstructor
    } else if (i - 2) % 4 == 1 {
        Producer::FreeFunction
    } else if (i - 2) % 4 == 2 {
        Producer::ImplMethod
    } else {
        Producer::StructProjection
    }
}

/// Some candidate was found before round `j` (round 0 being the seed).
pub open spec fn found_before_round(log: Seq<(Producer, Seq<TypeTree>)>, j: int) -> bool {
    outputs(log.take(2 + 4 * (j - 1))).len() > 0
}

/// `log` is a whole search of `n` rounds after the seed round: the
/// producers are called in their fixed order, a further round starts only
/// while nothing has been found, and the search stops one round after the
/// first find or after `MAX_ROUNDS` rounds.
pub open spec fn search_run(log: Seq<(Producer, Seq<TypeTree>)>, n: int) -> bool {
    &&& 1 <= n <= MAX_ROUNDS
    &&& log.len() == 2 + 4 * n
    &&& forall|i: int| 0 <= i < log.len() ==> (#[trigger] log[i]).0 == producer_at(i)
    &&& forall|j: int| 1 <= j < n ==> !#[trigger] found_before_round(log, j)
    &&& n == MAX_ROUNDS || found_before_round(log, n)
}

proof fn lemma_outputs_push(log: Seq<(Producer, Seq<TypeTree>)>, x: (Producer, Seq<TypeTree>))
    ensures
        outputs(log.push(x)) == outputs(log) + x.1,
{
    assert(log.push(x).drop_last() =~= log);
}

/// Extending a log does not change what was found before a round that
/// the shorter log already covers.
proof fn lemma_found_extend(d: Seq<(Producer, Seq<TypeTree>)>, e: Seq<(Producer, Seq<TypeTree>)>, j: int)
    requires
        1 <= j,
        2 + 4 * (j - 1) <= d.len() <= e.len(),
        e.take(d.len() as int) == d,
    ensures
        found_before_round(e, j) == found_before_round(d, j),
{
    assert(e.take(2 + 4 * (j - 1)) =~= d.take(2 + 4 * (j - 1)));
}

/// One more call, with its result `x`, seen from position `start` on.
proof fn lemma_log_step(
    before: Seq<(Producer, Seq<TypeTree>)>,
    start: int,
    x: (Producer, Seq<TypeTree>),
)
    requires
        0 <= start <= before.len(),
    ensures
        before.push(x).skip(start) == before.skip(start).push(x),
        outputs(before.push(x).skip(start)) == outputs(before.skip(start)) + x.1,
{
    assert(before.push(x).skip(start) =~= before.skip(start).push(x));
    lemma_outputs_push(before.skip(start), x);
}

/// The abstract state of a search between rounds.
pub struct SearchModel {
    /// Rounds run after the seed round.
    pub rounds: nat,
    /// Some candidate for the goal has been found.
    pub solution_found: bool,
    /// No further round is to run.
    pub done: bool,
    /// Every candidate found so far, in order, repeats included.
    pub solutions: Seq<TypeTree>,
}

impl SearchModel {
    /// The state after the seed round found `seed`.
    pub open spec fn seeded(seed: Seq<TypeTree>) -> SearchModel {
        SearchModel { rounds: 0, solution_found: seed.len() > 0, done: false, solutions: seed }
    }

    /// The state after one more round found `found`: the search stops when
    /// a solution was known before this round, or the rounds are used up.
    pub open spec fn after_round(self, found: Seq<TypeTree>) -> SearchModel {
        SearchModel {
            rounds: self.rounds + 1,
            solution_found: self.solutions.len() + found.len() > 0,
            done: self.solution_found || self.rounds + 1 >= MAX_ROUNDS,
            solutions: self.solutions + found,
        }
    }

    pub open spec fn wf(self) -> bool {
        &&& self.rounds <= MAX_ROUNDS
        &&& self.rounds == MAX_ROUNDS ==> self.done
        &&& self.solution_found == (self.solutions.len() > 0)
    }
}

/// The state of one term search between rounds.
pub struct Search {
    rounds: u32,
    solution_found: bool,
    done: bool,
    solutions: Vec<TypeTree>,
}

impl View for Search {
    type V = SearchModel;

    closed spec fn view(&self) -> SearchModel {
        SearchModel {
            rounds: self.rounds as nat,
            solution_found: self.solution_found,
            done: self.done,
            solutions: self.solutions@,
        }
    }
}

/// The active scope entries that are not retired.
pub open spec fn pruned(defs: Seq<ScopeDef>, exhausted: Set<ScopeDef>) -> Seq<ScopeDef> {
    defs.filter(|d: ScopeDef| !exhausted.contains(d))
}

/// Drops from `defs` every entry that `exhausted` holds, keeping the order.
pub fn prune(defs: &mut Vec<ScopeDef>, exhausted: &Vec<ScopeDef>)
    ensures
        final(defs)@ == pruned(old(defs)@, exhausted@.to_set()),
{
    let ghost e = exhausted@.to_set();
    let mut kept: Vec<ScopeDef> = Vec::new();
    let mut i: usize = 0;
    while i < defs.len()
        invariant
            i <= defs@.len(),
            e == exhausted@.to_set(),
            kept@ == pruned(defs@.take(i as int), e),
        decreases defs@.len() - i,
    {
        let d = defs[i];
        let retired = contains_def(exhausted, d);
        proof {
            assert(defs@.take(i + 1) =~= defs@.take(i as int).push(d));
            defs@.take(i as int).lemma_filter_push(d, |x: ScopeDef| !e.contains(x));
        }
        if !retired {
            kept.push(d);
        }
        i = i + 1;
    }
    assert(defs@.take(i as int) =~= defs@);
    *defs = kept;
}

impl Search {
    #[verifier::type_invariant]
    spec fn inv(&self) -> bool {
        self@.wf()
    }

    /// Starts the rounds after the seed round found `seed`.
    pub fn seed(seed: Vec<TypeTree>) -> (r: Search)
        ensures
            r@ == SearchModel::seeded(seed@),
    {
        let found = seed.len() > 0;
        Search { rounds: 0, solution_found: found, done: false, solutions: seed }
    }

    /// Whether the search has stopped.
    pub fn is_done(&self) -> (r: bool)
        ensures
            r == self@.done,
    {
        self.done
    }

    /// Records what a round found. Unless the search stops here, the scope
    /// entries that `lookup` has retired are dropped from `defs`.
    pub fn end_round(&mut self, found: Vec<TypeTree>, lookup: &LookupTable, defs: &mut Vec<ScopeDef>)
        requires
            !old(self)@.done,
        ensures
            final(self)@ == old(self)@.after_round(found@),
            final(defs)@ == if old(self)@.solution_found {
                old(defs)@
            } else {
                pruned(old(defs)@, lookup@.exhausted)
            },
    {
        proof {
            use_type_invariant(&*self);
        }
        let ghost m = self@;
        let mut found = found;
        let mut t = Search::seed(Vec::new());
        std::mem::swap(self, &mut t);
        proof {
            use_type_invariant(&t);
        }
        let Search { rounds, solution_found: was_found, done: _, solutions: mut sols } = t;
        sols.append(&mut found);
        let rounds = rounds + 1;
        let now_found = sols.len() > 0;
        *self = Search {
            rounds,
            solution_found: now_found,
            done: was_found || rounds >= MAX_ROUNDS,
            solutions: sols,
        };
        if !was_found {
            prune(defs, lookup.exhausted_scopedefs());
        }
    }

    /// Every candidate found, each once, in order of first discovery.
    pub fn finish(self) -> (r: Vec<TypeTree>)
        ensures
            r@ == dedup(self@.solutions),
    {
        unique_trees(self.solutions)
    }
}

/// `defs` with repeats removed, first occurrences kept in order.
fn distinct_defs(defs: &Vec<ScopeDef>) -> (r: Vec<ScopeDef>)
    ensures
        r@ == dedup(defs@),
{
    let mut r: Vec<ScopeDef> = Vec::new();
    let mut i: usize = 0;
    while i < defs.len()
        invariant
            i <= defs@.len(),
            r@ == dedup(defs@.take(i as int)),
        decreases defs@.len() - i,
    {
        let d = defs[i];
        proof {
            let p = defs@.take(i + 1);
            assert(p.drop_last() =~= defs@.take(i as int));
            assert(p.last() == d);
            crate::tree::lemma_dedup_contains(defs@.take(i as int), d);
        }
        if !contains_def(&r, d) {
            r.push(d);
        }
        i = i + 1;
    }
    assert(defs@.take(i as int) =~= defs@);
    r
}

/// Searches for expressions of the goal type that `tactics` works towards.
///
/// `defs` holds the scope entries visible at the search site, including the
/// enclosing module; repeats are dropped. The seed round calls `trivial`
/// and `famous_types`; each further round starts a new lookup round and
/// calls the other four producers in order. The search stops one round
/// after the first candidate is found, or after `MAX_ROUNDS` rounds. The
/// result is every candidate the producers returned, each once, in order
/// of first discovery.
pub fn term_search<T: Tactics>(tactics: &mut T, defs: Vec<ScopeDef>) -> (r: Vec<TypeTree>)
    ensures
        exists|n: int| search_run(final(tactics).log().skip(old(tactics).log().len() as int), n),
        r@ == dedup(outputs(final(tactics).log().skip(old(tactics).log().len() as int))),
{
    let ghost start = tactics.log().len() as int;
    let mut defs = distinct_defs(&defs);
    let mut lookup = LookupTable::new();
    let ghost before = tactics.log();
    assert(before.skip(start) =~= Seq::<(Producer, Seq<TypeTree>)>::empty());
    let mut seed = tactics.trivial(&defs, &mut lookup);
    proof {
        lemma_log_step(before, start, (Producer::Trivial, seed@));
    }
    let ghost before = tactics.log();
    let mut famous = tactics.famous_types(&defs, &mut lookup);
    proof {
        lemma_log_step(before, start, (Producer::FamousTypes, famous@));
    }
    seed.append(&mut famous);
    let mut search = Search::seed(seed);
    proof {
        let d = tactics.log().skip(start);
        assert(outputs(d) =~= search@.solutions);
        assert(forall|i: int| 0 <= i < d.len() ==> (#[trigger] d[i]).0 == producer_at(i));
    }
    loop
        invariant
            0 <= start <= tactics.log().len(),
            search@.rounds <= MAX_ROUNDS,
            tactics.log().skip(start).len() == 2 + 4 * search@.rounds,
            forall|i: int|
                0 <= i < tactics.log().skip(start).len() ==> (#[trigger] tactics.log().skip(
                    start,
                )[i]).0 == producer_at(i),
            search@.solutions == outputs(tactics.log().skip(start)),
            forall|j: int|
                1 <= j < search@.rounds ==> !#[trigger] found_before_round(
                    tactics.log().skip(start),
                    j,
                ),
            search@.rounds >= 1 ==> (search@.done == (search@.rounds == MAX_ROUNDS
                || found_before_round(tactics.log().skip(start), search@.rounds as int))),
            search@.rounds == 0 ==> !search@.done,
        ensures
            search@.done,
        decreases MAX_ROUNDS - search@.rounds,
    {
        proof {
            use_type_invariant(&search);
        }
        if search.is_done() {
            break;
        }
        let ghost d0 = tactics.log().skip(start);
        let ghost j = search@.rounds as int;
        lookup.new_round();
        let ghost before = tactics.log();
        let mut found = tactics.type_constructor(&defs, &mut lookup);
        proof {
            lemma_log_step(before, start, (Producer::TypeConstructor, found@));
        }
        let ghost before = tactics.log();
        let mut more = tactics.free_function(&defs, &mut lookup);
        proof {
            lemma_log_step(before, start, (Producer::FreeFunction, more@));
        }
        found.append(&mut more);
        let ghost before = tactics.log();
        let mut more = tactics.impl_method(&defs, &mut lookup);
        proof {
            lemma_log_step(before, start, (Producer::ImplMethod, more@));
        }
        found.append(&mut more);
        let ghost before = tactics.log();
        let mut more = tactics.struct_projection(&defs, &mut lookup);
        proof {
            lemma_log_step(before, start, (Producer::StructProjection, more@));
        }
        found.append(&mut more);
        let ghost m0 = search@;
        search.end_round(found, &lookup, &mut defs);
        proof {
            use_type_invariant(&search);
            let d = tactics.log().skip(start);
            assert(d.len() == d0.len() + 4);
            assert(d.take(d0.len() as int) =~= d0);
            assert(search@.solutions =~= outputs(d));
            assert forall|i: int| 0 <= i < d.len() implies (#[trigger] d[i]).0 == producer_at(i) by {
                if i >= d0.len() {
                    assert((i - 2) % 4 == i - 2 - 4 * j);
                } else {
                    assert(d[i] == d0[i]);
                }
            }
            assert forall|k: int| 1 <= k < search@.rounds implies !#[trigger] found_before_round(d, k) by {
                lemma_found_extend(d0, d, k);
            }
            assert(d.take(2 + 4 * j) =~= d0);
            assert(found_before_round(d, j + 1) == m0.solution_found);
        }
    }
    let ghost last = search@;
    proof {
        let d = tactics.log().skip(start);
        assert(last.done && last.rounds >= 1);
        assert(search_run(d, last.rounds as int));
    }
    search.finish()
}

/// The search never runs more than `MAX_ROUNDS` rounds after the seed
/// round, and it has stopped once it has run that many.
pub proof fn lemma_rounds_bounded(s: SearchModel)
    requires
        s.wf(),
    ensures
        s.rounds <= MAX_ROUNDS,
        s.rounds == MAX_ROUNDS ==> s.done,
{
}

/// Every round keeps the search well formed.
pub proof fn lemma_round_keeps_wf(s: SearchModel, found: Seq<TypeTree>)
    requires
        s.wf(),
        !s.done,
    ensures
        s.after_round(found).wf(),
{
}

/// Once a round (or the seed round) has produced a candidate, at most one
/// further round runs: the round after it is the last.
pub proof fn lemma_one_round_after_success(s: SearchModel, found: Seq<TypeTree>, next: Seq<TypeTree>)
    requires
        s.wf(),
        !s.done,
        found.len() > 0,
    ensures
        s.after_round(found).done || s.after_round(found).after_round(next).done,
{
}

/// A seed round that produced a candidate is followed by exactly one round.
pub proof fn lemma_seed_success_stops(seed: Seq<TypeTree>, found: Seq<TypeTree>)
    requires
        seed.len() > 0,
    ensures
        !SearchModel::seeded(seed).done,
        SearchModel::seeded(seed).after_round(found).done,
{
}

/// A candidate, once found, stays among the solutions through every later
/// round and is returned, and what is returned holds no candidate twice.
pub proof fn lemma_found_candidates_returned(s: SearchModel, found: Seq<TypeTree>, t: TypeTree)
    requires
        s.solutions.contains(t),
    ensures
        s.after_round(found).solutions.contains(t),
        dedup(s.solutions).contains(t),
        dedup(s.solutions).no_duplicates(),
{
    let j = choose|j: int| 0 <= j < s.solutions.len() && s.solutions[j] == t;
    assert(s.after_round(found).solutions[j] == t);
    crate::tree::lemma_dedup_contains(s.solutions, t);
    lemma_dedup_distinct(s.solutions);
}

/// What is found before a round is part of everything found.
proof fn lemma_outputs_take(log: Seq<(Producer, Seq<TypeTree>)>, k: int)
    requires
        0 <= k <= log.len(),
    ensures
        outputs(log.take(k)).len() <= outputs(log).len(),
    decreases log.len(),
{
    if k < log.len() {
        assert(log.drop_last().take(k) =~= log.take(k));
        lemma_outputs_take(log.drop_last(), k);
    } else {
        assert(log.take(k) =~= log);
    }
}

/// Of a whole search: a find in the seed round is followed by exactly one
/// round; when nothing is ever found, all `MAX_ROUNDS` rounds run; and
/// every candidate a producer returned is in the result.
pub proof fn lemma_search_run_facts(log: Seq<(Producer, Seq<TypeTree>)>, n: int, t: TypeTree)
    requires
        search_run(log, n),
    ensures
        found_before_round(log, 1) ==> n == 1,
        outputs(log).len() == 0 ==> n == MAX_ROUNDS,
        outputs(log).contains(t) ==> dedup(outputs(log)).contains(t),
        dedup(outputs(log)).no_duplicates(),
{
    if n > 1 {
        assert(!found_before_round(log, 1));
    }
    lemma_outputs_take(log, 2 + 4 * (n - 1));
    crate::tree::lemma_dedup_contains(outputs(log), t);
    lemma_dedup_distinct(outputs(log));
}

} // verus!
