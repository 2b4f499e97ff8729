use term_search::lookup::LookupTable;
use term_search::search::{prune, term_search, Producer, Search, Tactics, MAX_ROUNDS};
use vstd::seq::Seq;
use term_search::tree::{ScopeDef, Ty, TypeTree};

/// Producers over a scope of typed bindings: `trivial` offers each binding
/// of the goal type; the four round producers hand out what `per_round`
/// lists for that round, and `autoref` makes the round producers look the
/// goal up with shared-reference matching.
struct Scripted {
    goal: Ty,
    scope: Vec<(ScopeDef, Ty)>,
    famous: Vec<TypeTree>,
    per_round: Vec<Vec<TypeTree>>,
    autoref: bool,
    rounds: usize,
    seen_defs: Vec<Vec<ScopeDef>>,
}

impl Scripted {
    fn new(goal: Ty, scope: Vec<(ScopeDef, Ty)>) -> Scripted {
        Scripted {
            goal,
            scope,
            famous: Vec::new(),
            per_round: Vec::new(),
            autoref: false,
            rounds: 0,
            seen_defs: Vec::new(),
        }
    }
}

fn same(a: Ty, b: Ty) -> bool {
    a == b
}

fn shared_ref(t: Ty) -> Ty {
    Ty(t.0 + 1000)
}

impl Tactics for Scripted {
    // only proofs read the log; it is never built at run time
    fn log(&self) -> Seq<(Producer, Seq<TypeTree>)> {
        Seq::empty()
    }

    fn trivial(&mut self, defs: &Vec<ScopeDef>, lookup: &mut LookupTable) -> Vec<TypeTree> {
        let mut out = Vec::new();
        if defs.contains(&ScopeDef(77)) {
            lookup.mark_fulfilled(ScopeDef(77));
        }
        for (d, t) in &self.scope {
            if !defs.contains(d) {
                continue;
            }
            lookup.insert(*t, vec![TypeTree::Expr(d.0)]);
            if *t == self.goal {
                lookup.mark_fulfilled(*d);
                out.push(TypeTree::Expr(d.0));
            }
        }
        out
    }

    fn famous_types(&mut self, _defs: &Vec<ScopeDef>, _lookup: &mut LookupTable) -> Vec<TypeTree> {
        self.famous.clone()
    }

    fn type_constructor(&mut self, defs: &Vec<ScopeDef>, lookup: &mut LookupTable) -> Vec<TypeTree> {
        self.seen_defs.push(defs.clone());
        let round = self.rounds;
        self.rounds += 1;
        let mut out = self.per_round.get(round).cloned().unwrap_or_default();
        if self.autoref {
            out.extend(lookup.find_autoref(&same, &shared_ref, self.goal).unwrap_or_default());
        }
        out
    }

    fn free_function(&mut self, _defs: &Vec<ScopeDef>, _lookup: &mut LookupTable) -> Vec<TypeTree> {
        Vec::new()
    }

    fn impl_method(&mut self, _defs: &Vec<ScopeDef>, _lookup: &mut LookupTable) -> Vec<TypeTree> {
        Vec::new()
    }

    fn struct_projection(&mut self, defs: &Vec<ScopeDef>, lookup: &mut LookupTable) -> Vec<TypeTree> {
        // scope entry 77 is useful in every round, so the table retires it
        for d in defs {
            if d.0 == 77 {
                lookup.mark_fulfilled(*d);
            }
        }
        Vec::new()
    }
}

#[test]
fn direct_hit_found_in_seed_round() {
    let boolean = Ty(1);
    let x = ScopeDef(10);
    let mut tactics = Scripted::new(boolean, vec![(x, boolean)]);
    let got = term_search(&mut tactics, vec![ScopeDef(0), x]);
    assert_eq!(got, vec![TypeTree::Expr(10)]);
    // one confirmation round after the seed round's success
    assert_eq!(tactics.rounds, 1);
}

#[test]
fn reference_goal_found_through_autoref() {
    let int = Ty(2);
    let x = ScopeDef(10);
    let mut tactics = Scripted::new(shared_ref(int), vec![(x, int)]);
    tactics.autoref = true;
    let got = term_search(&mut tactics, vec![ScopeDef(0), x]);
    assert!(got.contains(&TypeTree::Reference(Box::new(TypeTree::Expr(10)))));
    assert_eq!(got.len(), 1);
    // found in the first round, confirmed in the second
    assert_eq!(tactics.rounds, 2);

    let mut table = LookupTable::new();
    table.insert(int, vec![TypeTree::Expr(10)]);
    assert_eq!(table.find(&same, shared_ref(int)), None);
}

#[test]
fn unreachable_goal_yields_empty_after_all_rounds() {
    let mut tactics = Scripted::new(Ty(3), vec![(ScopeDef(10), Ty(1))]);
    let got = term_search(&mut tactics, vec![ScopeDef(0), ScopeDef(10)]);
    assert!(got.is_empty());
    assert_eq!(tactics.rounds, MAX_ROUNDS as usize);
    assert_eq!(MAX_ROUNDS, 5);
}

#[test]
fn one_round_after_first_success() {
    let mut tactics = Scripted::new(Ty(3), Vec::new());
    tactics.per_round = vec![Vec::new(), Vec::new(), vec![TypeTree::Expr(1)], vec![TypeTree::Expr(2)], vec![TypeTree::Expr(3)]];
    let got = term_search(&mut tactics, vec![ScopeDef(0)]);
    assert_eq!(tactics.rounds, 4);
    assert_eq!(got, vec![TypeTree::Expr(1), TypeTree::Expr(2)]);
}

#[test]
fn success_in_last_round_stops_at_budget() {
    let mut tactics = Scripted::new(Ty(3), Vec::new());
    tactics.per_round = vec![Vec::new(), Vec::new(), Vec::new(), Vec::new(), vec![TypeTree::Expr(5)]];
    let got = term_search(&mut tactics, vec![ScopeDef(0)]);
    assert_eq!(tactics.rounds, 5);
    assert_eq!(got, vec![TypeTree::Expr(5)]);
}

#[test]
fn result_has_no_duplicates() {
    let boolean = Ty(1);
    let mut tactics = Scripted::new(boolean, vec![(ScopeDef(10), boolean)]);
    tactics.famous = vec![TypeTree::Expr(10), TypeTree::Expr(11), TypeTree::Expr(11)];
    tactics.per_round = vec![vec![TypeTree::Expr(11), TypeTree::Expr(12), TypeTree::Expr(10)]];
    let got = term_search(&mut tactics, vec![ScopeDef(10)]);
    assert_eq!(got, vec![TypeTree::Expr(10), TypeTree::Expr(11), TypeTree::Expr(12)]);
}

#[test]
fn retired_entries_leave_the_active_set() {
    let mut tactics = Scripted::new(Ty(3), Vec::new());
    let got = term_search(&mut tactics, vec![ScopeDef(0), ScopeDef(77)]);
    assert!(got.is_empty());
    assert_eq!(tactics.seen_defs.len(), 5);
    // fulfilled in the seed round and in rounds 1 to 3: retired when
    // round 4 begins, and dropped from the active set after round 4
    for defs in &tactics.seen_defs[..4] {
        assert_eq!(defs, &vec![ScopeDef(0), ScopeDef(77)]);
    }
    assert_eq!(tactics.seen_defs[4], vec![ScopeDef(0)]);
}

#[test]
fn prune_drops_exhausted_entries_in_order() {
    let mut defs = vec![ScopeDef(1), ScopeDef(2), ScopeDef(3), ScopeDef(4)];
    prune(&mut defs, &vec![ScopeDef(4), ScopeDef(2), ScopeDef(9)]);
    assert_eq!(defs, vec![ScopeDef(1), ScopeDef(3)]);
}

#[test]
fn search_state_stops_after_success() {
    let lookup = LookupTable::new();
    let mut defs = vec![ScopeDef(1)];
    let mut search = Search::seed(Vec::new());
    assert!(!search.is_done());
    search.end_round(vec![TypeTree::Expr(1), TypeTree::Expr(1)], &lookup, &mut defs);
    assert!(!search.is_done());
    search.end_round(vec![TypeTree::Expr(2)], &lookup, &mut defs);
    assert!(search.is_done());
    assert_eq!(search.finish(), vec![TypeTree::Expr(1), TypeTree::Expr(2)]);
}

#[test]
fn search_state_prunes_only_before_success() {
    let mut lookup = LookupTable::new();
    lookup.mark_exhausted(ScopeDef(2));
    let mut defs = vec![ScopeDef(1), ScopeDef(2)];
    let mut search = Search::seed(vec![TypeTree::Expr(1)]);
    search.end_round(Vec::new(), &lookup, &mut defs);
    assert_eq!(defs, vec![ScopeDef(1), ScopeDef(2)]);
    assert!(search.is_done());

    let mut defs = vec![ScopeDef(1), ScopeDef(2)];
    let mut search = Search::seed(Vec::new());
    search.end_round(Vec::new(), &lookup, &mut defs);
    assert_eq!(defs, vec![ScopeDef(1)]);
}

#[test]
fn duplicate_copies_tree() {
    let t = TypeTree::Reference(Box::new(TypeTree::Reference(Box::new(TypeTree::Expr(3)))));
    assert_eq!(t.duplicate(), t);
    assert_eq!(t.clone(), t);
}

#[test]
fn repeated_scope_entries_are_passed_once() {
    let mut tactics = Scripted::new(Ty(3), Vec::new());
    term_search(&mut tactics, vec![ScopeDef(0), ScopeDef(5), ScopeDef(0), ScopeDef(5)]);
    assert_eq!(tactics.seen_defs[0], vec![ScopeDef(0), ScopeDef(5)]);
}

#[test]
fn found_in_first_round_ends_after_second() {
    let mut tactics = Scripted::new(Ty(3), Vec::new());
    tactics.per_round = vec![vec![TypeTree::Expr(4)], vec![TypeTree::Expr(4), TypeTree::Expr(6)], vec![TypeTree::Expr(9)]];
    let got = term_search(&mut tactics, vec![ScopeDef(0)]);
    assert_eq!(tactics.rounds, 2);
    assert_eq!(got, vec![TypeTree::Expr(4), TypeTree::Expr(6)]);
}
