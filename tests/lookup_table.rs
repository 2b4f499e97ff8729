use term_search::lookup::{LookupTable, NewTypesKey, MAX_VARIATIONS};
use term_search::tree::{ScopeDef, Ty, TypeTree};

fn same(a: Ty, b: Ty) -> bool {
    a == b
}

fn exprs(range: std::ops::Range<u64>) -> Vec<TypeTree> {
    range.map(TypeTree::Expr).collect()
}

fn trees_of(table: &LookupTable, ty: Ty) -> Vec<TypeTree> {
    table.find(&same, ty).unwrap_or_default()
}

#[test]
fn insert_keeps_first_ten_of_fifteen() {
    let mut table = LookupTable::new();
    table.insert(Ty(1), exprs(0..15));
    assert_eq!(trees_of(&table, Ty(1)), exprs(0..10));
    assert_eq!(MAX_VARIATIONS, 10);
}

#[test]
fn second_insert_exceeds_ten() {
    let mut table = LookupTable::new();
    table.insert(Ty(1), exprs(0..15));
    table.insert(Ty(1), exprs(100..103));
    let got = trees_of(&table, Ty(1));
    assert_eq!(got.len(), 13);
    let mut expected = exprs(0..10);
    expected.extend(exprs(100..103));
    assert_eq!(got, expected);
}

#[test]
fn second_insert_takes_only_ten_of_its_own() {
    let mut table = LookupTable::new();
    table.insert(Ty(1), exprs(0..10));
    table.insert(Ty(1), exprs(100..120));
    assert_eq!(trees_of(&table, Ty(1)).len(), 20);
}

#[test]
fn equal_candidates_collapse() {
    let mut table = LookupTable::new();
    table.insert(Ty(1), vec![TypeTree::Expr(1), TypeTree::Expr(1), TypeTree::Expr(2)]);
    table.insert(Ty(1), vec![TypeTree::Expr(2), TypeTree::Expr(3)]);
    assert_eq!(
        trees_of(&table, Ty(1)),
        vec![TypeTree::Expr(1), TypeTree::Expr(2), TypeTree::Expr(3)]
    );
}

#[test]
fn insert_of_empty_sequence_registers_type() {
    let mut table = LookupTable::new();
    table.insert(Ty(4), Vec::new());
    assert_eq!(table.iter_types(), vec![Ty(4)]);
    assert_eq!(table.find(&same, Ty(4)), Some(Vec::new()));
}

#[test]
fn find_unknown_type_is_none() {
    let mut table = LookupTable::new();
    assert_eq!(table.find(&same, Ty(1)), None);
    table.insert(Ty(2), exprs(0..1));
    assert_eq!(table.find(&same, Ty(1)), None);
}

#[test]
fn find_takes_first_unifying_type() {
    let mut table = LookupTable::new();
    table.insert(Ty(10), exprs(0..1));
    table.insert(Ty(11), exprs(5..6));
    // types 10 and 11 both unify with 99, which neither equals
    let unify = |a: Ty, b: Ty| a == b || (b == Ty(99) && a.0 >= 10);
    assert_eq!(table.find(&unify, Ty(99)), Some(exprs(0..1)));
    assert_eq!(table.find(&unify, Ty(11)), Some(exprs(5..6)));
}

fn shared_ref(t: Ty) -> Ty {
    Ty(t.0 + 1000)
}

#[test]
fn find_autoref_wraps_referent_candidates() {
    let mut table = LookupTable::new();
    table.insert(Ty(1), exprs(7..9));
    let got = table.find_autoref(&same, &shared_ref, Ty(1001));
    assert_eq!(
        got,
        Some(vec![
            TypeTree::Reference(Box::new(TypeTree::Expr(7))),
            TypeTree::Reference(Box::new(TypeTree::Expr(8))),
        ])
    );
    assert_eq!(table.find(&same, Ty(1001)), None);
}

#[test]
fn find_autoref_prefers_exact_match() {
    let mut table = LookupTable::new();
    table.insert(Ty(1), exprs(7..8));
    table.insert(Ty(1001), exprs(3..4));
    assert_eq!(table.find_autoref(&same, &shared_ref, Ty(1001)), Some(exprs(3..4)));
}

#[test]
fn find_autoref_none_when_nothing_fits() {
    let mut table = LookupTable::new();
    table.insert(Ty(1), exprs(7..8));
    assert_eq!(table.find_autoref(&same, &shared_ref, Ty(2002)), None);
}

#[test]
fn new_type_reaches_every_consumer_once() {
    let mut table = LookupTable::new();
    table.insert(Ty(5), exprs(0..2));
    table.insert(Ty(5), exprs(2..4));
    assert_eq!(table.new_types(NewTypesKey::ImplMethod), vec![Ty(5)]);
    assert_eq!(table.new_types(NewTypesKey::ImplMethod), Vec::<Ty>::new());
    assert_eq!(table.new_types(NewTypesKey::StructProjection), vec![Ty(5)]);
    assert_eq!(table.new_types(NewTypesKey::StructProjection), Vec::<Ty>::new());
}

#[test]
fn new_types_keep_order_of_arrival() {
    let mut table = LookupTable::new();
    table.insert(Ty(3), Vec::new());
    assert_eq!(table.new_types(NewTypesKey::ImplMethod), vec![Ty(3)]);
    table.insert(Ty(1), Vec::new());
    table.insert(Ty(2), Vec::new());
    assert_eq!(table.new_types(NewTypesKey::ImplMethod), vec![Ty(1), Ty(2)]);
    assert_eq!(table.new_types(NewTypesKey::StructProjection), vec![Ty(3), Ty(1), Ty(2)]);
    assert_eq!(table.iter_types(), vec![Ty(3), Ty(1), Ty(2)]);
}

#[test]
fn mark_exhausted_is_idempotent() {
    let mut table = LookupTable::new();
    table.mark_exhausted(ScopeDef(1));
    table.mark_exhausted(ScopeDef(1));
    assert_eq!(table.exhausted_scopedefs(), &vec![ScopeDef(1)]);
}

#[test]
fn exhaustion_survives_every_operation() {
    let mut table = LookupTable::new();
    table.mark_exhausted(ScopeDef(1));
    table.insert(Ty(1), exprs(0..3));
    table.new_types(NewTypesKey::ImplMethod);
    table.mark_fulfilled(ScopeDef(1));
    table.mark_fulfilled(ScopeDef(2));
    for _ in 0..6 {
        table.new_round();
        assert!(table.exhausted_scopedefs().contains(&ScopeDef(1)));
    }
}

#[test]
fn retired_at_round_after_fourth_mark() {
    let mut table = LookupTable::new();
    let d = ScopeDef(9);
    for _ in 0..3 {
        table.mark_fulfilled(d);
        table.mark_fulfilled(d);
        table.new_round();
        assert!(!table.exhausted_scopedefs().contains(&d));
    }
    table.mark_fulfilled(d);
    assert!(!table.exhausted_scopedefs().contains(&d));
    table.new_round();
    assert!(table.exhausted_scopedefs().contains(&d));
}

#[test]
fn rounds_without_marks_do_not_count() {
    let mut table = LookupTable::new();
    let d = ScopeDef(9);
    for _ in 0..3 {
        table.mark_fulfilled(d);
        table.new_round();
        table.new_round();
        table.new_round();
    }
    assert!(!table.exhausted_scopedefs().contains(&d));
    assert!(table.exhausted_scopedefs().is_empty());
}
