use lib::applied::{AppliedId, Id};
use lib::ematch::{final_subst, pattern_bound_slots, try_insert_compatible_slotmap, State};
use lib::expr::Pattern;
use lib::lang::ENode;
use lib::slot::{Slot, SlotTable};
use lib::slotmap::SlotMap;

fn map(v: &[(u64, u64)]) -> SlotMap {
    let mut m = SlotMap::new();
    for (k, x) in v {
        m.insert(Slot(*k), Slot(*x));
    }
    m
}

#[test]
fn bound_slots_are_the_binders() {
    let mut tab = SlotTable::new();
    let p = Pattern::parse("(lam $x (app (var $x) (lam $y (var $z))))", &mut tab).ok().unwrap();
    let b = pattern_bound_slots(&p);
    let x = Slot::named(&mut tab, "x");
    let y = Slot::named(&mut tab, "y");
    let z = Slot::named(&mut tab, "z");
    assert_eq!(b.len(), 2);
    assert!(b.contains(x));
    assert!(b.contains(y));
    assert!(!b.contains(z));
}

#[test]
fn no_binders_under_a_variable_or_without_lambda() {
    let mut tab = SlotTable::new();
    let p = Pattern::parse("(app ?f (var $x))", &mut tab).ok().unwrap();
    assert_eq!(pattern_bound_slots(&p).len(), 0);
    let v = Pattern::PVar("a".to_string());
    assert_eq!(pattern_bound_slots(&v).len(), 0);
    let leaf = Pattern::ENode(ENode::Var(Slot(4)), vec![]);
    assert_eq!(pattern_bound_slots(&leaf).len(), 0);
}

#[test]
fn compatible_insertion() {
    let mut m = map(&[(0, 4)]);
    // same entry again: accepted
    assert!(try_insert_compatible_slotmap(Slot(0), Slot(4), &mut m, true));
    // the key maps elsewhere: refused, nothing changes
    assert!(!try_insert_compatible_slotmap(Slot(0), Slot(8), &mut m, false));
    assert!(m.map_eq(&map(&[(0, 4)])));
    // a second key for the same value: refused only where it must be injective
    assert!(try_insert_compatible_slotmap(Slot(12), Slot(4), &mut m.clone(), false));
    let mut n = m.clone();
    assert!(!try_insert_compatible_slotmap(Slot(12), Slot(4), &mut n, true));
    assert!(n.map_eq(&map(&[(0, 4), (12, 4)])));
    // a new key and a new value
    assert!(try_insert_compatible_slotmap(Slot(16), Slot(20), &mut m, true));
    assert!(m.map_eq(&map(&[(0, 4), (16, 20)])));
}

#[test]
fn final_subst_renames_and_freshens() {
    let mut tab = SlotTable::new();
    let start = tab.fresh_idx;
    let st = State {
        partial_subst: vec![
            ("a".to_string(), AppliedId::new(Id(3), map(&[(0, 100), (4, 104)]))),
            ("b".to_string(), AppliedId::new(Id(5), map(&[(0, 104), (4, 108)]))),
        ],
        partial_slotmap: map(&[(100, 8)]),
    };
    let r = final_subst(st, &mut tab);
    assert_eq!(r.len(), 2);
    assert_eq!(r[0].0, "a");
    assert_eq!(r[1].0, "b");
    assert_eq!(r[0].1.id, Id(3));
    // 100 is named by the match; 104 gets a fresh slot, the same in both entries
    assert_eq!(r[0].1.m.get(Slot(0)), Some(Slot(8)));
    let f104 = r[0].1.m.get(Slot(4)).unwrap();
    assert_eq!(f104.0 % 4, 1);
    assert!(f104.0 >= start);
    assert_eq!(r[1].1.m.get(Slot(0)), Some(f104));
    let f108 = r[1].1.m.get(Slot(4)).unwrap();
    assert_eq!(f108.0 % 4, 1);
    assert_ne!(f108, f104);
    assert_eq!(tab.fresh_idx, start + 8);
}
