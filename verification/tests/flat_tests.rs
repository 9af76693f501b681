use lib::applied::{AppliedId, Equation, Id};
use lib::flat::SynClasses;
use lib::lang::{enode_eq, ENode};
use lib::proofs::{CongruenceProof, ExplicitProof, ProvenEqRaw, ReflexivityProof, SymmetryProof, TransitivityProof};
use lib::slot::{Slot, SlotTable};
use lib::slotmap::SlotMap;
use lib::steps::FlatteningContext;
use lib::expr::RecExpr;

fn map(v: &[(u64, u64)]) -> SlotMap {
    let mut m = SlotMap::new();
    for (k, x) in v {
        m.insert(Slot(*k), Slot(*x));
    }
    m
}

fn app(id: usize, v: &[(u64, u64)]) -> AppliedId {
    AppliedId::new(Id(id), map(v))
}

fn eq(l: AppliedId, r: AppliedId) -> Equation {
    Equation { l, r }
}

/// Class 0 is `x`, class 1 is `x x`, class 2 is `(x x) x`; each with the one slot `$0`.
fn graph() -> SynClasses {
    SynClasses {
        syn_enode: vec![
            ENode::Var(Slot(0)),
            ENode::App(app(0, &[(0, 0)]), app(0, &[(0, 0)])),
            ENode::App(app(1, &[(0, 0)]), app(0, &[(0, 0)])),
        ],
    }
}

#[test]
fn canonical_terms_follow_the_syntactic_e_nodes() {
    let g = graph();
    let tab = SlotTable::new();
    let n = g.get_syn_node(&app(1, &[(0, 4)]));
    assert!(enode_eq(&n, &ENode::App(app(0, &[(0, 4)]), app(0, &[(0, 4)]))));
    let e = g.get_syn_expr(&app(2, &[(0, 8)]));
    assert_eq!(e.show(&tab), "(app (app (var $2) (var $2)) (var $2))");
}

#[test]
fn explicit_step_at_the_root() {
    let g = graph();
    let tab = SlotTable::new();
    let p = ExplicitProof(Some("rw".to_string())).check(&eq(app(1, &[(0, 4)]), app(0, &[(0, 4)])));
    assert_eq!(
        p.to_flat_string(&g, &tab),
        Some("(app (var $1) (var $1))\n(Rewrite=> rw (var $1))".to_string())
    );
}

#[test]
fn symmetry_reads_the_step_backwards() {
    let g = graph();
    let tab = SlotTable::new();
    let p = ExplicitProof(Some("rw".to_string())).check(&eq(app(1, &[(0, 4)]), app(0, &[(0, 4)])));
    let s = SymmetryProof(p).check(&eq(app(0, &[(0, 4)]), app(1, &[(0, 4)])));
    assert_eq!(
        s.to_flat_string(&g, &tab),
        Some("(var $1)\n(Rewrite<= rw (app (var $1) (var $1)))".to_string())
    );
}

#[test]
fn congruence_rewrites_inside_a_child() {
    let g = graph();
    let tab = SlotTable::new();
    let p = ExplicitProof(Some("rw".to_string())).check(&eq(app(1, &[(0, 4)]), app(0, &[(0, 4)])));
    let r = ReflexivityProof.check(&eq(app(0, &[(0, 4)]), app(0, &[(0, 4)])));
    let l_node = ENode::App(app(1, &[(0, 4)]), app(0, &[(0, 4)]));
    let r_node = ENode::App(app(0, &[(0, 4)]), app(0, &[(0, 4)]));
    let c = CongruenceProof(vec![p, r])
        .check(&eq(app(2, &[(0, 4)]), app(1, &[(0, 4)])), &l_node, &r_node)
        .unwrap();
    assert_eq!(
        c.to_flat_string(&g, &tab),
        Some("(app (app (var $1) (var $1)) (var $1))\n(app (Rewrite=> rw (var $1)) (var $1))".to_string())
    );
}

#[test]
fn transitivity_takes_both_steps_in_turn() {
    let g = graph();
    let mut tab = SlotTable::new();
    let a = ExplicitProof(Some("a".to_string())).check(&eq(app(1, &[(0, 4)]), app(0, &[(0, 4)])));
    let b = ExplicitProof(Some("b".to_string())).check(&eq(app(0, &[(0, 4)]), app(1, &[(0, 4)])));
    let t = TransitivityProof(a, b).check(&eq(app(1, &[(0, 4)]), app(1, &[(0, 4)])), &mut tab).unwrap();
    assert_eq!(
        t.to_flat_string(&g, &tab),
        Some("(app (var $1) (var $1))\n(Rewrite=> a (var $1))\n(Rewrite=> b (app (var $1) (var $1)))".to_string())
    );
    let mut ctx = FlatteningContext {
        head: g.get_syn_expr(&app(1, &[(0, 4)])),
        slot_map: SlotMap::new(),
    };
    let steps = ProvenEqRaw::to_steps(&g, &t, vec![], false, &mut ctx).unwrap();
    assert_eq!(steps.len(), 2);
    assert_eq!(steps[0].jus, "a");
    assert_eq!(steps[1].jus, "b");
    assert!(!steps[0].back && !steps[1].back);
    assert!(steps[0].rw_pos.is_empty());
}

#[test]
fn reflexivity_has_no_steps() {
    let g = graph();
    let tab = SlotTable::new();
    let r = ReflexivityProof.check(&eq(app(2, &[(0, 4)]), app(2, &[(0, 4)])));
    assert_eq!(r.to_flat_string(&g, &tab), Some("(app (app (var $1) (var $1)) (var $1))".to_string()));
}

#[test]
fn unknown_class_or_missing_justification_gives_none() {
    let g = graph();
    let tab = SlotTable::new();
    let p = ExplicitProof(Some("rw".to_string())).check(&eq(app(7, &[(0, 4)]), app(0, &[(0, 4)])));
    assert_eq!(p.to_flat_string(&g, &tab), None);
    let q = ExplicitProof(None).check(&eq(app(1, &[(0, 4)]), app(0, &[(0, 4)])));
    assert_eq!(q.to_flat_string(&g, &tab), None);
}

#[test]
fn a_head_that_does_not_match_gives_none() {
    let g = graph();
    let p = ExplicitProof(Some("rw".to_string())).check(&eq(app(1, &[(0, 4)]), app(0, &[(0, 4)])));
    let mut ctx = FlatteningContext {
        head: RecExpr { node: ENode::Var(Slot(4)), children: vec![] },
        slot_map: SlotMap::new(),
    };
    assert!(ProvenEqRaw::to_steps(&g, &p, vec![], false, &mut ctx).is_none());
}

#[test]
fn subproofs_in_order() {
    let mut tab = SlotTable::new();
    let a = ExplicitProof(Some("a".to_string())).check(&eq(app(1, &[(0, 4)]), app(0, &[(0, 4)])));
    let b = ExplicitProof(Some("b".to_string())).check(&eq(app(0, &[(0, 4)]), app(1, &[(0, 4)])));
    assert!(a.subproofs().is_empty());
    let t = TransitivityProof(a.clone(), b.clone())
        .check(&eq(app(1, &[(0, 4)]), app(1, &[(0, 4)])), &mut tab)
        .unwrap();
    let subs = t.subproofs();
    assert_eq!(subs.len(), 2);
    assert!(std::sync::Arc::ptr_eq(&subs[0], &a));
    assert!(std::sync::Arc::ptr_eq(&subs[1], &b));
    let s = SymmetryProof(a.clone()).check(&eq(app(0, &[(0, 4)]), app(1, &[(0, 4)])));
    assert_eq!(s.subproofs().len(), 1);
}
