use lib::applied::{AppliedId, Equation, Id};
use lib::lang::{alpha_normalize, enode_eq};
use lib::proofs::{try_match_equation, CongruenceProof, assert_match_equation, match_app_id, ExplicitProof, Proof, ReflexivityProof, SymmetryProof, TransitivityProof};
use lib::slot::{Slot, SlotTable};
use lib::slotmap::SlotMap;
use lib::slotset::SlotSet;
use lib::wrapper::{ProvenContains, ProvenNode, ProvenAppliedId, ProvenPerm};
use lib::lang::ENode;
use std::sync::Arc;

fn map(v: &[(u64, u64)]) -> SlotMap {
    let mut m = SlotMap::new();
    for (k, x) in v {
        m.insert(Slot(*k), Slot(*x));
    }
    m
}

fn app(id: usize, v: &[(u64, u64)]) -> AppliedId {
    AppliedId::new(Id(id), map(v))
}

fn eq(l: AppliedId, r: AppliedId) -> Equation {
    Equation { l, r }
}

#[test]
fn match_renamings() {
    let a = app(1, &[(0, 8), (4, 12)]);
    let b = app(1, &[(0, 20), (4, 24)]);
    let theta = match_app_id(&a, &b);
    assert!(theta.map_eq(&map(&[(8, 20), (12, 24)])));
    let e1 = eq(app(1, &[(0, 8)]), app(2, &[(0, 8)]));
    let e2 = eq(app(1, &[(0, 16)]), app(2, &[(0, 16)]));
    assert!(assert_match_equation(&e1, &e2).map_eq(&map(&[(8, 16)])));
}

#[test]
fn explicit_and_reflexive_steps() {
    let e = eq(app(1, &[(0, 8)]), app(2, &[(0, 8)]));
    let p = ExplicitProof(Some("rule".to_string())).check(&e);
    assert_eq!(p.equ().l.id, Id(1));
    assert!(matches!(p.proof_step(), Proof::Explicit(ExplicitProof(Some(s))) if s == "rule"));
    let r = ReflexivityProof.check(&eq(app(3, &[(0, 4)]), app(3, &[(0, 4)])));
    assert!(matches!(r.proof_step(), Proof::Reflexivity(_)));
}

#[test]
fn symmetry_flips_the_equation() {
    let e = eq(app(1, &[(0, 8)]), app(2, &[(0, 8)]));
    let p = ExplicitProof(None).check(&e);
    let flipped = eq(app(2, &[(0, 8)]), app(1, &[(0, 8)]));
    let s = SymmetryProof(p.clone()).check(&flipped);
    assert_eq!(s.equ().l.id, Id(2));
    assert_eq!(s.equ().r.id, Id(1));
    assert!(matches!(s.proof_step(), Proof::Symmetry(SymmetryProof(x)) if Arc::ptr_eq(x, &p)));
}

#[test]
fn transitivity_chains_two_steps() {
    let mut tab = SlotTable::new();
    let p1 = ExplicitProof(None).check(&eq(app(1, &[(0, 8)]), app(2, &[(0, 8)])));
    let p2 = ExplicitProof(None).check(&eq(app(2, &[(0, 12)]), app(3, &[(0, 12)])));
    let goal = eq(app(1, &[(0, 40)]), app(3, &[(0, 40)]));
    let t = TransitivityProof(p1.clone(), p2.clone()).check(&goal, &mut tab);
    assert!(t.is_some());
    let t = t.unwrap();
    assert_eq!(t.equ().l.id, Id(1));
    assert_eq!(t.equ().r.id, Id(3));
    let wrong = eq(app(1, &[(0, 40)]), app(4, &[(0, 40)]));
    assert!(TransitivityProof(p1, p2).check(&wrong, &mut tab).is_none());
}

#[test]
fn proven_perms() {
    let mut tab = SlotTable::new();
    let slots = SlotSet::from_vec(&vec![Slot(0), Slot(4)]);
    let id = ProvenPerm::identity(Id(7), &slots, &slots);
    assert!(id.elem.is_identity());
    id.check();
    let inv = id.inverse();
    assert!(inv.elem.is_identity());
    assert_eq!(inv.proof.equ().l.id, Id(7));
    let c = id.compose(&inv, &mut tab);
    assert!(c.is_some());
    assert!(c.unwrap().elem.is_identity());
}

#[test]
fn proven_wrappers() {
    let p = ExplicitProof(None).check(&eq(app(1, &[(0, 8)]), app(2, &[(0, 8)])));
    let pai = ProvenAppliedId { elem: app(2, &[(0, 8)]), proof: p.clone() };
    let node = ProvenNode { elem: ENode::Var(Slot(8)), proofs: vec![] };
    node.check_base(&ENode::Var(Slot(8)));
    let (sh, bij) = node.weak_shape();
    assert!(matches!(sh.elem, ENode::Var(Slot(0))));
    assert_eq!(bij.get(Slot(0)), Some(Slot(8)));
    let pc = ProvenContains { node, pai };
    assert_eq!(pc.src_id(), Id(1));
    assert_eq!(pc.target_id(), Id(2));
}

#[test]
fn alpha_normal_forms_agree_on_bound_names() {
    let a = ENode::Lam(Slot(10), app(1, &[(0, 10), (4, 20)]));
    let b = ENode::Lam(Slot(30), app(1, &[(0, 30), (4, 20)]));
    assert!(enode_eq(&alpha_normalize(&a), &alpha_normalize(&b)));
    let c = ENode::Lam(Slot(30), app(1, &[(0, 30), (4, 24)]));
    assert!(!enode_eq(&alpha_normalize(&a), &alpha_normalize(&c)));
}

#[test]
fn try_match_equation_needs_agreeing_renamings() {
    let e1 = eq(app(1, &[(0, 8)]), app(2, &[(0, 8)]));
    let e2 = eq(app(1, &[(0, 16)]), app(2, &[(0, 16)]));
    let e3 = eq(app(1, &[(0, 16)]), app(2, &[(0, 20)]));
    assert!(try_match_equation(&e1, &e2).is_some());
    assert!(try_match_equation(&e1, &e3).is_none());
}

#[test]
fn congruence_of_applications() {
    let pf = ExplicitProof(None).check(&eq(app(1, &[(0, 8)]), app(2, &[(0, 8)])));
    let pg = ExplicitProof(None).check(&eq(app(3, &[]), app(3, &[])));
    let l = ENode::App(app(1, &[(0, 8)]), app(3, &[]));
    let r = ENode::App(app(2, &[(0, 8)]), app(3, &[]));
    let goal = eq(app(10, &[(0, 8)]), app(11, &[(0, 8)]));
    let c = CongruenceProof(vec![pf.clone(), pg.clone()]);
    let p = c.check(&goal, &l, &r);
    assert!(p.is_some());
    assert!(matches!(p.unwrap().proof_step(), Proof::Congruence(CongruenceProof(v)) if v.len() == 2));
    let short = CongruenceProof(vec![pf.clone()]);
    assert!(short.check(&goal, &l, &r).is_none());
    let other = ENode::Lam(Slot(8), app(2, &[(0, 8)]));
    assert!(c.check(&goal, &l, &other).is_none());
}

#[test]
fn composing_two_real_symmetries() {
    let mut tab = SlotTable::new();
    let swap = ProvenPerm {
        elem: map(&[(0, 4), (4, 0)]),
        proof: ExplicitProof(Some("swap".to_string())).check(&eq(app(7, &[(0, 0), (4, 4)]), app(7, &[(0, 4), (4, 0)]))),
    };
    let c = swap.compose(&swap, &mut tab);
    assert!(c.is_some());
    let c = c.unwrap();
    assert!(c.elem.is_identity());
    assert_eq!(c.proof.equ().l.id, Id(7));
    assert_eq!(c.proof.equ().r.id, Id(7));
}
