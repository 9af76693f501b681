use lib::applied::{AppliedId, Id};
use lib::expr::{ENodeOrVar, RecExprFlat};
use lib::lang::{enode_eq, ENode};
use lib::egraph::EGraph;
use lib::machine::{is_leaf, zero_ids, ENodeOrReg, Instruction, Machine, Program, Reg};
use lib::slot::Slot;
use lib::slotmap::SlotMap;

fn at(i: usize) -> AppliedId {
    AppliedId::new(Id(i), SlotMap::new())
}

fn pvar(s: &str) -> ENodeOrVar<ENode> {
    ENodeOrVar::Var(s.to_string())
}

fn subst_reg(p: &Program, name: &str) -> Option<usize> {
    p.subst.iter().find(|(n, _)| n == name).map(|(_, a)| a.id.0)
}

#[test]
fn binding_an_application_of_two_variables() {
    // (app ?a ?b)
    let mut f: RecExprFlat<ENodeOrVar<ENode>> = RecExprFlat::new();
    f.add(pvar("a"));
    f.add(pvar("b"));
    f.add(ENodeOrVar::ENode(ENode::App(at(0), at(1))));
    let prog = Program::compile_from_pat(&f);
    assert_eq!(prog.instructions.len(), 1);
    match &prog.instructions[0] {
        Instruction::Bind { node, i, out } => {
            assert!(enode_eq(node, &ENode::App(at(0), at(0))));
            assert_eq!(*i, Reg(0));
            assert_eq!(*out, Reg(1));
        }
        _ => panic!("expected a bind"),
    }
    assert_eq!(prog.subst.len(), 2);
    assert_eq!(subst_reg(&prog, "a"), Some(1));
    assert_eq!(subst_reg(&prog, "b"), Some(2));
}

#[test]
fn a_repeated_variable_gives_a_comparison() {
    // (app ?a ?a)
    let mut f: RecExprFlat<ENodeOrVar<ENode>> = RecExprFlat::new();
    f.add(pvar("a"));
    f.add(pvar("a"));
    f.add(ENodeOrVar::ENode(ENode::App(at(0), at(1))));
    let prog = Program::compile_from_pat(&f);
    assert_eq!(prog.instructions.len(), 2);
    match &prog.instructions[1] {
        Instruction::Compare { i, j } => {
            assert_eq!(*i, Reg(2));
            assert_eq!(*j, Reg(1));
        }
        _ => panic!("expected a comparison"),
    }
    assert_eq!(prog.subst.len(), 1);
    assert_eq!(subst_reg(&prog, "a"), Some(1));
}

#[test]
fn a_ground_pattern_is_looked_up() {
    // (app (var $0) (var $4))
    let mut f: RecExprFlat<ENodeOrVar<ENode>> = RecExprFlat::new();
    f.add(ENodeOrVar::ENode(ENode::Var(Slot(0))));
    f.add(ENodeOrVar::ENode(ENode::Var(Slot(4))));
    f.add(ENodeOrVar::ENode(ENode::App(at(0), at(1))));
    let prog = Program::compile_from_pat(&f);
    assert_eq!(prog.instructions.len(), 1);
    match &prog.instructions[0] {
        Instruction::Lookup { term, i } => {
            assert_eq!(*i, Reg(0));
            assert_eq!(term.len(), 3);
            match &term[2] {
                ENodeOrReg::ENode(n) => assert!(enode_eq(n, &ENode::App(at(0), at(1)))),
                _ => panic!("expected an e-node"),
            }
        }
        _ => panic!("expected a lookup"),
    }
    assert!(prog.subst.is_empty());
}

#[test]
fn a_lambda_over_a_variable() {
    // (lam $8 ?b)
    let mut f: RecExprFlat<ENodeOrVar<ENode>> = RecExprFlat::new();
    f.add(pvar("b"));
    f.add(ENodeOrVar::ENode(ENode::Lam(Slot(8), at(0))));
    let prog = Program::compile_from_pat(&f);
    assert_eq!(prog.instructions.len(), 1);
    match &prog.instructions[0] {
        Instruction::Bind { node, i, out } => {
            assert!(enode_eq(node, &ENode::Lam(Slot(8), at(0))));
            assert_eq!(*i, Reg(0));
            assert_eq!(*out, Reg(1));
        }
        _ => panic!("expected a bind"),
    }
    assert_eq!(subst_reg(&prog, "b"), Some(1));
}

#[test]
fn a_variable_alone_needs_no_instruction() {
    let mut f: RecExprFlat<ENodeOrVar<ENode>> = RecExprFlat::new();
    f.add(pvar("x"));
    let prog = Program::compile_from_pat(&f);
    assert!(prog.instructions.is_empty());
    assert_eq!(subst_reg(&prog, "x"), Some(0));
}

#[test]
fn nested_pattern_binds_the_inner_node_after_the_outer_one() {
    // (app (lam $8 ?x) ?y)
    let mut f: RecExprFlat<ENodeOrVar<ENode>> = RecExprFlat::new();
    f.add(pvar("x"));
    f.add(ENodeOrVar::ENode(ENode::Lam(Slot(8), at(0))));
    f.add(pvar("y"));
    f.add(ENodeOrVar::ENode(ENode::App(at(1), at(2))));
    let prog = Program::compile_from_pat(&f);
    assert_eq!(prog.instructions.len(), 2);
    match &prog.instructions[1] {
        Instruction::Bind { node, i, out } => {
            assert!(enode_eq(node, &ENode::Lam(Slot(8), at(0))));
            assert_eq!(*i, Reg(1));
            assert_eq!(*out, Reg(3));
        }
        _ => panic!("expected a bind"),
    }
    assert_eq!(subst_reg(&prog, "x"), Some(3));
    assert_eq!(subst_reg(&prog, "y"), Some(2));
}

#[test]
fn extracting_a_subterm() {
    let mut f: RecExprFlat<ENodeOrVar<ENode>> = RecExprFlat::new();
    f.add(pvar("x"));
    f.add(ENodeOrVar::ENode(ENode::Var(Slot(4))));
    f.add(ENodeOrVar::ENode(ENode::App(at(0), at(1))));
    f.add(ENodeOrVar::ENode(ENode::Lam(Slot(8), at(1))));
    let sub = f.extract(&at(3));
    assert_eq!(sub.len(), 2);
    match &sub.nodes[1] {
        ENodeOrVar::ENode(n) => assert!(enode_eq(n, &ENode::Lam(Slot(8), at(0)))),
        _ => panic!("expected an e-node"),
    }
    let all = f.extract(&at(2));
    assert_eq!(all.len(), 3);
}

#[test]
fn leaves_and_zeroed_children() {
    assert!(is_leaf(&ENode::Var(Slot(0))));
    assert!(!is_leaf(&ENode::Lam(Slot(0), at(3))));
    assert!(enode_eq(&zero_ids(&ENode::App(at(5), at(7))), &ENode::App(at(0), at(0))));
}

#[test]
fn a_lone_variable_reads_the_root_register() {
    let mut f: RecExprFlat<ENodeOrVar<ENode>> = RecExprFlat::new();
    f.add(pvar("x"));
    let prog = Program::compile_from_pat(&f);
    assert!(prog.instructions.is_empty());
    assert_eq!(prog.subst.len(), 1);
    assert_eq!(prog.subst[0].0, "x");
    assert_eq!(prog.subst[0].1.id, Id(0));
    assert!(prog.subst[0].1.m.map_eq(&SlotMap::new()));
}

fn ident(i: usize, s: u64) -> AppliedId {
    let mut m = SlotMap::new();
    m.insert(Slot(s), Slot(s));
    AppliedId::new(Id(i), m)
}

#[test]
fn running_a_bind_yields_the_children_of_each_matching_enode() {
    // (app ?a ?b) against a class that holds one application and one variable.
    let mut f: RecExprFlat<ENodeOrVar<ENode>> = RecExprFlat::new();
    f.add(pvar("a"));
    f.add(pvar("b"));
    f.add(ENodeOrVar::ENode(ENode::App(at(0), at(1))));
    let prog = Program::compile_from_pat(&f);

    let mut eg = EGraph::new();
    let x = eg.add(ENode::Var(Slot(4)));
    let y = eg.add(ENode::Var(Slot(8)));
    let app = eg.add(ENode::App(ident(0, 4), ident(1, 8)));
    let z = eg.add(ENode::Var(Slot(12)));
    assert!(eg.union(&app, &z));

    let mut machine = Machine { reg: vec![AppliedId::new(app.id, SlotMap::new())] };
    let mut out = Vec::new();
    machine.run(&eg, &prog.instructions, 0, &mut out);
    assert_eq!(out.len(), 1);
    assert_eq!(out[0].len(), 3);
    assert_eq!(out[0][0].id, app.id);
    assert_eq!(out[0][1].id, x.id);
    assert_eq!(out[0][2].id, y.id);
}

#[test]
fn running_a_bind_on_a_class_without_matching_enodes_yields_nothing() {
    let mut f: RecExprFlat<ENodeOrVar<ENode>> = RecExprFlat::new();
    f.add(pvar("a"));
    f.add(ENodeOrVar::ENode(ENode::Lam(Slot(0), at(0))));
    let prog = Program::compile_from_pat(&f);

    let mut eg = EGraph::new();
    let x = eg.add(ENode::Var(Slot(4)));
    let mut machine = Machine { reg: vec![x] };
    let mut out = Vec::new();
    machine.run(&eg, &prog.instructions, 0, &mut out);
    assert!(out.is_empty());
}

#[test]
fn a_program_without_instructions_yields_its_registers_once() {
    let eg = EGraph::new();
    let mut machine = Machine { reg: vec![at(7)] };
    let mut out = Vec::new();
    machine.run(&eg, &Vec::new(), 0, &mut out);
    assert_eq!(out.len(), 1);
    assert_eq!(out[0][0].id, Id(7));
}
