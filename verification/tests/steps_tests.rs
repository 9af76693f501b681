use lib::applied::AppliedId;
use lib::expr::RecExpr;
use lib::lang::{enode_eq, ENode};
use lib::slot::{Slot, SlotTable};
use lib::slotmap::SlotMap;
use lib::steps::{Child, FlatteningContext, Step};

fn leaf(n: ENode) -> RecExpr {
    RecExpr { node: n, children: vec![] }
}

fn var(s: u64) -> RecExpr {
    leaf(ENode::Var(Slot(s)))
}

fn app(a: RecExpr, b: RecExpr) -> RecExpr {
    RecExpr { node: ENode::App(AppliedId::null(), AppliedId::null()), children: vec![a, b] }
}

fn lam(s: u64, b: RecExpr) -> RecExpr {
    RecExpr { node: ENode::Lam(Slot(s), AppliedId::null()), children: vec![b] }
}

#[test]
fn a_step_below_the_root() {
    let tab = SlotTable::new();
    let step = Step {
        dst: app(var(0), lam(4, var(4))),
        rw_pos: vec![1],
        jus: "beta".to_string(),
        back: false,
    };
    assert_eq!(step.to_string(&tab), "(app (var $0) (Rewrite=> beta (lam $1 (var $1))))");
}

#[test]
fn a_backward_step_at_the_root() {
    let tab = SlotTable::new();
    let step = Step { dst: var(0), rw_pos: vec![], jus: "eta".to_string(), back: true };
    assert_eq!(step.to_string(&tab), "(Rewrite<= eta (var $0))");
}

#[test]
fn printing_a_term() {
    let tab = SlotTable::new();
    assert_eq!(lam(4, app(var(4), var(0))).show(&tab), "(lam $1 (app (var $1) (var $0)))");
}

#[test]
fn fields_of_an_e_node() {
    let (op, ch) = ENode::Lam(Slot(4), AppliedId::null()).to_op();
    assert_eq!(op, "lam");
    assert_eq!(ch.len(), 2);
    assert!(matches!(ch[0], Child::Slot(Slot(4))));
    assert!(matches!(ch[1], Child::AppliedId(_)));
}

#[test]
fn subterms_and_their_replacement() {
    let e = app(var(0), lam(4, var(4)));
    let s = e.subexpr(&vec![1, 0]);
    assert!(enode_eq(&s.node, &ENode::Var(Slot(4))));
    let r = e.replace_subexpr(&vec![1], var(8));
    assert!(enode_eq(&r.children[1].node, &ENode::Var(Slot(8))));
    assert!(enode_eq(&r.children[0].node, &ENode::Var(Slot(0))));
    let whole = e.replace_subexpr(&vec![], var(12));
    assert!(enode_eq(&whole.node, &ENode::Var(Slot(12))));
}

#[test]
fn renaming_slots_to_those_of_the_head() {
    let mut ctx = FlatteningContext { head: app(var(0), lam(4, var(4))), slot_map: SlotMap::new() };
    ctx.update_slot_map(&lam(8, var(8)), &vec![1]);
    assert_eq!(ctx.slot_map.get(Slot(8)), Some(Slot(4)));
    assert_eq!(ctx.slot_map.len(), 1);
    ctx.update_slot_map(&var(0), &vec![0]);
    assert_eq!(ctx.slot_map.len(), 1);
}

#[test]
fn following_and_applying_a_slot_map() {
    let mut m = SlotMap::new();
    m.insert(Slot(1), Slot(2));
    m.insert(Slot(2), Slot(3));
    assert_eq!(RecExpr::map_slot(Slot(1), &m), Slot(3));
    assert_eq!(RecExpr::map_slot(Slot(5), &m), Slot(5));
    let mut e = app(var(1), lam(2, var(5)));
    e.apply_slot_map(&m);
    assert!(enode_eq(&e.children[0].node, &ENode::Var(Slot(3))));
    assert!(enode_eq(&e.children[1].node, &ENode::Lam(Slot(3), AppliedId::null())));
    assert!(enode_eq(&e.children[1].children[0].node, &ENode::Var(Slot(5))));
}

#[test]
fn settling_is_decided_exactly() {
    let mut chain = SlotMap::new();
    chain.insert(Slot(0), Slot(4));
    chain.insert(Slot(4), Slot(8));
    assert!(lib::steps::check_settled(&chain, &app(var(0), var(12))));
    let mut circle = SlotMap::new();
    circle.insert(Slot(0), Slot(4));
    circle.insert(Slot(4), Slot(0));
    assert!(!lib::steps::check_settled(&circle, &var(0)));
    assert!(lib::steps::check_settled(&circle, &var(8)));
}
