use lib::applied::{AppliedId, Id};
use lib::expr::{pattern_ast_to_flat, pattern_to_re, re_to_pattern, ENodeOrVar, Pattern, RecExpr, RecExprFlat};
use lib::lang::{enode_eq, ENode};
use lib::slot::Slot;
use lib::slotmap::SlotMap;

fn var(s: u64) -> ENode {
    ENode::Var(Slot(s))
}

fn app_node() -> ENode {
    ENode::App(AppliedId::null(), AppliedId::null())
}

#[test]
fn term_to_pattern_and_back() {
    let re = RecExpr {
        node: app_node(),
        children: vec![
            RecExpr { node: var(0), children: vec![] },
            RecExpr { node: var(4), children: vec![] },
        ],
    };
    let p = re_to_pattern(&re);
    match &p {
        Pattern::ENode(n, ch) => {
            assert!(enode_eq(n, &app_node()));
            assert_eq!(ch.len(), 2);
        }
        _ => panic!("expected an e-node"),
    }
    let back = pattern_to_re(&p);
    assert!(enode_eq(&back.node, &re.node));
    assert_eq!(back.children.len(), 2);
    assert!(enode_eq(&back.children[1].node, &var(4)));
}

#[test]
fn rec_expr_flat_basics() {
    let mut f: RecExprFlat<u8> = RecExprFlat::new();
    assert!(f.is_empty());
    let a = f.add(7);
    let b = f.add(9);
    assert_eq!(a.id, Id(0));
    assert_eq!(b.id, Id(1));
    assert_eq!(f.len(), 2);
    assert!(!f.is_empty());
    assert_eq!(f.root().id, Id(1));
    assert_eq!(f.nodes, vec![7, 9]);
    let d: RecExprFlat<u8> = RecExprFlat::default();
    assert_eq!(d.len(), 0);
}

#[test]
fn flattening_puts_children_first() {
    // (app ?a (var $0))
    let p = Pattern::ENode(
        app_node(),
        vec![Pattern::PVar("a".to_string()), Pattern::ENode(var(0), vec![])],
    );
    let flat = pattern_ast_to_flat(&p);
    assert_eq!(flat.len(), 3);
    assert!(matches!(&flat.nodes[0], ENodeOrVar::Var(v) if v == "a"));
    assert!(matches!(&flat.nodes[1], ENodeOrVar::ENode(n) if enode_eq(n, &var(0))));
    match &flat.nodes[2] {
        ENodeOrVar::ENode(ENode::App(l, r)) => {
            assert_eq!(l.id, Id(0));
            assert_eq!(r.id, Id(1));
        }
        _ => panic!("expected the app node last"),
    }
}

#[test]
fn flattening_keeps_the_renamings() {
    let mut m = SlotMap::new();
    m.insert(Slot(0), Slot(8));
    let p = Pattern::ENode(
        ENode::Lam(Slot(8), AppliedId::new(Id(5), m)),
        vec![Pattern::PVar("b".to_string())],
    );
    let flat = pattern_ast_to_flat(&p);
    match &flat.nodes[1] {
        ENodeOrVar::ENode(ENode::Lam(s, a)) => {
            assert_eq!(*s, Slot(8));
            assert_eq!(a.id, Id(0));
            assert_eq!(a.m.get(Slot(0)), Some(Slot(8)));
        }
        _ => panic!("expected the lambda last"),
    }
}
