use vstd::prelude::*;
use crate::slotmap::SlotMap;
use crate::applied::{AppliedId, Id};
use crate::lang::{ENode, app_ids_spec, AppView, app_views, app_view, with_all_slots, rename_public};
use crate::proofs::{app_map, view_children};
use crate::slot::Slot;
use crate::egraph::EGraph;
use crate::expr::{RecExprFlat, ENodeOrVar, FlatView, with_ids, flat_view, flat_views};

verus! {

/// A register of the pattern-matching machine; it holds an e-class invocation.
#[derive(Clone, Copy, PartialEq, Eq, Structural, Debug)]
pub struct Reg(pub u32);

/// A node of a ground sub-pattern to look up: an e-node, or the class held by a register.
#[derive(Debug)]
pub enum ENodeOrReg {
    ENode(ENode),
    Reg(Reg),
}

/// One step of a matching program.
#[derive(Debug)]
pub enum Instruction {
    /// For each e-node of the class in register `i` of the same kind as `node`, put its
    /// children into the registers from `out` on, and go on with the rest of the program.
    Bind { node: ENode, i: Reg, out: Reg },
    /// The classes in registers `i` and `j` must be equal.
    Compare { i: Reg, j: Reg },
    /// The ground term `term` must be in the e-graph, equal to the class in register `i`.
    Lookup { term: Vec<ENodeOrReg>, i: Reg },
    /// Put each class of the e-graph into register `out`.
    Scan { out: Reg },
}

/// A compiled pattern: the instructions, and for each pattern variable the register that
/// holds its class after a match (as the id of an invocation without slots).
#[derive(Debug)]
pub struct Program {
    pub instructions: Vec<Instruction>,
    pub subst: Vec<(String, AppliedId)>,
}

/// The child invocations of a node of a flattened pattern.
pub open spec fn node_children(x: ENodeOrVar<ENode>) -> Seq<AppliedId> {
    match x {
        ENodeOrVar::ENode(n) => app_ids_spec(n),
        ENodeOrVar::Var(_) => seq![],
    }
}

/// Every child invocation of a node points at an earlier node.
pub open spec fn flat_wf(p: Seq<ENodeOrVar<ENode>>) -> bool {
    forall|i: int, k: int|
        #![trigger node_children(p[i])[k]]
        0 <= i < p.len() && 0 <= k < node_children(p[i]).len() ==> node_children(p[i])[k].id.0 < i
}

/// The pattern variables that occur under node `i`.
pub open spec fn vars_at(p: Seq<ENodeOrVar<ENode>>, i: int) -> Set<Seq<char>>
    decreases i,
{
    if 0 <= i < p.len() {
        match p[i] {
            ENodeOrVar::Var(v) => set![v@],
            ENodeOrVar::ENode(n) => match n {
                ENode::Lam(_, a) => if 0 <= a.id.0 < i {
                    vars_at(p, a.id.0 as int)
                } else {
                    Set::empty()
                },
                ENode::App(a, b) => {
                    let va = if 0 <= a.id.0 < i {
                        vars_at(p, a.id.0 as int)
                    } else {
                        Set::empty()
                    };
                    let vb = if 0 <= b.id.0 < i {
                        vars_at(p, b.id.0 as int)
                    } else {
                        Set::empty()
                    };
                    va.union(vb)
                },
                ENode::Var(_) => Set::empty(),
            },
        }
    } else {
        Set::empty()
    }
}

/// The number of e-nodes in the term under node `i` (shared nodes counted each time).
pub open spec fn size_at(p: Seq<ENodeOrVar<ENode>>, i: int) -> nat
    decreases i,
{
    if 0 <= i < p.len() {
        match p[i] {
            ENodeOrVar::Var(_) => 0,
            ENodeOrVar::ENode(n) => match n {
                ENode::Lam(_, a) => 1 + if 0 <= a.id.0 < i {
                    size_at(p, a.id.0 as int)
                } else {
                    0
                },
                ENode::App(a, b) => 1 + (if 0 <= a.id.0 < i {
                    size_at(p, a.id.0 as int)
                } else {
                    0
                }) + (if 0 <= b.id.0 < i {
                    size_at(p, b.id.0 as int)
                } else {
                    0
                }),
                ENode::Var(_) => 1,
            },
        }
    } else {
        0
    }
}

/// The text of each string.
pub open spec fn texts(v: Seq<String>) -> Seq<Seq<char>> {
    v.map_values(|s: String| s@)
}

/// No text occurs twice.
pub open spec fn distinct_texts(v: Seq<String>) -> bool {
    forall|a: int, b: int| #![trigger v[a], v[b]] 0 <= a < v.len() && 0 <= b < v.len() && a != b ==> v[a]@ != v[b]@
}

/// Whether `v` holds the text `s`; its position, if so.
fn find_text(v: &Vec<String>, s: &String) -> (r: Option<usize>)
    ensures
        r matches Some(k) ==> k < v@.len() && v@[k as int]@ == s@,
        r is None ==> !texts(v@).contains(s@),
{
    let mut i: usize = 0;
    while i < v.len()
        invariant
            0 <= i <= v@.len(),
            forall|j: int| 0 <= j < i ==> #[trigger] v@[j]@ != s@,
        decreases v@.len() - i,
    {
        if v[i] == *s {
            return Some(i);
        }
        i = i + 1;
    }
    proof {
        assert forall|j: int| 0 <= j < texts(v@).len() implies texts(v@)[j] != s@ by {
            assert(texts(v@)[j] == v@[j]@);
        }
    }
    None
}

/// Adds to `acc` the texts of `more` that it lacks.
fn extend_texts(acc: &mut Vec<String>, more: &Vec<String>)
    requires
        distinct_texts(old(acc)@),
    ensures
        distinct_texts(final(acc)@),
        texts(final(acc)@).to_set() == texts(old(acc)@).to_set().union(texts(more@).to_set()),
{
    let mut i: usize = 0;
    while i < more.len()
        invariant
            0 <= i <= more@.len(),
            distinct_texts(acc@),
            texts(acc@).to_set() == texts(old(acc)@).to_set().union(texts(more@.subrange(0, i as int)).to_set()),
        decreases more@.len() - i,
    {
        let ghost before = acc@;
        let s = &more[i];
        assert(more@.subrange(0, i + 1) =~= more@.subrange(0, i as int).push(*s));
        assert(texts(more@.subrange(0, i + 1)) =~= texts(more@.subrange(0, i as int)).push(s@));
        proof {
            crate::slotset::lemma_push_contains(texts(more@.subrange(0, i as int)), s@);
            assert(texts(more@.subrange(0, i + 1)).to_set() =~= texts(more@.subrange(0, i as int)).to_set().insert(s@));
        }
        match find_text(acc, s) {
            Some(k) => {
                assert(texts(acc@)[k as int] == s@);
                assert(texts(acc@).to_set().contains(s@));
                assert(texts(acc@).to_set() =~= texts(old(acc)@).to_set().union(texts(more@.subrange(0, i + 1)).to_set()));
            },
            None => {
                acc.push(s.clone());
                assert(texts(acc@) =~= texts(before).push(s@));
                proof {
                    crate::slotset::lemma_push_contains(texts(before), s@);
                    assert(texts(acc@).to_set() =~= texts(before).to_set().insert(s@));
                }
                assert forall|a: int, b: int| #![trigger acc@[a], acc@[b]] 0 <= a < acc@.len() && 0 <= b < acc@.len() && a != b implies acc@[a]@ != acc@[b]@ by {
                    if a < before.len() && b < before.len() {
                        assert(acc@[a] == before[a] && acc@[b] == before[b]);
                    } else if a < before.len() {
                        assert(acc@[a] == before[a]);
                        assert(texts(before)[a] == before[a]@);
                    } else if b < before.len() {
                        assert(acc@[b] == before[b]);
                        assert(texts(before)[b] == before[b]@);
                    }
                }
                assert(texts(acc@).to_set() =~= texts(old(acc)@).to_set().union(texts(more@.subrange(0, i + 1)).to_set()));
            },
        }
        i = i + 1;
    }
    assert(more@.subrange(0, more@.len() as int) =~= more@);
}

/// The nodes of the term under node `i`, copied in post-order after `start` nodes, each child
/// invocation pointing at the position of the copy of the child.
pub open spec fn extract_spec(p: Seq<ENodeOrVar<ENode>>, i: int, start: nat) -> Seq<FlatView>
    decreases i,
{
    if 0 <= i < p.len() {
        match p[i] {
            ENodeOrVar::Var(v) => seq![FlatView::Var(v@)],
            ENodeOrVar::ENode(n) => match n {
                ENode::Lam(_, a) => {
                    let sa = if 0 <= a.id.0 < i {
                        extract_spec(p, a.id.0 as int, start)
                    } else {
                        seq![]
                    };
                    sa.push(FlatView::ENode(with_ids(n, seq![Id((start + sa.len() - 1) as usize)])))
                },
                ENode::App(a, b) => {
                    let sa = if 0 <= a.id.0 < i {
                        extract_spec(p, a.id.0 as int, start)
                    } else {
                        seq![]
                    };
                    let sb = if 0 <= b.id.0 < i {
                        extract_spec(p, b.id.0 as int, start + sa.len())
                    } else {
                        seq![]
                    };
                    (sa + sb).push(
                        FlatView::ENode(
                            with_ids(
                                n,
                                seq![
                                    Id((start + sa.len() - 1) as usize),
                                    Id((start + sa.len() + sb.len() - 1) as usize),
                                ],
                            ),
                        ),
                    )
                },
                ENode::Var(_) => seq![FlatView::ENode(n@)],
            },
        }
    } else {
        seq![]
    }
}

/// Appends the copy of the term under node `i` of `p` to `out`; returns the position of the
/// copy of node `i`.
fn extract_into(p: &RecExprFlat<ENodeOrVar<ENode>>, i: usize, out: &mut RecExprFlat<ENodeOrVar<ENode>>) -> (r: Id)
    requires
        flat_wf(p.nodes@),
        i < p.nodes@.len(),
        old(out).nodes@.len() + extract_spec(p.nodes@, i as int, old(out).nodes@.len() as nat).len() <= usize::MAX,
    ensures
        flat_views(final(out).nodes@) == flat_views(old(out).nodes@) + extract_spec(p.nodes@, i as int, old(out).nodes@.len() as nat),
        final(out).nodes@.len() > 0,
        r == Id((final(out).nodes@.len() - 1) as usize),
    decreases i,
{
    let ghost start = out.nodes@.len() as nat;
    let ghost before = out.nodes@;
    let ghost pv = p.nodes@;
    match &p.nodes[i] {
        ENodeOrVar::Var(v) => {
            out.add(ENodeOrVar::Var(v.clone()));
            assert(flat_views(out.nodes@) =~= flat_views(before) + extract_spec(pv, i as int, start));
        },
        ENodeOrVar::ENode(n) => {
            match n {
                ENode::Lam(s, a) => {
                    assert(node_children(pv[i as int])[0] == *a);
                    let ca = extract_into(p, a.id.0, out);
                    let ghost sa = extract_spec(pv, a.id.0 as int, start);
                    assert(flat_views(out.nodes@).len() == out.nodes@.len());
                    assert(flat_views(before).len() == before.len());
                    assert(out.nodes@.len() == start + sa.len());
                    let node = ENode::Lam(*s, AppliedId::new(ca, a.m.clone()));
                    assert(node@ == with_ids(*n, seq![Id((start + sa.len() - 1) as usize)]));
                    let ghost mid = out.nodes@;
                    out.add(ENodeOrVar::ENode(node));
                    assert(flat_views(out.nodes@) =~= flat_views(mid).push(FlatView::ENode(node@)));
                    assert(flat_views(out.nodes@) =~= flat_views(before) + extract_spec(pv, i as int, start));
                },
                ENode::App(a, b) => {
                    assert(node_children(pv[i as int])[0] == *a);
                    assert(node_children(pv[i as int])[1] == *b);
                    let ghost sa = extract_spec(pv, a.id.0 as int, start);
                    let ca = extract_into(p, a.id.0, out);
                    assert(flat_views(out.nodes@).len() == out.nodes@.len());
                    assert(flat_views(before).len() == before.len());
                    assert(out.nodes@.len() == start + sa.len());
                    let ghost sb = extract_spec(pv, b.id.0 as int, start + sa.len());
                    let ghost mid1 = out.nodes@;
                    let cb = extract_into(p, b.id.0, out);
                    assert(flat_views(out.nodes@).len() == out.nodes@.len());
                    assert(flat_views(mid1).len() == mid1.len());
                    assert(out.nodes@.len() == start + sa.len() + sb.len());
                    let node = ENode::App(AppliedId::new(ca, a.m.clone()), AppliedId::new(cb, b.m.clone()));
                    assert(node@ == with_ids(
                        *n,
                        seq![Id((start + sa.len() - 1) as usize), Id((start + sa.len() + sb.len() - 1) as usize)],
                    ));
                    let ghost mid = out.nodes@;
                    out.add(ENodeOrVar::ENode(node));
                    assert(flat_views(out.nodes@) =~= flat_views(mid).push(FlatView::ENode(node@)));
                    assert(flat_views(out.nodes@) =~= flat_views(before) + extract_spec(pv, i as int, start));
                },
                ENode::Var(s) => {
                    out.add(ENodeOrVar::ENode(ENode::Var(*s)));
                    assert(flat_views(out.nodes@) =~= flat_views(before) + extract_spec(pv, i as int, start));
                },
            }
        },
    }
    Id(out.nodes.len() - 1)
}

impl RecExprFlat<ENodeOrVar<ENode>> {
    /// The term under `new_root`, on its own: its nodes in post-order, the root last.
    pub fn extract(&self, new_root: &AppliedId) -> (r: Self)
        requires
            flat_wf(self.nodes@),
            new_root.id.0 < self.nodes@.len(),
            extract_spec(self.nodes@, new_root.id.0 as int, 0).len() <= usize::MAX,
        ensures
            flat_views(r.nodes@) == extract_spec(self.nodes@, new_root.id.0 as int, 0),
    {
        let mut out: RecExprFlat<ENodeOrVar<ENode>> = RecExprFlat::new();
        extract_into(self, new_root.id.0, &mut out);
        assert(flat_views(out.nodes@) =~= extract_spec(self.nodes@, new_root.id.0 as int, 0));
        out
    }
}

/// The e-node with the id of every child invocation set to `Id(0)`; the renamings stay.
pub fn zero_ids(n: &ENode) -> (r: ENode)
    ensures
        r@ == with_ids(*n, seq![Id(0), Id(0)]),
        app_ids_spec(r).len() == app_ids_spec(*n).len(),
{
    match n {
        ENode::Lam(s, a) => ENode::Lam(*s, AppliedId::new(Id(0), a.m.clone())),
        ENode::App(a, b) => ENode::App(AppliedId::new(Id(0), a.m.clone()), AppliedId::new(Id(0), b.m.clone())),
        ENode::Var(s) => ENode::Var(*s),
    }
}

/// Whether the e-node has no children.
pub fn is_leaf(n: &ENode) -> (r: bool)
    ensures
        r == (app_ids_spec(*n).len() == 0),
{
    match n {
        ENode::Var(_) => true,
        _ => false,
    }
}

/// The number of registers that hold a class once the first `t` instructions have run: the
/// input class, the children that each `Bind` puts, and the class that each `Scan` puts.
pub open spec fn regs_after(ins: Seq<Instruction>, t: int) -> nat
    decreases t,
{
    if t <= 0 || t > ins.len() {
        1
    } else {
        regs_after(ins, t - 1) + match ins[t - 1] {
            Instruction::Bind { node, .. } => app_ids_spec(node).len(),
            Instruction::Scan { .. } => 1,
            _ => 0,
        }
    }
}

/// The instruction reads only the first `n` registers, and a `Bind` or `Scan` writes right
/// after them.
pub open spec fn instr_ok(x: Instruction, n: nat) -> bool {
    match x {
        Instruction::Bind { i, out, .. } => i.0 < n && out.0 == n,
        Instruction::Compare { i, j } => i.0 < n && j.0 < n,
        Instruction::Lookup { term, i } => i.0 < n && forall|k: int|
            0 <= k < term@.len() ==> (#[trigger] term@[k] matches ENodeOrReg::Reg(r) ==> r.0 < n),
        Instruction::Scan { out } => out.0 == n,
    }
}

/// Each instruction reads only registers that hold a class when it runs.
pub open spec fn reads_ok(ins: Seq<Instruction>) -> bool {
    forall|t: int| 0 <= t < ins.len() ==> instr_ok(#[trigger] ins[t], regs_after(ins, t))
}

/// Adding an instruction adds to the count of registers what it writes.
proof fn lemma_regs_after_push(ins: Seq<Instruction>, x: Instruction)
    ensures
        forall|t: int| 0 <= t <= ins.len() ==> #[trigger] regs_after(ins.push(x), t) == regs_after(ins, t),
        regs_after(ins.push(x), ins.len() + 1int) == regs_after(ins, ins.len() as int) + match x {
            Instruction::Bind { node, .. } => app_ids_spec(node).len(),
            Instruction::Scan { .. } => 1,
            _ => 0,
        },
{
    assert forall|t: int| 0 <= t <= ins.len() implies #[trigger] regs_after(ins.push(x), t) == regs_after(ins, t) by {
        lemma_regs_after_prefix(ins, x, t);
    }
    lemma_regs_after_prefix(ins, x, ins.len() as int);
    assert(ins.push(x)[ins.len() as int] == x);
}

proof fn lemma_regs_after_prefix(ins: Seq<Instruction>, x: Instruction, t: int)
    requires
        0 <= t <= ins.len(),
    ensures
        regs_after(ins.push(x), t) == regs_after(ins, t),
    decreases t,
{
    if t > 0 {
        lemma_regs_after_prefix(ins, x, t - 1);
        assert(ins.push(x)[t - 1] == ins[t - 1]);
    }
}

/// The nodes of the todo list are those of the pattern at their positions, e-nodes, and their
/// registers come before `n`.
pub open spec fn todo_ok(t: Seq<(AppliedId, Reg, ENode)>, p: Seq<ENodeOrVar<ENode>>, n: nat) -> bool {
    forall|k: int| 0 <= k < t.len() ==> {
        &&& (#[trigger] t[k]).0.id.0 < p.len()
        &&& p[t[k].0.id.0 as int] matches ENodeOrVar::ENode(m) && m@ == t[k].2@
        &&& t[k].1.0 < n
    }
}

/// The total number of e-nodes under the nodes of the todo list.
pub open spec fn todo_weight(t: Seq<(AppliedId, Reg, ENode)>, p: Seq<ENodeOrVar<ENode>>) -> nat
    decreases t.len(),
{
    if t.len() == 0 {
        0
    } else {
        todo_weight(t.drop_last(), p) + size_at(p, t.last().0.id.0 as int)
    }
}

proof fn lemma_todo_weight_remove(t: Seq<(AppliedId, Reg, ENode)>, p: Seq<ENodeOrVar<ENode>>, k: int)
    requires
        0 <= k < t.len(),
    ensures
        todo_weight(t.remove(k), p) + size_at(p, t[k].0.id.0 as int) == todo_weight(t, p),
    decreases t.len(),
{
    if k == t.len() - 1 {
        assert(t.remove(k) =~= t.drop_last());
    } else {
        lemma_todo_weight_remove(t.drop_last(), p, k);
        assert(t.remove(k).drop_last() =~= t.drop_last().remove(k));
        assert(t.remove(k).last() == t.last());
    }
}

proof fn lemma_todo_weight_push(t: Seq<(AppliedId, Reg, ENode)>, p: Seq<ENodeOrVar<ENode>>, e: (AppliedId, Reg, ENode))
    ensures
        todo_weight(t.push(e), p) == todo_weight(t, p) + size_at(p, e.0.id.0 as int),
{
    assert(t.push(e).drop_last() =~= t);
}

/// The `Var` nodes of the copy of the term under node `i` name variables under node `i`.
proof fn lemma_extract_vars(p: Seq<ENodeOrVar<ENode>>, i: int, start: nat)
    ensures
        forall|k: int| 0 <= k < extract_spec(p, i, start).len() ==> (#[trigger] extract_spec(p, i, start)[k] matches FlatView::Var(v) ==> vars_at(p, i).contains(v)),
    decreases i,
{
    if 0 <= i < p.len() {
        match p[i] {
            ENodeOrVar::Var(v) => {},
            ENodeOrVar::ENode(n) => match n {
                ENode::Lam(_, a) => {
                    if 0 <= a.id.0 < i {
                        lemma_extract_vars(p, a.id.0 as int, start);
                    }
                },
                ENode::App(a, b) => {
                    let sa = if 0 <= a.id.0 < i {
                        extract_spec(p, a.id.0 as int, start)
                    } else {
                        seq![]
                    };
                    if 0 <= a.id.0 < i {
                        lemma_extract_vars(p, a.id.0 as int, start);
                    }
                    if 0 <= b.id.0 < i {
                        lemma_extract_vars(p, b.id.0 as int, start + sa.len());
                    }
                    let e = extract_spec(p, i, start);
                    assert forall|k: int| 0 <= k < e.len() implies (#[trigger] e[k] matches FlatView::Var(v) ==> vars_at(p, i).contains(v)) by {
                        if k < sa.len() {
                            assert(e[k] == sa[k]);
                        }
                    }
                },
                ENode::Var(_) => {},
            },
        }
    }
}

/// The state of compiling a pattern into a matching program.
struct Compiler {
    /// The register bound to each pattern variable seen so far.
    v2r: Vec<(String, Reg)>,
    /// For each node of the pattern, the variables under it.
    free_vars: Vec<Vec<String>>,
    /// For each node of the pattern, the number of e-nodes under it.
    subtree_size: Vec<usize>,
    /// The e-nodes still to match: the node's position, the register that will hold its
    /// class, and the e-node.
    todo_nodes: Vec<(AppliedId, Reg, ENode)>,
    instructions: Vec<Instruction>,
    next_reg: Reg,
}

/// The names of the variables bound to registers.
pub open spec fn bound_names(v2r: Seq<(String, Reg)>) -> Seq<Seq<char>> {
    v2r.map_values(|e: (String, Reg)| e.0@)
}

/// Starting a new pattern at `root` with no instruction emitted yet takes `c0` to `c1`.
spec fn new_pattern_step(c0: Compiler, c1: Compiler, p: Seq<ENodeOrVar<ENode>>, root: AppliedId) -> bool {
    match p[root.id.0 as int] {
        ENodeOrVar::Var(v) => {
            &&& c1.todo_nodes == c0.todo_nodes
            &&& if bound_names(c0.v2r@).contains(v@) {
                &&& c1.v2r == c0.v2r
                &&& exists|k: int|
                    0 <= k < c0.v2r@.len() && (#[trigger] c0.v2r@[k]).0@ == v@ && c1.instructions@
                        == c0.instructions@.push((Instruction::Compare { i: c0.next_reg, j: c0.v2r@[k].1 }))
            } else {
                &&& c1.instructions == c0.instructions
                &&& c1.v2r@ == c0.v2r@.push((v, c0.next_reg))
            }
        },
        ENodeOrVar::ENode(m) => {
            &&& c1.v2r == c0.v2r
            &&& c1.instructions == c0.instructions
            &&& c1.todo_nodes@.len() == c0.todo_nodes@.len() + 1
            &&& c1.todo_nodes@.drop_last() == c0.todo_nodes@
            &&& c1.todo_nodes@.last().0 == root
            &&& c1.todo_nodes@.last().1 == c0.next_reg
            &&& c1.todo_nodes@.last().2@ == m@
        },
    }
}

/// A root variable compiles as [new_pattern_step] says, with the next register taken.
proof fn lemma_root_var(c_old: Compiler, c0: Compiler, c1: Compiler, fin: Compiler, p: Seq<ENodeOrVar<ENode>>, root: AppliedId)
    requires
        p.len() > 0,
        root.id.0 as int == p.len() - 1,
        c0.v2r == c_old.v2r,
        c0.instructions == c_old.instructions,
        c0.next_reg == c_old.next_reg,
        c0.instructions@.len() == 0,
        new_pattern_step(c0, c1, p, root),
        fin.v2r == c1.v2r,
        fin.instructions == c1.instructions,
        fin.next_reg.0 == c0.next_reg.0 + 1,
    ensures
        root_var_compiled(c_old, fin, p),
{
}

/// Where the root of the pattern `p` is a variable, compiling it starting from `c0` gives
/// `c1`: the root's class is read from the next register, which is taken; a variable seen
/// before gives a comparison with its register, a new one is bound to it; nothing else.
spec fn root_var_compiled(c0: Compiler, c1: Compiler, p: Seq<ENodeOrVar<ENode>>) -> bool {
    p[p.len() - 1] matches ENodeOrVar::Var(x) ==> {
        &&& c1.next_reg.0 == c0.next_reg.0 + 1
        &&& if bound_names(c0.v2r@).contains(x@) {
            &&& c1.v2r == c0.v2r
            &&& exists|k: int|
                0 <= k < c0.v2r@.len() && (#[trigger] c0.v2r@[k]).0@ == x@ && c1.instructions@
                    == c0.instructions@.push((Instruction::Compare { i: c0.next_reg, j: c0.v2r@[k].1 }))
        } else {
            &&& c1.instructions == c0.instructions
            &&& c1.v2r@ == c0.v2r@.push((x, c0.next_reg))
        }
    }
}

/// `t` is the ground term `ex` with each pattern variable replaced by a register that `v2r`
/// binds it to.
pub open spec fn lookup_term(t: Seq<ENodeOrReg>, ex: Seq<FlatView>, v2r: Seq<(String, Reg)>) -> bool {
    &&& t.len() == ex.len()
    &&& forall|k: int|
        0 <= k < t.len() ==> match #[trigger] ex[k] {
            FlatView::ENode(v) => t[k] matches ENodeOrReg::ENode(m) && m@ == v,
            FlatView::Var(name) => t[k] matches ENodeOrReg::Reg(r) && exists|j: int|
                0 <= j < v2r.len() && #[trigger] v2r[j].1 == r && v2r[j].0@ == name,
        }
}

impl Compiler {
    /// The per-node tables hold the variables and sizes of `p`.
    spec fn loaded(&self, p: Seq<ENodeOrVar<ENode>>) -> bool {
        &&& self.free_vars@.len() == p.len()
        &&& self.subtree_size@.len() == p.len()
        &&& forall|i: int| 0 <= i < p.len() ==> {
            &&& distinct_texts(#[trigger] self.free_vars@[i]@)
            &&& texts(self.free_vars@[i]@).to_set() == vars_at(p, i)
            &&& self.subtree_size@[i] == size_at(p, i)
        }
    }

    /// A compiler with nothing compiled yet.
    fn new() -> (r: Compiler)
        ensures
            r.v2r@.len() == 0,
            r.free_vars@.len() == 0,
            r.subtree_size@.len() == 0,
            r.todo_nodes@.len() == 0,
            r.instructions@.len() == 0,
            r.next_reg == Reg(0),
    {
        Compiler {
            v2r: Vec::new(),
            free_vars: Vec::new(),
            subtree_size: Vec::new(),
            todo_nodes: Vec::new(),
            instructions: Vec::new(),
            next_reg: Reg(0),
        }
    }

    /// Fills the per-node tables: the variables under each node and its number of e-nodes.
    fn load_pattern(&mut self, pattern: &RecExprFlat<ENodeOrVar<ENode>>)
        requires
            flat_wf(pattern.nodes@),
            forall|i: int| 0 <= i < pattern.nodes@.len() ==> size_at(pattern.nodes@, i) <= usize::MAX,
        ensures
            final(self).loaded(pattern.nodes@),
            final(self).v2r == old(self).v2r,
            final(self).todo_nodes == old(self).todo_nodes,
            final(self).instructions == old(self).instructions,
            final(self).next_reg == old(self).next_reg,
    {
        let ghost p = pattern.nodes@;
        let mut fv: Vec<Vec<String>> = Vec::new();
        let mut sz: Vec<usize> = Vec::new();
        let mut i: usize = 0;
        while i < pattern.nodes.len()
            invariant
                p == pattern.nodes@,
                flat_wf(p),
                forall|i: int| 0 <= i < p.len() ==> size_at(p, i) <= usize::MAX,
                0 <= i <= p.len(),
                fv@.len() == i,
                sz@.len() == i,
                forall|j: int| 0 <= j < i ==> {
                    &&& distinct_texts(#[trigger] fv@[j]@)
                    &&& texts(fv@[j]@).to_set() == vars_at(p, j)
                    &&& sz@[j] == size_at(p, j)
                },
            decreases p.len() - i,
        {
            let mut free: Vec<String> = Vec::new();
            let size: usize;
            proof {
                assert(texts(free@).to_set() =~= Set::<Seq<char>>::empty());
            }
            match &pattern.nodes[i] {
                ENodeOrVar::Var(v) => {
                    free.push(v.clone());
                    assert(texts(free@) =~= seq![v@]);
                    assert(texts(free@).to_set() =~= set![v@]) by {
                        crate::slotset::lemma_push_contains(Seq::<Seq<char>>::empty(), v@);
                        assert(seq![v@] =~= Seq::<Seq<char>>::empty().push(v@));
                    }
                    size = 0;
                },
                ENodeOrVar::ENode(n) => {
                    match n {
                        ENode::Lam(_, a) => {
                            assert(node_children(p[i as int])[0] == *a);
                            let id = a.id.0;
                            assert(size_at(p, i as int) == 1 + size_at(p, id as int));
                            extend_texts(&mut free, &fv[id]);
                            size = 1 + sz[id];
                        },
                        ENode::App(a, b) => {
                            assert(node_children(p[i as int])[0] == *a);
                            assert(node_children(p[i as int])[1] == *b);
                            let ia = a.id.0;
                            let ib = b.id.0;
                            assert(size_at(p, i as int) == 1 + size_at(p, ia as int) + size_at(p, ib as int));
                            extend_texts(&mut free, &fv[ia]);
                            extend_texts(&mut free, &fv[ib]);
                            size = 1 + sz[ia] + sz[ib];
                        },
                        ENode::Var(_) => {
                            size = 1;
                        },
                    }
                },
            }
            assert(texts(free@).to_set() == vars_at(p, i as int));
            fv.push(free);
            sz.push(size);
            i = i + 1;
        }
        self.free_vars = fv;
        self.subtree_size = sz;
    }

    /// The register bound to the variable `v`, if there is one.
    fn lookup_var(&self, v: &String) -> (r: Option<Reg>)
        ensures
            r matches Some(reg) ==> exists|k: int| 0 <= k < self.v2r@.len() && #[trigger] self.v2r@[k] == (self.v2r@[k].0, reg) && self.v2r@[k].0@ == v@,
            r is None ==> !bound_names(self.v2r@).contains(v@),
    {
        let mut i: usize = 0;
        while i < self.v2r.len()
            invariant
                0 <= i <= self.v2r@.len(),
                forall|j: int| 0 <= j < i ==> #[trigger] self.v2r@[j].0@ != v@,
            decreases self.v2r@.len() - i,
        {
            if self.v2r[i].0 == *v {
                return Some(self.v2r[i].1);
            }
            i = i + 1;
        }
        proof {
            assert forall|j: int| 0 <= j < bound_names(self.v2r@).len() implies bound_names(self.v2r@)[j] != v@ by {
                assert(bound_names(self.v2r@)[j] == self.v2r@[j].0@);
            }
        }
        None
    }

    /// Whether every variable under node `i` is bound to a register.
    fn is_ground_now(&self, i: usize) -> (r: bool)
        requires
            i < self.free_vars@.len(),
        ensures
            r == (forall|k: int| 0 <= k < self.free_vars@[i as int]@.len() ==> bound_names(self.v2r@).contains(
                #[trigger] self.free_vars@[i as int]@[k]@,
            )),
    {
        let fvs = &self.free_vars[i];
        let mut k: usize = 0;
        while k < fvs.len()
            invariant
                fvs == self.free_vars@[i as int],
                0 <= k <= fvs@.len(),
                forall|j: int| 0 <= j < k ==> bound_names(self.v2r@).contains(#[trigger] fvs@[j]@),
            decreases fvs@.len() - k,
        {
            if self.lookup_var(&fvs[k]).is_none() {
                return false;
            }
            proof {
                let kk = choose|kk: int| 0 <= kk < self.v2r@.len() && #[trigger] self.v2r@[kk].0@ == fvs@[k as int]@;
                assert(bound_names(self.v2r@)[kk] == fvs@[k as int]@);
            }
            k = k + 1;
        }
        true
    }

    /// The number of variables under node `i` that no register holds yet.
    spec fn n_free(&self, i: int) -> nat {
        self.free_vars@[i]@.filter(|s: String| !bound_names(self.v2r@).contains(s@)).len()
    }

    /// Node `x` comes no later than node `y` in the order of `next`: `y` is ground and `x` is
    /// not; or both or neither are, and `y` has more free variables, or as many and no more
    /// e-nodes.
    spec fn key_le(&self, x: int, y: int) -> bool {
        let fx = self.n_free(x);
        let fy = self.n_free(y);
        let sx = self.subtree_size@[x];
        let sy = self.subtree_size@[y];
        if (fx == 0) != (fy == 0) {
            fy == 0
        } else if fx != fy {
            fx < fy
        } else {
            sy <= sx
        }
    }

    /// The number of variables under node `i` that no register holds yet.
    fn count_free(&self, i: usize) -> (r: usize)
        requires
            i < self.free_vars@.len(),
        ensures
            r == self.n_free(i as int),
    {
        let fvs = &self.free_vars[i];
        let ghost pred = |s: String| !bound_names(self.v2r@).contains(s@);
        let mut c: usize = 0;
        let mut k: usize = 0;
        while k < fvs.len()
            invariant
                fvs == self.free_vars@[i as int],
                pred == (|s: String| !bound_names(self.v2r@).contains(s@)),
                0 <= k <= fvs@.len(),
                c == fvs@.subrange(0, k as int).filter(pred).len(),
                c <= k,
            decreases fvs@.len() - k,
        {
            proof {
                assert(fvs@.subrange(0, k + 1) =~= fvs@.subrange(0, k as int).push(fvs@[k as int]));
                fvs@.subrange(0, k as int).lemma_filter_len_push(pred, fvs@[k as int]);
            }
            match self.lookup_var(&fvs[k]) {
                None => {
                    c = c + 1;
                },
                Some(_) => {
                    proof {
                        let kk = choose|kk: int| 0 <= kk < self.v2r@.len() && #[trigger] self.v2r@[kk] == (self.v2r@[kk].0, self.v2r@[kk].1) && self.v2r@[kk].0@ == fvs@[k as int]@;
                        assert(bound_names(self.v2r@)[kk] == fvs@[k as int]@);
                    }
                },
            }
            k = k + 1;
        }
        assert(fvs@.subrange(0, fvs@.len() as int) =~= fvs@);
        c
    }

    /// Takes from the todo list the node that comes first: a ground one before others, then
    /// the one with the most free variables, then the smallest.
    fn next(&mut self) -> (r: Option<(AppliedId, Reg, ENode)>)
        requires
            forall|k: int| 0 <= k < old(self).todo_nodes@.len() ==> (#[trigger] old(self).todo_nodes@[k]).0.id.0 < old(self).free_vars@.len(),
            old(self).subtree_size@.len() == old(self).free_vars@.len(),
        ensures
            final(self).v2r == old(self).v2r,
            final(self).free_vars == old(self).free_vars,
            final(self).subtree_size == old(self).subtree_size,
            final(self).instructions == old(self).instructions,
            final(self).next_reg == old(self).next_reg,
            r is None <==> old(self).todo_nodes@.len() == 0,
            r is None ==> final(self).todo_nodes == old(self).todo_nodes,
            r matches Some(e) ==> exists|k: int|
                0 <= k < old(self).todo_nodes@.len() && e == old(self).todo_nodes@[k] && final(self).todo_nodes@
                    == old(self).todo_nodes@.remove(k) && forall|j: int|
                    0 <= j < old(self).todo_nodes@.len() ==> old(self).key_le(
                        (#[trigger] old(self).todo_nodes@[j]).0.id.0 as int,
                        old(self).todo_nodes@[k].0.id.0 as int,
                    ),
    {
        if self.todo_nodes.len() == 0 {
            return None;
        }
        let ghost t = self.todo_nodes@;
        let mut best: usize = 0;
        let i0 = self.todo_nodes[0].0.id.0;
        let mut bf = self.count_free(i0);
        let mut bs = self.subtree_size[i0];
        let mut j: usize = 1;
        while j < self.todo_nodes.len()
            invariant
                t == self.todo_nodes@,
                forall|k: int| 0 <= k < t.len() ==> (#[trigger] t[k]).0.id.0 < self.free_vars@.len(),
                self.subtree_size@.len() == self.free_vars@.len(),
                1 <= j <= t.len(),
                best < j,
                bf == self.n_free(t[best as int].0.id.0 as int),
                bs == self.subtree_size@[t[best as int].0.id.0 as int],
                forall|k: int| 0 <= k < j ==> self.key_le((#[trigger] t[k]).0.id.0 as int, t[best as int].0.id.0 as int),
            decreases t.len() - j,
        {
            let i = self.todo_nodes[j].0.id.0;
            let f = self.count_free(i);
            let sz = self.subtree_size[i];
            let better = if (bf == 0) != (f == 0) {
                f == 0
            } else if bf != f {
                bf < f
            } else {
                sz <= bs
            };
            if better {
                best = j;
                bf = f;
                bs = sz;
            }
            j = j + 1;
        }
        let e = self.todo_nodes.remove(best);
        Some(e)
    }

    /// Binds the variable `v` to register `reg`, in place of a register it may have had.
    fn insert_var(&mut self, v: String, reg: Reg)
        ensures
            final(self).free_vars == old(self).free_vars,
            final(self).subtree_size == old(self).subtree_size,
            final(self).instructions == old(self).instructions,
            final(self).todo_nodes == old(self).todo_nodes,
            final(self).next_reg == old(self).next_reg,
            bound_names(final(self).v2r@).to_set() == bound_names(old(self).v2r@).to_set().insert(v@),
            final(self).v2r@.len() >= old(self).v2r@.len(),
            forall|k: int| 0 <= k < final(self).v2r@.len() ==> (#[trigger] final(self).v2r@[k]).0@ == v@ || (k < old(self).v2r@.len() && final(self).v2r@[k].0@ == old(self).v2r@[k].0@),
            (forall|a: int, b: int|
                #![trigger old(self).v2r@[a], old(self).v2r@[b]]
                0 <= a < old(self).v2r@.len() && 0 <= b < old(self).v2r@.len() && a != b ==> old(self).v2r@[a].0@ != old(self).v2r@[b].0@)
                ==> (forall|a: int, b: int|
                #![trigger final(self).v2r@[a], final(self).v2r@[b]]
                0 <= a < final(self).v2r@.len() && 0 <= b < final(self).v2r@.len() && a != b ==> final(self).v2r@[a].0@ != final(self).v2r@[b].0@),
            forall|k: int| 0 <= k < final(self).v2r@.len() ==> (#[trigger] final(self).v2r@[k]).1 == reg || exists|j: int|
                0 <= j < old(self).v2r@.len() && old(self).v2r@[j].1 == final(self).v2r@[k].1,
    {
        let ghost before = self.v2r@;
        let ghost fv = self.free_vars;
        let ghost sz = self.subtree_size;
        let ghost ins = self.instructions;
        let ghost td = self.todo_nodes;
        let ghost nr = self.next_reg;
        match self.lookup_var(&v) {
            Some(_) => {
                proof {
                    let kk = choose|kk: int| 0 <= kk < self.v2r@.len() && #[trigger] self.v2r@[kk] == (self.v2r@[kk].0, self.v2r@[kk].1) && self.v2r@[kk].0@ == v@;
                    assert(bound_names(before)[kk] == v@);
                }
                let mut i: usize = 0;
                while i < self.v2r.len()
                    invariant
                        self.free_vars == fv,
                        self.subtree_size == sz,
                        self.instructions == ins,
                        self.todo_nodes == td,
                        self.next_reg == nr,
                        0 <= i <= self.v2r@.len(),
                        self.v2r@.len() == before.len(),
                        forall|k: int| 0 <= k < before.len() ==> (#[trigger] self.v2r@[k]).0@ == before[k].0@,
                        forall|k: int| 0 <= k < before.len() ==> (#[trigger] self.v2r@[k]).1 == reg || self.v2r@[k].1 == before[k].1,
                        bound_names(before).contains(v@),
                    decreases before.len() - i,
                {
                    if self.v2r[i].0 == v {
                        self.v2r.set(i, (v.clone(), reg));
                    }
                    i = i + 1;
                }
                assert(bound_names(self.v2r@) =~= bound_names(before));
                assert(bound_names(self.v2r@).to_set() =~= bound_names(before).to_set().insert(v@));
                assert forall|a: int, b: int|
                    #![trigger self.v2r@[a], self.v2r@[b]]
                    0 <= a < self.v2r@.len() && 0 <= b < self.v2r@.len() && a != b implies (self.v2r@[a].0@ == before[a].0@ && self.v2r@[b].0@ == before[b].0@) by {}
            },
            None => {
                self.v2r.push((v, reg));
                assert(bound_names(self.v2r@) =~= bound_names(before).push(v@));
                proof {
                    crate::slotset::lemma_push_contains(bound_names(before), v@);
                }
                assert(bound_names(self.v2r@).to_set() =~= bound_names(before).to_set().insert(v@));
                assert forall|k: int| 0 <= k < self.v2r@.len() implies (#[trigger] self.v2r@[k]).1 == reg || exists|j: int|
                    0 <= j < before.len() && before[j].1 == self.v2r@[k].1 by {
                    if k < before.len() {
                        assert(before[k].1 == self.v2r@[k].1);
                    }
                }
                assert forall|k: int| 0 <= k < self.v2r@.len() implies (#[trigger] self.v2r@[k]).0@ == v@ || (k < before.len() && self.v2r@[k].0@ == before[k].0@) by {
                    if k < before.len() {
                        assert(before[k] == self.v2r@[k]);
                    }
                }
                assert forall|a: int, b: int|
                    #![trigger self.v2r@[a], self.v2r@[b]]
                    (forall|a: int, b: int|
                        #![trigger before[a], before[b]]
                        0 <= a < before.len() && 0 <= b < before.len() && a != b ==> before[a].0@ != before[b].0@)
                    && 0 <= a < self.v2r@.len() && 0 <= b < self.v2r@.len() && a != b implies self.v2r@[a].0@ != self.v2r@[b].0@ by {
                    if a < before.len() && b < before.len() {
                        assert(self.v2r@[a] == before[a] && self.v2r@[b] == before[b]);
                    } else if a < before.len() {
                        assert(self.v2r@[a] == before[a]);
                        assert(bound_names(before)[a] == before[a].0@);
                    } else if b < before.len() {
                        assert(self.v2r@[b] == before[b]);
                        assert(bound_names(before)[b] == before[b].0@);
                    }
                }
            },
        }
    }

    /// Every variable of `target` is bound to a register, in `extra`, or under a node of the
    /// todo list.
    spec fn covers(&self, p: Seq<ENodeOrVar<ENode>>, target: Set<Seq<char>>, extra: Set<Seq<char>>) -> bool {
        forall|v: Seq<char>|
            #[trigger] target.contains(v) ==> bound_names(self.v2r@).contains(v) || extra.contains(v) || exists|k: int|
                0 <= k < self.todo_nodes@.len() && vars_at(p, (#[trigger] self.todo_nodes@[k]).0.id.0 as int).contains(v)
    }

    /// The bound variables, and those under the nodes of the todo list, are in `bound`; no
    /// variable is bound twice.
    spec fn within(&self, p: Seq<ENodeOrVar<ENode>>, bound: Set<Seq<char>>) -> bool {
        &&& forall|k: int| 0 <= k < self.v2r@.len() ==> bound.contains((#[trigger] self.v2r@[k]).0@)
        &&& forall|k: int| 0 <= k < self.todo_nodes@.len() ==> vars_at(p, (#[trigger] self.todo_nodes@[k]).0.id.0 as int).subset_of(bound)
        &&& forall|a: int, b: int|
            #![trigger self.v2r@[a], self.v2r@[b]]
            0 <= a < self.v2r@.len() && 0 <= b < self.v2r@.len() && a != b ==> self.v2r@[a].0@ != self.v2r@[b].0@
    }

    /// Noting a node moves its variables from `extra` to the bound ones or the todo list.
    proof fn lemma_add_todo_vars(
        old_c: Compiler,
        new_c: Compiler,
        p: Seq<ENodeOrVar<ENode>>,
        id: AppliedId,
        reg: Reg,
        target: Set<Seq<char>>,
        extra: Set<Seq<char>>,
        bound: Set<Seq<char>>,
    )
        requires
            Compiler::added(old_c, new_c, p, id, reg),
            id.id.0 < p.len(),
        ensures
            old_c.covers(p, target, extra.union(vars_at(p, id.id.0 as int))) ==> new_c.covers(p, target, extra),
            old_c.within(p, bound) && vars_at(p, id.id.0 as int).subset_of(bound) ==> new_c.within(p, bound),
    {
        let i = id.id.0 as int;
        match p[i] {
            ENodeOrVar::Var(v) => {
                assert(vars_at(p, i) == set![v@]);
                if bound_names(old_c.v2r@).contains(v@) {
                } else {
                    let nb = bound_names(new_c.v2r@);
                    assert(nb =~= bound_names(old_c.v2r@).push(v@));
                    assert(nb[old_c.v2r@.len() as int] == v@);
                    assert forall|w: Seq<char>| bound_names(old_c.v2r@).contains(w) implies nb.contains(w) by {
                        let j = choose|j: int| 0 <= j < bound_names(old_c.v2r@).len() && bound_names(old_c.v2r@)[j] == w;
                        assert(nb[j] == w);
                    }
                    if old_c.covers(p, target, extra.union(vars_at(p, i))) {
                        assert forall|w: Seq<char>| #[trigger] target.contains(w) implies nb.contains(w) || extra.contains(w) || exists|k: int|
                            0 <= k < new_c.todo_nodes@.len() && vars_at(p, (#[trigger] new_c.todo_nodes@[k]).0.id.0 as int).contains(w) by {
                            if w == v@ {
                                assert(nb.contains(w));
                            }
                        }
                    }
                    if old_c.within(p, bound) && vars_at(p, i).subset_of(bound) {
                        assert forall|k: int| 0 <= k < new_c.v2r@.len() implies bound.contains((#[trigger] new_c.v2r@[k]).0@) by {
                            if k < old_c.v2r@.len() {
                                assert(new_c.v2r@[k] == old_c.v2r@[k]);
                            }
                        }
                        assert forall|a: int, b: int|
                            #![trigger new_c.v2r@[a], new_c.v2r@[b]]
                            0 <= a < new_c.v2r@.len() && 0 <= b < new_c.v2r@.len() && a != b implies new_c.v2r@[a].0@ != new_c.v2r@[b].0@ by {
                            if a < old_c.v2r@.len() && b < old_c.v2r@.len() {
                                assert(new_c.v2r@[a] == old_c.v2r@[a] && new_c.v2r@[b] == old_c.v2r@[b]);
                            } else if a < old_c.v2r@.len() {
                                assert(new_c.v2r@[a] == old_c.v2r@[a]);
                                assert(bound_names(old_c.v2r@)[a] == old_c.v2r@[a].0@);
                            } else if b < old_c.v2r@.len() {
                                assert(new_c.v2r@[b] == old_c.v2r@[b]);
                                assert(bound_names(old_c.v2r@)[b] == old_c.v2r@[b].0@);
                            }
                        }
                    }
                }
            },
            ENodeOrVar::ENode(m) => {
                let t = new_c.todo_nodes@;
                let last = t.len() - 1;
                assert(t[last].0 == id);
                assert forall|k: int| 0 <= k < old_c.todo_nodes@.len() implies #[trigger] t[k] == old_c.todo_nodes@[k] by {
                    assert(t.drop_last()[k] == t[k]);
                }
                if old_c.covers(p, target, extra.union(vars_at(p, i))) {
                    assert forall|w: Seq<char>| #[trigger] target.contains(w) implies bound_names(new_c.v2r@).contains(w) || extra.contains(w) || exists|k: int|
                        0 <= k < t.len() && vars_at(p, (#[trigger] t[k]).0.id.0 as int).contains(w) by {
                        if vars_at(p, i).contains(w) {
                            assert(vars_at(p, t[last].0.id.0 as int).contains(w));
                        } else if !bound_names(new_c.v2r@).contains(w) && !extra.contains(w) {
                            let k = choose|k: int|
                                0 <= k < old_c.todo_nodes@.len() && vars_at(p, (#[trigger] old_c.todo_nodes@[k]).0.id.0 as int).contains(w);
                            assert(t[k] == old_c.todo_nodes@[k]);
                        }
                    }
                }
                if old_c.within(p, bound) && vars_at(p, i).subset_of(bound) {
                    assert forall|k: int| 0 <= k < t.len() implies vars_at(p, (#[trigger] t[k]).0.id.0 as int).subset_of(bound) by {
                        if k < old_c.todo_nodes@.len() {
                            assert(t[k] == old_c.todo_nodes@[k]);
                        }
                    }
                }
            },
        }
    }

    /// `new_c` is `old_c` after noting that register `reg` will hold node `id` of `p`.
    spec fn added(old_c: Compiler, new_c: Compiler, p: Seq<ENodeOrVar<ENode>>, id: AppliedId, reg: Reg) -> bool {
        &&& new_c.free_vars == old_c.free_vars
        &&& new_c.subtree_size == old_c.subtree_size
        &&& new_c.next_reg == old_c.next_reg
        &&& match p[id.id.0 as int] {
            ENodeOrVar::Var(v) => {
                &&& new_c.todo_nodes == old_c.todo_nodes
                &&& if bound_names(old_c.v2r@).contains(v@) {
                    &&& new_c.v2r == old_c.v2r
                    &&& exists|k: int|
                        0 <= k < old_c.v2r@.len() && (#[trigger] old_c.v2r@[k]).0@ == v@ && new_c.instructions@
                            == old_c.instructions@.push((Instruction::Compare { i: reg, j: old_c.v2r@[k].1 }))
                } else {
                    &&& new_c.instructions == old_c.instructions
                    &&& new_c.v2r@ == old_c.v2r@.push((v, reg))
                }
            },
            ENodeOrVar::ENode(m) => {
                &&& new_c.v2r == old_c.v2r
                &&& new_c.instructions == old_c.instructions
                &&& new_c.todo_nodes@.len() == old_c.todo_nodes@.len() + 1
                &&& new_c.todo_nodes@.drop_last() == old_c.todo_nodes@
                &&& new_c.todo_nodes@.last().0 == id
                &&& new_c.todo_nodes@.last().1 == reg
                &&& new_c.todo_nodes@.last().2@ == m@
            },
        }
    }

    /// Notes that register `reg` will hold the class of node `id` of the pattern: a variable
    /// seen before gives a comparison of the two registers, a new one is bound to `reg`, and an
    /// e-node joins the todo list.
    fn add_todo(&mut self, pattern: &RecExprFlat<ENodeOrVar<ENode>>, id: AppliedId, reg: Reg)
        requires
            id.id.0 < pattern.nodes@.len(),
        ensures
            Compiler::added(*old(self), *final(self), pattern.nodes@, id, reg),
    {
        match &pattern.nodes[id.id.0] {
            ENodeOrVar::Var(v) => {
                match self.lookup_var(v) {
                    Some(j) => {
                        proof {
                            let kk = choose|kk: int| 0 <= kk < self.v2r@.len() && #[trigger] self.v2r@[kk] == (self.v2r@[kk].0, j) && self.v2r@[kk].0@ == v@;
                            assert(bound_names(self.v2r@)[kk] == v@);
                        }
                        self.instructions.push(Instruction::Compare { i: reg, j });
                    },
                    None => {
                        self.v2r.push((v.clone(), reg));
                    },
                }
            },
            ENodeOrVar::ENode(pat) => {
                let ghost before = self.todo_nodes@;
                self.todo_nodes.push((id, reg, pat.clone()));
                assert(self.todo_nodes@.drop_last() =~= before);
            },
        }
    }

    /// The compiler's state is consistent with the pattern `p` when `n` registers are in use;
    /// if it started `fresh`, the instructions read only registers in use.
    spec fn state_ok(&self, p: Seq<ENodeOrVar<ENode>>, n: nat, fresh: bool) -> bool {
        &&& self.loaded(p)
        &&& todo_ok(self.todo_nodes@, p, n)
        &&& forall|k: int| 0 <= k < self.v2r@.len() ==> (#[trigger] self.v2r@[k]).1.0 < n
        &&& fresh ==> {
            &&& reads_ok(self.instructions@)
            &&& regs_after(self.instructions@, self.instructions@.len() as int) == n
            &&& forall|t: int| 0 <= t < self.instructions@.len() ==> !(#[trigger] self.instructions@[t] is Scan)
        }
    }

    /// `add_todo` for a child of a node that is being bound, with its own fresh register.
    proof fn lemma_add_todo_ok(old_c: Compiler, new_c: Compiler, p: Seq<ENodeOrVar<ENode>>, id: AppliedId, reg: Reg, n: nat, fresh: bool)
        requires
            old_c.state_ok(p, n, fresh),
            flat_wf(p),
            id.id.0 < p.len(),
            reg.0 < n,
            Compiler::added(old_c, new_c, p, id, reg),
        ensures
            new_c.state_ok(p, n, fresh),
            todo_weight(new_c.todo_nodes@, p) == todo_weight(old_c.todo_nodes@, p) + size_at(p, id.id.0 as int),
    {
        match p[id.id.0 as int] {
            ENodeOrVar::Var(v) => {
                if bound_names(old_c.v2r@).contains(v@) {
                    let k = choose|k: int|
                        0 <= k < old_c.v2r@.len() && (#[trigger] old_c.v2r@[k]).0@ == v@ && new_c.instructions@
                            == old_c.instructions@.push((Instruction::Compare { i: reg, j: old_c.v2r@[k].1 }));
                    let x = Instruction::Compare { i: reg, j: old_c.v2r@[k].1 };
                    lemma_regs_after_push(old_c.instructions@, x);
                    if fresh {
                        let ins = new_c.instructions@;
                        assert forall|t: int| 0 <= t < ins.len() implies instr_ok(#[trigger] ins[t], regs_after(ins, t)) by {
                            if t < old_c.instructions@.len() {
                                assert(ins[t] == old_c.instructions@[t]);
                            }
                        }
                        assert forall|t: int| 0 <= t < ins.len() implies !(#[trigger] ins[t] is Scan) by {
                            if t < old_c.instructions@.len() {
                                assert(ins[t] == old_c.instructions@[t]);
                            }
                        }
                    }
                } else {
                    assert forall|k: int| 0 <= k < new_c.v2r@.len() implies (#[trigger] new_c.v2r@[k]).1.0 < n by {
                        if k < old_c.v2r@.len() {
                            assert(new_c.v2r@[k] == old_c.v2r@[k]);
                        }
                    }
                }
            },
            ENodeOrVar::ENode(m) => {
                let t = new_c.todo_nodes@;
                lemma_todo_weight_push(old_c.todo_nodes@, p, t.last());
                assert(t =~= old_c.todo_nodes@.push(t.last()));
                assert forall|k: int| 0 <= k < t.len() implies {
                    &&& (#[trigger] t[k]).0.id.0 < p.len()
                    &&& p[t[k].0.id.0 as int] matches ENodeOrVar::ENode(mm) && mm@ == t[k].2@
                    &&& t[k].1.0 < n
                } by {
                    if k < old_c.todo_nodes@.len() {
                        assert(t[k] == old_c.todo_nodes@[k]);
                    }
                }
            },
        }
    }

    /// Emits a `Bind` of `node` (the node `id` of the pattern, held by register `reg`) with
    /// its children in the registers from `out` on, and adds the children to the todo list;
    /// returns the number of registers then in use.
    fn emit_bind(
        &mut self,
        pattern: &RecExprFlat<ENodeOrVar<ENode>>,
        id: AppliedId,
        reg: Reg,
        node: ENode,
        out: Reg,
        Ghost(fresh): Ghost<bool>,
        Ghost(target): Ghost<Set<Seq<char>>>,
        Ghost(bound): Ghost<Set<Seq<char>>>,
    ) -> (r: Reg)
        requires
            old(self).state_ok(pattern.nodes@, out.0 as nat, fresh),
            old(self).covers(pattern.nodes@, target, vars_at(pattern.nodes@, id.id.0 as int)),
            old(self).within(pattern.nodes@, bound),
            vars_at(pattern.nodes@, id.id.0 as int).subset_of(bound),
            flat_wf(pattern.nodes@),
            id.id.0 < pattern.nodes@.len(),
            pattern.nodes@[id.id.0 as int] matches ENodeOrVar::ENode(m) && m@ == node@,
            reg.0 < out.0,
            out.0 + 2 <= u32::MAX,
        ensures
            final(self).state_ok(pattern.nodes@, r.0 as nat, fresh),
            r.0 == out.0 + app_ids_spec(node).len(),
            todo_weight(final(self).todo_nodes@, pattern.nodes@) + 1 == todo_weight(old(self).todo_nodes@, pattern.nodes@) + size_at(pattern.nodes@, id.id.0 as int),
            final(self).covers(pattern.nodes@, target, Set::empty()),
            final(self).within(pattern.nodes@, bound),
    {
        let ghost p = pattern.nodes@;
        let ghost vi = vars_at(p, id.id.0 as int);
        let op = zero_ids(&node);
        let nch: u32 = match &node {
            ENode::Lam(..) => 1,
            ENode::App(..) => 2,
            ENode::Var(_) => 0,
        };
        let r = Reg(out.0 + nch);
        let x = Instruction::Bind { node: op, i: reg, out };
        let ghost old_ins = self.instructions@;
        self.instructions.push(x);
        proof {
            lemma_regs_after_push(old_ins, x);
            if fresh {
                let ins = self.instructions@;
                assert forall|t: int| 0 <= t < ins.len() implies instr_ok(#[trigger] ins[t], regs_after(ins, t)) by {
                    if t < old_ins.len() {
                        assert(ins[t] == old_ins[t]);
                    }
                }
                assert forall|t: int| 0 <= t < ins.len() implies !(#[trigger] ins[t] is Scan) by {
                    if t < old_ins.len() {
                        assert(ins[t] == old_ins[t]);
                    }
                }
            }
            assert forall|k: int| 0 <= k < self.todo_nodes@.len() implies {
                &&& (#[trigger] self.todo_nodes@[k]).0.id.0 < p.len()
                &&& p[self.todo_nodes@[k].0.id.0 as int] matches ENodeOrVar::ENode(mm) && mm@ == self.todo_nodes@[k].2@
                &&& self.todo_nodes@[k].1.0 < r.0
            } by {}
        }
        match &node {
            ENode::Lam(_, a) => {
                assert(node_children(p[id.id.0 as int])[0].id == a.id);
                let ghost c0 = *self;
                let ac = a.clone();
                self.add_todo(pattern, ac, Reg(out.0));
                proof {
                    Compiler::lemma_add_todo_ok(c0, *self, p, ac, Reg(out.0), r.0 as nat, fresh);
                    assert(Set::<Seq<char>>::empty().union(vars_at(p, ac.id.0 as int)) =~= vi);
                    Compiler::lemma_add_todo_vars(c0, *self, p, ac, Reg(out.0), target, Set::empty(), bound);
                }
            },
            ENode::App(a, b) => {
                assert(node_children(p[id.id.0 as int])[0].id == a.id);
                assert(node_children(p[id.id.0 as int])[1].id == b.id);
                let ghost c0 = *self;
                let ac = a.clone();
                self.add_todo(pattern, ac, Reg(out.0));
                proof {
                    Compiler::lemma_add_todo_ok(c0, *self, p, ac, Reg(out.0), r.0 as nat, fresh);
                    let vb = vars_at(p, b.id.0 as int);
                    assert(vb.union(vars_at(p, ac.id.0 as int)) =~= vi);
                    Compiler::lemma_add_todo_vars(c0, *self, p, ac, Reg(out.0), target, vb, bound);
                }
                let ghost c1 = *self;
                let bc = b.clone();
                self.add_todo(pattern, bc, Reg(out.0 + 1));
                proof {
                    Compiler::lemma_add_todo_ok(c1, *self, p, bc, Reg((out.0 + 1) as u32), r.0 as nat, fresh);
                    assert(Set::<Seq<char>>::empty().union(vars_at(p, bc.id.0 as int)) =~= vars_at(p, bc.id.0 as int));
                    Compiler::lemma_add_todo_vars(c1, *self, p, bc, Reg((out.0 + 1) as u32), target, Set::empty(), bound);
                }
            },
            ENode::Var(_) => {
                assert(vi =~= Set::<Seq<char>>::empty());
            },
        }
        r
    }

    /// Emits a `Lookup` of the ground term under node `id` of the pattern, to equal the class
    /// in register `reg`.
    fn emit_lookup(&mut self, pattern: &RecExprFlat<ENodeOrVar<ENode>>, id: AppliedId, reg: Reg, Ghost(n): Ghost<nat>, Ghost(fresh): Ghost<bool>)
        requires
            old(self).state_ok(pattern.nodes@, n, fresh),
            flat_wf(pattern.nodes@),
            id.id.0 < pattern.nodes@.len(),
            extract_spec(pattern.nodes@, id.id.0 as int, 0).len() <= usize::MAX,
            reg.0 < n,
            forall|k: int| 0 <= k < old(self).free_vars@[id.id.0 as int]@.len() ==> bound_names(old(self).v2r@).contains(
                #[trigger] old(self).free_vars@[id.id.0 as int]@[k]@,
            ),
        ensures
            final(self).state_ok(pattern.nodes@, n, fresh),
            final(self).todo_nodes == old(self).todo_nodes,
            final(self).v2r == old(self).v2r,
            final(self).free_vars == old(self).free_vars,
            final(self).subtree_size == old(self).subtree_size,
            final(self).next_reg == old(self).next_reg,
            exists|term: Vec<ENodeOrReg>| {
                &&& final(self).instructions@ == old(self).instructions@.push(Instruction::Lookup { term, i: reg })
                &&& lookup_term(term@, extract_spec(pattern.nodes@, id.id.0 as int, 0), old(self).v2r@)
            },
    {
        let ghost p = pattern.nodes@;
        let ghost i = id.id.0 as int;
        let ghost c0 = *self;
        let extracted = pattern.extract(&id);
        proof {
            lemma_extract_vars(p, i, 0);
        }
        let mut term: Vec<ENodeOrReg> = Vec::new();
        let mut q: usize = 0;
        while q < extracted.nodes.len()
            invariant
                flat_views(extracted.nodes@) == extract_spec(p, i, 0),
                forall|k: int| 0 <= k < extract_spec(p, i, 0).len() ==> (#[trigger] extract_spec(p, i, 0)[k] matches FlatView::Var(v) ==> vars_at(p, i).contains(v)),
                self.state_ok(p, n, fresh),
                0 <= i < p.len(),
                forall|k: int| 0 <= k < self.free_vars@[i]@.len() ==> bound_names(self.v2r@).contains(
                    #[trigger] self.free_vars@[i]@[k]@,
                ),
                0 <= q <= extracted.nodes@.len(),
                forall|k: int| 0 <= k < term@.len() ==> (#[trigger] term@[k] matches ENodeOrReg::Reg(r) ==> r.0 < n),
                *self == c0,
                term@.len() == q,
                lookup_term(term@, extract_spec(p, i, 0).subrange(0, q as int), self.v2r@),
            decreases extracted.nodes@.len() - q,
        {
            let ghost t0 = term@;
            let ghost ex = extract_spec(p, i, 0);
            match &extracted.nodes[q] {
                ENodeOrVar::ENode(m) => {
                    term.push(ENodeOrReg::ENode(m.clone()));
                    proof {
                        assert(flat_views(extracted.nodes@)[q as int] == FlatView::ENode(m@));
                    }
                },
                ENodeOrVar::Var(v) => {
                    proof {
                        assert(flat_views(extracted.nodes@)[q as int] == FlatView::Var(v@));
                        assert(vars_at(p, i).contains(v@));
                        let fvi = self.free_vars@[i]@;
                        assert(texts(fvi).to_set().contains(v@));
                        let kk = choose|kk: int| 0 <= kk < texts(fvi).len() && texts(fvi)[kk] == v@;
                        assert(fvi[kk]@ == v@);
                        assert(bound_names(self.v2r@).contains(fvi[kk]@));
                    }
                    match self.lookup_var(v) {
                        Some(r) => {
                            proof {
                                let kk = choose|kk: int| 0 <= kk < self.v2r@.len() && #[trigger] self.v2r@[kk] == (self.v2r@[kk].0, r) && self.v2r@[kk].0@ == v@;
                                assert(self.v2r@[kk].1 == r);
                            }
                            term.push(ENodeOrReg::Reg(r));
                        },
                        None => {
                            proof {
                                assert(false);
                            }
                        },
                    }
                },
            }
            proof {
                let ex1 = ex.subrange(0, q + 1);
                assert forall|k: int| 0 <= k < term@.len() implies match #[trigger] ex1[k] {
                    FlatView::ENode(v) => term@[k] matches ENodeOrReg::ENode(m) && m@ == v,
                    FlatView::Var(name) => term@[k] matches ENodeOrReg::Reg(r) && exists|j: int|
                        0 <= j < self.v2r@.len() && #[trigger] self.v2r@[j].1 == r && self.v2r@[j].0@ == name,
                } by {
                    if k < q {
                        assert(term@[k] == t0[k]);
                        assert(ex1[k] == ex.subrange(0, q as int)[k]);
                    } else {
                        assert(ex1[k] == ex[q as int]);
                    }
                }
            }
            q = q + 1;
        }
        assert(extract_spec(p, i, 0).subrange(0, q as int) =~= extract_spec(p, i, 0));
        let ghost term_v = term@;
        let x = Instruction::Lookup { term, i: reg };
        let ghost old_ins = self.instructions@;
        self.instructions.push(x);
        proof {
            lemma_regs_after_push(old_ins, x);
            if fresh {
                let ins = self.instructions@;
                assert forall|t: int| 0 <= t < ins.len() implies instr_ok(#[trigger] ins[t], regs_after(ins, t)) by {
                    if t < old_ins.len() {
                        assert(ins[t] == old_ins[t]);
                    }
                }
                assert forall|t: int| 0 <= t < ins.len() implies !(#[trigger] ins[t] is Scan) by {
                    if t < old_ins.len() {
                        assert(ins[t] == old_ins[t]);
                    }
                }
            }
        }
    }

    /// Starts matching a new pattern: after the first one, a `Scan` puts each class into the
    /// next register; the root of `pattern` is to match the class in that register.
    fn add_new_pattern(
        &mut self,
        pattern: &RecExprFlat<ENodeOrVar<ENode>>,
        root: AppliedId,
        Ghost(target): Ghost<Set<Seq<char>>>,
        Ghost(bound): Ghost<Set<Seq<char>>>,
    )
        requires
            root.id.0 < pattern.nodes@.len(),
        ensures
            old(self).covers(pattern.nodes@, target, vars_at(pattern.nodes@, root.id.0 as int)) ==> final(self).covers(pattern.nodes@, target, Set::empty()),
            old(self).within(pattern.nodes@, bound) && vars_at(pattern.nodes@, root.id.0 as int).subset_of(bound) ==> final(self).within(pattern.nodes@, bound),
            final(self).free_vars == old(self).free_vars,
            final(self).subtree_size == old(self).subtree_size,
            final(self).next_reg == old(self).next_reg,
            old(self).instructions@.len() == 0 ==> new_pattern_step(*old(self), *final(self), pattern.nodes@, root),
            forall|k: int| 0 <= k < final(self).v2r@.len() ==> (#[trigger] final(self).v2r@[k]).1 == old(self).next_reg || exists|j: int|
                0 <= j < old(self).v2r@.len() && old(self).v2r@[j].1 == final(self).v2r@[k].1,
            final(self).todo_nodes@.len() <= old(self).todo_nodes@.len() + 1,
            final(self).todo_nodes@.subrange(0, old(self).todo_nodes@.len() as int) == old(self).todo_nodes@,
            final(self).todo_nodes@.len() == old(self).todo_nodes@.len() + 1 ==> {
                &&& final(self).todo_nodes@.last().0 == root
                &&& final(self).todo_nodes@.last().1 == old(self).next_reg
                &&& pattern.nodes@[root.id.0 as int] matches ENodeOrVar::ENode(m) && m@ == final(self).todo_nodes@.last().2@
            },
    {
        if self.instructions.len() > 0 {
            let out = self.next_reg;
            self.instructions.push(Instruction::Scan { out });
        }
        let reg = self.next_reg;
        let ghost before = self.v2r@;
        let ghost td = self.todo_nodes@;
        let ghost c0 = *self;
        self.add_todo(pattern, root, reg);
        proof {
            assert(Set::<Seq<char>>::empty().union(vars_at(pattern.nodes@, root.id.0 as int)) =~= vars_at(pattern.nodes@, root.id.0 as int));
            Compiler::lemma_add_todo_vars(c0, *self, pattern.nodes@, root, reg, target, Set::empty(), bound);
            assert forall|k: int| 0 <= k < self.v2r@.len() implies (#[trigger] self.v2r@[k]).1 == reg || exists|j: int|
                0 <= j < before.len() && before[j].1 == self.v2r@[k].1 by {
                if k < before.len() {
                    assert(self.v2r@[k] == before[k]);
                }
            }
            if self.todo_nodes@.len() == td.len() + 1 {
                assert(self.todo_nodes@.subrange(0, td.len() as int) =~= self.todo_nodes@.drop_last());
            } else {
                assert(self.todo_nodes@.subrange(0, td.len() as int) =~= td);
            }
        }
    }

    /// Compiles `pattern` into instructions that match it: its root against the class in the
    /// register after those in use, or, if `patternbinder` names a variable that has a
    /// register, against the class in that register; binds `patternbinder` to the root.
    fn compile(&mut self, patternbinder: Option<String>, pattern: &RecExprFlat<ENodeOrVar<ENode>>)
        requires
            flat_wf(pattern.nodes@),
            pattern.nodes@.len() > 0,
            forall|i: int| 0 <= i < pattern.nodes@.len() ==> size_at(pattern.nodes@, i) <= usize::MAX,
            forall|i: int| 0 <= i < pattern.nodes@.len() ==> extract_spec(pattern.nodes@, i, 0).len() <= usize::MAX,
            old(self).next_reg.0 + 1 + 2 * size_at(pattern.nodes@, pattern.nodes@.len() - 1) <= u32::MAX,
            old(self).todo_nodes@.len() == 0,
            forall|k: int| 0 <= k < old(self).v2r@.len() ==> (#[trigger] old(self).v2r@[k]).1.0 < old(self).next_reg.0,
            forall|a: int, b: int|
                #![trigger old(self).v2r@[a], old(self).v2r@[b]]
                0 <= a < old(self).v2r@.len() && 0 <= b < old(self).v2r@.len() && a != b ==> old(self).v2r@[a].0@ != old(self).v2r@[b].0@,
        ensures
            final(self).todo_nodes@.len() == 0,
            forall|a: int, b: int|
                #![trigger final(self).v2r@[a], final(self).v2r@[b]]
                0 <= a < final(self).v2r@.len() && 0 <= b < final(self).v2r@.len() && a != b ==> final(self).v2r@[a].0@ != final(self).v2r@[b].0@,
            forall|v: Seq<char>| #[trigger] vars_at(pattern.nodes@, pattern.nodes@.len() - 1).contains(v) ==> bound_names(final(self).v2r@).contains(v),
            forall|k: int| 0 <= k < final(self).v2r@.len() ==> {
                ||| bound_names(old(self).v2r@).contains((#[trigger] final(self).v2r@[k]).0@)
                ||| vars_at(pattern.nodes@, pattern.nodes@.len() - 1).contains(final(self).v2r@[k].0@)
                ||| patternbinder matches Some(b) && final(self).v2r@[k].0@ == b@
            },
            forall|k: int| 0 <= k < final(self).v2r@.len() ==> (#[trigger] final(self).v2r@[k]).1.0 < final(self).next_reg.0,
            patternbinder is None && old(self).instructions@.len() == 0 ==> root_var_compiled(*old(self), *final(self), pattern.nodes@),
            old(self).instructions@.len() == 0 && old(self).next_reg.0 == 0 ==> {
                &&& reads_ok(final(self).instructions@)
                &&& final(self).next_reg.0 == regs_after(final(self).instructions@, final(self).instructions@.len() as int)
                &&& forall|t: int| 0 <= t < final(self).instructions@.len() ==> !(#[trigger] final(self).instructions@[t] is Scan)
            },
    {
        let ghost fresh = self.instructions@.len() == 0 && self.next_reg.0 == 0;
        let ghost p = pattern.nodes@;
        let ghost v2r0 = self.v2r@;
        let ghost target = vars_at(p, p.len() - 1);
        let ghost binder_set = if patternbinder is Some {
            set![patternbinder->0@]
        } else {
            Set::<Seq<char>>::empty()
        };
        let ghost bound = bound_names(v2r0).to_set().union(target).union(binder_set);
        let ghost nr0 = self.next_reg.0;
        self.load_pattern(pattern);
        let root = pattern.root();
        let ghost root_id = root.id;
        assert(root_id.0 as int == p.len() - 1);
        let mut next_out = self.next_reg;
        let ghost c0 = *self;
        proof {
            assert forall|k: int| 0 <= k < self.v2r@.len() implies bound.contains((#[trigger] self.v2r@[k]).0@) by {
                assert(bound_names(v2r0)[k] == self.v2r@[k].0@);
            }
            assert(self.within(p, bound));
            assert(self.covers(p, target, target));
        }
        match patternbinder {
            Some(v) => {
                match self.lookup_var(&v) {
                    Some(i) => {
                        proof {
                            let kk = choose|kk: int| 0 <= kk < self.v2r@.len() && #[trigger] self.v2r@[kk] == (self.v2r@[kk].0, i) && self.v2r@[kk].0@ == v@;
                        }
                        self.add_todo(pattern, root, i);
                        proof {
                            Compiler::lemma_add_todo_ok(c0, *self, p, root, i, nr0 as nat, false);
                            assert(!fresh);
                            assert(Set::<Seq<char>>::empty().union(target) =~= target);
                            Compiler::lemma_add_todo_vars(c0, *self, p, root, i, target, Set::empty(), bound);
                        }
                    },
                    None => {
                        next_out = Reg(next_out.0 + 1);
                        self.add_new_pattern(pattern, root, Ghost(target), Ghost(bound));
                        let r = self.next_reg;
                        let ghost c1 = *self;
                        let ghost vv = v@;
                        self.insert_var(v, r);
                        proof {
                            assert(binder_set.contains(vv));
                            assert forall|k: int| 0 <= k < self.v2r@.len() implies bound.contains((#[trigger] self.v2r@[k]).0@) by {
                                if self.v2r@[k].0@ != vv {
                                    assert(c1.v2r@[k].0@ == self.v2r@[k].0@);
                                }
                            }
                            assert forall|w: Seq<char>| bound_names(c1.v2r@).contains(w) implies bound_names(self.v2r@).contains(w) by {
                                assert(bound_names(c1.v2r@).to_set().contains(w));
                                assert(bound_names(self.v2r@).to_set().contains(w));
                            }
                            assert(self.covers(p, target, Set::empty()));
                            assert(self.within(p, bound));
                        }
                    },
                }
            },
            None => {
                next_out = Reg(next_out.0 + 1);
                self.add_new_pattern(pattern, root, Ghost(target), Ghost(bound));
            },
        }
        let ghost c1 = *self;
        let ghost lone = patternbinder is None && c0.instructions@.len() == 0 && p[p.len() - 1] is Var;
        assert(lone ==> new_pattern_step(c0, c1, p, root) && next_out.0 == c0.next_reg.0 + 1);
        proof {
            let t = self.todo_nodes@;
            assert(t.len() <= 1);
            if t.len() == 1 {
                assert(t[0].0.id == root_id);
                assert(todo_weight(Seq::<(AppliedId, Reg, ENode)>::empty(), p) == 0);
                lemma_todo_weight_push(Seq::empty(), p, t[0]);
                assert(t =~= Seq::<(AppliedId, Reg, ENode)>::empty().push(t[0]));
                assert(todo_weight(t, p) == size_at(p, p.len() - 1));
            } else {
                assert(t =~= Seq::<(AppliedId, Reg, ENode)>::empty());
            }
            assert forall|k: int| 0 <= k < self.v2r@.len() implies (#[trigger] self.v2r@[k]).1.0 < next_out.0 by {
                if exists|j: int| 0 <= j < v2r0.len() && v2r0[j].1 == self.v2r@[k].1 {
                    let j = choose|j: int| 0 <= j < v2r0.len() && v2r0[j].1 == self.v2r@[k].1;
                    assert(v2r0[j].1.0 < nr0);
                }
            }
            if fresh {
                if v2r0.len() > 0 {
                    assert(v2r0[0].1.0 < nr0);
                }
                assert(self.instructions@ =~= Seq::<Instruction>::empty());
            }
        }
        loop
            invariant
                p == pattern.nodes@,
                flat_wf(p),
                forall|i: int| 0 <= i < p.len() ==> extract_spec(p, i, 0).len() <= usize::MAX,
                self.state_ok(p, next_out.0 as nat, fresh),
                next_out.0 + 2 * todo_weight(self.todo_nodes@, p) <= u32::MAX,
                self.covers(p, target, Set::empty()),
                self.within(p, bound),
                lone ==> self.todo_nodes@.len() == 0 && self.v2r == c1.v2r && self.instructions == c1.instructions,
                lone ==> next_out.0 == c0.next_reg.0 + 1,
            ensures
                self.state_ok(p, next_out.0 as nat, fresh),
                self.todo_nodes@.len() == 0,
                self.covers(p, target, Set::empty()),
                self.within(p, bound),
                lone ==> self.v2r == c1.v2r && self.instructions == c1.instructions,
                lone ==> next_out.0 == c0.next_reg.0 + 1,
            decreases todo_weight(self.todo_nodes@, p),
        {
            let ghost t = self.todo_nodes@;
            match self.next() {
                None => {
                    break;
                },
                Some(e) => {
                    let (id, reg, node) = e;
                    proof {
                        let k = choose|k: int|
                            0 <= k < t.len() && e == t[k] && self.todo_nodes@ == t.remove(k) && forall|j: int|
                                0 <= j < t.len() ==> self.key_le((#[trigger] t[j]).0.id.0 as int, t[k].0.id.0 as int);
                        lemma_todo_weight_remove(t, p, k);
                        assert(t[k].0.id.0 < p.len());
                        let r = self.todo_nodes@;
                        assert forall|j: int| 0 <= j < r.len() implies {
                            &&& (#[trigger] r[j]).0.id.0 < p.len()
                            &&& p[r[j].0.id.0 as int] matches ENodeOrVar::ENode(mm) && mm@ == r[j].2@
                            &&& r[j].1.0 < next_out.0
                        } by {
                            if j < k {
                                assert(r[j] == t[j]);
                            } else {
                                assert(r[j] == t[j + 1]);
                            }
                        }
                        assert(size_at(p, id.id.0 as int) >= 1);
                        let vi = vars_at(p, id.id.0 as int);
                        assert(vi.subset_of(bound));
                        assert forall|w: Seq<char>| #[trigger] target.contains(w) implies bound_names(self.v2r@).contains(w) || vi.contains(w) || exists|j: int|
                            0 <= j < r.len() && vars_at(p, (#[trigger] r[j]).0.id.0 as int).contains(w) by {
                            if !bound_names(self.v2r@).contains(w) && !vi.contains(w) {
                                let j = choose|j: int| 0 <= j < t.len() && vars_at(p, (#[trigger] t[j]).0.id.0 as int).contains(w);
                                if j < k {
                                    assert(r[j] == t[j]);
                                } else {
                                    assert(j != k);
                                    assert(r[j - 1] == t[j]);
                                }
                            }
                        }
                        assert forall|j: int| 0 <= j < r.len() implies vars_at(p, (#[trigger] r[j]).0.id.0 as int).subset_of(bound) by {
                            if j < k {
                                assert(r[j] == t[j]);
                            } else {
                                assert(r[j] == t[j + 1]);
                            }
                        }
                    }
                    if self.is_ground_now(id.id.0) && !is_leaf(&node) {
                        proof {
                            let fvi = self.free_vars@[id.id.0 as int]@;
                            assert forall|w: Seq<char>| vars_at(p, id.id.0 as int).contains(w) implies bound_names(self.v2r@).contains(w) by {
                                assert(texts(fvi).to_set().contains(w));
                                let kk = choose|kk: int| 0 <= kk < texts(fvi).len() && texts(fvi)[kk] == w;
                                assert(fvi[kk]@ == w);
                            }
                        }
                        self.emit_lookup(pattern, id, reg, Ghost(next_out.0 as nat), Ghost(fresh));
                    } else {
                        next_out = self.emit_bind(pattern, id, reg, node, next_out, Ghost(fresh), Ghost(target), Ghost(bound));
                    }
                },
            }
        }
        self.next_reg = next_out;
        proof {
            if lone {
                lemma_root_var(*old(self), c0, c1, *self, p, root);
            }
            assert forall|v: Seq<char>| #[trigger] target.contains(v) implies bound_names(self.v2r@).contains(v) by {}
            assert forall|k: int| 0 <= k < self.v2r@.len() implies {
                ||| bound_names(v2r0).contains((#[trigger] self.v2r@[k]).0@)
                ||| target.contains(self.v2r@[k].0@)
                ||| patternbinder matches Some(b) && self.v2r@[k].0@ == b@
            } by {
                assert(bound.contains(self.v2r@[k].0@));
            }
        }
    }

    /// The program: the instructions, and each variable's register as the id of an invocation
    /// without slots.
    fn extract(self) -> (r: Program)
        ensures
            r.instructions == self.instructions,
            r.subst@.len() == self.v2r@.len(),
            forall|k: int| 0 <= k < r.subst@.len() ==> {
                &&& (#[trigger] r.subst@[k]).0 == self.v2r@[k].0
                &&& r.subst@[k].1.id == Id(self.v2r@[k].1.0 as usize)
                &&& r.subst@[k].1.m@ == Map::<crate::slot::Slot, crate::slot::Slot>::empty()
                &&& r.subst@[k].1.wf()
            },
    {
        let mut subst: Vec<(String, AppliedId)> = Vec::new();
        let mut k: usize = 0;
        while k < self.v2r.len()
            invariant
                0 <= k <= self.v2r@.len(),
                subst@.len() == k,
                forall|j: int| 0 <= j < k ==> {
                    &&& (#[trigger] subst@[j]).0 == self.v2r@[j].0
                    &&& subst@[j].1.id == Id(self.v2r@[j].1.0 as usize)
                    &&& subst@[j].1.m@ == Map::<crate::slot::Slot, crate::slot::Slot>::empty()
                    &&& subst@[j].1.wf()
                },
            decreases self.v2r@.len() - k,
        {
            let (v, r) = (self.v2r[k].0.clone(), self.v2r[k].1);
            subst.push((v, AppliedId { id: Id(r.0 as usize), m: SlotMap::new() }));
            k = k + 1;
        }
        Program { instructions: self.instructions, subst }
    }
}

impl Program {
    /// Compiles a flattened pattern into a program that matches it against the class in the
    /// first register.
    pub fn compile_from_pat(pattern: &RecExprFlat<ENodeOrVar<ENode>>) -> (r: Program)
        requires
            flat_wf(pattern.nodes@),
            pattern.nodes@.len() > 0,
            forall|i: int| 0 <= i < pattern.nodes@.len() ==> size_at(pattern.nodes@, i) <= usize::MAX,
            forall|i: int| 0 <= i < pattern.nodes@.len() ==> extract_spec(pattern.nodes@, i, 0).len() <= usize::MAX,
            1 + 2 * size_at(pattern.nodes@, pattern.nodes@.len() - 1) <= u32::MAX,
        ensures
            reads_ok(r.instructions@),
            forall|t: int| 0 <= t < r.instructions@.len() ==> !(#[trigger] r.instructions@[t] is Scan),
            forall|k: int| 0 <= k < r.subst@.len() ==> {
                &&& (#[trigger] r.subst@[k]).1.id.0 < regs_after(r.instructions@, r.instructions@.len() as int)
                &&& r.subst@[k].1.m@ == Map::<crate::slot::Slot, crate::slot::Slot>::empty()
            },
            forall|a: int, b: int|
                #![trigger r.subst@[a], r.subst@[b]]
                0 <= a < r.subst@.len() && 0 <= b < r.subst@.len() && a != b ==> r.subst@[a].0@ != r.subst@[b].0@,
            forall|v: Seq<char>|
                #[trigger] vars_at(pattern.nodes@, pattern.nodes@.len() - 1).contains(v) <==> exists|k: int|
                    0 <= k < r.subst@.len() && (#[trigger] r.subst@[k]).0@ == v,
            pattern.nodes@[pattern.nodes@.len() - 1] matches ENodeOrVar::Var(x) ==> {
                &&& r.instructions@.len() == 0
                &&& r.subst@.len() == 1
                &&& r.subst@[0].0 == x
                &&& r.subst@[0].1.id == Id(0)
            },
    {
        let mut compiler = Compiler::new();
        let ghost c_new = compiler;
        compiler.compile(None, pattern);
        let ghost c = compiler;
        let r = compiler.extract();
        proof {
            assert(bound_names(c_new.v2r@).len() == 0);
            assert(c_new.v2r@ =~= Seq::<(String, Reg)>::empty());
            assert(c_new.instructions@ =~= Seq::<Instruction>::empty());
        }
        proof {
            let root_vars = vars_at(pattern.nodes@, pattern.nodes@.len() - 1);
            assert forall|v: Seq<char>| #[trigger] root_vars.contains(v) implies exists|k: int|
                0 <= k < r.subst@.len() && (#[trigger] r.subst@[k]).0@ == v by {
                assert(bound_names(c.v2r@).contains(v));
                let k = choose|k: int| 0 <= k < bound_names(c.v2r@).len() && bound_names(c.v2r@)[k] == v;
                assert(r.subst@[k].0 == c.v2r@[k].0);
            }
            assert forall|v: Seq<char>| (exists|k: int| 0 <= k < r.subst@.len() && (#[trigger] r.subst@[k]).0@ == v) implies root_vars.contains(v) by {
                let k = choose|k: int| 0 <= k < r.subst@.len() && (#[trigger] r.subst@[k]).0@ == v;
                assert(r.subst@[k].0 == c.v2r@[k].0);
                assert(bound_names(Seq::<(String, Reg)>::empty()).len() == 0);
            }
            assert forall|a: int, b: int|
                #![trigger r.subst@[a], r.subst@[b]]
                0 <= a < r.subst@.len() && 0 <= b < r.subst@.len() && a != b implies r.subst@[a].0@ != r.subst@[b].0@ by {
                assert(r.subst@[a].0 == c.v2r@[a].0 && r.subst@[b].0 == c.v2r@[b].0);
            }
        }
        r
    }
}


/// Which of the three kinds of e-node `n` is.
pub open spec fn kind_of(n: ENode) -> int {
    match n {
        ENode::Lam(..) => 0,
        ENode::App(..) => 1,
        ENode::Var(..) => 2,
    }
}

/// The e-nodes of class `c`; none where the e-graph has no such class.
pub open spec fn class_nodes(eg: EGraph, c: int) -> Seq<ENode> {
    if 0 <= c < eg.nodes@.len() {
        eg.nodes@[c]@
    } else {
        Seq::empty()
    }
}

/// The register contents at each match that the program `ins` finds from instruction `pc`
/// on, with the registers `reg`, in the order it finds them. Past the last instruction the
/// registers are one match. A `Bind` tries the e-nodes of the class in register `i` in
/// order; each of the same kind as its node replaces the registers from `out` on by its
/// children, and the rest of the program runs from there.
pub open spec fn matches_from(eg: EGraph, ins: Seq<Instruction>, pc: int, reg: Seq<AppView>) -> Seq<Seq<AppView>>
    decreases ins.len() - pc, 1int, 0int,
{
    if pc < 0 || pc >= ins.len() {
        seq![reg]
    } else {
        match ins[pc] {
            Instruction::Bind { node, i, out } => bind_from(
                eg,
                ins,
                pc,
                reg,
                node,
                out.0 as int,
                app_map(reg[i.0 as int]).1,
                class_nodes(eg, reg[i.0 as int].0.0 as int),
                0,
            ),
            _ => Seq::empty(),
        }
    }
}

/// The matches that the `Bind` at `pc` finds through the e-nodes `ns` from the `k`-th on,
/// each renamed by `rm`, the renaming of the register it reads.
pub open spec fn bind_from(
    eg: EGraph,
    ins: Seq<Instruction>,
    pc: int,
    reg: Seq<AppView>,
    node: ENode,
    out: int,
    rm: Map<Slot, Slot>,
    ns: Seq<ENode>,
    k: int,
) -> Seq<Seq<AppView>>
    decreases ins.len() - pc, 0int, ns.len() - k,
{
    if k < 0 || k >= ns.len() || pc < 0 || pc >= ins.len() {
        Seq::empty()
    } else {
        let here = if kind_of(ns[k]) == kind_of(node) {
            matches_from(eg, ins, pc + 1, reg.take(out) + view_children(with_all_slots(ns[k], rename_public(ns[k], rm))))
        } else {
            Seq::empty()
        };
        here + bind_from(eg, ins, pc, reg, node, out, rm, ns, k + 1)
    }
}

/// The register contents of each match, each as its views.
pub open spec fn match_views(s: Seq<Vec<AppliedId>>) -> Seq<Seq<AppView>> {
    s.map_values(|v: Vec<AppliedId>| app_views(v@))
}

/// Whether `a` and `b` are e-nodes of the same kind.
pub fn same_kind(a: &ENode, b: &ENode) -> (r: bool)
    ensures
        r == (kind_of(*a) == kind_of(*b)),
{
    match (a, b) {
        (ENode::Lam(..), ENode::Lam(..)) => true,
        (ENode::App(..), ENode::App(..)) => true,
        (ENode::Var(..), ENode::Var(..)) => true,
        _ => false,
    }
}

/// A copy of the registers.
fn copy_regs(v: &Vec<AppliedId>) -> (r: Vec<AppliedId>)
    ensures
        app_views(r@) == app_views(v@),
{
    let mut r: Vec<AppliedId> = Vec::new();
    let mut k: usize = 0;
    while k < v.len()
        invariant
            0 <= k <= v@.len(),
            app_views(r@) == app_views(v@.take(k as int)),
        decreases v@.len() - k,
    {
        let c = v[k].clone();
        let ghost before = r@;
        r.push(c);
        proof {
            assert(app_view(c) == app_view(v@[k as int]));
            assert(r@ == before.push(c));
            assert(v@.take(k + 1) == v@.take(k as int).push(v@[k as int]));
            assert(app_views(r@) =~= app_views(before).push(app_view(c)));
            assert(app_views(v@.take(k + 1)) =~= app_views(v@.take(k as int)).push(app_view(v@[k as int])));
        }
        k = k + 1;
    }
    assert(v@.take(v@.len() as int) =~= v@);
    r
}

/// Cuts the registers down to the first `n`.
fn truncate_regs(reg: &mut Vec<AppliedId>, n: usize)
    requires
        old(reg)@.len() >= n,
    ensures
        final(reg)@ == old(reg)@.take(n as int),
{
    let ghost o = reg@;
    while reg.len() > n
        invariant
            n <= reg@.len() <= o.len(),
            forall|i: int| 0 <= i < reg@.len() ==> #[trigger] reg@[i] == o[i],
        decreases reg@.len(),
    {
        let ghost b = reg@;
        reg.pop();
        assert(reg@ == b.drop_last());
    }
    assert(reg@ =~= o.take(n as int));
}

/// Puts the children of `n` after the registers, in order.
fn push_children(reg: &mut Vec<AppliedId>, n: &ENode)
    ensures
        app_views(final(reg)@) == app_views(old(reg)@) + app_views(app_ids_spec(*n)),
        n.wf() && (forall|j: int| 0 <= j < old(reg)@.len() ==> (#[trigger] old(reg)@[j]).wf()) ==> forall|j: int|
            0 <= j < final(reg)@.len() ==> (#[trigger] final(reg)@[j]).wf(),
{
    let cs = n.applied_id_occurrences();
    let mut j: usize = 0;
    while j < cs.len()
        invariant
            0 <= j <= cs@.len(),
            app_views(reg@) == app_views(old(reg)@) + app_views(cs@).take(j as int),
            reg@.len() == old(reg)@.len() + j,
            n.wf() ==> forall|q: int| 0 <= q < cs@.len() ==> #[trigger] cs@[q].wf(),
            n.wf() && (forall|q: int| 0 <= q < old(reg)@.len() ==> (#[trigger] old(reg)@[q]).wf()) ==> forall|q: int|
                0 <= q < reg@.len() ==> (#[trigger] reg@[q]).wf(),
        decreases cs@.len() - j,
    {
        let c = cs[j].clone();
        let ghost before = reg@;
        reg.push(c);
        proof {
            assert(c.m.keys@ == cs@[j as int].m.keys@ && c.m.vals@ == cs@[j as int].m.vals@);
            assert(reg@[before.len() as int] == c);
            assert(app_view(c) == app_view(cs@[j as int]));
            if n.wf() && (forall|q: int| 0 <= q < old(reg)@.len() ==> (#[trigger] old(reg)@[q]).wf()) {
                assert(cs@[j as int].wf());
                assert(c.wf());
                assert forall|q: int| 0 <= q < reg@.len() implies (#[trigger] reg@[q]).wf() by {
                    if q < before.len() {
                        assert(reg@[q] == before[q]);
                    }
                }
            }
            assert(reg@ == before.push(c));
            assert(app_views(reg@) =~= app_views(before).push(app_view(c)));
            assert(app_views(reg@) =~= app_views(old(reg)@) + app_views(cs@).take(j + 1));
        }
        j = j + 1;
    }
    assert(app_views(cs@).take(cs@.len() as int) =~= app_views(cs@));
}

/// The pattern-matching machine: its registers.
pub struct Machine {
    pub reg: Vec<AppliedId>,
}

impl Machine {
    /// Runs the program `ins` from instruction `pc` on the e-graph, and appends to `out` the
    /// register contents at each match. Only `Bind` instructions can be run.
    #[verifier::rlimit(40)]
    pub fn run(&mut self, eg: &EGraph, ins: &Vec<Instruction>, pc: usize, out: &mut Vec<Vec<AppliedId>>)
        requires
            eg.wf(),
            forall|j: int| 0 <= j < old(self).reg@.len() ==> (#[trigger] old(self).reg@[j]).wf(),
            reads_ok(ins@),
            forall|t: int| 0 <= t < ins@.len() ==> #[trigger] ins@[t] is Bind,
            pc <= ins@.len(),
            old(self).reg@.len() == regs_after(ins@, pc as int),
        ensures
            match_views(final(out)@) == match_views(old(out)@) + matches_from(*eg, ins@, pc as int, app_views(old(self).reg@)),
            final(self).reg@.len() >= old(self).reg@.len(),
            forall|j: int| 0 <= j < final(self).reg@.len() ==> (#[trigger] final(self).reg@[j]).wf(),
            app_views(final(self).reg@).take(old(self).reg@.len() as int) == app_views(old(self).reg@),
        decreases ins@.len() - pc,
    {
        let ghost start = self.reg@;
        let ghost out0 = out@;
        if pc >= ins.len() {
            out.push(copy_regs(&self.reg));
            proof {
                assert(match_views(out@) =~= match_views(out0) + seq![app_views(start)]);
                assert(app_views(self.reg@).take(start.len() as int) =~= app_views(start));
            }
            return;
        }
        assert(instr_ok(ins@[pc as int], regs_after(ins@, pc as int)));
        match &ins[pc] {
            Instruction::Bind { node, i, out: o } => {
                let ghost reg0 = app_views(start);
                let ghost ns_all = class_nodes(*eg, reg0[i.0 as int].0.0 as int);
                assert(reg0[i.0 as int].0 == self.reg@[i.0 as int].id);
                let c = self.reg[i.0 as usize].id.0;
                let rm = self.reg[i.0 as usize].m.clone();
                proof {
                    assert(self.reg@[i.0 as int].wf());
                    assert(rm@ =~= app_map(reg0[i.0 as int]).1);
                }
                let n_len: usize = if c < eg.nodes.len() { eg.nodes[c].len() } else { 0 };
                assert(n_len == ns_all.len());
                let n_ins = ins.len();
                let mut k: usize = 0;
                while k < n_len
                    invariant
                        0 <= k <= n_len,
                        n_ins == ins@.len(),
                        n_len == ns_all.len(),
                        eg.wf(),
                        rm.wf(),
                        forall|j: int| 0 <= j < self.reg@.len() ==> (#[trigger] self.reg@[j]).wf(),
                        rm@ == app_map(reg0[i.0 as int]).1,
                        c == reg0[i.0 as int].0.0,
                        c < eg.nodes@.len() ==> ns_all == eg.nodes@[c as int]@,
                        n_len > 0 ==> c < eg.nodes@.len(),
                        reads_ok(ins@),
                        forall|t: int| 0 <= t < ins@.len() ==> #[trigger] ins@[t] is Bind,
                        pc < ins@.len(),
                        ins@[pc as int] == (Instruction::Bind { node: *node, i: *i, out: *o }),
                        o.0 == regs_after(ins@, pc as int),
                        start.len() == regs_after(ins@, pc as int),
                        reg0 == app_views(start),
                        self.reg@.len() >= start.len(),
                        app_views(self.reg@).take(start.len() as int) == reg0,
                        match_views(out@) + bind_from(*eg, ins@, pc as int, reg0, *node, o.0 as int, rm@, ns_all, k as int)
                            == match_views(out0) + bind_from(*eg, ins@, pc as int, reg0, *node, o.0 as int, rm@, ns_all, 0),
                    decreases n_len - k,
                {
                    let ghost out1 = out@;
                    let n = &eg.nodes[c][k];
                    assert(*n == ns_all[k as int]);
                    if same_kind(n, node) {
                        let ghost pre = self.reg@;
                        truncate_regs(&mut self.reg, o.0 as usize);
                        assert(app_views(self.reg@) =~= app_views(pre).take(o.0 as int));
                        let ghost cut = self.reg@;
                        assert(n.wf());
                        let applied = n.apply_slotmap_partial(&rm);
                        push_children(&mut self.reg, &applied);
                        proof {
                            crate::proofs::lemma_children_views(applied);
                            match *n {
                                ENode::Lam(..) => {},
                                ENode::App(..) => {},
                                ENode::Var(..) => {},
                            }
                            assert(app_ids_spec(applied).len() == app_ids_spec(*node).len());
                        }
                        assert(reg0.take(o.0 as int) =~= reg0);
                        assert(regs_after(ins@, pc + 1) == regs_after(ins@, pc as int) + app_ids_spec(*node).len());
                        assert(self.reg@.len() == app_views(self.reg@).len());
                        assert(app_views(self.reg@).len() == start.len() + app_ids_spec(applied).len());
                        let ghost mid = self.reg@;
                        self.run(eg, ins, pc + 1, out);
                        proof {
                            assert(app_views(self.reg@).take(start.len() as int) =~= app_views(mid).take(mid.len() as int).take(start.len() as int));
                            assert(app_views(mid).take(mid.len() as int) =~= app_views(mid));
                            assert(app_views(mid).take(start.len() as int) =~= reg0);
                        }
                    }
                    proof {
                        let here = if kind_of(ns_all[k as int]) == kind_of(*node) {
                            matches_from(*eg, ins@, pc + 1, reg0.take(o.0 as int) + view_children(with_all_slots(ns_all[k as int], rename_public(ns_all[k as int], rm@))))
                        } else {
                            Seq::empty()
                        };
                        assert(bind_from(*eg, ins@, pc as int, reg0, *node, o.0 as int, rm@, ns_all, k as int)
                            == here + bind_from(*eg, ins@, pc as int, reg0, *node, o.0 as int, rm@, ns_all, k + 1));
                        if kind_of(ns_all[k as int]) != kind_of(*node) {
                            assert(match_views(out@) =~= match_views(out1) + here);
                        }
                        assert(match_views(out@) =~= match_views(out1) + here);
                        assert(match_views(out@) + bind_from(*eg, ins@, pc as int, reg0, *node, o.0 as int, rm@, ns_all, k + 1)
                            =~= match_views(out1) + bind_from(*eg, ins@, pc as int, reg0, *node, o.0 as int, rm@, ns_all, k as int));
                    }
                    k = k + 1;
                }
                proof {
                    assert(match_views(out@) =~= match_views(out0) + bind_from(*eg, ins@, pc as int, reg0, *node, o.0 as int, rm@, ns_all, 0));
                }
            },
            _ => {},
        }
    }
}

} // verus!
