use vstd::prelude::*;
use vstd::string::StringExecFns;
use crate::slot::{Slot, SlotTable, show_spec};
use crate::applied::AppliedId;
use crate::lang::{ENode, AppView, app_view, app_ids_spec, all_slots_spec, with_all_slots};
use crate::slotmap::SlotMap;
use crate::expr::{RecExpr, same_term, lemma_same_term_refl};
use crate::show::{re_showable, show_re};

verus! {

/// A field of an e-node: a slot or a child invocation.
#[derive(Debug)]
pub enum Child {
    AppliedId(AppliedId),
    Slot(Slot),
}

/// What a field holds.
pub enum ChildView {
    AppliedId(AppView),
    Slot(Slot),
}

pub open spec fn child_view(c: Child) -> ChildView {
    match c {
        Child::AppliedId(a) => ChildView::AppliedId(app_view(a)),
        Child::Slot(s) => ChildView::Slot(s),
    }
}

/// The operator name of an e-node.
pub open spec fn op_name(n: ENode) -> Seq<char> {
    match n {
        ENode::Lam(..) => seq!['l', 'a', 'm'],
        ENode::App(..) => seq!['a', 'p', 'p'],
        ENode::Var(..) => seq!['v', 'a', 'r'],
    }
}

/// The fields of an e-node, in the order of its declaration.
pub open spec fn op_children(n: ENode) -> Seq<ChildView> {
    match n {
        ENode::Lam(s, a) => seq![ChildView::Slot(s), ChildView::AppliedId(app_view(a))],
        ENode::App(a, b) => seq![ChildView::AppliedId(app_view(a)), ChildView::AppliedId(app_view(b))],
        ENode::Var(s) => seq![ChildView::Slot(s)],
    }
}

impl ENode {
    /// The operator name and the fields, in order.
    pub fn to_op(&self) -> (r: (String, Vec<Child>))
        ensures
            r.0@ == op_name(*self),
            r.1@.map_values(|c: Child| child_view(c)) == op_children(*self),
    {
        proof {
            reveal_strlit("lam");
            reveal_strlit("app");
            reveal_strlit("var");
        }
        let mut out: Vec<Child> = Vec::new();
        let op = match self {
            ENode::Lam(s, a) => {
                out.push(Child::Slot(*s));
                out.push(Child::AppliedId(a.clone()));
                "lam".to_owned()
            },
            ENode::App(a, b) => {
                out.push(Child::AppliedId(a.clone()));
                out.push(Child::AppliedId(b.clone()));
                "app".to_owned()
            },
            ENode::Var(s) => {
                out.push(Child::Slot(*s));
                "var".to_owned()
            },
        };
        assert(out@.map_values(|c: Child| child_view(c)) =~= op_children(*self));
        (op, out)
    }
}

/// One step of a flattened explanation: the term after the step, the position of the
/// rewritten subterm (child indices from the root), the justification, and whether the
/// rewrite was used backwards.
pub struct Step {
    pub dst: RecExpr,
    pub rw_pos: Vec<u8>,
    pub jus: String,
    pub back: bool,
}

/// The text of the `k`-th field's of `dst` when the rewrite is at `pos` below it.
pub open spec fn field_text(tab: SlotTable, dst: RecExpr, c: ChildView, j: int, pos: Seq<u8>, jus: Seq<char>, back: bool) -> Seq<char>
    decreases pos.len(), 0nat,
{
    match c {
        ChildView::Slot(s) => show_spec(tab, s),
        ChildView::AppliedId(_) => if pos.len() > 0 && 0 <= j < dst.children@.len() {
            if j == pos[0] as int {
                step_text(tab, dst.children@[j], pos.drop_first(), jus, back)
            } else {
                show_re(tab, dst.children@[j])
            }
        } else {
            seq![]
        },
    }
}

/// The number of child invocations among the first `k` fields.
pub open spec fn apps_in(cs: Seq<ChildView>, k: int) -> nat
    decreases k,
{
    if k <= 0 || k > cs.len() {
        0
    } else {
        apps_in(cs, k - 1) + if cs[k - 1] is AppliedId {
            1nat
        } else {
            0nat
        }
    }
}

/// The texts of the first `k` fields of `dst`, each after a space.
pub open spec fn fields_text(tab: SlotTable, dst: RecExpr, k: int, pos: Seq<u8>, jus: Seq<char>, back: bool) -> Seq<char>
    decreases pos.len(), 1nat, k,
{
    let cs = op_children(dst.node);
    if k <= 0 || k > cs.len() {
        seq![]
    } else {
        fields_text(tab, dst, k - 1, pos, jus, back) + seq![' '] + field_text(tab, dst, cs[k - 1], apps_in(cs, k - 1) as int, pos, jus, back)
    }
}

/// The text of a step: at the rewritten position, `(Rewrite=> jus t)` (or `<=` when used
/// backwards) with the new subterm `t`; above it, `(op fields...)` with the step's text in
/// place of the child on the way down.
pub open spec fn step_text(tab: SlotTable, dst: RecExpr, pos: Seq<u8>, jus: Seq<char>, back: bool) -> Seq<char>
    decreases pos.len(), 2nat, 0int,
{
    if pos.len() > 0 {
        seq!['('] + op_name(dst.node) + fields_text(tab, dst, op_children(dst.node).len() as int, pos, jus, back) + seq![')']
    } else {
        seq!['(', 'R', 'e', 'w', 'r', 'i', 't', 'e'] + (if back {
            seq!['<', '=']
        } else {
            seq!['=', '>']
        }) + seq![' '] + jus + seq![' '] + show_re(tab, dst) + seq![')']
    }
}

/// Appends the text of the step with destination `dst`, rewritten at `pos` from `from` on,
/// to `out`.
fn step_text_into(dst: &RecExpr, pos: &Vec<u8>, from: usize, jus: &String, back: bool, tab: &SlotTable, out: &mut String)
    requires
        re_showable(*tab, *dst),
        from <= pos@.len(),
    ensures
        final(out)@ == old(out)@ + step_text(*tab, *dst, pos@.subrange(from as int, pos@.len() as int), jus@, back),
    decreases pos@.len() - from,
{
    proof {
        reveal_strlit("(");
        reveal_strlit(")");
        reveal_strlit(" ");
        reveal_strlit("(Rewrite");
        reveal_strlit("<=");
        reveal_strlit("=>");
    }
    let ghost p = pos@.subrange(from as int, pos@.len() as int);
    let ghost start = out@;
    if from < pos.len() {
        let next = pos[from];
        let (op, children) = dst.node.to_op();
        let ghost cs = op_children(dst.node);
        proof {
            assert(p.drop_first() =~= pos@.subrange(from + 1, pos@.len() as int));
            assert(children@.len() == cs.len());
            assert forall|k: int| 0 <= k < cs.len() implies child_view(#[trigger] children@[k]) == cs[k] by {
                assert(children@.map_values(|c: Child| child_view(c))[k] == child_view(children@[k]));
            }
            assert(apps_in(cs, 0) == 0);
            match dst.node {
                ENode::Lam(..) => {
                    assert(apps_in(cs, 1) == 0);
                },
                ENode::App(..) => {
                    assert(apps_in(cs, 1) == 1);
                },
                ENode::Var(..) => {},
            }
        }
        out.append("(");
        out.append(op.as_str());
        let mut child_node_idx: usize = 0;
        let mut idx: usize = 0;
        while idx < children.len()
            invariant
                re_showable(*tab, *dst),
                from < pos@.len(),
                next == pos@[from as int],
                p == pos@.subrange(from as int, pos@.len() as int),
                p.drop_first() == pos@.subrange(from + 1, pos@.len() as int),
                p[0] == next,
                cs == op_children(dst.node),
                children@.len() == cs.len(),
                forall|k: int| 0 <= k < cs.len() ==> child_view(#[trigger] children@[k]) == cs[k],
                forall|k: int| 0 <= k < cs.len() ==> (#[trigger] cs[k] is AppliedId) ==> apps_in(cs, k) < dst.children@.len(),
                0 <= idx <= cs.len(),
                child_node_idx == apps_in(cs, idx as int),
                out@ == start + seq!['('] + op_name(dst.node) + fields_text(*tab, *dst, idx as int, p, jus@, back),
            decreases cs.len() - idx,
        {
            proof {
                reveal_strlit(" ");
            }
            out.append(" ");
            let ghost mid = out@;
            match &children[idx] {
                Child::AppliedId(_) => {
                    assert(cs[idx as int] is AppliedId);
                    let child_node = &dst.children[child_node_idx];
                    proof {
                        assert(re_showable(*tab, dst.children@[child_node_idx as int]));
                        let v = dst.children;
                        assert(decreases_to!(v => v@));
                    }
                    assert(pos.len() == pos@.len());
                    if child_node_idx == next as usize {
                        step_text_into(child_node, pos, from + 1, jus, back, tab, out);
                    } else {
                        let t = child_node.show(tab);
                        out.append(t.as_str());
                    }
                    assert(out@ == mid + field_text(*tab, *dst, cs[idx as int], child_node_idx as int, p, jus@, back));
                    child_node_idx = child_node_idx + 1;
                },
                Child::Slot(slot) => {
                    assert(cs[idx as int] == ChildView::Slot(*slot));
                    let t = slot.show(tab);
                    out.append(t.as_str());
                    assert(out@ == mid + field_text(*tab, *dst, cs[idx as int], apps_in(cs, idx as int) as int, p, jus@, back));
                },
            }
            assert(out@ =~= start + seq!['('] + op_name(dst.node) + fields_text(*tab, *dst, idx + 1, p, jus@, back));
            idx = idx + 1;
        }
        proof {
            reveal_strlit(")");
        }
        out.append(")");
        assert(out@ =~= start + step_text(*tab, *dst, p, jus@, back));
    } else {
        let dir_str = if back {
            "<="
        } else {
            "=>"
        };
        out.append("(Rewrite");
        out.append(dir_str);
        out.append(" ");
        out.append(jus.as_str());
        out.append(" ");
        let t = dst.show(tab);
        out.append(t.as_str());
        out.append(")");
        assert(p =~= Seq::<u8>::empty());
        assert(out@ =~= start + step_text(*tab, *dst, p, jus@, back));
    }
}

impl Step {
    /// The text of the step.
    pub fn to_string(&self, tab: &SlotTable) -> (r: String)
        requires
            re_showable(*tab, self.dst),
        ensures
            r@ == step_text(*tab, self.dst, self.rw_pos@, self.jus@, self.back),
    {
        let mut out = String::new();
        step_text_into(&self.dst, &self.rw_pos, 0, &self.jus, self.back, tab, &mut out);
        assert(self.rw_pos@.subrange(0, self.rw_pos@.len() as int) =~= self.rw_pos@);
        assert(out@ =~= step_text(*tab, self.dst, self.rw_pos@, self.jus@, self.back));
        out
    }
}


/// The path `pos` of child indices leads from `e` to a subterm.
pub open spec fn path_ok(e: RecExpr, pos: Seq<u8>) -> bool
    decreases pos.len(),
{
    pos.len() == 0 || ((pos[0] as int) < e.children@.len() && path_ok(e.children@[pos[0] as int], pos.drop_first()))
}

/// The subterm of `e` at the path `pos`.
pub open spec fn subexpr_spec(e: RecExpr, pos: Seq<u8>) -> RecExpr
    decreases pos.len(),
{
    if pos.len() > 0 && (pos[0] as int) < e.children@.len() {
        subexpr_spec(e.children@[pos[0] as int], pos.drop_first())
    } else {
        e
    }
}

/// `r` is `e` with the subterm at the path `pos` replaced by `x`.
pub open spec fn replaced(r: RecExpr, e: RecExpr, pos: Seq<u8>, x: RecExpr) -> bool
    decreases pos.len(),
{
    if pos.len() == 0 {
        same_term(r, x)
    } else {
        let k = pos[0] as int;
        &&& r.node@ == e.node@
        &&& r.children@.len() == e.children@.len()
        &&& forall|i: int| #![trigger r.children@[i]] 0 <= i < r.children@.len() && i != k ==> same_term(r.children@[i], e.children@[i])
        &&& 0 <= k < e.children@.len() ==> replaced(r.children@[k], e.children@[k], pos.drop_first(), x)
    }
}

impl RecExpr {
    fn subexpr_from(&self, pos: &Vec<u8>, from: usize) -> (r: &RecExpr)
        requires
            from <= pos@.len(),
            path_ok(*self, pos@.subrange(from as int, pos@.len() as int)),
        ensures
            *r == subexpr_spec(*self, pos@.subrange(from as int, pos@.len() as int)),
        decreases pos@.len() - from,
    {
        let ghost p = pos@.subrange(from as int, pos@.len() as int);
        if from < pos.len() {
            assert(p.drop_first() =~= pos@.subrange(from + 1, pos@.len() as int));
            let k = pos[from] as usize;
            self.children[k].subexpr_from(pos, from + 1)
        } else {
            self
        }
    }

    /// The subterm at the path `pos` of child indices.
    pub fn subexpr(&self, pos: &Vec<u8>) -> (r: &RecExpr)
        requires
            path_ok(*self, pos@),
        ensures
            *r == subexpr_spec(*self, pos@),
    {
        assert(pos@.subrange(0, pos@.len() as int) =~= pos@);
        self.subexpr_from(pos, 0)
    }

    fn replace_from(&self, pos: &Vec<u8>, from: usize, e: RecExpr) -> (r: RecExpr)
        requires
            from <= pos@.len(),
            path_ok(*self, pos@.subrange(from as int, pos@.len() as int)),
        ensures
            replaced(r, *self, pos@.subrange(from as int, pos@.len() as int), e),
        decreases pos@.len() - from,
    {
        let ghost p = pos@.subrange(from as int, pos@.len() as int);
        if from < pos.len() {
            assert(p.drop_first() =~= pos@.subrange(from + 1, pos@.len() as int));
            let mut children: Vec<RecExpr> = Vec::new();
            let mut i: usize = 0;
            while i < self.children.len()
                invariant
                    0 <= i <= self.children@.len(),
                    children@.len() == i,
                    forall|j: int| #![trigger children@[j]] 0 <= j < i ==> same_term(children@[j], self.children@[j]),
                decreases self.children@.len() - i,
            {
                children.push(self.children[i].clone());
                i = i + 1;
            }
            let child_idx = pos[from] as usize;
            let c = self.children[child_idx].replace_from(pos, from + 1, e);
            children.set(child_idx, c);
            RecExpr { node: self.node.clone(), children }
        } else {
            proof {
                lemma_same_term_refl(e);
            }
            e
        }
    }

    /// The term with the subterm at the path `pos` replaced by `e`.
    pub fn replace_subexpr(&self, pos: &Vec<u8>, e: RecExpr) -> (r: RecExpr)
        requires
            path_ok(*self, pos@),
        ensures
            replaced(r, *self, pos@, e),
    {
        assert(pos@.subrange(0, pos@.len() as int) =~= pos@);
        self.replace_from(pos, 0, e)
    }
}

/// `m` records that `s` stands for `h`, unless they are the same slot.
pub open spec fn note_slot(m: Map<Slot, Slot>, h: Slot, s: Slot) -> Map<Slot, Slot> {
    if h != s {
        m.insert(s, h)
    } else {
        m
    }
}

/// The two terms are the same up to the names of their slots: the same operators, with
/// children for each child invocation.
pub open spec fn alike(head: RecExpr, src: RecExpr) -> bool
    decreases head,
{
    &&& op_name(head.node) == op_name(src.node)
    &&& app_ids_spec(head.node).len() <= head.children@.len()
    &&& app_ids_spec(src.node).len() <= src.children@.len()
    &&& forall|j: int| #![trigger head.children@[j]] 0 <= j < app_ids_spec(head.node).len() ==> alike(head.children@[j], src.children@[j])
}

/// `m` with, for each pair of corresponding slot fields `h` of `head` and `s` of `src` in
/// order (the e-node's own before those of its children), `s` standing for `h`.
pub open spec fn slot_renaming(m: Map<Slot, Slot>, head: RecExpr, src: RecExpr) -> Map<Slot, Slot>
    decreases head, 1nat, 0int,
{
    renamed_upto(m, head, src, op_children(head.node).len() as int)
}

/// `m` after the first `k` fields of `head` and `src`.
pub open spec fn renamed_upto(m: Map<Slot, Slot>, head: RecExpr, src: RecExpr, k: int) -> Map<Slot, Slot>
    decreases head, 0nat, k,
{
    let hc = op_children(head.node);
    let sc = op_children(src.node);
    if k <= 0 || k > hc.len() || k > sc.len() {
        m
    } else {
        let prev = renamed_upto(m, head, src, k - 1);
        let j = apps_in(hc, k - 1) as int;
        match (hc[k - 1], sc[k - 1]) {
            (ChildView::Slot(h), ChildView::Slot(s)) => note_slot(prev, h, s),
            (ChildView::AppliedId(_), ChildView::AppliedId(_)) => if 0 <= j < head.children@.len() && j < src.children@.len() {
                slot_renaming(prev, head.children@[j], src.children@[j])
            } else {
                prev
            },
            _ => prev,
        }
    }
}

/// The head term of a flattened explanation, and the renaming of slots from the terms of
/// the equations to the slots of the head.
pub struct FlatteningContext {
    pub head: RecExpr,
    pub slot_map: SlotMap,
}

/// Records in `map`, for each slot field of `src`, the slot of `head` in the same place.
fn update_slot_map_core(map: &mut SlotMap, head: &RecExpr, src: &RecExpr)
    requires
        old(map).wf(),
        alike(*head, *src),
    ensures
        final(map).wf(),
        final(map)@ == slot_renaming(old(map)@, *head, *src),
    decreases head,
{
    let (_head_op, head_children) = head.node.to_op();
    let (_src_op, src_children) = src.node.to_op();
    let ghost hc = op_children(head.node);
    let ghost sc = op_children(src.node);
    let ghost m0 = map@;
    proof {
        assert(head_children@.len() == hc.len());
        assert(src_children@.len() == sc.len());
        assert forall|k: int| 0 <= k < hc.len() implies child_view(#[trigger] head_children@[k]) == hc[k] by {
            assert(head_children@.map_values(|c: Child| child_view(c))[k] == child_view(head_children@[k]));
        }
        assert forall|k: int| 0 <= k < sc.len() implies child_view(#[trigger] src_children@[k]) == sc[k] by {
            assert(src_children@.map_values(|c: Child| child_view(c))[k] == child_view(src_children@[k]));
        }
        assert(apps_in(hc, 0) == 0);
        match head.node {
            ENode::Lam(..) => {
                assert(apps_in(hc, 1) == 0);
            },
            ENode::App(..) => {
                assert(apps_in(hc, 1) == 1);
            },
            ENode::Var(..) => {},
        }
    }
    let mut child_idx: usize = 0;
    let mut idx: usize = 0;
    while idx < head_children.len()
        invariant
            alike(*head, *src),
            hc == op_children(head.node),
            sc == op_children(src.node),
            hc.len() == sc.len(),
            head_children@.len() == hc.len(),
            src_children@.len() == sc.len(),
            forall|k: int| 0 <= k < hc.len() ==> child_view(#[trigger] head_children@[k]) == hc[k],
            forall|k: int| 0 <= k < sc.len() ==> child_view(#[trigger] src_children@[k]) == sc[k],
            forall|k: int| 0 <= k < hc.len() ==> ((#[trigger] hc[k] is AppliedId) <==> sc[k] is AppliedId),
            forall|k: int| 0 <= k < hc.len() ==> (#[trigger] hc[k] is AppliedId) ==> apps_in(hc, k) < app_ids_spec(head.node).len(),
            0 <= idx <= hc.len(),
            child_idx == apps_in(hc, idx as int),
            map.wf(),
            map@ == renamed_upto(m0, *head, *src, idx as int),
        decreases hc.len() - idx,
    {
        match (&head_children[idx], &src_children[idx]) {
            (Child::AppliedId(_), Child::AppliedId(_)) => {
                proof {
                    assert(hc[idx as int] is AppliedId);
                    assert(alike(head.children@[child_idx as int], src.children@[child_idx as int]));
                    let v = head.children;
                    assert(decreases_to!(*head => v));
                    assert(decreases_to!(v => v@));
                    assert(decreases_to!(v@ => v@[child_idx as int]));
                }
                update_slot_map_core(map, &head.children[child_idx], &src.children[child_idx]);
                child_idx = child_idx + 1;
            },
            (Child::Slot(h), Child::Slot(s)) => {
                assert(hc[idx as int] == ChildView::Slot(*h));
                assert(sc[idx as int] == ChildView::Slot(*s));
                if h != s {
                    map.insert(*s, *h);
                }
            },
            _ => {
                assert(false);
            },
        }
        idx = idx + 1;
    }
}

impl FlatteningContext {
    /// Records the renaming from the slots of `subsrc` to those of the subterm of the head at
    /// `pos`, which it equals up to the names of slots.
    pub fn update_slot_map(&mut self, subsrc: &RecExpr, pos: &Vec<u8>)
        requires
            old(self).slot_map.wf(),
            path_ok(old(self).head, pos@),
            alike(subexpr_spec(old(self).head, pos@), *subsrc),
        ensures
            final(self).head == old(self).head,
            final(self).slot_map.wf(),
            final(self).slot_map@ == slot_renaming(old(self).slot_map@, subexpr_spec(old(self).head, pos@), *subsrc),
    {
        let subhead = self.head.subexpr(pos);
        update_slot_map_core(&mut self.slot_map, subhead, subsrc);
    }
}


/// Following `m` from `s` ends, within `n` steps, at a slot that `m` does not map.
pub open spec fn settles(m: Map<Slot, Slot>, s: Slot, n: nat) -> bool
    decreases n,
{
    !m.contains_key(s) || (n > 0 && settles(m, m[s], (n - 1) as nat))
}

/// Where following `m` from `s` for at most `n` steps leads.
pub open spec fn follow(m: Map<Slot, Slot>, s: Slot, n: nat) -> Slot
    decreases n,
{
    if !m.contains_key(s) || n == 0 {
        s
    } else {
        follow(m, m[s], (n - 1) as nat)
    }
}

/// The slot at which following `m` from `s` ends, where it ends.
pub open spec fn chain_end(m: Map<Slot, Slot>, s: Slot) -> Slot {
    follow(m, s, choose|n: nat| settles(m, s, n))
}

/// Where the chain from `s` ends does not depend on the bound that shows it ends.
pub proof fn lemma_follow_settled(m: Map<Slot, Slot>, s: Slot, n: nat, n2: nat)
    requires
        settles(m, s, n),
        settles(m, s, n2),
    ensures
        follow(m, s, n) == follow(m, s, n2),
        !m.contains_key(follow(m, s, n)),
    decreases n,
{
    if m.contains_key(s) {
        lemma_follow_settled(m, m[s], (n - 1) as nat, (n2 - 1) as nat);
    }
}

/// Following `m` from `s` ends at a slot that `m` does not map.
pub open spec fn slot_settles(m: Map<Slot, Slot>, s: Slot) -> bool {
    exists|n: nat| settles(m, s, n)
}

/// Every slot occurrence of the term leads, by `m`, to a slot that `m` does not map; its
/// e-nodes are well formed.
pub open spec fn settled_term(m: Map<Slot, Slot>, e: RecExpr) -> bool
    decreases e,
{
    &&& e.node.wf()
    &&& forall|i: int| 0 <= i < all_slots_spec(e.node).len() ==> slot_settles(m, #[trigger] all_slots_spec(e.node)[i])
    &&& forall|i: int| #![trigger e.children@[i]] 0 <= i < e.children@.len() ==> settled_term(m, e.children@[i])
}

/// `r` is `e` with each slot occurrence replaced by the end of its chain under `m`.
pub open spec fn slots_mapped(r: RecExpr, e: RecExpr, m: Map<Slot, Slot>) -> bool
    decreases e,
{
    &&& r.node@ == with_all_slots(e.node, all_slots_spec(e.node).map_values(|x: Slot| chain_end(m, x)))
    &&& r.children@.len() == e.children@.len()
    &&& forall|i: int| #![trigger e.children@[i]] 0 <= i < e.children@.len() ==> slots_mapped(r.children@[i], e.children@[i], m)
}

impl RecExpr {
    /// Follows `m` from `s` until a slot that it does not map.
    pub fn map_slot(s: Slot, m: &SlotMap) -> (r: Slot)
        requires
            m.wf(),
            slot_settles(m@, s),
        ensures
            r == chain_end(m@, s),
            !m@.contains_key(r),
    {
        let ghost n0 = choose|n: nat| settles(m@, s, n);
        let ghost mut k: nat = n0;
        let mut cur = s;
        loop
            invariant
                m.wf(),
                settles(m@, s, n0),
                settles(m@, cur, k),
                follow(m@, cur, k) == follow(m@, s, n0),
            ensures
                !m@.contains_key(cur),
                cur == follow(m@, s, n0),
            decreases k,
        {
            match m.get(cur) {
                Some(new) => {
                    cur = new;
                    proof {
                        k = (k - 1) as nat;
                    }
                },
                None => {
                    break;
                },
            }
        }
        proof {
            lemma_follow_settled(m@, s, n0, choose|n: nat| settles(m@, s, n));
        }
        cur
    }

    /// Replaces each slot occurrence of the term by the end of its chain under `m`.
    pub fn apply_slot_map(&mut self, m: &SlotMap)
        requires
            m.wf(),
            settled_term(m@, *old(self)),
        ensures
            slots_mapped(*final(self), *old(self), m@),
        decreases *old(self),
    {
        let ghost e = *self;
        let xs = self.node.all_slot_occurrences();
        let mut ys: Vec<Slot> = Vec::new();
        let mut i: usize = 0;
        while i < xs.len()
            invariant
                m.wf(),
                xs@ == all_slots_spec(e.node),
                settled_term(m@, e),
                0 <= i <= xs@.len(),
                ys@ == xs@.subrange(0, i as int).map_values(|x: Slot| chain_end(m@, x)),
            decreases xs@.len() - i,
        {
            assert(slot_settles(m@, all_slots_spec(e.node)[i as int]));
            let y = RecExpr::map_slot(xs[i], m);
            let ghost before = ys@;
            ys.push(y);
            assert(ys@ =~= xs@.subrange(0, i + 1).map_values(|x: Slot| chain_end(m@, x)));
            i = i + 1;
        }
        assert(xs@.subrange(0, xs@.len() as int) =~= xs@);
        self.node = self.node.with_slot_occurrences(&ys);
        let mut old_children: Vec<RecExpr> = Vec::new();
        std::mem::swap(&mut old_children, &mut self.children);
        let mut new_children: Vec<RecExpr> = Vec::new();
        let ghost n = old_children@.len();
        while old_children.len() > 0
            invariant
                m.wf(),
                e == *old(self),
                settled_term(m@, e),
                n == e.children@.len(),
                new_children@.len() + old_children@.len() == n,
                forall|j: int| 0 <= j < old_children@.len() ==> #[trigger] old_children@[j] == e.children@[new_children@.len() + j],
                forall|j: int| #![trigger new_children@[j]] 0 <= j < new_children@.len() ==> slots_mapped(new_children@[j], e.children@[j], m@),
            decreases old_children@.len(),
        {
            let ghost k = new_children@.len() as int;
            let mut c = old_children.remove(0);
            proof {
                assert(c == e.children@[k]);
                let v = e.children;
                assert(decreases_to!(e => v));
                assert(decreases_to!(v => v@));
                assert(decreases_to!(v@ => v@[k]));
                assert(decreases_to!(e => c));
                assert(e == *old(self));
                assert(decreases_to!(*old(self) => c));
            }
            c.apply_slot_map(m);
            new_children.push(c);
            proof {
                assert forall|j: int| 0 <= j < old_children@.len() implies #[trigger] old_children@[j] == e.children@[new_children@.len() + j] by {
                }
            }
        }
        self.children = new_children;
    }
}

/// `a` and `b` are the same term: the relation is symmetric.
pub proof fn lemma_same_term_symm(a: RecExpr, b: RecExpr)
    requires
        same_term(a, b),
    ensures
        same_term(b, a),
    decreases a,
{
    assert forall|i: int| #![trigger b.children@[i]] 0 <= i < b.children@.len() implies same_term(b.children@[i], a.children@[i]) by {
        lemma_same_term_symm(a.children@[i], b.children@[i]);
    }
}

/// The same term is a transitive relation.
pub proof fn lemma_same_term_trans(a: RecExpr, b: RecExpr, c: RecExpr)
    requires
        same_term(a, b),
        same_term(b, c),
    ensures
        same_term(a, c),
    decreases a,
{
    assert forall|i: int| #![trigger a.children@[i]] 0 <= i < a.children@.len() implies same_term(a.children@[i], c.children@[i]) by {
        lemma_same_term_trans(a.children@[i], b.children@[i], c.children@[i]);
    }
}

/// Replacing in one of two equal terms gives what replacing in the other gives.
pub proof fn lemma_replaced_same(r: RecExpr, e: RecExpr, e2: RecExpr, pos: Seq<u8>, x: RecExpr)
    requires
        replaced(r, e, pos, x),
        same_term(e, e2),
    ensures
        replaced(r, e2, pos, x),
    decreases pos.len(),
{
    if pos.len() > 0 {
        let k = pos[0] as int;
        assert forall|i: int| #![trigger r.children@[i]] 0 <= i < r.children@.len() && i != k implies same_term(r.children@[i], e2.children@[i]) by {
            lemma_same_term_trans(r.children@[i], e.children@[i], e2.children@[i]);
        }
        if 0 <= k < e.children@.len() {
            lemma_replaced_same(r.children@[k], e.children@[k], e2.children@[k], pos.drop_first(), x);
        }
    }
}

/// The term `s.dst` is `prev` with one subterm, at `s.rw_pos`, replaced.
pub open spec fn step_from(prev: RecExpr, s: Step) -> bool {
    exists|x: RecExpr| replaced(s.dst, prev, s.rw_pos@, x)
}

/// The steps lead, one after the other, from the head `h0` to the head `h1`: each rewrites
/// one subterm of the term before it, at its position.
pub open spec fn chained(h0: RecExpr, steps: Seq<Step>, h1: RecExpr) -> bool {
    &&& steps.len() == 0 ==> same_term(h1, h0)
    &&& steps.len() > 0 ==> step_from(h0, steps[0]) && same_term(h1, steps.last().dst)
    &&& forall|i: int| 0 < i < steps.len() ==> step_from(steps[i - 1].dst, #[trigger] steps[i])
}

/// The same terms have the same paths, and the same subterms along them.
pub proof fn lemma_same_subexpr(h1: RecExpr, h0: RecExpr, pos: Seq<u8>)
    requires
        same_term(h1, h0),
        path_ok(h0, pos),
    ensures
        path_ok(h1, pos),
        same_term(subexpr_spec(h1, pos), subexpr_spec(h0, pos)),
    decreases pos.len(),
{
    if pos.len() > 0 {
        let k = pos[0] as int;
        assert(same_term(h1.children@[k], h0.children@[k]));
        lemma_same_subexpr(h1.children@[k], h0.children@[k], pos.drop_first());
    }
}

/// One step further down a path: the child of the subterm.
pub proof fn lemma_subexpr_push(e: RecExpr, pos: Seq<u8>, i: u8)
    requires
        path_ok(e, pos),
        (i as int) < subexpr_spec(e, pos).children@.len(),
    ensures
        path_ok(e, pos.push(i)),
        subexpr_spec(e, pos.push(i)) == subexpr_spec(e, pos).children@[i as int],
    decreases pos.len(),
{
    let q = pos.push(i);
    if pos.len() > 0 {
        let k = pos[0] as int;
        assert(q[0] == pos[0]);
        assert(q.drop_first() =~= pos.drop_first().push(i));
        assert(subexpr_spec(e, pos) == subexpr_spec(e.children@[k], pos.drop_first()));
        lemma_subexpr_push(e.children@[k], pos.drop_first(), i);
        assert(path_ok(e, q));
        assert(subexpr_spec(e, q) == subexpr_spec(e.children@[k], q.drop_first()));
    } else {
        assert(q[0] == i);
        assert(q.drop_first() =~= Seq::<u8>::empty());
        assert(subexpr_spec(e, pos) == e);
        assert(path_ok(e.children@[i as int], q.drop_first()));
        assert(path_ok(e, q));
        assert(subexpr_spec(e, q) == subexpr_spec(e.children@[i as int], q.drop_first()));
    }
}

/// Renaming between the same terms records nothing new.
pub proof fn lemma_renamed_same(m: Map<Slot, Slot>, head: RecExpr, src: RecExpr, k: int)
    requires
        same_term(head, src),
    ensures
        renamed_upto(m, head, src, k) == m,
    decreases head, 0nat, k,
{
    let hc = op_children(head.node);
    let sc = op_children(src.node);
    assert(hc == sc) by {
        match (head.node, src.node) {
            (ENode::Lam(..), ENode::Lam(..)) => {},
            (ENode::App(..), ENode::App(..)) => {},
            (ENode::Var(..), ENode::Var(..)) => {},
            _ => {
                assert(head.node@ == src.node@);
            },
        }
    }
    if !(k <= 0 || k > hc.len() || k > sc.len()) {
        lemma_renamed_same(m, head, src, k - 1);
        let j = apps_in(hc, k - 1) as int;
        match (hc[k - 1], sc[k - 1]) {
            (ChildView::AppliedId(_), ChildView::AppliedId(_)) => {
                if 0 <= j < head.children@.len() && j < src.children@.len() {
                    assert(same_term(head.children@[j], src.children@[j]));
                    lemma_renaming_same(m, head.children@[j], src.children@[j]);
                }
            },
            _ => {},
        }
    }
}

/// Renaming between the same terms records nothing new.
pub proof fn lemma_renaming_same(m: Map<Slot, Slot>, head: RecExpr, src: RecExpr)
    requires
        same_term(head, src),
    ensures
        slot_renaming(m, head, src) == m,
    decreases head, 1nat, 0int,
{
    lemma_renamed_same(m, head, src, op_children(head.node).len() as int);
}

/// With no renaming every slot is settled where the e-nodes are well formed.
pub proof fn lemma_settled_empty(e: RecExpr)
    requires
        nodes_wf(e),
    ensures
        settled_term(Map::<Slot, Slot>::empty(), e),
    decreases e,
{
    let m = Map::<Slot, Slot>::empty();
    assert forall|i: int| 0 <= i < all_slots_spec(e.node).len() implies slot_settles(m, #[trigger] all_slots_spec(e.node)[i]) by {
        assert(settles(m, all_slots_spec(e.node)[i], 0));
    }
    assert forall|i: int| #![trigger e.children@[i]] 0 <= i < e.children@.len() implies settled_term(m, e.children@[i]) by {
        lemma_settled_empty(e.children@[i]);
    }
}

/// Mapping by no renaming leaves the term as it was.
pub proof fn lemma_mapped_empty(r: RecExpr, e: RecExpr)
    requires
        slots_mapped(r, e, Map::<Slot, Slot>::empty()),
    ensures
        same_term(r, e),
    decreases e,
{
    let m = Map::<Slot, Slot>::empty();
    let xs = all_slots_spec(e.node);
    let ys = xs.map_values(|x: Slot| chain_end(m, x));
    assert forall|i: int| 0 <= i < xs.len() implies ys[i] == xs[i] by {
        assert(follow(m, xs[i], choose|n: nat| settles(m, xs[i], n)) == xs[i]);
    }
    assert(ys =~= xs);
    match e.node {
        ENode::Lam(s, a) => {
            assert(xs.subrange(1, xs.len() as int) =~= a.m.vals@);
        },
        ENode::App(a, b) => {
            assert(xs.subrange(0, a.m.vals@.len() as int) =~= a.m.vals@);
            assert(xs.subrange(a.m.vals@.len() as int, xs.len() as int) =~= b.m.vals@);
        },
        ENode::Var(s) => {},
    }
    assert(r.node@ == e.node@);
    assert forall|i: int| #![trigger r.children@[i]] 0 <= i < r.children@.len() implies same_term(r.children@[i], e.children@[i]) by {
        lemma_mapped_empty(r.children@[i], e.children@[i]);
    }
}

/// Where the subterm at `pos` was replaced by `x`, the path is still there and leads to `x`.
pub proof fn lemma_replaced_sub(r: RecExpr, e: RecExpr, pos: Seq<u8>, x: RecExpr)
    requires
        replaced(r, e, pos, x),
        path_ok(e, pos),
    ensures
        path_ok(r, pos),
        same_term(subexpr_spec(r, pos), x),
    decreases pos.len(),
{
    if pos.len() > 0 {
        let k = pos[0] as int;
        lemma_replaced_sub(r.children@[k], e.children@[k], pos.drop_first(), x);
    }
}

/// A term the same as one alike `e` is alike `e`.
pub proof fn lemma_same_alike(a: RecExpr, b: RecExpr, e: RecExpr)
    requires
        same_term(a, b),
        alike(b, e),
    ensures
        alike(a, e),
    decreases a,
{
    assert(op_name(a.node) == op_name(b.node) && app_ids_spec(a.node).len() == app_ids_spec(b.node).len()) by {
        match (a.node, b.node) {
            (ENode::Lam(..), ENode::Lam(..)) => {},
            (ENode::App(..), ENode::App(..)) => {},
            (ENode::Var(..), ENode::Var(..)) => {},
            _ => {
                assert(a.node@ == b.node@);
            },
        }
    }
    assert forall|j: int| #![trigger a.children@[j]] 0 <= j < app_ids_spec(a.node).len() implies alike(a.children@[j], e.children@[j]) by {
        assert(same_term(a.children@[j], b.children@[j]));
        assert(alike(b.children@[j], e.children@[j]));
        lemma_same_alike(a.children@[j], b.children@[j], e.children@[j]);
    }
}

/// Two chains, one after the other, make a chain.
pub proof fn lemma_chained_concat(h0: RecExpr, a: Seq<Step>, hm: RecExpr, b: Seq<Step>, h1: RecExpr)
    requires
        chained(h0, a, hm),
        chained(hm, b, h1),
    ensures
        chained(h0, a + b, h1),
{
    let ab = a + b;
    if a.len() == 0 {
        assert(ab =~= b);
        if b.len() > 0 {
            let x = choose|x: RecExpr| replaced(b[0].dst, hm, b[0].rw_pos@, x);
            lemma_replaced_same(b[0].dst, hm, h0, b[0].rw_pos@, x);
        } else {
            lemma_same_term_trans(h1, hm, h0);
        }
    } else if b.len() == 0 {
        assert(ab =~= a);
        lemma_same_term_trans(h1, hm, a.last().dst);
    } else {
        assert forall|i: int| 0 < i < ab.len() implies step_from(ab[i - 1].dst, #[trigger] ab[i]) by {
            if i < a.len() {
                assert(ab[i] == a[i] && ab[i - 1] == a[i - 1]);
            } else if i == a.len() {
                assert(ab[i] == b[0] && ab[i - 1] == a.last());
                let x = choose|x: RecExpr| replaced(b[0].dst, hm, b[0].rw_pos@, x);
                lemma_same_term_symm(hm, a.last().dst);
                lemma_replaced_same(b[0].dst, hm, a.last().dst, b[0].rw_pos@, x);
            } else {
                assert(ab[i] == b[i - a.len()] && ab[i - 1] == b[i - 1 - a.len()]);
            }
        }
        assert(ab[0] == a[0]);
        assert(ab.last() == b.last());
    }
}

/// Decides [path_ok] for the part of `pos` from `from` on.
fn path_ok_from(e: &RecExpr, pos: &Vec<u8>, from: usize) -> (r: bool)
    requires
        from <= pos@.len(),
    ensures
        r == path_ok(*e, pos@.subrange(from as int, pos@.len() as int)),
    decreases pos@.len() - from,
{
    let ghost p = pos@.subrange(from as int, pos@.len() as int);
    if from < pos.len() {
        assert(p.drop_first() =~= pos@.subrange(from + 1, pos@.len() as int));
        let k = pos[from] as usize;
        if k < e.children.len() {
            path_ok_from(&e.children[k], pos, from + 1)
        } else {
            false
        }
    } else {
        true
    }
}

/// Decides [path_ok].
pub fn check_path(e: &RecExpr, pos: &Vec<u8>) -> (r: bool)
    ensures
        r == path_ok(*e, pos@),
{
    assert(pos@.subrange(0, pos@.len() as int) =~= pos@);
    path_ok_from(e, pos, 0)
}

/// Decides [alike].
pub fn check_alike(head: &RecExpr, src: &RecExpr) -> (r: bool)
    ensures
        r == alike(*head, *src),
    decreases head,
{
    let same_op = match (&head.node, &src.node) {
        (ENode::Lam(..), ENode::Lam(..)) => true,
        (ENode::App(..), ENode::App(..)) => true,
        (ENode::Var(..), ENode::Var(..)) => true,
        _ => false,
    };
    if !same_op {
        proof {
            assert(op_name(head.node)[0] != op_name(src.node)[0] || op_name(head.node)[1] != op_name(src.node)[1]);
        }
        return false;
    }
    let n: usize = match &head.node {
        ENode::Lam(..) => 1,
        ENode::App(..) => 2,
        ENode::Var(..) => 0,
    };
    assert(n == app_ids_spec(head.node).len());
    assert(n == app_ids_spec(src.node).len());
    if head.children.len() < n || src.children.len() < n {
        return false;
    }
    let mut j: usize = 0;
    while j < n
        invariant
            n == app_ids_spec(head.node).len(),
            n <= head.children@.len(),
            n <= src.children@.len(),
            0 <= j <= n,
            forall|t: int| #![trigger head.children@[t]] 0 <= t < j ==> alike(head.children@[t], src.children@[t]),
        decreases n - j,
    {
        proof {
            let v = head.children;
            assert(decreases_to!(*head => v));
            assert(decreases_to!(v => v@));
            assert(decreases_to!(v@ => v@[j as int]));
        }
        if !check_alike(&head.children[j], &src.children[j]) {
            return false;
        }
        j = j + 1;
    }
    true
}

/// Every e-node of the term is well formed.
pub open spec fn nodes_wf(e: RecExpr) -> bool
    decreases e,
{
    &&& e.node.wf()
    &&& forall|i: int| #![trigger e.children@[i]] 0 <= i < e.children@.len() ==> nodes_wf(e.children@[i])
}

proof fn lemma_settles_step(m: Map<Slot, Slot>, cur: Slot, n: nat)
    requires
        m.contains_key(cur),
        settles(m, m[cur], n),
    ensures
        settles(m, cur, n + 1),
{
    assert(settles(m, cur, n + 1));
}

/// Following `a` steps and then `b` steps is following `a + b` steps.
pub proof fn lemma_follow_add(m: Map<Slot, Slot>, s: Slot, a: nat, b: nat)
    ensures
        follow(m, s, a + b) == follow(m, follow(m, s, a), b),
    decreases a,
{
    if a > 0 && m.contains_key(s) {
        lemma_follow_add(m, m[s], (a - 1) as nat, b);
        assert((a + b - 1) as nat == ((a - 1) as nat + b));
    }
}

/// From a slot that `d` steps lead back to, every number of steps leads where fewer than
/// `d` steps lead.
proof fn lemma_cycle(m: Map<Slot, Slot>, x: Slot, d: nat, u: nat) -> (r: nat)
    requires
        d > 0,
        follow(m, x, d) == x,
    ensures
        r < d,
        follow(m, x, u) == follow(m, x, r),
    decreases u,
{
    if u < d {
        u
    } else {
        let v = (u - d) as nat;
        let r0 = lemma_cycle(m, x, d, v);
        lemma_follow_add(m, x, d, v);
        assert(d + v == u);
        r0
    }
}

/// A chain that stays within the keys of a finite map for more steps than the map has keys
/// runs in a circle and never ends.
pub proof fn lemma_never_settles(m: Map<Slot, Slot>, s: Slot, n: nat)
    requires
        m.dom().finite(),
        n == m.dom().len(),
        forall|i: nat| i <= n ==> m.contains_key(#[trigger] follow(m, s, i)),
    ensures
        !slot_settles(m, s),
{
    let q = Seq::new(n + 1, |i: int| follow(m, s, i as nat));
    assert(q.to_set().subset_of(m.dom())) by {
        assert forall|y: Slot| q.to_set().contains(y) implies m.dom().contains(y) by {
            let i = choose|i: int| 0 <= i < q.len() && q[i] == y;
            assert(m.contains_key(follow(m, s, i as nat)));
        }
    }
    if q.no_duplicates() {
        q.unique_seq_to_set();
        vstd::set_lib::lemma_len_subset(q.to_set(), m.dom());
        assert(false);
    }
    let (i0, j0) = choose|i: int, j: int| 0 <= i < q.len() && 0 <= j < q.len() && i != j && q[i] == q[j];
    let i: nat = if i0 < j0 { i0 as nat } else { j0 as nat };
    let j: nat = if i0 < j0 { j0 as nat } else { i0 as nat };
    assert(q[i as int] == q[j as int]);
    let x = follow(m, s, i);
    let d: nat = (j - i) as nat;
    lemma_follow_add(m, s, i, d);
    assert(i + d == j);
    assert(follow(m, x, d) == x);
    if slot_settles(m, s) {
        let big = choose|big: nat| settles(m, s, big);
        lemma_follow_settled(m, s, big, big);
        if big <= n {
            assert(m.contains_key(follow(m, s, big)));
        } else {
            lemma_follow_add(m, s, i, (big - i) as nat);
            assert(i + (big - i) as nat == big);
            let r = lemma_cycle(m, x, d, (big - i) as nat);
            lemma_follow_add(m, s, i, r);
            assert(m.contains_key(follow(m, s, i + r)));
        }
    }
}

/// Whether following `m` from `s` ends at a slot that `m` does not map; decided by following
/// `m` for at most as many steps as it has entries.
#[verifier::spinoff_prover]
fn check_slot_settles(m: &SlotMap, s: Slot) -> (r: bool)
    requires
        m.wf(),
    ensures
        r == slot_settles(m@, s),
{
    let bound = m.len();
    proof {
        m.lemma_view();
    }
    let mut cur = s;
    let mut k: usize = 0;
    while k < bound
        invariant
            m.wf(),
            0 <= k <= bound,
            forall|n: nat| #[trigger] settles(m@, cur, n) ==> settles(m@, s, (n + k) as nat),
            bound == m@.dom().len(),
            m@.dom().finite(),
            cur == follow(m@, s, k as nat),
            forall|i: nat| i < k ==> m@.contains_key(#[trigger] follow(m@, s, i)),
        decreases bound - k,
    {
        match m.get(cur) {
            Some(next) => {
                proof {
                    lemma_follow_add(m@, s, k as nat, 1);
                    assert(follow(m@, cur, 1) == follow(m@, m@[cur], 0));
                    assert forall|i: nat| i < k + 1 implies m@.contains_key(#[trigger] follow(m@, s, i)) by {
                        if i == k {
                            assert(follow(m@, s, i) == cur);
                        }
                    }
                    assert forall|n: nat| #[trigger] settles(m@, next, n) implies settles(m@, s, (n + k + 1) as nat) by {
                        lemma_settles_step(m@, cur, n);
                    }
                }
                cur = next;
                k = k + 1;
            },
            None => {
                assert(settles(m@, cur, 0));
                assert(settles(m@, s, (0 + k) as nat));
                return true;
            },
        }
    }
    match m.get(cur) {
        Some(_) => {
            proof {
                assert forall|i: nat| i <= bound implies m@.contains_key(#[trigger] follow(m@, s, i)) by {
                    if i == bound {
                        assert(follow(m@, s, i) == cur);
                    }
                }
                lemma_never_settles(m@, s, bound as nat);
            }
            false
        },
        None => {
            assert(settles(m@, cur, 0));
            assert(settles(m@, s, (0 + k) as nat));
            true
        },
    }
}

/// Whether every slot occurrence of the term leads, by `m`, to a slot that `m` does not map.
pub fn check_settled(m: &SlotMap, e: &RecExpr) -> (r: bool)
    requires
        m.wf(),
        nodes_wf(*e),
    ensures
        r == settled_term(m@, *e),
    decreases e,
{
    let xs = e.node.all_slot_occurrences();
    let mut i: usize = 0;
    while i < xs.len()
        invariant
            m.wf(),
            xs@ == all_slots_spec(e.node),
            0 <= i <= xs@.len(),
            forall|t: int| 0 <= t < i ==> slot_settles(m@, #[trigger] all_slots_spec(e.node)[t]),
        decreases xs@.len() - i,
    {
        if !check_slot_settles(m, xs[i]) {
            assert(!slot_settles(m@, all_slots_spec(e.node)[i as int]));
            return false;
        }
        i = i + 1;
    }
    let mut j: usize = 0;
    while j < e.children.len()
        invariant
            m.wf(),
            nodes_wf(*e),
            0 <= j <= e.children@.len(),
            forall|t: int| #![trigger e.children@[t]] 0 <= t < j ==> settled_term(m@, e.children@[t]),
        decreases e.children@.len() - j,
    {
        proof {
            let v = e.children;
            assert(decreases_to!(*e => v));
            assert(decreases_to!(v => v@));
            assert(decreases_to!(v@ => v@[j as int]));
        }
        if !check_settled(m, &e.children[j]) {
            assert(!settled_term(m@, e.children@[j as int]));
            return false;
        }
        j = j + 1;
    }
    true
}

} // verus!
