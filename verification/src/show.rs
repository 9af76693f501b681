use vstd::prelude::*;
use vstd::string::StringExecFns;
use crate::slot::{Slot, SlotTable, slot_kind, show_spec};
use crate::lang::{ENode, SyntaxElem, app_ids_spec, is_op};
use crate::expr::{Pattern, RecExpr, re_to_pattern, spells};

verus! {

/// The slot can be printed: it is numeric, fresh, or named with its name in the table.
pub open spec fn slot_showable(tab: SlotTable, s: Slot) -> bool {
    &&& slot_kind(s) != 3
    &&& slot_kind(s) == 2 ==> (s.0 - 2) / 4 < tab.named_vec@.len()
}

/// The pattern can be printed: each e-node has a child pattern for each of its child
/// invocations, and its slots can be printed.
pub open spec fn showable(tab: SlotTable, p: Pattern) -> bool
    decreases p,
{
    match p {
        Pattern::ENode(n, ch) => {
            &&& app_ids_spec(n).len() <= ch@.len()
            &&& match n {
                ENode::Lam(s, _) => slot_showable(tab, s),
                ENode::App(..) => true,
                ENode::Var(s) => slot_showable(tab, s),
            }
            &&& forall|i: int| #![trigger ch@[i]] 0 <= i < ch@.len() ==> showable(tab, ch@[i])
        },
        Pattern::PVar(_) => true,
        Pattern::Subst(b, x, t) => showable(tab, *b) && showable(tab, *x) && showable(tab, *t),
    }
}

/// The texts of the parts of an e-node pattern, in the order of its syntax: the operator
/// name, then its slots and child patterns.
pub open spec fn parts_of(tab: SlotTable, p: Pattern) -> Seq<Seq<char>>
    decreases p, 0nat,
{
    match p {
        Pattern::ENode(n, ch) => {
            let c0 = if 0 < ch@.len() {
                show_pat(tab, ch@[0])
            } else {
                seq![]
            };
            let c1 = if 1 < ch@.len() {
                show_pat(tab, ch@[1])
            } else {
                seq![]
            };
            match n {
                ENode::Lam(s, _) => seq![seq!['l', 'a', 'm'], show_spec(tab, s), c0],
                ENode::App(..) => seq![seq!['a', 'p', 'p'], c0, c1],
                ENode::Var(s) => seq![seq!['v', 'a', 'r'], show_spec(tab, s)],
            }
        },
        _ => seq![],
    }
}

/// The first `k` texts of `parts`, each but the last followed by a space.
pub open spec fn joined(parts: Seq<Seq<char>>, k: nat) -> Seq<char>
    decreases k,
{
    if k == 0 || k > parts.len() {
        seq![]
    } else {
        joined(parts, (k - 1) as nat) + parts[k - 1] + if k != parts.len() {
            seq![' ']
        } else {
            seq![]
        }
    }
}

/// The printed form of a pattern: `(op part ...)` for an e-node, `?x` for a variable, and
/// `b[x := t]` for a substitution.
pub open spec fn show_pat(tab: SlotTable, p: Pattern) -> Seq<char>
    decreases p, 1nat,
{
    match p {
        Pattern::ENode(..) => {
            let parts = parts_of(tab, p);
            seq!['('] + joined(parts, parts.len()) + seq![')']
        },
        Pattern::PVar(v) => seq!['?'] + v@,
        Pattern::Subst(b, x, t) => show_pat(tab, *b) + seq!['['] + show_pat(tab, *x) + seq![' ', ':', '=', ' ']
            + show_pat(tab, *t) + seq![']'],
    }
}

/// The number of child invocations among the first `k` syntax elements.
pub open spec fn apps_before(l: Seq<SyntaxElem>, k: int) -> nat
    decreases k,
{
    if k <= 0 || k > l.len() {
        0
    } else {
        apps_before(l, k - 1) + if l[k - 1] is AppliedId {
            1nat
        } else {
            0nat
        }
    }
}

impl Pattern {
    /// Appends the printed form of the pattern to `out`.
    fn show_into(&self, tab: &SlotTable, out: &mut String)
        requires
            showable(*tab, *self),
        ensures
            final(out)@ == old(out)@ + show_pat(*tab, *self),
        decreases self,
    {
        proof {
            reveal_strlit("(");
            reveal_strlit(")");
            reveal_strlit(" ");
            reveal_strlit("?");
            reveal_strlit("[");
            reveal_strlit("]");
            reveal_strlit(" := ");
        }
        let ghost start = out@;
        match self {
            Pattern::ENode(node, syntax_elems) => {
                let l = node.to_syntax();
                let n = l.len();
                let ghost parts = parts_of(*tab, *self);
                let ghost ch = syntax_elems@;
                proof {
                    assert(apps_before(l@, 0) == 0);
                    match *node {
                        ENode::Lam(s, _) => {
                            assert(is_op(l@[0], seq!['l', 'a', 'm']));
                            assert(l@[1] == SyntaxElem::Slot(s));
                            assert(apps_before(l@, 1) == 0);
                            assert(apps_before(l@, 2) == 0);
                        },
                        ENode::App(..) => {
                            assert(is_op(l@[0], seq!['a', 'p', 'p']));
                            assert(apps_before(l@, 1) == 0);
                            assert(apps_before(l@, 2) == 1);
                        },
                        ENode::Var(s) => {
                            assert(is_op(l@[0], seq!['v', 'a', 'r']));
                            assert(l@[1] == SyntaxElem::Slot(s));
                            assert(apps_before(l@, 1) == 0);
                        },
                    }
                }
                if n != 1 {
                    out.append("(");
                }
                let mut se_idx: usize = 0;
                let mut i: usize = 0;
                while i < n
                    invariant
                        n == l@.len() == parts.len(),
                        n == 2 || n == 3,
                        *self == Pattern::ENode(*node, *syntax_elems),
                        ch == syntax_elems@,
                        showable(*tab, *self),
                        parts == parts_of(*tab, *self),
                        0 <= i <= n,
                        se_idx == apps_before(l@, i as int),
                        forall|k: int| 0 <= k < n ==> match #[trigger] l@[k] {
                            SyntaxElem::String(op) => parts[k] == op@,
                            SyntaxElem::Slot(s) => parts[k] == show_spec(*tab, s) && slot_showable(*tab, s),
                            SyntaxElem::AppliedId(_) => apps_before(l@, k) < ch.len() && parts[k] == show_pat(*tab, ch[apps_before(l@, k) as int]),
                        },
                        out@ == start + seq!['('] + joined(parts, i as nat),
                    decreases n - i,
                {
                    let ghost before = out@;
                    proof {
                        reveal_strlit(" ");
                    }
                    match &l[i] {
                        SyntaxElem::AppliedId(_) => {
                            proof {
                                assert(se_idx < syntax_elems.len());
                                assert(showable(*tab, ch[se_idx as int]));
                                let v = syntax_elems;
                                assert(decreases_to!(*self => v));
                                assert(decreases_to!(v => v@));
                                assert(decreases_to!(v@ => v@[se_idx as int]));
                            }
                            syntax_elems[se_idx].show_into(tab, out);
                            se_idx = se_idx + 1;
                        },
                        SyntaxElem::Slot(slot) => {
                            let t = slot.show(tab);
                            out.append(t.as_str());
                        },
                        SyntaxElem::String(s) => {
                            out.append(s.as_str());
                        },
                    }
                    assert(out@ == before + parts[i as int]);
                    if i != n - 1 {
                        out.append(" ");
                    }
                    assert(out@ =~= start + seq!['('] + joined(parts, (i + 1) as nat));
                    i = i + 1;
                }
                proof {
                    reveal_strlit(")");
                }
                if n != 1 {
                    out.append(")");
                }
                assert(out@ =~= start + show_pat(*tab, *self));
            },
            Pattern::PVar(p) => {
                out.append("?");
                out.append(p.as_str());
                assert(out@ =~= start + show_pat(*tab, *self));
            },
            Pattern::Subst(b, x, t) => {
                b.show_into(tab, out);
                out.append("[");
                x.show_into(tab, out);
                out.append(" := ");
                t.show_into(tab, out);
                out.append("]");
                assert(out@ =~= start + show_pat(*tab, *self));
            },
        }
    }

    /// The printed form of the pattern, as the parser reads it.
    pub fn show(&self, tab: &SlotTable) -> (r: String)
        requires
            showable(*tab, *self),
        ensures
            r@ == show_pat(*tab, *self),
    {
        let mut out = String::new();
        self.show_into(tab, &mut out);
        assert(out@ =~= show_pat(*tab, *self));
        out
    }
}


/// The term can be printed: each e-node has a child term for each of its child invocations,
/// and its slots can be printed.
pub open spec fn re_showable(tab: SlotTable, e: RecExpr) -> bool
    decreases e,
{
    &&& app_ids_spec(e.node).len() <= e.children@.len()
    &&& match e.node {
        ENode::Lam(s, _) => slot_showable(tab, s),
        ENode::App(..) => true,
        ENode::Var(s) => slot_showable(tab, s),
    }
    &&& forall|i: int| #![trigger e.children@[i]] 0 <= i < e.children@.len() ==> re_showable(tab, e.children@[i])
}

/// The texts of the parts of a term, in the order of the syntax of its e-node.
pub open spec fn re_parts(tab: SlotTable, e: RecExpr) -> Seq<Seq<char>>
    decreases e, 0nat,
{
    let c0 = if 0 < e.children@.len() {
        show_re(tab, e.children@[0])
    } else {
        seq![]
    };
    let c1 = if 1 < e.children@.len() {
        show_re(tab, e.children@[1])
    } else {
        seq![]
    };
    match e.node {
        ENode::Lam(s, _) => seq![seq!['l', 'a', 'm'], show_spec(tab, s), c0],
        ENode::App(..) => seq![seq!['a', 'p', 'p'], c0, c1],
        ENode::Var(s) => seq![seq!['v', 'a', 'r'], show_spec(tab, s)],
    }
}

/// The printed form of a term: that of the pattern that spells it.
pub open spec fn show_re(tab: SlotTable, e: RecExpr) -> Seq<char>
    decreases e, 1nat,
{
    let parts = re_parts(tab, e);
    seq!['('] + joined(parts, parts.len()) + seq![')']
}

/// A term and the pattern that spells it print the same.
pub proof fn lemma_show_re(tab: SlotTable, e: RecExpr, p: Pattern)
    requires
        spells(e, p),
        re_showable(tab, e),
    ensures
        showable(tab, p),
        show_pat(tab, p) == show_re(tab, e),
    decreases p,
{
    if let Pattern::ENode(n, ch) = p {
        assert forall|i: int| #![trigger ch@[i]] 0 <= i < ch@.len() implies showable(tab, ch@[i]) && show_pat(tab, ch@[i]) == show_re(tab, e.children@[i]) by {
            lemma_show_re(tab, e.children@[i], ch@[i]);
        }
        if ch@.len() > 0 {
            assert(show_pat(tab, ch@[0]) == show_re(tab, e.children@[0]));
        }
        if ch@.len() > 1 {
            assert(show_pat(tab, ch@[1]) == show_re(tab, e.children@[1]));
        }
        assert(parts_of(tab, p) =~= re_parts(tab, e));
    }
}

impl RecExpr {
    /// The printed form of the term: that of the pattern that spells it.
    pub fn show(&self, tab: &SlotTable) -> (r: String)
        requires
            re_showable(*tab, *self),
        ensures
            r@ == show_re(*tab, *self),
    {
        let p = re_to_pattern(self);
        proof {
            lemma_show_re(*tab, *self, p);
        }
        p.show(tab)
    }
}

/// Decides [slot_showable].
fn check_slot_showable(tab: &SlotTable, s: Slot) -> (r: bool)
    ensures
        r == slot_showable(*tab, s),
{
    let kind = s.0 % 4;
    if kind == 3 {
        false
    } else if kind == 2 {
        (s.0 - 2) / 4 < tab.named_vec.len() as u64
    } else {
        true
    }
}

/// Decides [re_showable].
pub fn check_showable(tab: &SlotTable, e: &RecExpr) -> (r: bool)
    ensures
        r == re_showable(*tab, *e),
    decreases e,
{
    let n: usize = match &e.node {
        ENode::Lam(..) => 1,
        ENode::App(..) => 2,
        ENode::Var(..) => 0,
    };
    assert(n == app_ids_spec(e.node).len());
    if e.children.len() < n {
        return false;
    }
    let own = match &e.node {
        ENode::Lam(s, _) => check_slot_showable(tab, *s),
        ENode::App(..) => true,
        ENode::Var(s) => check_slot_showable(tab, *s),
    };
    if !own {
        return false;
    }
    let mut j: usize = 0;
    while j < e.children.len()
        invariant
            0 <= j <= e.children@.len(),
            forall|t: int| #![trigger e.children@[t]] 0 <= t < j ==> re_showable(*tab, e.children@[t]),
        decreases e.children@.len() - j,
    {
        proof {
            let v = e.children;
            assert(decreases_to!(*e => v));
            assert(decreases_to!(v => v@));
            assert(decreases_to!(v@ => v@[j as int]));
        }
        if !check_showable(tab, &e.children[j]) {
            return false;
        }
        j = j + 1;
    }
    true
}

} // verus!
