use vstd::prelude::*;
use crate::slot::{Slot, SlotTable, parse_u64_spec, fresh_suffix, string_from_chars};
use crate::lang::{SyntaxElem, ENode, ENodeView, AppView, app_view, syntax_ok, syntax_node};
use crate::applied::{AppliedId, Id};
use crate::expr::{Pattern, RecExpr};

verus! {

/// A token of the textual form of patterns and terms.
pub enum Token {
    /// `$42`, `$x`
    Slot(Slot),
    /// `map`, `15`
    Ident(String),
    /// `?x`
    PVar(String),
    /// `:=`
    ColonEquals,
    /// `(`
    LParen,
    /// `)`
    RParen,
    /// `[`
    LBracket,
    /// `]`
    RBracket,
}

/// Why a text could not be read.
pub enum ParseError {
    /// A `?` or `$` not followed by a name; holds the text after it.
    TokenState(String),
    /// A token where an operator or a pattern was expected; holds the tokens from there on.
    ParseState(Vec<Token>),
    /// Tokens left after a whole pattern; holds them.
    RemainingRest(Vec<Token>),
    /// Syntax elements that make no e-node; holds them.
    FromSyntaxFailed(Vec<SyntaxElem>),
    /// A substitution without `:=`; holds the tokens from there on.
    ExpectedColonEquals(Vec<Token>),
    /// A substitution without `]`; holds the tokens from there on.
    ExpectedRBracket(Vec<Token>),
}

/// A token as the text spells it, with slots still as names.
pub enum Lexeme {
    SlotName(Seq<char>),
    Ident(Seq<char>),
    PVar(Seq<char>),
    ColonEquals,
    LParen,
    RParen,
    LBracket,
    RBracket,
}

/// The characters that `char::is_whitespace` accepts: those with the Unicode property
/// `White_Space`.
pub open spec fn is_white(c: char) -> bool {
    ||| ('\t' <= c && c <= '\r')
    ||| c == ' '
    ||| c == '\u{85}'
    ||| c == '\u{A0}'
    ||| c == '\u{1680}'
    ||| ('\u{2000}' <= c && c <= '\u{200A}')
    ||| c == '\u{2028}'
    ||| c == '\u{2029}'
    ||| c == '\u{202F}'
    ||| c == '\u{205F}'
    ||| c == '\u{3000}'
}

/// Whether `c` is white space, as `char::is_whitespace` tells.
pub fn is_whitespace(c: char) -> (r: bool)
    ensures
        r == is_white(c),
{
    ('\t' <= c && c <= '\r') || c == ' ' || c == '\u{85}' || c == '\u{A0}' || c == '\u{1680}'
        || ('\u{2000}' <= c && c <= '\u{200A}') || c == '\u{2028}' || c == '\u{2029}'
        || c == '\u{202F}' || c == '\u{205F}' || c == '\u{3000}'
}

/// A character that may stand in a name: not white space and not a parenthesis or bracket.
pub open spec fn ident_char_spec(c: char) -> bool {
    !is_white(c) && c != '(' && c != ')' && c != '[' && c != ']'
}

/// Whether `c` may stand in a name.
pub fn ident_char(c: char) -> (r: bool)
    ensures
        r == ident_char_spec(c),
{
    if is_whitespace(c) {
        return false;
    }
    c != '(' && c != ')' && c != '[' && c != ']'
}

/// The length of the name at the start of `s`.
pub open spec fn ident_len(s: Seq<char>) -> nat
    decreases s.len(),
{
    if s.len() > 0 && ident_char_spec(s[0]) {
        1 + ident_len(s.drop_first())
    } else {
        0
    }
}

pub proof fn lemma_ident_len(s: Seq<char>)
    ensures
        ident_len(s) <= s.len(),
        forall|i: int| 0 <= i < ident_len(s) ==> #[trigger] ident_char_spec(s[i]),
        ident_len(s) < s.len() ==> !ident_char_spec(s[ident_len(s) as int]),
    decreases s.len(),
{
    if s.len() > 0 && ident_char_spec(s[0]) {
        lemma_ident_len(s.drop_first());
        assert forall|i: int| 0 <= i < ident_len(s) implies #[trigger] ident_char_spec(s[i]) by {
            if i > 0 {
                assert(s[i] == s.drop_first()[i - 1]);
            }
        }
    }
}

/// The lexemes read before `rest`, then those of `rest`.
pub open spec fn prepend(x: Lexeme, rest: (Seq<Lexeme>, Option<Seq<char>>)) -> (Seq<Lexeme>, Option<Seq<char>>) {
    (seq![x] + rest.0, rest.1)
}

/// Reading the text `s`: the lexemes read, and the text after a `?` or `$` that no name
/// follows, where reading stops there.
pub open spec fn lex(s: Seq<char>) -> (Seq<Lexeme>, Option<Seq<char>>)
    decreases s.len(),
{
    if s.len() == 0 {
        (seq![], None)
    } else if is_white(s[0]) {
        lex(s.drop_first())
    } else if s[0] == '(' {
        prepend(Lexeme::LParen, lex(s.drop_first()))
    } else if s[0] == ')' {
        prepend(Lexeme::RParen, lex(s.drop_first()))
    } else if s[0] == '[' {
        prepend(Lexeme::LBracket, lex(s.drop_first()))
    } else if s[0] == ']' {
        prepend(Lexeme::RBracket, lex(s.drop_first()))
    } else if s.len() >= 2 && s[0] == ':' && s[1] == '=' {
        prepend(Lexeme::ColonEquals, lex(s.skip(2)))
    } else if s[0] == '?' || s[0] == '$' {
        let r = s.drop_first();
        let n = ident_len(r);
        proof {
            lemma_ident_len(r);
        }
        if n == 0 {
            (seq![], Some(r))
        } else if s[0] == '?' {
            prepend(Lexeme::PVar(r.take(n as int)), lex(r.skip(n as int)))
        } else {
            prepend(Lexeme::SlotName(r.take(n as int)), lex(r.skip(n as int)))
        }
    } else {
        let n = ident_len(s);
        proof {
            lemma_ident_len(s);
        }
        if n == 0 {
            (seq![], None)
        } else {
            prepend(Lexeme::Ident(s.take(n as int)), lex(s.skip(n as int)))
        }
    }
}

/// `x` is the slot that the name `n` stands for in the table `tab`: `$42` is numeric,
/// `$f7` is fresh, any other name is looked up in the table.
pub open spec fn names_slot(tab: SlotTable, n: Seq<char>, x: Slot) -> bool {
    if parse_u64_spec(n) is Some {
        x.0 == 4 * parse_u64_spec(n).unwrap()
    } else if fresh_suffix(n) is Some {
        x.0 == 4 * fresh_suffix(n).unwrap() + 1
    } else {
        &&& x.0 % 4 == 2
        &&& (x.0 - 2) / 4 < tab.named_vec@.len()
        &&& tab.named_vec@[(x.0 - 2) / 4]@ == n
    }
}

/// The token stands for the lexeme, its slot names looked up in `tab`.
pub open spec fn token_is(t: Token, l: Lexeme, tab: SlotTable) -> bool {
    match (t, l) {
        (Token::Slot(x), Lexeme::SlotName(n)) => names_slot(tab, n, x),
        (Token::Ident(a), Lexeme::Ident(b)) => a@ == b,
        (Token::PVar(a), Lexeme::PVar(b)) => a@ == b,
        (Token::ColonEquals, Lexeme::ColonEquals) => true,
        (Token::LParen, Lexeme::LParen) => true,
        (Token::RParen, Lexeme::RParen) => true,
        (Token::LBracket, Lexeme::LBracket) => true,
        (Token::RBracket, Lexeme::RBracket) => true,
        _ => false,
    }
}

/// Slot numbers for the name `n` fit in a `u64`.
pub open spec fn name_fits(n: Seq<char>) -> bool {
    &&& (parse_u64_spec(n) matches Some(v) ==> 4 * v <= u64::MAX)
    &&& (parse_u64_spec(n) is None && fresh_suffix(n) is Some ==> 4 * fresh_suffix(n).unwrap() + 5 <= u64::MAX)
}

/// The slot names that reading `s` meets all fit.
pub open spec fn names_fit(s: Seq<char>) -> bool {
    forall|i: int| 0 <= i < lex(s).0.len() ==> (#[trigger] lex(s).0[i] matches Lexeme::SlotName(n) ==> name_fits(n))
}

/// The characters of `s`.
fn chars_of(s: &str) -> (r: Vec<char>)
    ensures
        r@ == s@,
{
    let n = s.unicode_len();
    let mut out: Vec<char> = Vec::new();
    let mut i: usize = 0;
    while i < n
        invariant
            0 <= i <= n,
            n == s@.len(),
            out@ == s@.take(i as int),
        decreases n - i,
    {
        out.push(s.get_char(i));
        assert(out@ =~= s@.take(i + 1));
        i = i + 1;
    }
    assert(out@ =~= s@);
    out
}

/// The string of the characters `cs[from..to]`.
fn string_of(cs: &Vec<char>, from: usize, to: usize) -> (r: String)
    requires
        from <= to <= cs@.len(),
    ensures
        r@ == cs@.subrange(from as int, to as int),
{
    let mut v: Vec<char> = Vec::new();
    let mut i: usize = from;
    while i < to
        invariant
            from <= i <= to,
            to <= cs@.len(),
            v@ == cs@.subrange(from as int, i as int),
        decreases to - i,
    {
        v.push(cs[i]);
        assert(v@ =~= cs@.subrange(from as int, i + 1));
        i = i + 1;
    }
    string_from_chars(&v)
}

/// The end of the name that starts at `from`.
fn crop_ident(cs: &Vec<char>, from: usize) -> (r: usize)
    requires
        from <= cs@.len(),
    ensures
        r == from + ident_len(cs@.skip(from as int)),
        r <= cs@.len(),
{
    let mut i: usize = from;
    proof {
        lemma_ident_len(cs@.skip(from as int));
    }
    while i < cs.len() && ident_char(cs[i])
        invariant
            from <= i <= cs@.len(),
            ident_len(cs@.skip(from as int)) == (i - from) + ident_len(cs@.skip(i as int)),
        decreases cs@.len() - i,
    {
        assert(cs@.skip(i as int).drop_first() =~= cs@.skip(i + 1));
        i = i + 1;
    }
    i
}

/// Lexing one step further: the lexemes of a suffix that starts with white space.
proof fn lemma_lex_skip(cs: Seq<char>, i: int)
    requires
        0 <= i < cs.len(),
    ensures
        cs.skip(i)[0] == cs[i],
        cs.skip(i).drop_first() == cs.skip(i + 1),
        cs.skip(i).len() >= 2 ==> cs.skip(i)[1] == cs[i + 1],
        cs.skip(i).len() >= 2 ==> cs.skip(i).skip(2) == cs.skip(i + 2),
{
    assert(cs.skip(i).drop_first() =~= cs.skip(i + 1));
    if cs.skip(i).len() >= 2 {
        assert(cs.skip(i).skip(2) =~= cs.skip(i + 2));
    }
}

/// The table `b` keeps every name of `a` where it was.
pub open spec fn extends(a: SlotTable, b: SlotTable) -> bool {
    &&& a.named_vec@.len() <= b.named_vec@.len()
    &&& forall|i: int| 0 <= i < a.named_vec@.len() ==> #[trigger] b.named_vec@[i]@ == a.named_vec@[i]@
}

/// A token keeps its meaning when the table grows.
proof fn lemma_token_extends(t: Token, l: Lexeme, a: SlotTable, b: SlotTable)
    requires
        token_is(t, l, a),
        extends(a, b),
    ensures
        token_is(t, l, b),
{
    if let (Token::Slot(x), Lexeme::SlotName(n)) = (t, l) {
        if parse_u64_spec(n) is None && fresh_suffix(n) is None {
            assert(b.named_vec@[(x.0 - 2) / 4]@ == a.named_vec@[(x.0 - 2) / 4]@);
        }
    }
}

/// Reads the text `s` into tokens, looking the slot names up in `tab`, which learns the
/// names it did not know.
pub fn tokenize(s: &str, tab: &mut SlotTable) -> (r: Result<Vec<Token>, ParseError>)
    requires
        old(tab).wf(),
        names_fit(s@),
        4 * (old(tab).named_vec@.len() + s@.len()) + 2 <= u64::MAX,
    ensures
        final(tab).wf(),
        extends(*old(tab), *final(tab)),
        r is Ok <==> lex(s@).1 is None,
        r matches Ok(toks) ==> toks@.len() == lex(s@).0.len() && forall|i: int|
            0 <= i < toks@.len() ==> #[trigger] token_is(toks@[i], lex(s@).0[i], *final(tab)),
        r matches Err(e) ==> (e matches ParseError::TokenState(rest) && rest@ == lex(s@).1.unwrap()),
{
    let cs = chars_of(s);
    let ghost full = lex(cs@);
    let ghost start = *tab;
    let mut toks: Vec<Token> = Vec::new();
    let ghost mut ls: Seq<Lexeme> = seq![];
    let mut i: usize = 0;
    assert(cs@.skip(0) =~= cs@);
    while i < cs.len()
        invariant
            0 <= i <= cs@.len(),
            cs@ == s@,
            full == lex(cs@),
            names_fit(cs@),
            4 * (start.named_vec@.len() + cs@.len()) + 2 <= u64::MAX,
            tab.wf(),
            start == *old(tab),
            extends(start, *tab),
            tab.named_vec@.len() <= start.named_vec@.len() + i,
            full.0 == ls + lex(cs@.skip(i as int)).0,
            full.1 == lex(cs@.skip(i as int)).1,
            toks@.len() == ls.len(),
            forall|k: int| 0 <= k < toks@.len() ==> #[trigger] token_is(toks@[k], ls[k], *tab),
        decreases cs@.len() - i,
    {
        let ghost rest = cs@.skip(i as int);
        let ghost before = *tab;
        proof {
            lemma_lex_skip(cs@, i as int);
        }
        let c = cs[i];
        if is_whitespace(c) {
            i = i + 1;
        } else if c == '(' || c == ')' || c == '[' || c == ']' {
            let (t, Ghost(l)) = if c == '(' {
                (Token::LParen, Ghost(Lexeme::LParen))
            } else if c == ')' {
                (Token::RParen, Ghost(Lexeme::RParen))
            } else if c == '[' {
                (Token::LBracket, Ghost(Lexeme::LBracket))
            } else {
                (Token::RBracket, Ghost(Lexeme::RBracket))
            };
            assert(lex(rest) == prepend(l, lex(cs@.skip(i + 1))));
            toks.push(t);
            proof {
                ls = ls.push(l);
                assert(full.0 =~= ls + lex(cs@.skip(i + 1)).0);
            }
            i = i + 1;
        } else if c == ':' && i + 1 < cs.len() && cs[i + 1] == '=' {
            assert(lex(rest) == prepend(Lexeme::ColonEquals, lex(cs@.skip(i + 2))));
            toks.push(Token::ColonEquals);
            proof {
                ls = ls.push(Lexeme::ColonEquals);
                assert(full.0 =~= ls + lex(cs@.skip(i + 2)).0);
            }
            i = i + 2;
        } else if c == '?' || c == '$' {
            let e = crop_ident(&cs, i + 1);
            proof {
                lemma_ident_len(rest.drop_first());
                assert(rest.drop_first() == cs@.skip(i + 1));
            }
            if e == i + 1 {
                let txt = string_of(&cs, i + 1, cs.len());
                assert(txt@ =~= rest.drop_first());
                assert(full.1 == Some(rest.drop_first()));
                return Err(ParseError::TokenState(txt));
            }
            let name = string_of(&cs, i + 1, e);
            let ghost n = (e - (i + 1)) as int;
            assert(name@ =~= rest.drop_first().take(n));
            assert(rest.drop_first().skip(n) =~= cs@.skip(e as int));
            if c == '?' {
                assert(lex(rest) == prepend(Lexeme::PVar(name@), lex(cs@.skip(e as int))));
                toks.push(Token::PVar(name));
                proof {
                    ls = ls.push(Lexeme::PVar(name@));
                }
            } else {
                let ghost l = Lexeme::SlotName(name@);
                assert(lex(rest) == prepend(l, lex(cs@.skip(e as int))));
                assert(full.0[ls.len() as int] == l);
                assert(name_fits(name@));
                let x = Slot::named(tab, name.as_str());
                assert(token_is(Token::Slot(x), l, *tab));
                proof {
                    assert forall|k: int| 0 <= k < toks@.len() implies #[trigger] token_is(toks@[k], ls[k], *tab) by {
                        assert(token_is(toks@[k], ls[k], before));
                        lemma_token_extends(toks@[k], ls[k], before, *tab);
                    }
                }
                toks.push(Token::Slot(x));
                proof {
                    ls = ls.push(l);
                }
            }
            proof {
                assert(full.0 =~= ls + lex(cs@.skip(e as int)).0);
            }
            i = e;
        } else {
            let e = crop_ident(&cs, i);
            proof {
                lemma_ident_len(rest);
            }
            assert(ident_char_spec(c));
            let name = string_of(&cs, i, e);
            let ghost n = (e - i) as int;
            assert(name@ =~= rest.take(n));
            assert(rest.skip(n) =~= cs@.skip(e as int));
            assert(lex(rest) == prepend(Lexeme::Ident(name@), lex(cs@.skip(e as int))));
            toks.push(Token::Ident(name));
            proof {
                ls = ls.push(Lexeme::Ident(name@));
                assert(full.0 =~= ls + lex(cs@.skip(e as int)).0);
            }
            i = e;
        }
    }
    assert(cs@.skip(i as int) =~= Seq::<char>::empty());
    assert(full.0 =~= ls);
    Ok(toks)
}

/// A token as a value.
pub enum TokV {
    Slot(Slot),
    Ident(Seq<char>),
    PVar(Seq<char>),
    ColonEquals,
    LParen,
    RParen,
    LBracket,
    RBracket,
}

pub open spec fn tok_view(t: Token) -> TokV {
    match t {
        Token::Slot(x) => TokV::Slot(x),
        Token::Ident(s) => TokV::Ident(s@),
        Token::PVar(s) => TokV::PVar(s@),
        Token::ColonEquals => TokV::ColonEquals,
        Token::LParen => TokV::LParen,
        Token::RParen => TokV::RParen,
        Token::LBracket => TokV::LBracket,
        Token::RBracket => TokV::RBracket,
    }
}

pub open spec fn toks_view(s: Seq<Token>) -> Seq<TokV> {
    s.map_values(|t: Token| tok_view(t))
}

impl Clone for Token {
    fn clone(&self) -> (r: Self)
        ensures
            tok_view(r) == tok_view(*self),
    {
        match self {
            Token::Slot(x) => Token::Slot(*x),
            Token::Ident(s) => Token::Ident(s.clone()),
            Token::PVar(s) => Token::PVar(s.clone()),
            Token::ColonEquals => Token::ColonEquals,
            Token::LParen => Token::LParen,
            Token::RParen => Token::RParen,
            Token::LBracket => Token::LBracket,
            Token::RBracket => Token::RBracket,
        }
    }
}

/// A syntax element as a value.
pub enum ElemV {
    Str(Seq<char>),
    Slot(Slot),
    App(AppView),
}

pub open spec fn elem_view(e: SyntaxElem) -> ElemV {
    match e {
        SyntaxElem::String(s) => ElemV::Str(s@),
        SyntaxElem::Slot(x) => ElemV::Slot(x),
        SyntaxElem::AppliedId(a) => ElemV::App(app_view(a)),
    }
}

pub open spec fn elems_view(s: Seq<SyntaxElem>) -> Seq<ElemV> {
    s.map_values(|e: SyntaxElem| elem_view(e))
}

/// An error as a value.
pub enum ErrV {
    TokenState(Seq<char>),
    ParseState(Seq<TokV>),
    RemainingRest(Seq<TokV>),
    FromSyntaxFailed(Seq<ElemV>),
    ExpectedColonEquals(Seq<TokV>),
    ExpectedRBracket(Seq<TokV>),
}

pub open spec fn err_view(e: ParseError) -> ErrV {
    match e {
        ParseError::TokenState(s) => ErrV::TokenState(s@),
        ParseError::ParseState(v) => ErrV::ParseState(toks_view(v@)),
        ParseError::RemainingRest(v) => ErrV::RemainingRest(toks_view(v@)),
        ParseError::FromSyntaxFailed(v) => ErrV::FromSyntaxFailed(elems_view(v@)),
        ParseError::ExpectedColonEquals(v) => ErrV::ExpectedColonEquals(toks_view(v@)),
        ParseError::ExpectedRBracket(v) => ErrV::ExpectedRBracket(toks_view(v@)),
    }
}

/// A pattern as a value.
pub enum PatV {
    ENode(ENodeView, Seq<PatV>),
    PVar(Seq<char>),
    Subst(Box<PatV>, Box<PatV>, Box<PatV>),
}

pub open spec fn pat_view(p: Pattern) -> PatV
    decreases p,
{
    match p {
        Pattern::ENode(n, ch) => PatV::ENode(
            n@,
            Seq::new(ch@.len(), |i: int| if 0 <= i < ch@.len() { pat_view(ch@[i]) } else { PatV::PVar(seq![]) }),
        ),
        Pattern::PVar(s) => PatV::PVar(s@),
        Pattern::Subst(b, x, t) => PatV::Subst(Box::new(pat_view(*b)), Box::new(pat_view(*x)), Box::new(pat_view(*t))),
    }
}

/// What follows the operator inside parentheses: a slot or a pattern.
pub enum NestedV {
    Pat(PatV),
    Slot(Slot),
}

/// The outcome of reading a part: the value and the position after it, an error, or a
/// position where the reader would index past the last token.
pub enum PRes<T> {
    Done(T, int),
    Fail(ErrV),
    Stuck,
}

pub open spec fn null_view() -> AppView {
    (Id(0), seq![], seq![])
}

/// The syntax element that stands for a nested element while the e-node is built.
pub open spec fn mock_of(n: NestedV) -> ElemV {
    match n {
        NestedV::Pat(_) => ElemV::App(null_view()),
        NestedV::Slot(x) => ElemV::Slot(x),
    }
}

pub open spec fn mock(op: Seq<char>, acc: Seq<NestedV>) -> Seq<ElemV> {
    seq![ElemV::Str(op)] + acc.map_values(|n: NestedV| mock_of(n))
}

/// The patterns among the nested elements, in order.
pub open spec fn pats_of(acc: Seq<NestedV>) -> Seq<PatV>
    decreases acc.len(),
{
    if acc.len() == 0 {
        seq![]
    } else {
        match acc.last() {
            NestedV::Pat(p) => pats_of(acc.drop_last()).push(p),
            NestedV::Slot(_) => pats_of(acc.drop_last()),
        }
    }
}

pub open spec fn is_op_v(e: ElemV, name: Seq<char>) -> bool {
    e matches ElemV::Str(s) && s == name
}

/// The elements are those of a `lam`, `app` or `var` e-node.
pub open spec fn syntax_ok_v(e: Seq<ElemV>) -> bool {
    ||| (e.len() == 3 && is_op_v(e[0], seq!['l', 'a', 'm']) && e[1] is Slot && e[2] is App)
    ||| (e.len() == 3 && is_op_v(e[0], seq!['a', 'p', 'p']) && e[1] is App && e[2] is App)
    ||| (e.len() == 2 && is_op_v(e[0], seq!['v', 'a', 'r']) && e[1] is Slot)
}

/// The e-node that well-formed elements stand for.
pub open spec fn syntax_node_v(e: Seq<ElemV>) -> ENodeView {
    if e.len() == 3 && is_op_v(e[0], seq!['l', 'a', 'm']) {
        ENodeView::Lam(e[1]->Slot_0, e[2]->App_0)
    } else if e.len() == 3 {
        ENodeView::App(e[1]->App_0, e[2]->App_0)
    } else {
        ENodeView::Var(e[1]->Slot_0)
    }
}

proof fn lemma_syntax_views(v: Seq<SyntaxElem>)
    ensures
        syntax_ok(v) == syntax_ok_v(elems_view(v)),
        syntax_ok(v) ==> syntax_node(v) == syntax_node_v(elems_view(v)),
{
    let e = elems_view(v);
    if v.len() >= 1 {
        assert(e[0] == elem_view(v[0]));
    }
    if v.len() >= 2 {
        assert(e[1] == elem_view(v[1]));
    }
    if v.len() >= 3 {
        assert(e[2] == elem_view(v[2]));
    }
}

/// The e-node that finishes `( op ... )`, with the patterns inside as its children.
pub open spec fn sp_finish(op: Seq<char>, acc: Seq<NestedV>, q: int) -> PRes<PatV> {
    let m = mock(op, acc);
    if syntax_ok_v(m) {
        PRes::Done(PatV::ENode(syntax_node_v(m), pats_of(acc)), q)
    } else {
        PRes::Fail(ErrV::FromSyntaxFailed(m))
    }
}

/// Reading a slot or a pattern at `pos`.
pub open spec fn sp_nested(t: Seq<TokV>, pos: int) -> PRes<NestedV>
    decreases t.len() - pos, 4int,
{
    if pos < 0 || pos >= t.len() {
        PRes::Stuck
    } else if t[pos] is Slot {
        PRes::Done(NestedV::Slot(t[pos]->Slot_0), pos + 1)
    } else {
        match sp_pattern(t, pos) {
            PRes::Done(p, q) => PRes::Done(NestedV::Pat(p), q),
            PRes::Fail(e) => PRes::Fail(e),
            PRes::Stuck => PRes::Stuck,
        }
    }
}

/// Reading a pattern at `pos`, with the substitutions that follow it.
pub open spec fn sp_pattern(t: Seq<TokV>, pos: int) -> PRes<PatV>
    decreases t.len() - pos, 3int,
{
    if pos < 0 || pos >= t.len() {
        PRes::Stuck
    } else {
        match sp_nosubst(t, pos) {
            PRes::Done(p, q) => if pos < q <= t.len() {
                sp_subst(t, p, q)
            } else {
                PRes::Stuck
            },
            PRes::Fail(e) => PRes::Fail(e),
            PRes::Stuck => PRes::Stuck,
        }
    }
}

/// Reading a pattern variable, an operator alone, or `( op ... )` at `pos`.
pub open spec fn sp_nosubst(t: Seq<TokV>, pos: int) -> PRes<PatV>
    decreases t.len() - pos, 2int,
{
    if pos < 0 || pos >= t.len() {
        PRes::Stuck
    } else {
        match t[pos] {
            TokV::PVar(p) => PRes::Done(PatV::PVar(p), pos + 1),
            TokV::LParen => if pos + 1 >= t.len() {
                PRes::Stuck
            } else {
                match t[pos + 1] {
                    TokV::Ident(op) => sp_elems(t, pos + 2, op, seq![]),
                    _ => PRes::Fail(ErrV::ParseState(t.skip(pos + 1))),
                }
            },
            TokV::Ident(op) => {
                let m = seq![ElemV::Str(op)];
                if syntax_ok_v(m) {
                    PRes::Done(PatV::ENode(syntax_node_v(m), seq![]), pos + 1)
                } else {
                    PRes::Fail(ErrV::FromSyntaxFailed(m))
                }
            },
            _ => PRes::Fail(ErrV::ParseState(t.skip(pos))),
        }
    }
}

/// Reading the elements after the operator up to `)`, `acc` holding those read so far.
pub open spec fn sp_elems(t: Seq<TokV>, pos: int, op: Seq<char>, acc: Seq<NestedV>) -> PRes<PatV>
    decreases t.len() - pos, 5int,
{
    if pos < 0 || pos >= t.len() {
        PRes::Stuck
    } else if t[pos] is RParen {
        sp_finish(op, acc, pos + 1)
    } else {
        match sp_nested(t, pos) {
            PRes::Done(se, q) => if pos < q <= t.len() {
                sp_elems(t, q, op, acc.push(se))
            } else {
                PRes::Stuck
            },
            PRes::Fail(e) => PRes::Fail(e),
            PRes::Stuck => PRes::Stuck,
        }
    }
}

/// Reading the substitutions `[x := t]` that follow the pattern `pat`, from `pos` on.
pub open spec fn sp_subst(t: Seq<TokV>, pat: PatV, pos: int) -> PRes<PatV>
    decreases t.len() - pos, 1int,
{
    if pos < 0 || pos > t.len() {
        PRes::Stuck
    } else if pos < t.len() && t[pos] is LBracket {
        match sp_pattern(t, pos + 1) {
            PRes::Done(l, q2) => if !(pos + 1 < q2 < t.len()) {
                PRes::Stuck
            } else if !(t[q2] is ColonEquals) {
                PRes::Fail(ErrV::ExpectedColonEquals(t.skip(q2)))
            } else {
                match sp_pattern(t, q2 + 1) {
                    PRes::Done(r, q3) => if !(q2 + 1 < q3 < t.len()) {
                        PRes::Stuck
                    } else if !(t[q3] is RBracket) {
                        PRes::Fail(ErrV::ExpectedRBracket(t.skip(q3)))
                    } else {
                        sp_subst(t, PatV::Subst(Box::new(pat), Box::new(l), Box::new(r)), q3 + 1)
                    },
                    PRes::Fail(e) => PRes::Fail(e),
                    PRes::Stuck => PRes::Stuck,
                }
            },
            PRes::Fail(e) => PRes::Fail(e),
            PRes::Stuck => PRes::Stuck,
        }
    } else {
        PRes::Done(pat, pos)
    }
}

/// What stands after the operator inside parentheses.
pub enum NestedSyntaxElem {
    Pattern(Pattern),
    Slot(Slot),
    String(String),
}

pub open spec fn nested_view(n: NestedSyntaxElem) -> NestedV {
    match n {
        NestedSyntaxElem::Pattern(p) => NestedV::Pat(pat_view(p)),
        NestedSyntaxElem::Slot(x) => NestedV::Slot(x),
        NestedSyntaxElem::String(_) => NestedV::Slot(Slot(0)),
    }
}

pub open spec fn pat_views(s: Seq<Pattern>) -> Seq<PatV> {
    s.map_values(|p: Pattern| pat_view(p))
}

/// The exec result is the one the reader spec gives.
pub open spec fn res_pat(r: Result<(Pattern, usize), ParseError>, s: PRes<PatV>) -> bool {
    match s {
        PRes::Done(v, q) => r matches Ok((p, q2)) && pat_view(p) == v && q2 == q,
        PRes::Fail(e) => r matches Err(er) && err_view(er) == e,
        PRes::Stuck => false,
    }
}

pub open spec fn res_nested(r: Result<(NestedSyntaxElem, usize), ParseError>, s: PRes<NestedV>) -> bool {
    match s {
        PRes::Done(v, q) => r matches Ok((n, q2)) && nested_view(n) == v && q2 == q && !(n is String),
        PRes::Fail(e) => r matches Err(er) && err_view(er) == e,
        PRes::Stuck => false,
    }
}

/// A copy of the tokens from `from` on.
fn to_vec(tok: &Vec<Token>, from: usize) -> (r: Vec<Token>)
    requires
        from <= tok@.len(),
    ensures
        toks_view(r@) == toks_view(tok@).skip(from as int),
{
    let mut out: Vec<Token> = Vec::new();
    let mut i: usize = from;
    while i < tok.len()
        invariant
            from <= i <= tok@.len(),
            toks_view(out@) == toks_view(tok@).subrange(from as int, i as int),
        decreases tok@.len() - i,
    {
        let t = tok[i].clone();
        assert(toks_view(tok@)[i as int] == tok_view(tok@[i as int]));
        assert(tok_view(t) == tok_view(tok@[i as int]));
        let ghost before = out@;
        out.push(t);
        assert(toks_view(out@) =~= toks_view(before).push(tok_view(t)));
        assert(toks_view(out@) =~= toks_view(tok@).subrange(from as int, i + 1));
        i = i + 1;
    }
    assert(toks_view(tok@).subrange(from as int, tok@.len() as int) =~= toks_view(tok@).skip(from as int));
    out
}

/// Reads a slot, or else a pattern, at `pos`.
fn parse_nested_syntax_elem(tok: &Vec<Token>, pos: usize) -> (r: Result<(NestedSyntaxElem, usize), ParseError>)
    requires
        pos <= tok@.len(),
        !(sp_nested(toks_view(tok@), pos as int) is Stuck),
    ensures
        res_nested(r, sp_nested(toks_view(tok@), pos as int)),
        r matches Ok((_, q)) ==> pos < q <= tok@.len(),
    decreases tok@.len() - pos, 4int,
{
    let ghost t = toks_view(tok@);
    let n = tok.len();
    assert(t.len() == tok@.len());
    assert(pos < tok@.len());
    assert(t[pos as int] == tok_view(tok@[pos as int]));
    if let Token::Slot(x) = &tok[pos] {
        return Ok((NestedSyntaxElem::Slot(*x), pos + 1));
    }
    match parse_pattern(tok, pos) {
        Ok((p, q)) => Ok((NestedSyntaxElem::Pattern(p), q)),
        Err(e) => Err(e),
    }
}

/// Reads a pattern at `pos`, with the substitutions `[x := t]` that follow it.
pub fn parse_pattern(tok: &Vec<Token>, pos: usize) -> (r: Result<(Pattern, usize), ParseError>)
    requires
        pos <= tok@.len(),
        !(sp_pattern(toks_view(tok@), pos as int) is Stuck),
    ensures
        res_pat(r, sp_pattern(toks_view(tok@), pos as int)),
        r matches Ok((_, q)) ==> pos < q <= tok@.len(),
    decreases tok@.len() - pos, 3int,
{
    let ghost t = toks_view(tok@);
    let (mut pat, mut q) = match parse_pattern_nosubst(tok, pos) {
        Ok(x) => x,
        Err(e) => {
            return Err(e);
        },
    };
    loop
        invariant
            t == toks_view(tok@),
            pos < q <= tok@.len(),
            sp_pattern(t, pos as int) == sp_subst(t, pat_view(pat), q as int),
            !(sp_pattern(t, pos as int) is Stuck),
        decreases tok@.len() - q,
    {
        let ghost cur = sp_subst(t, pat_view(pat), q as int);
        let is_bracket = q < tok.len() && match &tok[q] {
            Token::LBracket => true,
            _ => false,
        };
        if q < tok.len() {
            assert(t[q as int] == tok_view(tok@[q as int]));
        }
        if !is_bracket {
            return Ok((pat, q));
        }
        let (l, q2) = match parse_pattern(tok, q + 1) {
            Ok(x) => x,
            Err(e) => {
                return Err(e);
            },
        };
        assert(t[q2 as int] == tok_view(tok@[q2 as int]));
        let is_ce = match &tok[q2] {
            Token::ColonEquals => true,
            _ => false,
        };
        if !is_ce {
            return Err(ParseError::ExpectedColonEquals(to_vec(tok, q2)));
        }
        let (r, q3) = match parse_pattern(tok, q2 + 1) {
            Ok(x) => x,
            Err(e) => {
                return Err(e);
            },
        };
        assert(t[q3 as int] == tok_view(tok@[q3 as int]));
        let is_rb = match &tok[q3] {
            Token::RBracket => true,
            _ => false,
        };
        if !is_rb {
            return Err(ParseError::ExpectedRBracket(to_vec(tok, q3)));
        }
        let ghost pv = PatV::Subst(Box::new(pat_view(pat)), Box::new(pat_view(l)), Box::new(pat_view(r)));
        pat = Pattern::Subst(Box::new(pat), Box::new(l), Box::new(r));
        assert(pat_view(pat) == pv);
        q = q3 + 1;
    }
}

/// Reads a pattern variable, an operator alone, or `( op ... )` at `pos`.
fn parse_pattern_nosubst(tok: &Vec<Token>, pos: usize) -> (r: Result<(Pattern, usize), ParseError>)
    requires
        pos <= tok@.len(),
        !(sp_nosubst(toks_view(tok@), pos as int) is Stuck),
    ensures
        res_pat(r, sp_nosubst(toks_view(tok@), pos as int)),
        r matches Ok((_, q)) ==> pos < q <= tok@.len(),
    decreases tok@.len() - pos, 2int,
{
    let ghost t = toks_view(tok@);
    let n = tok.len();
    assert(t.len() == tok@.len());
    assert(pos < tok@.len());
    assert(t[pos as int] == tok_view(tok@[pos as int]));
    match &tok[pos] {
        Token::PVar(p) => {
            return Ok((Pattern::PVar(p.clone()), pos + 1));
        },
        Token::LParen => {
            assert(t[pos + 1] == tok_view(tok@[pos + 1]));
            let op = match &tok[pos + 1] {
                Token::Ident(op) => op,
                _ => {
                    return Err(ParseError::ParseState(to_vec(tok, pos + 1)));
                },
            };
            let mut mock_elems: Vec<SyntaxElem> = Vec::new();
            mock_elems.push(SyntaxElem::String(op.clone()));
            let mut children: Vec<Pattern> = Vec::new();
            let ghost mut acc: Seq<NestedV> = seq![];
            let mut q = pos + 2;
            assert(elems_view(mock_elems@) =~= mock(op@, acc));
            assert(pat_views(children@) =~= pats_of(acc));
            loop
                invariant
                    t == toks_view(tok@),
                    pos + 2 <= q <= tok@.len(),
                    sp_nosubst(t, pos as int) == sp_elems(t, q as int, op@, acc),
                    !(sp_nosubst(t, pos as int) is Stuck),
                    elems_view(mock_elems@) == mock(op@, acc),
                    pat_views(children@) == pats_of(acc),
                ensures
                    q < tok@.len(),
                    t[q as int] is RParen,
                decreases tok@.len() - q,
            {
                assert(t[q as int] == tok_view(tok@[q as int]));
                let is_rp = match &tok[q] {
                    Token::RParen => true,
                    _ => false,
                };
                if is_rp {
                    break;
                }
                let (se, q2) = match parse_nested_syntax_elem(tok, q) {
                    Ok(x) => x,
                    Err(e) => {
                        return Err(e);
                    },
                };
                let ghost nv = nested_view(se);
                match se {
                    NestedSyntaxElem::Pattern(p) => {
                        let nl = AppliedId::null();
                        assert(app_view(nl) == null_view()) by {
                            assert(nl.m.keys@ =~= Seq::<Slot>::empty());
                            assert(nl.m.vals@ =~= Seq::<Slot>::empty());
                        }
                        mock_elems.push(SyntaxElem::AppliedId(nl));
                        children.push(p);
                    },
                    NestedSyntaxElem::Slot(x) => {
                        mock_elems.push(SyntaxElem::Slot(x));
                    },
                    NestedSyntaxElem::String(s) => {
                        assert(false);
                        mock_elems.push(SyntaxElem::String(s));
                    },
                }
                proof {
                    let acc2 = acc.push(nv);
                    assert(acc2.drop_last() =~= acc);
                    assert(mock(op@, acc2) =~= mock(op@, acc).push(mock_of(nv)));
                    assert(elems_view(mock_elems@) =~= elems_view(mock_elems@.drop_last()).push(elem_view(mock_elems@.last())));
                    assert(elems_view(mock_elems@) =~= mock(op@, acc2));
                    assert(pat_views(children@) =~= pats_of(acc2));
                    acc = acc2;
                }
                q = q2;
            }
            let ghost m = mock(op@, acc);
            assert(sp_elems(t, q as int, op@, acc) == sp_finish(op@, acc, q + 1));
            proof {
                lemma_syntax_views(mock_elems@);
            }
            match ENode::from_syntax(mock_elems.as_slice()) {
                Some(node) => {
                    let p = Pattern::ENode(node, children);
                    assert(pat_view(p) == PatV::ENode(syntax_node_v(m), pats_of(acc))) by {
                        assert(pat_view(p)->ENode_1 =~= pats_of(acc));
                    }
                    Ok((p, q + 1))
                },
                None => Err(ParseError::FromSyntaxFailed(mock_elems)),
            }
        },
        Token::Ident(op) => {
            let mut mock_elems: Vec<SyntaxElem> = Vec::new();
            mock_elems.push(SyntaxElem::String(op.clone()));
            proof {
                lemma_syntax_views(mock_elems@);
                assert(elems_view(mock_elems@) =~= seq![ElemV::Str(op@)]);
            }
            match ENode::from_syntax(mock_elems.as_slice()) {
                Some(node) => {
                    let p = Pattern::ENode(node, Vec::new());
                    assert(pat_view(p)->ENode_1 =~= Seq::<PatV>::empty());
                    Ok((p, pos + 1))
                },
                None => Err(ParseError::FromSyntaxFailed(mock_elems)),
            }
        },
        _ => Err(ParseError::ParseState(to_vec(tok, pos))),
    }
}

/// The token with its slot forgotten.
pub open spec fn erase(t: TokV) -> TokV {
    match t {
        TokV::Slot(_) => TokV::Slot(Slot(0)),
        _ => t,
    }
}

pub open spec fn erased(t: Seq<TokV>) -> Seq<TokV> {
    t.map_values(|x: TokV| erase(x))
}

/// The token that a lexeme makes, with its slot forgotten.
pub open spec fn lexeme_kind(l: Lexeme) -> TokV {
    match l {
        Lexeme::SlotName(_) => TokV::Slot(Slot(0)),
        Lexeme::Ident(s) => TokV::Ident(s),
        Lexeme::PVar(s) => TokV::PVar(s),
        Lexeme::ColonEquals => TokV::ColonEquals,
        Lexeme::LParen => TokV::LParen,
        Lexeme::RParen => TokV::RParen,
        Lexeme::LBracket => TokV::LBracket,
        Lexeme::RBracket => TokV::RBracket,
    }
}

pub open spec fn lexeme_kinds(s: Seq<Lexeme>) -> Seq<TokV> {
    s.map_values(|l: Lexeme| lexeme_kind(l))
}

/// The two outcomes agree in all but the values read: both read up to the same position,
/// both fail, or both get stuck.
pub open spec fn same_kind<A, B>(a: PRes<A>, b: PRes<B>) -> bool {
    match (a, b) {
        (PRes::Done(_, p), PRes::Done(_, q)) => p == q,
        (PRes::Fail(_), PRes::Fail(_)) => true,
        (PRes::Stuck, PRes::Stuck) => true,
        _ => false,
    }
}

pub open spec fn nested_kind(n: NestedV) -> bool {
    n is Slot
}

pub open spec fn nested_kinds(s: Seq<NestedV>) -> Seq<bool> {
    s.map_values(|n: NestedV| nested_kind(n))
}

proof fn lemma_erase_finish(op: Seq<char>, a: Seq<NestedV>, b: Seq<NestedV>, q: int)
    requires
        nested_kinds(a) == nested_kinds(b),
    ensures
        same_kind(sp_finish(op, a, q), sp_finish(op, b, q)),
{
    let ma = mock(op, a);
    let mb = mock(op, b);
    assert(a.len() == nested_kinds(a).len());
    assert(b.len() == nested_kinds(b).len());
    assert(ma.len() == mb.len());
    assert(ma[0] == mb[0]);
    assert forall|i: int| 1 <= i < ma.len() implies (#[trigger] ma[i] is Slot) == (mb[i] is Slot)
        && (ma[i] is App) == (mb[i] is App) && !(ma[i] is Str) && !(mb[i] is Str) by {
        assert(nested_kinds(a)[i - 1] == nested_kinds(b)[i - 1]);
        assert(nested_kinds(a)[i - 1] == nested_kind(a[i - 1]));
        assert(nested_kinds(b)[i - 1] == nested_kind(b[i - 1]));
        assert(ma[i] == mock_of(a[i - 1]));
        assert(mb[i] == mock_of(b[i - 1]));
    }
    if ma.len() >= 2 {
        assert((ma[1] is Slot) == (mb[1] is Slot));
        assert((ma[1] is App) == (mb[1] is App));
    }
    if ma.len() >= 3 {
        assert((ma[2] is Slot) == (mb[2] is Slot));
        assert((ma[2] is App) == (mb[2] is App));
    }
    assert(syntax_ok_v(ma) == syntax_ok_v(mb));
}

proof fn lemma_erase_nested(t: Seq<TokV>, pos: int)
    ensures
        same_kind(sp_nested(t, pos), sp_nested(erased(t), pos)),
        sp_nested(t, pos) matches PRes::Done(n, _) ==> (sp_nested(erased(t), pos) matches PRes::Done(m, _) && nested_kind(n) == nested_kind(m)),
    decreases t.len() - pos, 4int,
{
    let e = erased(t);
    if 0 <= pos < t.len() {
        assert(e[pos] == erase(t[pos]));
        if !(t[pos] is Slot) {
            lemma_erase_pattern(t, pos);
        }
    }
}

proof fn lemma_erase_pattern(t: Seq<TokV>, pos: int)
    ensures
        same_kind(sp_pattern(t, pos), sp_pattern(erased(t), pos)),
    decreases t.len() - pos, 3int,
{
    if 0 <= pos < t.len() {
        lemma_erase_nosubst(t, pos);
        if let PRes::Done(p, q) = sp_nosubst(t, pos) {
            if pos < q <= t.len() {
                if let PRes::Done(p2, _) = sp_nosubst(erased(t), pos) {
                    lemma_erase_subst(t, p, p2, q);
                }
            }
        }
    }
}

proof fn lemma_erase_nosubst(t: Seq<TokV>, pos: int)
    ensures
        same_kind(sp_nosubst(t, pos), sp_nosubst(erased(t), pos)),
    decreases t.len() - pos, 2int,
{
    let e = erased(t);
    if 0 <= pos < t.len() {
        assert(e[pos] == erase(t[pos]));
        if pos + 1 < t.len() {
            assert(e[pos + 1] == erase(t[pos + 1]));
            if t[pos] is LParen && t[pos + 1] is Ident {
                assert(nested_kinds(Seq::<NestedV>::empty()) =~= nested_kinds(Seq::<NestedV>::empty()));
                lemma_erase_elems(t, pos + 2, t[pos + 1]->Ident_0, seq![], seq![]);
            }
        }
    }
}

proof fn lemma_erase_elems(t: Seq<TokV>, pos: int, op: Seq<char>, a: Seq<NestedV>, b: Seq<NestedV>)
    requires
        nested_kinds(a) == nested_kinds(b),
    ensures
        same_kind(sp_elems(t, pos, op, a), sp_elems(erased(t), pos, op, b)),
    decreases t.len() - pos, 5int,
{
    let e = erased(t);
    if 0 <= pos < t.len() {
        assert(e[pos] == erase(t[pos]));
        if t[pos] is RParen {
            lemma_erase_finish(op, a, b, pos + 1);
        } else {
            lemma_erase_nested(t, pos);
            if let PRes::Done(n, q) = sp_nested(t, pos) {
                if let PRes::Done(m, _) = sp_nested(e, pos) {
                    if pos < q <= t.len() {
                        assert(nested_kind(n) == nested_kind(m));
                        assert(nested_kinds(a.push(n)) =~= nested_kinds(a).push(nested_kind(n)));
                        assert(nested_kinds(b.push(m)) =~= nested_kinds(b).push(nested_kind(m)));
                        assert(nested_kinds(a.push(n)) =~= nested_kinds(b.push(m)));
                        lemma_erase_elems(t, q, op, a.push(n), b.push(m));
                    }
                }
            }
        }
    }
}

proof fn lemma_erase_subst(t: Seq<TokV>, pat: PatV, pat2: PatV, pos: int)
    ensures
        same_kind(sp_subst(t, pat, pos), sp_subst(erased(t), pat2, pos)),
    decreases t.len() - pos, 1int,
{
    let e = erased(t);
    if 0 <= pos <= t.len() {
        if pos < t.len() {
            assert(e[pos] == erase(t[pos]));
            if t[pos] is LBracket {
                lemma_erase_pattern(t, pos + 1);
                if let PRes::Done(l, q2) = sp_pattern(t, pos + 1) {
                    if pos + 1 < q2 < t.len() {
                        assert(e[q2] == erase(t[q2]));
                        if t[q2] is ColonEquals {
                            lemma_erase_pattern(t, q2 + 1);
                            if let PRes::Done(r, q3) = sp_pattern(t, q2 + 1) {
                                if q2 + 1 < q3 < t.len() {
                                    assert(e[q3] == erase(t[q3]));
                                    if t[q3] is RBracket {
                                        if let (PRes::Done(l2, _), PRes::Done(r2, _)) = (sp_pattern(e, pos + 1), sp_pattern(e, q2 + 1)) {
                                            lemma_erase_subst(
                                                t,
                                                PatV::Subst(Box::new(pat), Box::new(l), Box::new(r)),
                                                PatV::Subst(Box::new(pat2), Box::new(l2), Box::new(r2)),
                                                q3 + 1,
                                            );
                                        }
                                    }
                                }
                            }
                        }
                    }
                }
            }
        }
    }
}

/// The pattern holds only e-nodes.
pub open spec fn patv_ground(p: PatV) -> bool
    decreases p,
{
    match p {
        PatV::ENode(_, ch) => forall|i: int| #![trigger ch[i]] 0 <= i < ch.len() ==> patv_ground(ch[i]),
        _ => false,
    }
}

/// A `?x` or a `[` stands among the tokens `a .. b`.
pub open spec fn has_var_tok(t: Seq<TokV>, a: int, b: int) -> bool {
    exists|i: int| a <= i < b && (#[trigger] t[i] is PVar || t[i] is LBracket)
}

pub open spec fn acc_ground(acc: Seq<NestedV>) -> bool {
    forall|i: int| 0 <= i < acc.len() ==> (#[trigger] acc[i] matches NestedV::Pat(p) ==> patv_ground(p))
}

proof fn lemma_pats_of_ground(acc: Seq<NestedV>)
    requires
        acc_ground(acc),
    ensures
        forall|i: int| #![trigger pats_of(acc)[i]] 0 <= i < pats_of(acc).len() ==> patv_ground(pats_of(acc)[i]),
    decreases acc.len(),
{
    if acc.len() > 0 {
        let d = acc.drop_last();
        assert forall|i: int| 0 <= i < d.len() implies (#[trigger] d[i] matches NestedV::Pat(p) ==> patv_ground(p)) by {
            assert(d[i] == acc[i]);
        }
        lemma_pats_of_ground(d);
        assert(acc.last() == acc[acc.len() - 1]);
        let ps = pats_of(acc);
        match acc.last() {
            NestedV::Pat(p) => {
                assert(ps == pats_of(d).push(p));
                assert forall|i: int| #![trigger ps[i]] 0 <= i < ps.len() implies patv_ground(ps[i]) by {
                    if i < pats_of(d).len() {
                        assert(ps[i] == pats_of(d)[i]);
                    }
                }
            },
            NestedV::Slot(_) => {
                assert(ps == pats_of(d));
            },
        }
    }
}

proof fn lemma_ground_nested(t: Seq<TokV>, pos: int)
    ensures
        sp_nested(t, pos) matches PRes::Done(n, q) ==> ((n matches NestedV::Pat(p) ==> patv_ground(p)) || has_var_tok(t, pos, q)),
    decreases t.len() - pos, 4int,
{
    if 0 <= pos < t.len() && !(t[pos] is Slot) {
        lemma_ground_pattern(t, pos);
    }
}

proof fn lemma_ground_pattern(t: Seq<TokV>, pos: int)
    ensures
        sp_pattern(t, pos) matches PRes::Done(p, q) ==> (patv_ground(p) || has_var_tok(t, pos, q)),
    decreases t.len() - pos, 3int,
{
    if 0 <= pos < t.len() {
        lemma_ground_nosubst(t, pos);
        if let PRes::Done(p, q) = sp_nosubst(t, pos) {
            if pos < q <= t.len() {
                lemma_ground_subst(t, p, q);
                if let PRes::Done(p2, q2) = sp_subst(t, p, q) {
                    if has_var_tok(t, pos, q) {
                        let i = choose|i: int| pos <= i < q && (#[trigger] t[i] is PVar || t[i] is LBracket);
                        assert(pos <= i < q2);
                    }
                    if has_var_tok(t, q, q2) {
                        let i = choose|i: int| q <= i < q2 && (#[trigger] t[i] is PVar || t[i] is LBracket);
                        assert(pos <= i < q2);
                    }
                }
            }
        }
    }
}

proof fn lemma_ground_nosubst(t: Seq<TokV>, pos: int)
    ensures
        sp_nosubst(t, pos) matches PRes::Done(p, q) ==> (patv_ground(p) || has_var_tok(t, pos, q)),
    decreases t.len() - pos, 2int,
{
    if 0 <= pos < t.len() {
        if t[pos] is PVar {
            assert(has_var_tok(t, pos, pos + 1));
        } else if t[pos] is LParen && pos + 1 < t.len() && t[pos + 1] is Ident {
            lemma_ground_elems(t, pos + 2, pos + 2, t[pos + 1]->Ident_0, seq![]);
            if let PRes::Done(p, q) = sp_elems(t, pos + 2, t[pos + 1]->Ident_0, seq![]) {
                if has_var_tok(t, pos + 2, q) {
                    let i = choose|i: int| pos + 2 <= i < q && (#[trigger] t[i] is PVar || t[i] is LBracket);
                    assert(pos <= i < q);
                }
            }
        } else if t[pos] is Ident {
            let m = seq![ElemV::Str(t[pos]->Ident_0)];
            assert(patv_ground(PatV::ENode(syntax_node_v(m), seq![])));
        }
    }
}

proof fn lemma_ground_elems(t: Seq<TokV>, start: int, pos: int, op: Seq<char>, acc: Seq<NestedV>)
    requires
        start <= pos,
        acc_ground(acc) || has_var_tok(t, start, pos),
    ensures
        sp_elems(t, pos, op, acc) matches PRes::Done(p, q) ==> (patv_ground(p) || has_var_tok(t, start, q)),
    decreases t.len() - pos, 5int,
{
    if 0 <= pos < t.len() {
        if t[pos] is RParen {
            if acc_ground(acc) {
                lemma_pats_of_ground(acc);
                let m = mock(op, acc);
                if syntax_ok_v(m) {
                    let p = PatV::ENode(syntax_node_v(m), pats_of(acc));
                    assert(p->ENode_1 == pats_of(acc));
                    assert(patv_ground(p));
                }
            } else {
                let i = choose|i: int| start <= i < pos && (#[trigger] t[i] is PVar || t[i] is LBracket);
                assert(start <= i < pos + 1);
            }
        } else {
            lemma_ground_nested(t, pos);
            if let PRes::Done(n, q) = sp_nested(t, pos) {
                if pos < q <= t.len() {
                    let acc2 = acc.push(n);
                    if has_var_tok(t, start, pos) {
                        let i = choose|i: int| start <= i < pos && (#[trigger] t[i] is PVar || t[i] is LBracket);
                        assert(start <= i < q);
                    } else if has_var_tok(t, pos, q) {
                        let i = choose|i: int| pos <= i < q && (#[trigger] t[i] is PVar || t[i] is LBracket);
                        assert(start <= i < q);
                    } else {
                        assert forall|i: int| 0 <= i < acc2.len() implies (#[trigger] acc2[i] matches NestedV::Pat(p) ==> patv_ground(p)) by {
                            if i < acc.len() {
                                assert(acc2[i] == acc[i]);
                            }
                        }
                    }
                    lemma_ground_elems(t, start, q, op, acc2);
                }
            }
        }
    }
}

proof fn lemma_ground_subst(t: Seq<TokV>, pat: PatV, pos: int)
    ensures
        sp_subst(t, pat, pos) matches PRes::Done(p, q) ==> ((p == pat && q == pos) || has_var_tok(t, pos, q)),
    decreases t.len() - pos, 1int,
{
    if 0 <= pos <= t.len() && pos < t.len() && t[pos] is LBracket {
        if let PRes::Done(p, q) = sp_subst(t, pat, pos) {
            assert(has_var_tok(t, pos, q)) by {
                lemma_subst_advances(t, pat, pos);
            }
        }
    }
}

/// The substitutions read end after where they start.
proof fn lemma_subst_advances(t: Seq<TokV>, pat: PatV, pos: int)
    ensures
        sp_subst(t, pat, pos) matches PRes::Done(_, q) ==> pos <= q,
        sp_subst(t, pat, pos) matches PRes::Done(_, q) ==> (pos < t.len() && t[pos] is LBracket ==> pos < q),
    decreases t.len() - pos, 1int,
{
    if 0 <= pos < t.len() && t[pos] is LBracket {
        if let PRes::Done(l, q2) = sp_pattern(t, pos + 1) {
            if pos + 1 < q2 < t.len() && t[q2] is ColonEquals {
                if let PRes::Done(r, q3) = sp_pattern(t, q2 + 1) {
                    if q2 + 1 < q3 < t.len() && t[q3] is RBracket {
                        lemma_subst_advances(t, PatV::Subst(Box::new(pat), Box::new(l), Box::new(r)), q3 + 1);
                    }
                }
            }
        }
    }
}

/// A ground pattern value comes from a ground pattern.
proof fn lemma_view_ground(p: Pattern)
    requires
        patv_ground(pat_view(p)),
    ensures
        crate::expr::is_ground(p),
    decreases p,
{
    if let Pattern::ENode(_, ch) = p {
        assert forall|i: int| #![trigger ch@[i]] 0 <= i < ch@.len() implies crate::expr::is_ground(ch@[i]) by {
            assert(pat_view(p)->ENode_1[i] == pat_view(ch@[i]));
            lemma_view_ground(ch@[i]);
        }
    }
}

/// The token value stands for the lexeme, its slot name looked up in `tab`.
pub open spec fn tokv_is(t: TokV, l: Lexeme, tab: SlotTable) -> bool {
    match (t, l) {
        (TokV::Slot(x), Lexeme::SlotName(n)) => names_slot(tab, n, x),
        (TokV::Ident(a), Lexeme::Ident(b)) => a == b,
        (TokV::PVar(a), Lexeme::PVar(b)) => a == b,
        (TokV::ColonEquals, Lexeme::ColonEquals) => true,
        (TokV::LParen, Lexeme::LParen) => true,
        (TokV::RParen, Lexeme::RParen) => true,
        (TokV::LBracket, Lexeme::LBracket) => true,
        (TokV::RBracket, Lexeme::RBracket) => true,
        _ => false,
    }
}

/// The token values stand for the lexemes, their slot names looked up in `tab`.
pub open spec fn tokens_for(t: Seq<TokV>, ls: Seq<Lexeme>, tab: SlotTable) -> bool {
    &&& t.len() == ls.len()
    &&& forall|i: int| 0 <= i < t.len() ==> #[trigger] tokv_is(t[i], ls[i], tab)
}

/// Reading a whole token sequence as one pattern; tokens left over are an error.
pub open spec fn sp_whole(t: Seq<TokV>) -> PRes<PatV> {
    match sp_pattern(t, 0) {
        PRes::Done(p, q) => if q < t.len() {
            PRes::Fail(ErrV::RemainingRest(t.skip(q)))
        } else {
            PRes::Done(p, q)
        },
        other => other,
    }
}

/// Reading the text never runs past the last token.
pub open spec fn parse_total(s: Seq<char>) -> bool {
    lex(s).1 is None ==> !(sp_pattern(lexeme_kinds(lex(s).0), 0) is Stuck)
}

/// Where the text reads as a pattern, it holds no `?x` and no substitution.
pub open spec fn ground_text(s: Seq<char>) -> bool {
    let k = lexeme_kinds(lex(s).0);
    lex(s).1 is None && sp_whole(k) is Done ==> !has_var_tok(k, 0, k.len() as int)
}

pub open spec fn res_whole(r: Result<Pattern, ParseError>, s: PRes<PatV>) -> bool {
    match s {
        PRes::Done(v, _) => r matches Ok(p) && pat_view(p) == v,
        PRes::Fail(e) => r matches Err(er) && err_view(er) == e,
        PRes::Stuck => false,
    }
}

/// The tokens of the text, as values, forget their slots into the lexemes' kinds.
proof fn lemma_tokens_erase(t: Seq<TokV>, ls: Seq<Lexeme>, tab: SlotTable)
    requires
        tokens_for(t, ls, tab),
    ensures
        erased(t) == lexeme_kinds(ls),
{
    assert forall|i: int| 0 <= i < t.len() implies erased(t)[i] == lexeme_kinds(ls)[i] by {
        assert(tokv_is(t[i], ls[i], tab));
    }
    assert(erased(t) =~= lexeme_kinds(ls));
}

proof fn lemma_var_erase(t: Seq<TokV>)
    ensures
        has_var_tok(t, 0, t.len() as int) == has_var_tok(erased(t), 0, t.len() as int),
{
    let e = erased(t);
    if has_var_tok(t, 0, t.len() as int) {
        let i = choose|i: int| 0 <= i < t.len() && (#[trigger] t[i] is PVar || t[i] is LBracket);
        assert(e[i] == erase(t[i]));
        assert(e[i] is PVar || e[i] is LBracket);
    }
    if has_var_tok(e, 0, t.len() as int) {
        let i = choose|i: int| 0 <= i < t.len() && (#[trigger] e[i] is PVar || e[i] is LBracket);
        assert(e[i] == erase(t[i]));
    }
}

/// Tokens that stand for the lexemes of `s` do so as values too.
proof fn lemma_tokens_of(toks: Seq<Token>, s: Seq<char>, tab: SlotTable)
    requires
        toks.len() == lex(s).0.len(),
        forall|i: int| 0 <= i < toks.len() ==> #[trigger] token_is(toks[i], lex(s).0[i], tab),
    ensures
        tokens_for(toks_view(toks), lex(s).0, tab),
{
    let t = toks_view(toks);
    assert forall|i: int| 0 <= i < t.len() implies #[trigger] tokv_is(t[i], lex(s).0[i], tab) by {
        assert(token_is(toks[i], lex(s).0[i], tab));
    }
}

impl Pattern {
    /// Reads a pattern from its textual form, looking the slot names up in `tab`, which
    /// learns the names it did not know.
    pub fn parse(s: &str, tab: &mut SlotTable) -> (r: Result<Pattern, ParseError>)
        requires
            old(tab).wf(),
            names_fit(s@),
            4 * (old(tab).named_vec@.len() + s@.len()) + 2 <= u64::MAX,
            parse_total(s@),
        ensures
            final(tab).wf(),
            extends(*old(tab), *final(tab)),
            lex(s@).1 matches Some(rest) ==> (r matches Err(e) && err_view(e) == ErrV::TokenState(rest)),
            lex(s@).1 is None ==> exists|t: Seq<TokV>| #[trigger] tokens_for(t, lex(s@).0, *final(tab)) && res_whole(r, sp_whole(t)),
    {
        let tok = match tokenize(s, tab) {
            Ok(t) => t,
            Err(e) => {
                return Err(e);
            },
        };
        let ghost t = toks_view(tok@);
        proof {
            lemma_tokens_of(tok@, s@, *tab);
            lemma_tokens_erase(t, lex(s@).0, *tab);
            lemma_erase_pattern(t, 0);
        }
        let (pat, q) = match parse_pattern(&tok, 0) {
            Ok(x) => x,
            Err(e) => {
                assert(res_whole(Err(e), sp_whole(t)));
                return Err(e);
            },
        };
        if q < tok.len() {
            let e = ParseError::RemainingRest(to_vec(&tok, q));
            assert(res_whole(Err(e), sp_whole(t)));
            return Err(e);
        }
        assert(res_whole(Ok(pat), sp_whole(t)));
        Ok(pat)
    }
}

impl RecExpr {
    /// Reads a term from its textual form: a pattern without `?x` and substitutions.
    pub fn parse(s: &str, tab: &mut SlotTable) -> (r: Result<RecExpr, ParseError>)
        requires
            old(tab).wf(),
            names_fit(s@),
            4 * (old(tab).named_vec@.len() + s@.len()) + 2 <= u64::MAX,
            parse_total(s@),
            ground_text(s@),
        ensures
            final(tab).wf(),
            extends(*old(tab), *final(tab)),
            lex(s@).1 matches Some(rest) ==> (r matches Err(e) && err_view(e) == ErrV::TokenState(rest)),
            lex(s@).1 is None ==> exists|t: Seq<TokV>| #[trigger] tokens_for(t, lex(s@).0, *final(tab)) && match sp_whole(t) {
                PRes::Done(v, _) => r matches Ok(re) && exists|p: Pattern| pat_view(p) == v && #[trigger] crate::expr::spells(re, p),
                PRes::Fail(e) => r matches Err(er) && err_view(er) == e,
                PRes::Stuck => false,
            },
    {
        let tok = match tokenize(s, tab) {
            Ok(t) => t,
            Err(e) => {
                return Err(e);
            },
        };
        let ghost t = toks_view(tok@);
        proof {
            lemma_tokens_of(tok@, s@, *tab);
            lemma_tokens_erase(t, lex(s@).0, *tab);
            lemma_erase_pattern(t, 0);
        }
        let (pat, q) = match parse_pattern(&tok, 0) {
            Ok(x) => x,
            Err(e) => {
                return Err(e);
            },
        };
        if q < tok.len() {
            let e = ParseError::RemainingRest(to_vec(&tok, q));
            return Err(e);
        }
        proof {
            lemma_ground_pattern(t, 0);
            lemma_var_erase(t);
            assert(!has_var_tok(t, 0, t.len() as int));
            lemma_view_ground(pat);
        }
        let re = crate::expr::pattern_to_re(&pat);
        Ok(re)
    }
}

/// The name that [Slot::show] writes after the `$` stands for the slot again.
pub proof fn lemma_show_names(tab: SlotTable, x: Slot)
    requires
        tab.wf(),
        crate::slot::slot_kind(x) != 3,
        crate::slot::slot_kind(x) == 2 ==> (x.0 - 2) / 4 < tab.named_vec@.len(),
    ensures
        names_slot(tab, crate::slot::show_spec(tab, x).drop_first(), x),
{
    let shown = crate::slot::show_spec(tab, x);
    let n = shown.drop_first();
    if x.0 % 4 == 0 {
        assert(n =~= crate::slot::decimal(x.0 as nat / 4));
        crate::slot::lemma_parse_decimal(x.0 / 4);
    } else if x.0 % 4 == 1 {
        assert(n =~= seq!['f'] + crate::slot::decimal(x.0 as nat / 4));
        assert(n.drop_first() =~= crate::slot::decimal(x.0 as nat / 4));
        crate::slot::lemma_parse_decimal(x.0 / 4);
        assert(!crate::slot::is_digit(n[0]));
        assert(crate::slot::unsigned_body(n) == n);
        assert(!crate::slot::all_digits(n));
    } else {
        assert(n =~= tab.named_vec@[(x.0 - 2) / 4]@);
    }
}

} // verus!
