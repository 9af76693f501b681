use lib::expr::{Pattern, RecExpr};
use lib::lang::{enode_eq, ENode};
use lib::parse::{ident_char, is_whitespace, tokenize, ParseError, Token};
use lib::slot::{Slot, SlotTable};

#[test]
fn whitespace_and_name_characters() {
    assert!(is_whitespace(' '));
    assert!(is_whitespace('\n'));
    assert!(is_whitespace('\u{3000}'));
    assert!(!is_whitespace('a'));
    for c in ['a', '$', '?', ':', '1'] {
        assert_eq!(ident_char(c), true);
    }
    for c in ['(', ')', '[', ']', ' ', '\t'] {
        assert_eq!(ident_char(c), false);
    }
    for c in ['\u{85}', '\u{A0}', '\u{2003}', '\u{205F}', 'x', '_'] {
        assert_eq!(is_whitespace(c), c.is_whitespace());
    }
}

#[test]
fn tokenize_reads_every_kind_of_token() {
    let mut tab = SlotTable::new();
    let toks = tokenize("(app ?a $x)[?a := $0]", &mut tab).ok().unwrap();
    assert_eq!(toks.len(), 10);
    assert!(matches!(toks[0], Token::LParen));
    assert!(matches!(&toks[1], Token::Ident(s) if s == "app"));
    assert!(matches!(&toks[2], Token::PVar(s) if s == "a"));
    assert!(matches!(toks[3], Token::Slot(Slot(2))));
    assert!(matches!(toks[4], Token::RParen));
    assert!(matches!(toks[5], Token::LBracket));
    assert!(matches!(toks[7], Token::ColonEquals));
    assert!(matches!(toks[8], Token::Slot(Slot(0))));
    assert!(matches!(toks[9], Token::RBracket));
}

#[test]
fn tokenize_rejects_a_lone_marker() {
    let mut tab = SlotTable::new();
    match tokenize("(app ? x)", &mut tab) {
        Err(ParseError::TokenState(rest)) => assert_eq!(rest, " x)"),
        _ => panic!("expected a token error"),
    }
    match tokenize("$", &mut tab) {
        Err(ParseError::TokenState(rest)) => assert_eq!(rest, ""),
        _ => panic!("expected a token error"),
    }
}

#[test]
fn colon_without_equals_is_a_name() {
    let mut tab = SlotTable::new();
    let toks = tokenize(":x :=", &mut tab).ok().unwrap();
    assert_eq!(toks.len(), 2);
    assert!(matches!(&toks[0], Token::Ident(s) if s == ":x"));
    assert!(matches!(toks[1], Token::ColonEquals));
}

#[test]
fn parse_a_pattern() {
    let mut tab = SlotTable::new();
    let p = Pattern::parse("(app ?f (var $x))", &mut tab).ok().unwrap();
    match p {
        Pattern::ENode(ENode::App(..), ch) => {
            assert_eq!(ch.len(), 2);
            assert!(matches!(&ch[0], Pattern::PVar(v) if v == "f"));
            assert!(matches!(&ch[1], Pattern::ENode(n, c) if enode_eq(n, &ENode::Var(Slot(2))) && c.is_empty()));
        }
        _ => panic!("expected an app pattern"),
    }
}

#[test]
fn parse_a_substitution() {
    let mut tab = SlotTable::new();
    let p = Pattern::parse("?b[?x := (var $1)]", &mut tab).ok().unwrap();
    match p {
        Pattern::Subst(b, x, t) => {
            assert!(matches!(*b, Pattern::PVar(ref v) if v == "b"));
            assert!(matches!(*x, Pattern::PVar(ref v) if v == "x"));
            assert!(matches!(*t, Pattern::ENode(ENode::Var(Slot(4)), _)));
        }
        _ => panic!("expected a substitution"),
    }
}

#[test]
fn parse_errors() {
    let mut tab = SlotTable::new();
    assert!(matches!(Pattern::parse("(foo ?a)", &mut tab), Err(ParseError::FromSyntaxFailed(_))));
    assert!(matches!(Pattern::parse("x", &mut tab), Err(ParseError::FromSyntaxFailed(_))));
    assert!(matches!(Pattern::parse("(var $x) ?y", &mut tab), Err(ParseError::RemainingRest(ref r)) if r.len() == 1));
    assert!(matches!(Pattern::parse("(?a)", &mut tab), Err(ParseError::ParseState(_))));
    assert!(matches!(Pattern::parse(")", &mut tab), Err(ParseError::ParseState(_))));
    assert!(matches!(Pattern::parse("?a[?b ?c]", &mut tab), Err(ParseError::ExpectedColonEquals(_))));
    assert!(matches!(Pattern::parse("?a[?b := ?c ?d]", &mut tab), Err(ParseError::ExpectedRBracket(_))));
    assert!(matches!(Pattern::parse("?a $", &mut tab), Err(ParseError::TokenState(_))));
}

#[test]
fn parse_a_term() {
    let mut tab = SlotTable::new();
    let re = RecExpr::parse("(lam $x (app (var $x) (var $y)))", &mut tab).ok().unwrap();
    assert!(enode_eq(&re.node.nullify_app_ids(), &ENode::Lam(Slot(2), lib::applied::AppliedId::null())));
    assert_eq!(re.children.len(), 1);
    assert_eq!(re.children[0].children.len(), 2);
    assert!(enode_eq(&re.children[0].children[1].node, &ENode::Var(Slot(6))));
}
