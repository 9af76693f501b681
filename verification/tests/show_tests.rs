use lib::expr::Pattern;
use lib::slot::SlotTable;

fn round(s: &str) -> String {
    let mut tab = SlotTable::new();
    let p = Pattern::parse(s, &mut tab).ok().unwrap();
    p.show(&tab)
}

#[test]
fn printing_a_pattern() {
    assert_eq!(round("(app ?f (var $x))"), "(app ?f (var $x))");
    assert_eq!(round("(lam $0 (app (var $0) ?b))"), "(lam $0 (app (var $0) ?b))");
}

#[test]
fn printing_a_variable_and_a_substitution() {
    assert_eq!(round("?x"), "?x");
    assert_eq!(round("?b[?x := (var $y)]"), "?b[?x := (var $y)]");
}

#[test]
fn printing_normalises_spaces() {
    assert_eq!(round("(app   ?f\n ?g)"), "(app ?f ?g)");
}
