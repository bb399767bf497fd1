use project_s::ast::ASTS;
use project_s::builder::{list, rest, string, symbol};
use project_s::display::display_text;
use project_s::source::{Sources, Span};

fn span() -> Span {
    let (_, id) = Sources::single("<display>", "");
    Span::new_empty(id)
}

#[test]
fn display_plain_and_alternate() {
    let mut asts = ASTS::new();
    let root = rest("f", vec![symbol(":k"), list(), string("s"), rest("g", vec![symbol("x")])]).build_ast(&mut asts, span());
    assert!(asts.holds(root.item));
    assert_eq!(display_text(&asts, root.item, false, 0), "(f :k () \"s\" (g x))");
    assert_eq!(display_text(&asts, root.item, true, 0), "(f\n  :k\n  ()\n  \"s\"\n  (g\n    x))");
    assert_eq!(display_text(&asts, root.item, true, 3), "(f\n     :k\n     ()\n     \"s\"\n     (g\n       x))");
}
