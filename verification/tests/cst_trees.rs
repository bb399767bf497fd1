use project_s::ast::{CstNode, ParseError, SExp, ASTS};
use project_s::parser::{self, parse_tree};
use project_s::source::{Point, Range, Sources};

fn range(start: usize, end: usize) -> Range {
    Range {
        start_byte: start,
        end_byte: end,
        start_point: Point { row: 0, column: start },
        end_point: Point { row: 0, column: end },
    }
}

fn leaf(id: usize, kind: &str, text: &str, start: usize) -> CstNode {
    CstNode {
        id,
        kind: kind.to_string(),
        range: range(start, start + text.len()),
        text: Ok(text.to_string()),
        is_named: true,
        is_extra: false,
        children: vec![],
        inner: None,
    }
}

fn punct(id: usize, text: &str, start: usize) -> CstNode {
    CstNode { is_named: false, ..leaf(id, text, text, start) }
}

fn node(id: usize, kind: &str, start: usize, end: usize, children: Vec<CstNode>) -> CstNode {
    CstNode {
        id,
        kind: kind.to_string(),
        range: range(start, end),
        text: Ok(String::new()),
        is_named: true,
        is_extra: false,
        children,
        inner: None,
    }
}

fn source_file(end: usize, children: Vec<CstNode>) -> CstNode {
    node(0, "source_file", 0, end, children)
}

fn symbol_text(e: &parser::SExp) -> Option<&str> {
    match e {
        parser::SExp::Symbol(s) => Some(s.as_str()),
        _ => None,
    }
}

// The plain reader, on the trees the concrete parser gives for its inputs.

#[test]
fn test_parse_simple_symbol() {
    let root = source_file(3, vec![leaf(1, "symbol", "foo", 0)]);
    let result = parse_tree(&root).unwrap();
    assert!(matches!(result, parser::SExp::Symbol(s) if s == "foo"));
}

#[test]
fn test_parse_numeric_symbol() {
    let root = source_file(2, vec![leaf(1, "symbol", "42", 0)]);
    let result = parse_tree(&root).unwrap();
    assert!(matches!(result, parser::SExp::Symbol(s) if s == "42"));
}

#[test]
fn test_parse_operator_symbol() {
    let root = source_file(2, vec![leaf(1, "symbol", "->", 0)]);
    let result = parse_tree(&root).unwrap();
    assert!(matches!(result, parser::SExp::Symbol(s) if s == "->"));
}

#[test]
fn test_parse_empty_list() {
    let root = source_file(2, vec![node(1, "list", 0, 2, vec![punct(2, "(", 0), punct(3, ")", 1)])]);
    let result = parse_tree(&root).unwrap();
    assert!(matches!(result, parser::SExp::List(list) if list.is_empty()));
}

fn five_symbols() -> CstNode {
    source_file(
        18,
        vec![node(
            1,
            "list",
            0,
            18,
            vec![
                punct(2, "(", 0),
                leaf(3, "symbol", "->", 1),
                leaf(4, "symbol", "foo", 4),
                leaf(5, "symbol", "bar", 8),
                leaf(6, "symbol", "12", 12),
                leaf(7, "symbol", "==", 15),
                punct(8, ")", 17),
            ],
        )],
    )
}

#[test]
fn test_parse_list_with_symbols() {
    let result = parse_tree(&five_symbols()).unwrap();
    match result {
        parser::SExp::List(items) => {
            assert_eq!(items.len(), 5);
            assert!(matches!(items[0], parser::SExp::Symbol(ref s) if s == "->"));
            assert!(matches!(items[1], parser::SExp::Symbol(ref s) if s == "foo"));
            assert!(matches!(items[2], parser::SExp::Symbol(ref s) if s == "bar"));
            assert!(matches!(items[3], parser::SExp::Symbol(ref s) if s == "12"));
            assert!(matches!(items[4], parser::SExp::Symbol(ref s) if s == "=="));
        }
        _ => panic!("Expected a list with five symbols"),
    }
}

#[test]
fn plain_reader_displays_lists() {
    let result = parse_tree(&five_symbols()).unwrap();
    assert_eq!(result.to_string(), "(-> foo bar 12 ==)");
    let nested = source_file(
        9,
        vec![node(
            1,
            "list",
            0,
            9,
            vec![leaf(2, "symbol", "a", 1), node(3, "list", 3, 8, vec![leaf(4, "symbol", "b", 4), leaf(5, "symbol", "c", 6)])],
        )],
    );
    assert_eq!(parse_tree(&nested).unwrap().to_string(), "(a (b c))");
}

#[test]
fn plain_reader_errors() {
    let not_a_file = leaf(0, "list", "()", 0);
    match parse_tree(&not_a_file) {
        Err(parser::ParseError::UnexpectedNode(m)) => assert_eq!(m, "Expected source_file, got list"),
        _ => panic!("expected an error"),
    }
    match parse_tree(&source_file(0, vec![])) {
        Err(parser::ParseError::UnexpectedNode(m)) => assert_eq!(m, "Empty source file"),
        _ => panic!("expected an error"),
    }
    match parse_tree(&source_file(1, vec![leaf(1, "integer", "1", 0)])) {
        Err(parser::ParseError::UnexpectedNode(m)) => assert_eq!(m, "Expected symbol or list, got integer"),
        _ => panic!("expected an error"),
    }
    let inner_bad = source_file(3, vec![node(1, "list", 0, 3, vec![leaf(2, "string", "s", 1)])]);
    match parse_tree(&inner_bad) {
        Err(parser::ParseError::UnexpectedNode(m)) => assert_eq!(m, "Unexpected node kind: string"),
        _ => panic!("expected an error"),
    }
    let unreadable = source_file(1, vec![CstNode { text: Err("bad text".to_string()), ..leaf(1, "symbol", "x", 0) }]);
    match parse_tree(&unreadable) {
        Err(parser::ParseError::TreeSitterError(m)) => assert_eq!(m, "bad text"),
        _ => panic!("expected an error"),
    }
    let first = parse_tree(&source_file(1, vec![leaf(1, "symbol", "x", 0)])).unwrap();
    assert_eq!(symbol_text(&first), Some("x"));
}

// The arena builder.

fn symbol_of(asts: &ASTS, id: project_s::ast::SExpId) -> String {
    asts.get(id).item.as_symbol().unwrap().to_string()
}

#[test]
fn source_file_becomes_a_do_block() {
    let (_sources, source_id) = Sources::single("main.s", "(f 1) :k");
    let mut list = node(1, "list", 0, 5, vec![punct(2, "(", 0), leaf(3, "symbol", "f", 1), leaf(4, "integer", "1", 3), punct(5, ")", 4)]);
    list.children.push(CstNode { is_extra: true, ..leaf(6, "comment", ";c", 5) });
    let root = source_file(8, vec![list, leaf(7, "keyword", "::k", 6)]);
    let mut asts = ASTS::new();
    let ast = asts.parse(source_id, &root).unwrap();
    // f, 1, the list, :k, do, the root
    assert_eq!(ast.nodes().len(), 6);
    let top = ast.root_id().unwrap();
    assert_eq!(ast.generation(), 0);
    let items = ast.get(top).item.as_list().unwrap().to_vec();
    assert_eq!(items.len(), 3);
    assert_eq!(ast.get(items[0]).item.as_symbol(), Some("do"));
    let call = ast.get(items[1]).item.as_list().unwrap().to_vec();
    assert_eq!(call.len(), 2);
    assert_eq!(ast.get(call[0]).item.as_symbol(), Some("f"));
    assert!(matches!(&ast.get(call[1]).item, SExp::Number(n) if n == "1"));
    assert_eq!(ast.get(items[2]).item.as_keyword(), Some("k"));
    assert_eq!(ast.get_from_ts(1), Some(items[1]));
    assert_eq!(ast.get_from_ts(3), Some(call[0]));
    assert_eq!(ast.get_from_ts(6), None);
    assert_eq!(ast.get_from_ts(0), None);
    assert_eq!(asts.get_by_source(source_id), Some(top));
    assert_eq!(symbol_of(&asts, items[0]), "do");
}

#[test]
fn a_source_is_parsed_once() {
    let (_sources, source_id) = Sources::single("main.s", "x");
    let mut asts = ASTS::new();
    let first = asts.parse(source_id, &source_file(1, vec![leaf(1, "symbol", "x", 0)])).unwrap().root_id();
    let again = asts.parse(source_id, &source_file(1, vec![leaf(1, "symbol", "y", 0)])).unwrap();
    assert_eq!(again.root_id(), first);
    assert_eq!(again.nodes().len(), 3);
}

#[test]
fn structs_arrays_and_quotes() {
    let (_sources, source_id) = Sources::single("main.s", "");
    let strukt = node(1, "struct", 0, 6, vec![punct(2, "{", 0), leaf(3, "keyword", ":a", 1), leaf(4, "integer", "1", 4)]);
    let array = node(5, "array", 6, 9, vec![leaf(6, "boolean", "true", 7)]);
    let mut quote = node(7, "quote", 9, 11, vec![]);
    quote.inner = Some(Box::new(leaf(8, "symbol", "q", 10)));
    let mut string = node(9, "string", 11, 14, vec![]);
    string.inner = Some(Box::new(leaf(10, "string_content", "hi", 12)));
    let root = source_file(14, vec![strukt, array, quote, string]);
    let mut asts = ASTS::new();
    let ast = asts.parse(source_id, &root).unwrap();
    let items = ast.get(ast.root_id().unwrap()).item.as_list().unwrap().to_vec();
    assert_eq!(items.len(), 5);
    let s = ast.get(items[1]).item.as_list().unwrap().to_vec();
    assert_eq!(ast.get(s[0]).item.as_symbol(), Some("obj/struct"));
    assert_eq!(ast.get(s[1]).item.as_keyword(), Some("a"));
    assert_eq!(s.len(), 3);
    let a = ast.get(items[2]).item.as_list().unwrap().to_vec();
    assert_eq!(ast.get(a[0]).item.as_symbol(), Some("list"));
    assert!(matches!(ast.get(a[1]).item, SExp::Bool(true)));
    let q = ast.get(items[3]).item.as_list().unwrap().to_vec();
    assert_eq!(ast.get(q[0]).item.as_symbol(), Some("quote"));
    assert_eq!(ast.get(q[1]).item.as_symbol(), Some("q"));
    assert_eq!(ast.get(items[4]).item.as_symbol_or_keyword_or_string(), Some("hi"));
    // the struct node maps to its list, not to its head symbol
    assert_eq!(ast.get_from_ts(1), Some(items[1]));
}

#[test]
fn parse_errors() {
    let (_sources, source_id) = Sources::single("main.s", "");
    let mut asts = ASTS::new();
    match asts.parse(source_id, &leaf(0, "symbol", "x", 0)) {
        Err(ParseError::UnexpectedNode(m)) => assert_eq!(m, "Expected source_file, got symbol"),
        _ => panic!("expected an error"),
    }
    match asts.parse(source_id, &source_file(0, vec![])) {
        Err(ParseError::UnexpectedNode(m)) => assert_eq!(m, "Empty source file"),
        _ => panic!("expected an error"),
    }
    match asts.parse(source_id, &source_file(1, vec![leaf(1, "splat", "x", 0)])) {
        Err(ParseError::UnexpectedNode(m)) => assert_eq!(m, "Unexpected node kind: splat"),
        _ => panic!("expected an error"),
    }
    match asts.parse(source_id, &source_file(1, vec![node(1, "unquote", 0, 1, vec![])])) {
        Err(ParseError::TreeSitterError(m)) => assert_eq!(m, "No inner node"),
        _ => panic!("expected an error"),
    }
    let unreadable = CstNode { text: Err("invalid UTF-8".to_string()), ..leaf(1, "symbol", "x", 0) };
    match asts.parse(source_id, &source_file(1, vec![unreadable])) {
        Err(ParseError::TreeSitterError(m)) => assert_eq!(m, "invalid UTF-8"),
        _ => panic!("expected an error"),
    }
    assert_eq!(asts.get_by_source(source_id), None);
    // every failed attempt used up a generation
    let ok = asts.parse(source_id, &source_file(1, vec![leaf(1, "symbol", "x", 0)])).unwrap();
    assert_eq!(ok.generation(), 5);
}

#[test]
fn arenas_by_generation() {
    let (_sources, source_id) = Sources::single("main.s", "");
    let mut asts = ASTS::new();
    let ast = asts.new_ast_mut();
    let span = project_s::source::Span::new_empty(source_id);
    let a = ast.add_node(SExp::Symbol("a".to_string()), span, Some(7));
    let b = ast.add_node(SExp::List(vec![a]), span, None);
    ast.set_root(b);
    ast.set(a, SExp::Keyword("k".to_string()), span);
    assert_eq!(ast.get_from_ts(7), Some(a));
    assert_eq!(asts.get(a).item.as_keyword(), Some("k"));
    assert_eq!(asts.get_ast(b).root_id(), Some(b));
    assert_eq!(a.generation(), 0);
    assert!(asts.maybe_get(None).is_none());
    assert!(asts.maybe_get(Some(b)).unwrap().item.as_list().is_some());
    let fresh = asts.new_ast();
    assert_eq!(fresh.generation(), 1);
    assert_eq!(asts.add_ast(fresh), 1);
    assert_eq!(asts.get_ast_by_generation(1).nodes().len(), 0);
    assert!(asts.get_ast_by_generation(0).spanned_root_id().is_some());
}
