use project_s::ast::{CstNode, SExpId, ASTS};
use project_s::patterns::{Pattern, PatternMap};
use project_s::source::{Point, Range, Sources};

fn range(start: usize, end: usize) -> Range {
    Range {
        start_byte: start,
        end_byte: end,
        start_point: Point { row: 0, column: start },
        end_point: Point { row: 0, column: end },
    }
}

fn leaf(id: usize, kind: &str, text: &str) -> CstNode {
    CstNode {
        id,
        kind: kind.to_string(),
        range: range(id, id + 1),
        text: Ok(text.to_string()),
        is_named: true,
        is_extra: false,
        children: vec![],
        inner: None,
    }
}

fn list(id: usize, children: Vec<CstNode>) -> CstNode {
    CstNode { kind: "list".to_string(), children, ..leaf(id, "list", "") }
}

/// Parses a source whose single top-level form is `form`, and returns the id of that form.
fn parse_form(asts: &mut ASTS, form: CstNode) -> SExpId {
    let (_sources, source_id) = Sources::single("p.s", "");
    let root = CstNode { kind: "source_file".to_string(), children: vec![form], ..leaf(0, "source_file", "") };
    let ast = asts.parse(source_id, &root).unwrap();
    let top = ast.root_id().unwrap();
    ast.get(top).item.as_list().unwrap()[1]
}

fn single_name(p: &Pattern) -> Option<&str> {
    match p {
        Pattern::Single(name, _, _) => Some(name.as_str()),
        _ => None,
    }
}

#[test]
fn holes_and_names() {
    let mut asts = ASTS::new();
    let id = parse_form(&mut asts, leaf(1, "symbol", "_"));
    assert!(matches!(Pattern::parse(id, &asts), Ok(Pattern::Hole(_, i)) if i == id));
    let mut asts = ASTS::new();
    let id = parse_form(&mut asts, leaf(1, "keyword", ":x"));
    assert_eq!(single_name(&Pattern::parse(id, &asts).unwrap()), Some("x"));
}

#[test]
fn lists_of_patterns() {
    let mut asts = ASTS::new();
    let id = parse_form(&mut asts, list(1, vec![leaf(2, "keyword", ":a"), leaf(3, "symbol", "_"), list(4, vec![])]));
    match Pattern::parse(id, &asts).unwrap() {
        Pattern::List(items, _, i) => {
            assert_eq!(i, id);
            assert_eq!(items.len(), 3);
            assert_eq!(single_name(&items[0]), Some("a"));
            assert!(matches!(items[1], Pattern::Hole(..)));
            assert!(matches!(&items[2], Pattern::List(inner, _, _) if inner.is_empty()));
        }
        _ => panic!("expected a list pattern"),
    }
}

#[test]
fn splice_patterns() {
    let mut asts = ASTS::new();
    let id = parse_form(&mut asts, list(1, vec![leaf(2, "symbol", "splice"), leaf(3, "keyword", ":rest")]));
    match Pattern::parse(id, &asts).unwrap() {
        Pattern::Splice(inner, _, _) => assert_eq!(single_name(&inner), Some("rest")),
        _ => panic!("expected a splice"),
    }
    let mut asts = ASTS::new();
    let id = parse_form(&mut asts, list(1, vec![leaf(2, "symbol", "splice")]));
    assert_eq!(Pattern::parse(id, &asts).err(), Some("Expected pattern after 'splice' keyword".to_string()));
}

#[test]
fn object_patterns() {
    // (obj/plain :a :b renamed :c (:d) :a)
    let mut asts = ASTS::new();
    let id = parse_form(
        &mut asts,
        list(
            1,
            vec![
                leaf(2, "symbol", "obj/plain"),
                leaf(3, "keyword", ":a"),
                leaf(4, "keyword", ":b"),
                leaf(5, "symbol", "renamed"),
                leaf(6, "keyword", ":c"),
                list(7, vec![leaf(8, "keyword", ":d")]),
                leaf(9, "keyword", ":a"),
            ],
        ),
    );
    match Pattern::parse(id, &asts).unwrap() {
        Pattern::Object(fields, _, _) => {
            assert_eq!(fields.len(), 3);
            let (name, first) = fields.get_index(0).unwrap();
            assert_eq!(name, "a");
            assert_eq!(single_name(first), Some("a"));
            assert_eq!(fields.get_index(1).unwrap().0, "b");
            assert_eq!(single_name(fields.get("b").unwrap()), Some("renamed"));
            assert!(matches!(fields.get("c").unwrap(), Pattern::List(items, _, _) if items.len() == 1));
            assert!(fields.get("renamed").is_none());
            assert!(fields.get_index(3).is_none());
        }
        _ => panic!("expected an object pattern"),
    }
}

#[test]
fn refused_patterns() {
    let mut asts = ASTS::new();
    let id = parse_form(&mut asts, leaf(1, "symbol", "x"));
    assert_eq!(Pattern::parse(id, &asts).err(), Some("Expected keyword or list, found: Symbol(\"x\")".to_string()));
    let mut asts = ASTS::new();
    let id = parse_form(&mut asts, leaf(1, "boolean", "true"));
    assert_eq!(Pattern::parse(id, &asts).err(), Some("Expected keyword or list, found: Bool(true)".to_string()));
    let mut asts = ASTS::new();
    let id = parse_form(&mut asts, list(1, vec![leaf(2, "symbol", "obj/plain"), list(3, vec![leaf(4, "symbol", "q")])]));
    assert_eq!(
        Pattern::parse(id, &asts).err(),
        Some("Expected keyword, found: List([Symbol(\"q\")])".to_string())
    );
    let mut asts = ASTS::new();
    let id = parse_form(&mut asts, list(1, vec![leaf(2, "keyword", ":ok"), leaf(3, "integer", "12")]));
    assert_eq!(Pattern::parse(id, &asts).err(), Some("Expected keyword or list, found: Number(12)".to_string()));
}

#[test]
fn pattern_maps_keep_first_places() {
    let mut asts = ASTS::new();
    let id = parse_form(&mut asts, leaf(1, "symbol", "_"));
    let mut m = PatternMap::new();
    m.insert("x".to_string(), Pattern::parse(id, &asts).unwrap());
    m.insert("y".to_string(), Pattern::parse(id, &asts).unwrap());
    m.insert("x".to_string(), Pattern::parse(id, &asts).unwrap());
    assert_eq!(m.len(), 2);
    assert_eq!(m.get_index(0).unwrap().0, "x");
    assert_eq!(m.get_index(1).unwrap().0, "y");
}
