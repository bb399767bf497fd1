use project_s::lsp::place_diagnostic;
use project_s::source::{Point, Range};
use project_s::modules::FileModules;
use project_s::api::{
    assert_arity, assert_at_least_arity, has_arity, has_at_least_arity, EagerRec, FnLike, Keyword, Overloaded,
    Rest, WithParams,
};
use project_s::cst::{Node, TreeSitterError};
use project_s::diagnostics::Diagnostics;
use project_s::graph::Graphs;
use project_s::level_from_args;
use project_s::modules::{MemoryModules, ModuleProvider};
use project_s::source::{default_range, Sources, Span, Spanned};
use project_s::test_utils::Level;
use project_s::text::{concat2, usize_to_string};

#[test]
fn sources_hand_out_ids_in_order() {
    let mut sources = Sources::new();
    let a = sources.add("a.s", "(a)");
    let b = sources.add("b.s", "(b)");
    assert_eq!(a.raw(), 0);
    assert_eq!(b.raw(), 1);
    assert_eq!(sources.get(b).filename, "b.s");
    assert_eq!(sources.get(a).source, "(a)");
    assert_eq!(sources.len(), 2);
    let listed: Vec<String> = sources.iter().iter().map(|s| s.filename.clone()).collect();
    assert_eq!(listed, vec!["a.s".to_string(), "b.s".to_string()]);
    let with_ids = sources.iter_with_id();
    assert_eq!(with_ids[1].0, b);
    assert_eq!(with_ids[1].1.source, "(b)");
    assert!(b.below(2));
    assert!(!b.below(1));
}

#[test]
fn spans_and_spanned_values() {
    let (_sources, id) = Sources::single("main.s", "x");
    let span = Span::new_empty(id);
    assert_eq!(span.range, default_range());
    assert_eq!(Span::new(default_range(), id), span);
    let s = Spanned::new(3, span);
    assert_eq!(*s.get(), 3);
    let doubled = s.map(|x: i32| x * 2);
    assert_eq!(doubled.item, 6);
    assert_eq!(doubled.span, span);
    assert_eq!(doubled.inner(), 6);
    assert_eq!(Spanned::new(Some(1), span).transpose().map(|s| s.item), Some(1));
    assert!(Spanned::new(None::<i32>, span).transpose().is_none());
}

#[test]
fn memory_modules_find_the_last_module_of_a_path() {
    let mut modules = MemoryModules::new();
    let first = modules.add_module("lib/a", "(a)");
    assert_eq!(modules.find("lib/a"), Some(first));
    let second = modules.add_module("lib/a", "(b)");
    assert_eq!(modules.get_module("lib/a"), Some(second));
    assert_eq!(modules.get_module("lib/b"), None);
    assert_eq!(modules.get_source(first).unwrap().source, "(a)");
    assert_eq!(modules.sources().len(), 2);
    let (_other, far) = {
        let mut s = Sources::new();
        s.add("x", "");
        s.add("y", "");
        let id = s.add("z", "");
        (s, id)
    };
    assert!(modules.get_source(far).is_none());
    modules.sources_mut().add("extra.s", "");
    assert_eq!(modules.sources().len(), 3);
}

#[test]
fn diagnostics_collect_messages() {
    let (_sources, id) = Sources::single("main.s", "");
    let span = Span::new_empty(id);
    let mut d = Diagnostics::new();
    assert!(!d.has_errors());
    d.add(span, "first".to_string());
    d.add_with_extras(span, "second".to_string(), ("note".to_string(), Some(span)), ("other".to_string(), None));
    assert!(d.has_errors());
    assert_eq!(d.diags.len(), 2);
    assert_eq!(d.diags[1].extras[1].message, "other");
    d.diags[0].add_extra("more".to_string(), None);
    assert_eq!(d.diags[0].extras.len(), 1);
}

#[test]
fn graphs_hand_out_node_ids() {
    let mut graphs: Graphs<&str> = Graphs::new();
    let mut g = graphs.new_graph();
    let a = g.add("a");
    let b = g.add("b");
    assert_eq!(*g.get(a), "a");
    *g.get_mut(b) = "bee";
    assert_eq!(*g.get_ref(b).get(), "bee");
    graphs.update_graph(g);
    let mut h = graphs.new_graph();
    let c = h.add("c");
    assert_eq!(*h.get(c), "c");
    graphs.update_graph(h);
}

#[test]
fn arity_checks() {
    assert!(has_arity(2, &[1, 2]));
    assert!(has_at_least_arity(1, &[1, 2]));
    assert_eq!(assert_arity(3, &[1, 2]), Err("Expected 3 arguments, got 2".to_string()));
    assert_eq!(assert_at_least_arity(3, &[1]), Err("Expected at least 3 arguments, got 1".to_string()));
    assert_eq!(assert_arity(2, &[1, 2]), Ok(()));
    let rest = Rest::new(vec![1, 2, 3]);
    assert_eq!(rest.len(), 3);
    let (first, tail) = rest.with_arity_and_rest::<1>().unwrap();
    assert_eq!(first, vec![1]);
    assert_eq!(tail.into_vec(), vec![2, 3]);
    assert_eq!(Rest::new(vec![1]).with_arity::<2>(), Err("Expected 2 arguments, got 1".to_string()));
    assert_eq!(Rest::new(vec![1]).with_arity_and_rest::<2>().err(), Some("Expected at least 2 arguments, got 1".to_string()));
    assert_eq!(Rest::new(vec![4, 5]).with_arity::<2>(), Ok(vec![4, 5]));
}

#[test]
fn named_native_functions() {
    let mut o = Overloaded::new((1, 2));
    o.set_name("plus");
    let f = FnLike::<fn(i32) -> i32, WithParams>::box_new(|x| x + 1);
    let named = f.with_name("inc");
    let _ = (named, EagerRec::<i32, WithParams>::new(3), Keyword("k".to_string()));
}

#[test]
fn log_level_from_flags() {
    assert_eq!(level_from_args(&[]), Level::Info);
    assert_eq!(level_from_args(&["lazy", "warn"]), Level::Warn);
    assert_eq!(level_from_args(&["error", "debug"]), Level::Debug);
    assert_eq!(level_from_args(&["trace", "error"]), Level::Trace);
    assert_eq!(level_from_args(&["verbose"]), Level::Info);
}

#[test]
fn decimal_text() {
    assert_eq!(usize_to_string(0), "0");
    assert_eq!(usize_to_string(1234567890), "1234567890");
    assert_eq!(concat2("ab", "cd"), "abcd");
}

#[test]
fn concrete_tree_handles() {
    let n = Node(3, 1);
    assert_eq!(n, Node(3, 1));
    let e = TreeSitterError("Failed to parse input".to_string());
    assert_eq!(e.0, "Failed to parse input");
}

#[test]
fn diagnostics_print_one_line_each() {
    let mut sources = Sources::new();
    let a = sources.add("a.s", "(x)");
    let b = sources.add("b.s", "(y)");
    let mut d = Diagnostics::new();
    d.add(Span::new_empty(a), "first".to_string());
    d.add(Span::new_empty(b), "second".to_string());
    assert_eq!(d.print(&sources), "a.s: first\nb.s: second\n");
    assert_eq!(Diagnostics::new().print(&sources), "");
}

#[test]
fn diagnostics_of_other_files_are_placed_by_their_notes() {
    let mut sources = Sources::new();
    let here = sources.add("main.s", "");
    let there = sources.add("lib.s", "");
    let r = |a: usize| Range {
        start_byte: a,
        end_byte: a + 1,
        start_point: Point { row: a, column: 0 },
        end_point: Point { row: a, column: 1 },
    };
    let mut d = Diagnostics::new();
    d.add_with_extras(
        Span::new(r(1), there),
        "Incompatible types".to_string(),
        ("Expected number".to_string(), Some(Span::new(r(2), there))),
        ("But got bool".to_string(), Some(Span::new(r(3), here))),
    );
    d.diags[0].add_extra("note".to_string(), None);
    d.diags[0].add_extra("again".to_string(), Some(Span::new(r(4), here)));
    let (range, message) = place_diagnostic(&d.diags[0], here);
    assert_eq!(range, r(3));
    assert_eq!(message, "Incompatible types\nExpected number");
    let (range, message) = place_diagnostic(&d.diags[0], there);
    assert_eq!(range, r(1));
    assert_eq!(message, "Incompatible types");
}

#[test]
fn file_modules_record_loaded_files() {
    let mut sources = Sources::new();
    let main = sources.add("main.s", "(import lib)");
    let mut modules = FileModules::from_sources(sources);
    assert_eq!(modules.find("main.s"), Some(main));
    assert_eq!(modules.find("lib.s"), None);
    let lib = modules.record("lib.s", "(def x 1)");
    assert_eq!(modules.find("lib.s"), Some(lib));
    assert_eq!(modules.get_source(lib).unwrap().source, "(def x 1)");
    assert_eq!(modules.sources().len(), 2);
    modules.sources_mut().add("other.s", "");
    assert_eq!(modules.sources().len(), 3);
}
