//! Patterns that take values apart: a hole, a name, a list of patterns, a
//! spliced rest, or an object whose fields go to patterns by name.
use crate::ast::{items_of, points_back, SExp, SExpId, SExpView, ASTS};
use crate::source::Span;
use crate::text::concat2;
use indexmap::IndexMap;
use vstd::prelude::*;

verus! {

/// The sub-patterns of an object pattern, by field name, in the order the names
/// first came: an `indexmap::IndexMap<String, Pattern>`. The map is held here,
/// out of the verifier's sight, because a pattern holds such maps of patterns and
/// the verifier refuses a type that contains itself through a declared outside type.
#[verifier::external_body]
pub struct PatternMap {
    map: IndexMap<String, Pattern>,
}

/// The entries of a map of sub-patterns, in the map's order: each field name
/// with its pattern. The wrappers below say what `IndexMap` does to them.
pub uninterp spec fn pattern_entries(m: PatternMap) -> Seq<(Seq<char>, Pattern)>;

/// The position of the first entry for `key`.
pub open spec fn entry_index<P>(entries: Seq<(Seq<char>, P)>, key: Seq<char>) -> Option<int>
    decreases entries.len(),
{
    if entries.len() == 0 {
        None
    } else {
        match entry_index(entries.drop_last(), key) {
            Some(j) => Some(j),
            None => if entries.last().0 == key {
                Some(entries.len() - 1)
            } else {
                None
            },
        }
    }
}

/// The entries after `key` is given `value`: an entry for `key` keeps its place
/// and takes the new value; otherwise the new entry goes last.
pub open spec fn entries_insert<P>(entries: Seq<(Seq<char>, P)>, key: Seq<char>, value: P) -> Seq<(Seq<char>, P)> {
    match entry_index(entries, key) {
        Some(j) => entries.update(j, (key, value)),
        None => entries.push((key, value)),
    }
}

/// `IndexMap::new`: an empty map.
#[verifier::external_body]
fn index_map_new() -> (res: PatternMap)
    ensures
        pattern_entries(res) == Seq::<(Seq<char>, Pattern)>::empty(),
{
    PatternMap { map: IndexMap::new() }
}

/// `IndexMap::insert`: an entry for `key` keeps its place in the order and takes
/// `value`; without one, the new entry goes last. The value replaced is dropped.
#[verifier::external_body]
fn index_map_insert(m: &mut PatternMap, key: String, value: Pattern)
    ensures
        pattern_entries(*final(m)) == entries_insert(pattern_entries(*old(m)), key@, value),
{
    m.map.insert(key, value);
}

/// `IndexMap::get`: the pattern of the entry for `key`, if there is one.
#[verifier::external_body]
fn index_map_get<'a>(m: &'a PatternMap, key: &str) -> (res: Option<&'a Pattern>)
    ensures
        match entry_index(pattern_entries(*m), key@) {
            Some(j) => res matches Some(p) && *p == pattern_entries(*m)[j].1,
            None => res is None,
        },
{
    m.map.get(key)
}

/// `IndexMap::len`: the number of entries.
#[verifier::external_body]
fn index_map_len(m: &PatternMap) -> (res: usize)
    ensures
        res == pattern_entries(*m).len(),
{
    m.map.len()
}

/// `IndexMap::get_index`: the entry at position `i`, if there is one.
#[verifier::external_body]
fn index_map_get_index<'a>(m: &'a PatternMap, i: usize) -> (res: Option<(&'a String, &'a Pattern)>)
    ensures
        match res {
            Some(e) => i < pattern_entries(*m).len() && e.0@ == pattern_entries(*m)[i as int].0 && *e.1 == pattern_entries(*m)[i as int].1,
            None => i >= pattern_entries(*m).len(),
        },
{
    m.map.get_index(i)
}

impl PatternMap {
    /// No entry.
    pub fn new() -> (res: Self)
        ensures
            pattern_entries(res) == Seq::<(Seq<char>, Pattern)>::empty(),
    {
        index_map_new()
    }

    /// Gives `key` the pattern `value`, in the place of an entry for it.
    pub fn insert(&mut self, key: String, value: Pattern)
        ensures
            pattern_entries(*final(self)) == entries_insert(pattern_entries(*old(self)), key@, value),
    {
        index_map_insert(self, key, value)
    }

    /// The pattern of the entry for `key`.
    pub fn get(&self, key: &str) -> (res: Option<&Pattern>)
        ensures
            match entry_index(pattern_entries(*self), key@) {
                Some(j) => res matches Some(p) && *p == pattern_entries(*self)[j].1,
                None => res is None,
            },
    {
        index_map_get(self, key)
    }

    /// The number of entries.
    pub fn len(&self) -> (res: usize)
        ensures
            res == pattern_entries(*self).len(),
    {
        index_map_len(self)
    }

    /// The entry at position `i`: its field name and its pattern.
    pub fn get_index(&self, i: usize) -> (res: Option<(&str, &Pattern)>)
        ensures
            match res {
                Some(e) => i < pattern_entries(*self).len() && e.0@ == pattern_entries(*self)[i as int].0 && *e.1
                    == pattern_entries(*self)[i as int].1,
                None => i >= pattern_entries(*self).len(),
            },
    {
        match index_map_get_index(self, i) {
            Some((k, p)) => Some((k.as_str(), p)),
            None => None,
        }
    }
}

/// A pattern, with the span and the S-expression it was read from.
pub enum Pattern {
    Hole(Span, SExpId),
    Single(String, Span, SExpId),
    Splice(Box<Pattern>, Span, SExpId),
    List(Vec<Pattern>, Span, SExpId),
    Object(PatternMap, Span, SExpId),
}

/// A pattern as plain values.
pub enum PatternView {
    Hole(Span, SExpId),
    Single(Seq<char>, Span, SExpId),
    Splice(Box<PatternView>, Span, SExpId),
    List(Seq<PatternView>, Span, SExpId),
    Object(Seq<(Seq<char>, PatternView)>, Span, SExpId),
}

/// The pattern `p` is the plain pattern `v`.
pub open spec fn models(p: Pattern, v: PatternView) -> bool
    decreases v,
{
    match v {
        PatternView::Hole(s, i) => p == Pattern::Hole(s, i),
        PatternView::Single(n, s, i) => p matches Pattern::Single(n2, s2, i2) && n2@ == n && s2 == s && i2 == i,
        PatternView::Splice(bv, s, i) => p matches Pattern::Splice(b, s2, i2) && s2 == s && i2 == i && models(*b, *bv),
        PatternView::List(vs, s, i) => p matches Pattern::List(ps, s2, i2) && s2 == s && i2 == i && ps@.len() == vs.len()
            && forall|k: int| 0 <= k < vs.len() ==> models(#[trigger] ps@[k], vs[k]),
        PatternView::Object(es, s, i) => p matches Pattern::Object(m, s2, i2) && s2 == s && i2 == i && pattern_entries(
            m,
        ).len() == es.len() && forall|k: int|
            0 <= k < es.len() ==> (#[trigger] pattern_entries(m)[k]).0 == es[k].0 && models(pattern_entries(m)[k].1, es[k].1),
    }
}

/// The entries `ps` are the plain entries `vs`, one for one.
pub open spec fn models_entries(ps: Seq<(Seq<char>, Pattern)>, vs: Seq<(Seq<char>, PatternView)>) -> bool {
    &&& ps.len() == vs.len()
    &&& forall|k: int| 0 <= k < vs.len() ==> (#[trigger] ps[k]).0 == vs[k].0 && models(ps[k].1, vs[k].1)
}

/// Entries that match keep matching after the same key gets matching values.
proof fn lemma_entries_insert(
    ps: Seq<(Seq<char>, Pattern)>,
    vs: Seq<(Seq<char>, PatternView)>,
    key: Seq<char>,
    p: Pattern,
    v: PatternView,
)
    requires
        models_entries(ps, vs),
        models(p, v),
    ensures
        models_entries(entries_insert(ps, key, p), entries_insert(vs, key, v)),
{
    lemma_entry_index_same(ps, vs, key);
}

/// Entries with the same names have their first entry for a key at the same place.
proof fn lemma_entry_index_same<A, B>(ps: Seq<(Seq<char>, A)>, vs: Seq<(Seq<char>, B)>, key: Seq<char>)
    requires
        ps.len() == vs.len(),
        forall|k: int| 0 <= k < vs.len() ==> (#[trigger] ps[k]).0 == vs[k].0,
    ensures
        entry_index(ps, key) == entry_index(vs, key),
        entry_index(ps, key) matches Some(j) ==> 0 <= j < ps.len(),
    decreases ps.len(),
{
    if ps.len() > 0 {
        lemma_entry_index_same(ps.drop_last(), vs.drop_last(), key);
        assert(ps.last().0 == vs.last().0);
    }
}

/// The S-expression `id` with its span.
pub open spec fn node_at(asts: ASTS, id: SExpId) -> (SExpView, Span) {
    asts.arenas()[id.gen()].node_views()[id.index() as int]
}

/// Ranks that decrease from each list of the store to its items, all of which
/// the store holds.
pub open spec fn ranked(asts: ASTS, rk: spec_fn(SExpId) -> nat) -> bool {
    forall|id: SExpId, k: int|
        #![trigger asts.contains(id), items_of(node_at(asts, id).0)[k]]
        asts.contains(id) && 0 <= k < items_of(node_at(asts, id).0).len() ==> asts.contains(
            items_of(node_at(asts, id).0)[k],
        ) && rk(items_of(node_at(asts, id).0)[k]) < rk(id)
}

/// No list of the store holds itself, directly or through other lists, and the
/// store holds every item of its lists.
pub open spec fn acyclic(asts: ASTS) -> bool {
    exists|rk: spec_fn(SExpId) -> nat| #[trigger] ranked(asts, rk)
}

/// How deep the lists below `id` go, by one ranking of the store.
pub open spec fn rank(asts: ASTS, id: SExpId) -> nat {
    (choose|rk: spec_fn(SExpId) -> nat| #[trigger] ranked(asts, rk))(id)
}

/// One more than the largest rank among `items`, or zero.
pub open spec fn max_rank(asts: ASTS, items: Seq<SExpId>) -> nat
    decreases items.len(),
{
    if items.len() == 0 {
        0
    } else {
        let m = max_rank(asts, items.drop_last());
        let i = rank(asts, items.last()) + 1;
        if i > m {
            i
        } else {
            m
        }
    }
}

proof fn lemma_max_rank(asts: ASTS, items: Seq<SExpId>)
    ensures
        forall|k: int| 0 <= k < items.len() ==> rank(asts, #[trigger] items[k]) < max_rank(asts, items),
    decreases items.len(),
{
    if items.len() > 0 {
        lemma_max_rank(asts, items.drop_last());
        assert forall|k: int| 0 <= k < items.len() implies rank(asts, #[trigger] items[k]) < max_rank(asts, items) by {
            if k < items.len() - 1 {
                assert(items[k] == items.drop_last()[k]);
            }
        }
    }
}

/// An ordered store, whose lists list entries of the same arena that come
/// before them, is acyclic: the index of an entry ranks it.
pub proof fn lemma_ordered_acyclic(asts: ASTS)
    requires
        asts.ordered(),
    ensures
        acyclic(asts),
{
    let rk = |id: SExpId| id.index();
    assert forall|id: SExpId, k: int|
        asts.contains(id) && 0 <= k < items_of(node_at(asts, id).0).len() implies asts.contains(
        #[trigger] items_of(node_at(asts, id).0)[k],
    ) && rk(items_of(node_at(asts, id).0)[k]) < rk(id) by {
        let views = asts.arenas()[id.gen()].node_views();
        assert(points_back(views, id.gen()));
        assert(items_of(node_at(asts, id).0)[k] == items_of(views[id.index() as int].0)[k]);
    }
    assert(ranked(asts, rk));
}

/// The lists of an acyclic store list S-expressions of the store of smaller rank.
pub proof fn lemma_items_below(asts: ASTS, id: SExpId)
    requires
        acyclic(asts),
        asts.contains(id),
    ensures
        max_rank(asts, items_of(node_at(asts, id).0)) <= rank(asts, id),
        forall|k: int|
            0 <= k < items_of(node_at(asts, id).0).len() ==> {
                &&& asts.contains(#[trigger] items_of(node_at(asts, id).0)[k])
                &&& rank(asts, items_of(node_at(asts, id).0)[k]) < rank(asts, id)
            },
{
    let items = items_of(node_at(asts, id).0);
    let rk = choose|rk: spec_fn(SExpId) -> nat| #[trigger] ranked(asts, rk);
    assert(ranked(asts, rk));
    assert forall|k: int| 0 <= k < items.len() implies {
        &&& asts.contains(#[trigger] items[k])
        &&& rank(asts, items[k]) < rank(asts, id)
    } by {
        assert(asts.contains(id) && 0 <= k < items_of(node_at(asts, id).0).len());
    }
    lemma_max_below(asts, items, rank(asts, id));
}

proof fn lemma_max_below(asts: ASTS, items: Seq<SExpId>, bound: nat)
    requires
        forall|k: int| 0 <= k < items.len() ==> rank(asts, #[trigger] items[k]) < bound,
    ensures
        max_rank(asts, items) <= bound,
    decreases items.len(),
{
    if items.len() > 0 {
        assert forall|k: int| 0 <= k < items.drop_last().len() implies rank(asts, #[trigger] items.drop_last()[k]) < bound by {
            assert(items.drop_last()[k] == items[k]);
        }
        lemma_max_below(asts, items.drop_last(), bound);
        assert(rank(asts, items[items.len() - 1]) < bound);
    }
}

/// What std's `Debug` for `str` shows of a text: the text in double quotes,
/// with the characters that need it escaped. Only its name is used here: it
/// depends on the text alone.
pub uninterp spec fn str_debug(s: Seq<char>) -> Seq<char>;

/// The text of `s` as std's `Debug` for `str` (`format!("{:?}", s)`) shows it;
/// its result is named by `str_debug`, and nothing more is claimed of it.
#[verifier::external_body]
pub(crate) fn debug_str(s: &str) -> (res: String)
    ensures
        res@ == str_debug(s@),
{
    format!("{:?}", s)
}

/// How an S-expression that is not a list is shown in messages: its kind and
/// its value, a number by the text it was written with.
pub open spec fn atom_debug(v: SExpView) -> Seq<char> {
    match v {
        SExpView::Number(t) => "Number("@ + t + ")"@,
        SExpView::String(s) => "String("@ + str_debug(s) + ")"@,
        SExpView::Bool(b) => "Bool("@ + (if b {
            "true"@
        } else {
            "false"@
        }) + ")"@,
        SExpView::Symbol(s) => "Symbol("@ + str_debug(s) + ")"@,
        SExpView::Keyword(s) => "Keyword("@ + str_debug(s) + ")"@,
        SExpView::List(_) => "List"@,
        SExpView::Error => "Error"@,
    }
}

/// How the S-expression `id` is shown in messages: a list as `List([..])` with
/// its items shown the same way, separated by a comma and a space.
pub open spec fn sexp_debug(asts: ASTS, id: SExpId) -> Seq<char>
    decreases rank(asts, id), 1nat, 0nat,
{
    match node_at(asts, id).0 {
        SExpView::List(items) => "List(["@ + items_debug(asts, items, rank(asts, id)) + "])"@,
        v => atom_debug(v),
    }
}

/// The items shown as in `sexp_debug`, separated by a comma and a space; only
/// items below `bound` are looked into.
pub open spec fn items_debug(asts: ASTS, items: Seq<SExpId>, bound: nat) -> Seq<char>
    decreases bound, 0nat, items.len(),
{
    if items.len() == 0 {
        Seq::empty()
    } else {
        let last = items.last();
        let shown = if rank(asts, last) < bound {
            sexp_debug(asts, last)
        } else {
            Seq::empty()
        };
        if items.len() == 1 {
            shown
        } else {
            items_debug(asts, items.drop_last(), bound) + ", "@ + shown
        }
    }
}

/// How an S-expression that is not a list is shown in messages.
fn atom_text(e: &SExp) -> (res: String)
    ensures
        res@ == atom_debug(e@),
{
    match e {
        SExp::Number(t) => {
            let mut out = String::from_str("Number(");
            out.append(t.as_str());
            out.append(")");
            out
        },
        SExp::String(s) => {
            let mut out = String::from_str("String(");
            out.append(debug_str(s.as_str()).as_str());
            out.append(")");
            out
        },
        SExp::Bool(b) => {
            let mut out = String::from_str("Bool(");
            if *b {
                out.append("true");
            } else {
                out.append("false");
            }
            out.append(")");
            out
        },
        SExp::Symbol(s) => {
            let mut out = String::from_str("Symbol(");
            out.append(debug_str(s.as_str()).as_str());
            out.append(")");
            out
        },
        SExp::Keyword(s) => {
            let mut out = String::from_str("Keyword(");
            out.append(debug_str(s.as_str()).as_str());
            out.append(")");
            out
        },
        SExp::List(_) => String::from_str("List"),
        SExp::Error => String::from_str("Error"),
    }
}

/// How the S-expression `id` is shown in messages.
pub fn debug_text(asts: &ASTS, id: SExpId) -> (res: String)
    requires
        acyclic(*asts),
        asts.contains(id),
    ensures
        res@ == sexp_debug(*asts, id),
    decreases rank(*asts, id),
{
    let e = asts.get(id);
    match &e.item {
        SExp::List(items) => {
            proof {
                lemma_items_below(*asts, id);
            }
            let mut out = String::from_str("List([");
            let ghost start = out@;
            let n = items.len();
            let mut inner = String::new();
            assert(items@.take(0) =~= Seq::<SExpId>::empty());
            for i in 0..n
                invariant
                    n == items@.len(),
                    acyclic(*asts),
                    items@ == items_of(node_at(*asts, id).0),
                    forall|k: int| 0 <= k < items@.len() ==> {
                        &&& asts.contains(#[trigger] items@[k])
                        &&& rank(*asts, items@[k]) < rank(*asts, id)
                    },
                    inner@ == items_debug(*asts, items@.take(i as int), rank(*asts, id)),
            {
                proof {
                    assert(items@.take(i + 1).drop_last() =~= items@.take(i as int));
                    assert(items@.take(i + 1).last() == items@[i as int]);
                }
                let shown = debug_text(asts, items[i]);
                if i > 0 {
                    inner.append(", ");
                }
                inner.append(shown.as_str());
            }
            assert(items@.take(n as int) =~= items@);
            out.append(inner.as_str());
            out.append("])");
            out
        },
        _ => atom_text(&e.item),
    }
}

/// Whether the S-expression `id` is the symbol `name`.
pub open spec fn is_symbol_named(asts: ASTS, id: SExpId, name: Seq<char>) -> bool {
    node_at(asts, id).0 == SExpView::Symbol(name)
}

/// The pattern the S-expression `id` reads as: `_` is a hole, a keyword a name,
/// a list as `parse_list_spec` says; anything else is refused.
pub open spec fn parse_pattern(asts: ASTS, id: SExpId) -> Result<PatternView, Seq<char>>
    decreases rank(asts, id), 2nat, 0int,
{
    let v = node_at(asts, id).0;
    let span = node_at(asts, id).1;
    match v {
        SExpView::Symbol(s) => if s == "_"@ {
            Ok(PatternView::Hole(span, id))
        } else {
            Err("Expected keyword or list, found: "@ + atom_debug(v))
        },
        SExpView::Keyword(k) => Ok(PatternView::Single(k, span, id)),
        SExpView::List(items) => if max_rank(asts, items) <= rank(asts, id) {
            parse_list_spec(asts, items, span, id)
        } else {
            Err(Seq::empty())
        },
        _ => Err("Expected keyword or list, found: "@ + atom_debug(v)),
    }
}

/// The pattern a list reads as: the empty list an empty list pattern; a list
/// that starts with `obj/plain` an object pattern; one that starts with `splice`
/// the splice of the pattern after it; any other the list of the patterns of
/// all its items.
pub open spec fn parse_list_spec(asts: ASTS, items: Seq<SExpId>, span: Span, id: SExpId) -> Result<
    PatternView,
    Seq<char>,
>
    decreases max_rank(asts, items), 1nat, 0int,
{
    if items.len() == 0 {
        Ok(PatternView::List(Seq::empty(), span, id))
    } else if is_symbol_named(asts, items[0], "obj/plain"@) {
        match parse_object(asts, items, 1, Seq::empty(), max_rank(asts, items)) {
            Ok(es) => Ok(PatternView::Object(es, span, id)),
            Err(e) => Err(e),
        }
    } else if is_symbol_named(asts, items[0], "splice"@) {
        if items.len() < 2 {
            Err("Expected pattern after 'splice' keyword"@)
        } else if rank(asts, items[1]) < max_rank(asts, items) {
            match parse_pattern(asts, items[1]) {
                Ok(p) => Ok(PatternView::Splice(Box::new(p), span, id)),
                Err(e) => Err(e),
            }
        } else {
            Err(Seq::empty())
        }
    } else {
        match parse_all(asts, items, max_rank(asts, items)) {
            Ok(ps) => Ok(PatternView::List(ps, span, id)),
            Err(e) => Err(e),
        }
    }
}

/// The fields of an object pattern read from `items[i..]` after `entries`: each
/// keyword names a field; a symbol after it renames the field, another
/// keyword (or nothing) leaves the field under its own name, and anything else
/// after it is the field's pattern.
pub open spec fn parse_object(
    asts: ASTS,
    items: Seq<SExpId>,
    i: nat,
    entries: Seq<(Seq<char>, PatternView)>,
    bound: nat,
) -> Result<Seq<(Seq<char>, PatternView)>, Seq<char>>
    decreases bound, 0nat, items.len() - i,
{
    if i >= items.len() {
        Ok(entries)
    } else {
        let key_id = items[i as int];
        let kspan = node_at(asts, key_id).1;
        match node_at(asts, key_id).0 {
            SExpView::Keyword(key) => if i + 1 < items.len() {
                let next = items[i + 1 as int];
                let nspan = node_at(asts, next).1;
                match node_at(asts, next).0 {
                    SExpView::Symbol(renamed) => parse_object(
                        asts,
                        items,
                        i + 2,
                        entries_insert(entries, key, PatternView::Single(renamed, nspan, key_id)),
                        bound,
                    ),
                    SExpView::Keyword(_) => parse_object(
                        asts,
                        items,
                        i + 1,
                        entries_insert(entries, key, PatternView::Single(key, kspan, key_id)),
                        bound,
                    ),
                    _ => if rank(asts, next) < bound {
                        match parse_pattern(asts, next) {
                            Err(e) => Err(e),
                            Ok(p) => parse_object(asts, items, i + 2, entries_insert(entries, key, p), bound),
                        }
                    } else {
                        Err(Seq::empty())
                    },
                }
            } else {
                parse_object(
                    asts,
                    items,
                    i + 1,
                    entries_insert(entries, key, PatternView::Single(key, kspan, key_id)),
                    bound,
                )
            },
            _ => Err("Expected keyword, found: "@ + sexp_debug(asts, key_id)),
        }
    }
}

/// Whether `entries` has a field named `key`.
pub open spec fn has_key<P>(entries: Seq<(Seq<char>, P)>, key: Seq<char>) -> bool {
    exists|j: int| 0 <= j < entries.len() && (#[trigger] entries[j]).0 == key
}

/// Whether `entries` has a field named `key` bound to `value`.
pub open spec fn has_field<P>(entries: Seq<(Seq<char>, P)>, key: Seq<char>, value: P) -> bool {
    exists|j: int| 0 <= j < entries.len() && #[trigger] entries[j] == (key, value)
}

/// The first entry for a key has that key.
proof fn lemma_entry_index_key<P>(entries: Seq<(Seq<char>, P)>, key: Seq<char>)
    ensures
        entry_index(entries, key) matches Some(j) ==> 0 <= j < entries.len() && entries[j].0 == key,
    decreases entries.len(),
{
    if entries.len() > 0 {
        lemma_entry_index_key(entries.drop_last(), key);
    }
}

/// Setting a field binds it and keeps every field there was.
proof fn lemma_insert_fields<P>(entries: Seq<(Seq<char>, P)>, key: Seq<char>, value: P)
    ensures
        has_field(entries_insert(entries, key, value), key, value),
        forall|k: Seq<char>| #[trigger] has_key(entries, k) ==> has_key(entries_insert(entries, key, value), k),
{
    lemma_entry_index_key(entries, key);
    let r = entries_insert(entries, key, value);
    match entry_index(entries, key) {
        Some(j) => {
            assert(r[j] == (key, value));
            assert forall|k: Seq<char>| #[trigger] has_key(entries, k) implies has_key(r, k) by {
                let m = choose|m: int| 0 <= m < entries.len() && (#[trigger] entries[m]).0 == k;
                assert(r[m].0 == k);
            }
        },
        None => {
            assert(r[entries.len() as int] == (key, value));
            assert forall|k: Seq<char>| #[trigger] has_key(entries, k) implies has_key(r, k) by {
                let m = choose|m: int| 0 <= m < entries.len() && (#[trigger] entries[m]).0 == k;
                assert(r[m] == entries[m]);
            }
        },
    }
}

/// Reading the fields of an object pattern from position `i` loses no field
/// read before, makes the keyword at position `i` a field, and binds a keyword
/// that ends the list to the name pattern of that keyword.
pub proof fn law_object_fields(
    asts: ASTS,
    items: Seq<SExpId>,
    i: nat,
    entries: Seq<(Seq<char>, PatternView)>,
    bound: nat,
)
    requires
        parse_object(asts, items, i, entries, bound) is Ok,
    ensures
        forall|k: Seq<char>|
            #[trigger] has_key(entries, k) ==> has_key(parse_object(asts, items, i, entries, bound)->Ok_0, k),
        i < items.len() ==> (node_at(asts, items[i as int]).0 matches SExpView::Keyword(k) ==> has_key(
            parse_object(asts, items, i, entries, bound)->Ok_0,
            k,
        )),
        i < items.len() ==> (node_at(asts, items.last()).0 matches SExpView::Keyword(k) ==> has_field(
            parse_object(asts, items, i, entries, bound)->Ok_0,
            k,
            PatternView::Single(k, node_at(asts, items.last()).1, items.last()),
        )),
    decreases items.len() - i,
{
    if i < items.len() {
        let key_id = items[i as int];
        let kspan = node_at(asts, key_id).1;
        match node_at(asts, key_id).0 {
            SExpView::Keyword(key) => {
                if i + 1 < items.len() {
                    let next = items[i + 1 as int];
                    let nspan = node_at(asts, next).1;
                    match node_at(asts, next).0 {
                        SExpView::Symbol(renamed) => {
                            let e2 = entries_insert(entries, key, PatternView::Single(renamed, nspan, key_id));
                            lemma_insert_fields(entries, key, PatternView::Single(renamed, nspan, key_id));
                            assert(has_key(e2, key)) by {
                                let j = choose|j: int| 0 <= j < e2.len() && #[trigger] e2[j] == (key, PatternView::Single(renamed, nspan, key_id));
                                assert(e2[j].0 == key);
                            }
                            law_object_fields(asts, items, i + 2, e2, bound);
                        },
                        SExpView::Keyword(_) => {
                            let e2 = entries_insert(entries, key, PatternView::Single(key, kspan, key_id));
                            lemma_insert_fields(entries, key, PatternView::Single(key, kspan, key_id));
                            assert(has_key(e2, key)) by {
                                let j = choose|j: int| 0 <= j < e2.len() && #[trigger] e2[j] == (key, PatternView::Single(key, kspan, key_id));
                                assert(e2[j].0 == key);
                            }
                            law_object_fields(asts, items, i + 1, e2, bound);
                        },
                        _ => {
                            let p = parse_pattern(asts, next)->Ok_0;
                            let e2 = entries_insert(entries, key, p);
                            lemma_insert_fields(entries, key, p);
                            assert(has_key(e2, key)) by {
                                let j = choose|j: int| 0 <= j < e2.len() && #[trigger] e2[j] == (key, p);
                                assert(e2[j].0 == key);
                            }
                            law_object_fields(asts, items, i + 2, e2, bound);
                        },
                    }
                } else {
                    let e2 = entries_insert(entries, key, PatternView::Single(key, kspan, key_id));
                    lemma_insert_fields(entries, key, PatternView::Single(key, kspan, key_id));
                    assert(has_key(e2, key)) by {
                        let j = choose|j: int| 0 <= j < e2.len() && #[trigger] e2[j] == (key, PatternView::Single(key, kspan, key_id));
                        assert(e2[j].0 == key);
                    }
                    assert(items.last() == key_id);
                }
            },
            _ => {},
        }
    }
}

/// In an object pattern read from `(obj/plain ...)`, the first key is a field,
/// and a keyword that ends the list is a field bound to its own name.
pub proof fn law_object_pattern(asts: ASTS, items: Seq<SExpId>, span: Span, id: SExpId)
    requires
        items.len() >= 2,
        is_symbol_named(asts, items[0], "obj/plain"@),
        parse_list_spec(asts, items, span, id) is Ok,
    ensures
        parse_list_spec(asts, items, span, id)->Ok_0 matches PatternView::Object(es, _, _) && (
        node_at(asts, items[1]).0 matches SExpView::Keyword(k) ==> has_key(es, k)) && (node_at(
            asts,
            items.last(),
        ).0 matches SExpView::Keyword(k) ==> has_field(
            es,
            k,
            PatternView::Single(k, node_at(asts, items.last()).1, items.last()),
        )),
{
    law_object_fields(asts, items, 1, Seq::empty(), max_rank(asts, items));
}

/// The patterns of all `items`, in order; the first refusal stops the reading.
pub open spec fn parse_all(asts: ASTS, items: Seq<SExpId>, bound: nat) -> Result<Seq<PatternView>, Seq<char>>
    decreases bound, 0nat, items.len(),
{
    if items.len() == 0 {
        Ok(Seq::empty())
    } else {
        match parse_all(asts, items.drop_last(), bound) {
            Err(e) => Err(e),
            Ok(ps) => if rank(asts, items.last()) < bound {
                match parse_pattern(asts, items.last()) {
                    Err(e) => Err(e),
                    Ok(p) => Ok(ps.push(p)),
                }
            } else {
                Err(Seq::empty())
            },
        }
    }
}

/// Once a prefix of the items is refused, all of them are, the same way.
proof fn lemma_parse_all_err(asts: ASTS, items: Seq<SExpId>, i: int, bound: nat)
    requires
        0 <= i <= items.len(),
        parse_all(asts, items.take(i), bound) is Err,
    ensures
        parse_all(asts, items, bound) == parse_all(asts, items.take(i), bound),
    decreases items.len(),
{
    if items.len() == i {
        assert(items.take(i) =~= items);
    } else {
        assert(items.drop_last().take(i) =~= items.take(i));
        lemma_parse_all_err(asts, items.drop_last(), i, bound);
    }
}

/// Whether `s` is the text `lit`.
fn str_is(s: &str, lit: &str) -> (res: bool)
    ensures
        res == (s@ == lit@),
{
    String::from_str(s).eq(&String::from_str(lit))
}

impl Pattern {
    /// Whether the S-expression `ident` is the symbol `name`.
    fn is_special_case(asts: &ASTS, ident: SExpId, name: &str) -> (res: bool)
        requires
            asts.contains(ident),
        ensures
            res == is_symbol_named(*asts, ident, name@),
    {
        match asts.get(ident).item.as_symbol() {
            Some(s) => str_is(s, name),
            None => false,
        }
    }

    /// The pattern a list of S-expressions reads as; `span` and `id` are those of the list.
    pub fn parse_list(items: Vec<SExpId>, asts: &ASTS, span: Span, id: SExpId) -> (res: Result<Self, String>)
        requires
            acyclic(*asts),
            forall|k: int| 0 <= k < items@.len() ==> asts.contains(#[trigger] items@[k]),
        ensures
            match parse_list_spec(*asts, items@, span, id) {
                Ok(v) => res matches Ok(p) && models(p, v),
                Err(m) => res matches Err(e) && e@ == m,
            },
        decreases max_rank(*asts, items@), 1nat,
    {
        let n = items.len();
        if n == 0 {
            let res = Pattern::List(Vec::new(), span, id);
            return Ok(res);
        }
        proof {
            lemma_max_rank(*asts, items@);
        }
        let ghost bound = max_rank(*asts, items@);
        let first = items[0];
        if Self::is_special_case(asts, first, "obj/plain") {
            let mut patterns = PatternMap::new();
            let ghost mut ventries: Seq<(Seq<char>, PatternView)> = Seq::empty();
            let mut i: usize = 1;
            while i < n
                invariant
                    1 <= i <= n,
                    n == items@.len(),
                    is_symbol_named(*asts, items@[0], "obj/plain"@),
                    bound == max_rank(*asts, items@),
                    acyclic(*asts),
                    forall|k: int| 0 <= k < items@.len() ==> asts.contains(#[trigger] items@[k]),
                    forall|k: int| 0 <= k < items@.len() ==> rank(*asts, #[trigger] items@[k]) < bound,
                    parse_object(*asts, items@, 1, Seq::empty(), bound) == parse_object(
                        *asts,
                        items@,
                        i as nat,
                        ventries,
                        bound,
                    ),
                    models_entries(pattern_entries(patterns), ventries),
                decreases n - i,
            {
                let item = items[i];
                let key = asts.get(item);
                let key_span = key.span;
                match &key.item {
                    SExp::Keyword(k) => {
                        if i + 1 < n {
                            let next_id = items[i + 1];
                            let next = asts.get(next_id);
                            match &next.item {
                                SExp::Symbol(renamed) => {
                                    let ghost v = PatternView::Single(renamed@, next.span, item);
                                    let p = Pattern::Single(renamed.clone(), next.span, item);
                                    proof {
                                        lemma_entries_insert(pattern_entries(patterns), ventries, k@, p, v);
                                    }
                                    patterns.insert(k.clone(), p);
                                    proof {
                                        ventries = entries_insert(ventries, k@, v);
                                    }
                                    i = i + 2;
                                    continue ;
                                },
                                SExp::Keyword(_) => {},
                                _ => {
                                    match Self::parse(next_id, asts) {
                                        Err(e) => {
                                            assert(parse_object(*asts, items@, i as nat, ventries, bound) == Err::<
                                                Seq<(Seq<char>, PatternView)>,
                                                Seq<char>,
                                            >(e@));
                                            return Err(e);
                                        },
                                        Ok(p) => {
                                            let ghost v = parse_pattern(*asts, next_id)->Ok_0;
                                            proof {
                                                lemma_entries_insert(pattern_entries(patterns), ventries, k@, p, v);
                                            }
                                            patterns.insert(k.clone(), p);
                                            proof {
                                                ventries = entries_insert(ventries, k@, v);
                                            }
                                            i = i + 2;
                                            continue ;
                                        },
                                    }
                                },
                            }
                        }
                        let ghost v = PatternView::Single(k@, key_span, item);
                        let p = Pattern::Single(k.clone(), key_span, item);
                        proof {
                            lemma_entries_insert(pattern_entries(patterns), ventries, k@, p, v);
                        }
                        patterns.insert(k.clone(), p);
                        proof {
                            ventries = entries_insert(ventries, k@, v);
                        }
                        i = i + 1;
                    },
                    _ => {
                        let shown = debug_text(asts, item);
                        let msg = concat2("Expected keyword, found: ", shown.as_str());
                        assert(parse_object(*asts, items@, i as nat, ventries, bound) == Err::<
                            Seq<(Seq<char>, PatternView)>,
                            Seq<char>,
                        >(msg@));
                        return Err(msg);
                    },
                }
            }
            return Ok(Pattern::Object(patterns, span, id));
        } else if Self::is_special_case(asts, first, "splice") {
            if n < 2 {
                return Err(String::from_str("Expected pattern after 'splice' keyword"));
            }
            let next = items[1];
            return match Self::parse(next, asts) {
                Ok(p) => Ok(Pattern::Splice(Box::new(p), span, id)),
                Err(e) => Err(e),
            };
        }
        let mut patterns: Vec<Pattern> = Vec::new();
        let ghost mut vs: Seq<PatternView> = Seq::empty();
        assert(items@.take(0) =~= Seq::<SExpId>::empty());
        for i in 0..n
            invariant
                n == items@.len(),
                n > 0,
                !is_symbol_named(*asts, items@[0], "obj/plain"@),
                !is_symbol_named(*asts, items@[0], "splice"@),
                bound == max_rank(*asts, items@),
                acyclic(*asts),
                forall|k: int| 0 <= k < items@.len() ==> asts.contains(#[trigger] items@[k]),
                forall|k: int| 0 <= k < items@.len() ==> rank(*asts, #[trigger] items@[k]) < bound,
                parse_all(*asts, items@.take(i as int), bound) == Ok::<Seq<PatternView>, Seq<char>>(vs),
                patterns@.len() == vs.len(),
                forall|k: int| 0 <= k < vs.len() ==> models(#[trigger] patterns@[k], vs[k]),
        {
            proof {
                assert(items@.take(i + 1).drop_last() =~= items@.take(i as int));
                assert(items@.take(i + 1).last() == items@[i as int]);
            }
            match Self::parse(items[i], asts) {
                Err(e) => {
                    proof {
                        assert(parse_all(*asts, items@.take(i + 1), bound) == Err::<Seq<PatternView>, Seq<char>>(e@));
                        lemma_parse_all_err(*asts, items@, i + 1, bound);
                        assert(parse_all(*asts, items@, bound) == Err::<Seq<PatternView>, Seq<char>>(e@));
                    }
                    return Err(e);
                },
                Ok(p) => {
                    let ghost v = parse_pattern(*asts, items@[i as int])->Ok_0;
                    patterns.push(p);
                    proof {
                        vs = vs.push(v);
                    }
                },
            }
        }
        assert(items@.take(n as int) =~= items@);
        Ok(Pattern::List(patterns, span, id))
    }

    /// The pattern the S-expression `id` reads as.
    pub fn parse(id: SExpId, asts: &ASTS) -> (res: Result<Self, String>)
        requires
            acyclic(*asts),
            asts.contains(id),
        ensures
            match parse_pattern(*asts, id) {
                Ok(v) => res matches Ok(p) && models(p, v),
                Err(m) => res matches Err(e) && e@ == m,
            },
        decreases rank(*asts, id), 2nat,
    {
        let sexp = asts.get(id);
        let span = sexp.span;
        match &sexp.item {
            SExp::Symbol(s) => {
                if str_is(s.as_str(), "_") {
                    Ok(Pattern::Hole(span, id))
                } else {
                    let shown = atom_text(&sexp.item);
                    Err(concat2("Expected keyword or list, found: ", shown.as_str()))
                }
            },
            SExp::Keyword(k) => Ok(Pattern::Single(k.clone(), span, id)),
            SExp::List(items) => {
                proof {
                    lemma_items_below(*asts, id);
                }
                let mut copied: Vec<SExpId> = Vec::new();
                for i in 0..items.len()
                    invariant
                        copied@ == items@.subrange(0, i as int),
                {
                    copied.push(items[i]);
                    assert(copied@ =~= items@.subrange(0, i + 1));
                }
                assert(copied@ =~= items@);
                Self::parse_list(copied, asts, span, id)
            },
            _ => {
                let shown = atom_text(&sexp.item);
                Err(concat2("Expected keyword or list, found: ", shown.as_str()))
            },
        }
    }
}

} // verus!
