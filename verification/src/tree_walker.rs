//! Reading plain S-expressions as data: a symbol is a string (a quoted one
//! without its quotes), and `(:struct :key value ...)` is an object whose
//! fields are kept in the order of their names, a later pair replacing an
//! earlier one of the same name.
use crate::ast::{trim_colons, trim_leading_colons};
use crate::parser::SExp;
use crate::types::envs::{lemma_name_lt_order, lemma_name_lt_trans, name_less, name_lt, sorted_by_name};
use vstd::prelude::*;

verus! {

/// A value read from an S-expression.
#[derive(Debug)]
pub enum Value {
    String(String),
    /// The fields, in the order of their names, each name once.
    Object(Vec<(String, Box<Value>)>),
    /// For error handling
    Error(String),
}

/// A value as plain values.
pub enum ValueView {
    String(Seq<char>),
    Object(Seq<(Seq<char>, ValueView)>),
    Error(Seq<char>),
}

/// The plain value of `v`.
pub open spec fn value_view(v: Value) -> ValueView
    decreases v, 1nat,
{
    match v {
        Value::String(s) => ValueView::String(s@),
        Value::Object(fields) => ValueView::Object(fields_view(fields@)),
        Value::Error(e) => ValueView::Error(e@),
    }
}

/// The plain values of the fields `fs`.
pub open spec fn fields_view(fs: Seq<(String, Box<Value>)>) -> Seq<(Seq<char>, ValueView)>
    decreases fs, 0nat,
{
    if fs.len() == 0 {
        Seq::empty()
    } else {
        fields_view(fs.drop_last()).push((fs.last().0@, value_view(*fs.last().1)))
    }
}

impl View for Value {
    type V = ValueView;

    open spec fn view(&self) -> ValueView {
        value_view(*self)
    }
}

/// The plain values of the fields are those of each field in turn.
pub proof fn lemma_fields_view(fs: Seq<(String, Box<Value>)>)
    ensures
        fields_view(fs).len() == fs.len(),
        forall|i: int| 0 <= i < fs.len() ==> #[trigger] fields_view(fs)[i] == (fs[i].0@, value_view(*fs[i].1)),
    decreases fs.len(),
{
    if fs.len() > 0 {
        lemma_fields_view(fs.drop_last());
    }
}

/// The text a symbol stands for: what lies between the quotes of a quoted
/// string, and the symbol itself otherwise.
pub open spec fn symbol_value(s: Seq<char>) -> Seq<char> {
    if s.len() >= 2 && s[0] == '"' && s[s.len() - 1] == '"' {
        s.subrange(1, s.len() - 1)
    } else {
        s
    }
}

/// The fields after setting `key` to `value`: the first field of that name
/// takes the value; where a greater name comes first, or none, the field goes
/// in before it, or at the end.
pub open spec fn field_insert(fs: Seq<(Seq<char>, ValueView)>, key: Seq<char>, value: ValueView) -> Seq<
    (Seq<char>, ValueView),
>
    decreases fs.len(),
{
    if fs.len() == 0 {
        seq![(key, value)]
    } else if fs[0].0 == key {
        seq![(key, value)] + fs.drop_first()
    } else if name_lt(key, fs[0].0) {
        seq![(key, value)] + fs
    } else {
        seq![fs[0]] + field_insert(fs.drop_first(), key, value)
    }
}

/// The value of the first field named `key`, if any.
pub open spec fn field_lookup(fs: Seq<(Seq<char>, ValueView)>, key: Seq<char>) -> Option<ValueView>
    decreases fs.len(),
{
    if fs.len() == 0 {
        None
    } else if fs[0].0 == key {
        Some(fs[0].1)
    } else {
        field_lookup(fs.drop_first(), key)
    }
}

/// Whether `e` is the symbol `:struct`.
pub open spec fn is_struct_tag(e: SExp) -> bool {
    e matches SExp::Symbol(t) && t@ == ":struct"@
}

/// The fields the first `n` key/value pairs after the tag of `items` make, in
/// order; `None` where the key of one of them is not a symbol.
pub open spec fn struct_fields(items: Seq<SExp>, n: nat) -> Option<Seq<(Seq<char>, ValueView)>>
    decreases items, n,
{
    if n == 0 || 2 * n >= items.len() {
        if n == 0 {
            Some(Seq::empty())
        } else {
            None
        }
    } else {
        match struct_fields(items, (n - 1) as nat) {
            None => None,
            Some(fs) => match items[2 * n - 1] {
                SExp::Symbol(k) => Some(field_insert(fs, trim_colons(k@), walk_view(items[2 * n as int]))),
                SExp::List(_) => None,
            },
        }
    }
}

/// The value an S-expression reads as: a symbol as its text, a `:struct` list
/// as the object of its key/value pairs (an odd last item is left out), any
/// other list as an error.
pub open spec fn walk_view(e: SExp) -> ValueView
    decreases e, 0nat,
{
    match e {
        SExp::Symbol(s) => ValueView::String(symbol_value(s@)),
        SExp::List(items) => if items@.len() > 0 && is_struct_tag(items@[0]) {
            match struct_fields(items@, ((items@.len() - 1) / 2) as nat) {
                Some(fs) => ValueView::Object(fs),
                None => ValueView::Error("Expected symbol as struct key"@),
            }
        } else {
            ValueView::Error("Only (:struct ...) supported for now"@)
        },
    }
}

/// Setting a field and then reading it gives the value set; every other name
/// reads as before.
pub proof fn law_field_insert_lookup(
    fs: Seq<(Seq<char>, ValueView)>,
    key: Seq<char>,
    value: ValueView,
    other: Seq<char>,
)
    ensures
        field_lookup(field_insert(fs, key, value), key) == Some(value),
        other != key ==> field_lookup(field_insert(fs, key, value), other) == field_lookup(fs, other),
    decreases fs.len(),
{
    if fs.len() > 0 && fs[0].0 != key && !name_lt(key, fs[0].0) {
        law_field_insert_lookup(fs.drop_first(), key, value, other);
        assert((seq![fs[0]] + field_insert(fs.drop_first(), key, value)).drop_first() =~= field_insert(
            fs.drop_first(),
            key,
            value,
        ));
    } else if fs.len() > 0 && fs[0].0 == key {
        assert((seq![(key, value)] + fs.drop_first()).drop_first() =~= fs.drop_first());
    } else if fs.len() > 0 {
        assert((seq![(key, value)] + fs).drop_first() =~= fs);
    } else {
        assert(seq![(key, value)].drop_first() =~= fs);
    }
}

/// Setting a field keeps the fields in the order of their names, each name once.
pub proof fn law_field_insert_sorted(fs: Seq<(Seq<char>, ValueView)>, key: Seq<char>, value: ValueView)
    requires
        sorted_by_name(fs),
    ensures
        sorted_by_name(field_insert(fs, key, value)),
        forall|i: int|
            0 <= i < field_insert(fs, key, value).len() ==> #[trigger] field_insert(fs, key, value)[i].0 == key
                || exists|j: int| 0 <= j < fs.len() && fs[j].0 == field_insert(fs, key, value)[i].0,
    decreases fs.len(),
{
    let r = field_insert(fs, key, value);
    if fs.len() == 0 {
    } else if fs[0].0 == key {
        assert forall|i: int, j: int| 0 <= i < j < r.len() implies name_lt(#[trigger] r[i].0, #[trigger] r[j].0) by {
            assert(r[j] == fs[j]);
            if i > 0 {
                assert(r[i] == fs[i]);
            }
        }
        assert forall|i: int| 0 <= i < r.len() implies #[trigger] r[i].0 == key || exists|j: int|
            0 <= j < fs.len() && fs[j].0 == r[i].0 by {
            if i > 0 {
                assert(r[i] == fs[i]);
            }
        }
    } else if name_lt(key, fs[0].0) {
        assert forall|i: int, j: int| 0 <= i < j < r.len() implies name_lt(#[trigger] r[i].0, #[trigger] r[j].0) by {
            assert(r[j] == fs[j - 1]);
            if i > 0 {
                assert(r[i] == fs[i - 1]);
            } else if j > 1 {
                lemma_name_lt_trans(key, fs[0].0, fs[j - 1].0);
            }
        }
        assert forall|i: int| 0 <= i < r.len() implies #[trigger] r[i].0 == key || exists|j: int|
            0 <= j < fs.len() && fs[j].0 == r[i].0 by {
            if i > 0 {
                assert(r[i] == fs[i - 1]);
            }
        }
    } else {
        let t = fs.drop_first();
        let rt = field_insert(t, key, value);
        law_field_insert_sorted(t, key, value);
        assert(r =~= seq![fs[0]] + rt);
        lemma_name_lt_order(key, fs[0].0);
        assert forall|i: int| 0 <= i < rt.len() implies name_lt(fs[0].0, #[trigger] rt[i].0) by {
            if rt[i].0 == key {
            } else {
                let j = choose|j: int| 0 <= j < t.len() && t[j].0 == rt[i].0;
                assert(fs[j + 1] == t[j]);
            }
        }
        assert forall|i: int, j: int| 0 <= i < j < r.len() implies name_lt(#[trigger] r[i].0, #[trigger] r[j].0) by {
            assert(r[j] == rt[j - 1]);
            if i > 0 {
                assert(r[i] == rt[i - 1]);
            }
        }
        assert forall|i: int| 0 <= i < r.len() implies #[trigger] r[i].0 == key || exists|j: int|
            0 <= j < fs.len() && fs[j].0 == r[i].0 by {
            if i > 0 {
                assert(r[i] == rt[i - 1]);
                if rt[i - 1].0 != key {
                    let j = choose|j: int| 0 <= j < t.len() && t[j].0 == rt[i - 1].0;
                    assert(fs[j + 1] == t[j]);
                }
            } else {
                assert(r[0] == fs[0]);
            }
        }
    }
}

/// The text the symbol `s` stands for.
fn symbol_text(s: &String) -> (res: String)
    ensures
        res@ == symbol_value(s@),
{
    let t = s.as_str();
    let n = t.unicode_len();
    if n >= 2 && t.get_char(0) == '"' && t.get_char(n - 1) == '"' {
        String::from_str(t.substring_char(1, n - 1))
    } else {
        String::from_str(t)
    }
}

/// Whether `e` is the symbol `:struct`.
fn struct_tag(e: &SExp) -> (res: bool)
    ensures
        res == is_struct_tag(*e),
{
    match e {
        SExp::Symbol(t) => t.eq(&String::from_str(":struct")),
        SExp::List(_) => false,
    }
}

/// Sets the field `key` of `fields` to `value`, as `field_insert` says.
fn insert_field(fields: &mut Vec<(String, Box<Value>)>, key: String, value: Value)
    ensures
        fields_view(final(fields)@) == field_insert(fields_view(old(fields)@), key@, value@),
{
    let ghost o = fields_view(fields@);
    let n = fields.len();
    let mut i: usize = 0;
    proof {
        lemma_fields_view(fields@);
        assert(o.subrange(0, n as int) =~= o);
        assert(o.subrange(0, 0) =~= Seq::<(Seq<char>, ValueView)>::empty());
    }
    while i < n && !fields[i].0.eq(&key) && !name_less(&key, &fields[i].0)
        invariant
            i <= n,
            n == fields@.len(),
            fields@ == old(fields)@,
            o == fields_view(fields@),
            o.len() == n,
            field_insert(o, key@, value@) == o.subrange(0, i as int) + field_insert(
                o.subrange(i as int, n as int),
                key@,
                value@,
            ),
        decreases n - i,
    {
        proof {
            lemma_fields_view(fields@);
            let t = o.subrange(i as int, n as int);
            assert(t[0] == o[i as int]);
            assert(t.drop_first() =~= o.subrange(i + 1, n as int));
            assert(o.subrange(0, i + 1) =~= o.subrange(0, i as int) + seq![t[0]]);
            assert(o.subrange(0, i as int) + (seq![t[0]] + field_insert(t.drop_first(), key@, value@))
                =~= o.subrange(0, i + 1) + field_insert(o.subrange(i + 1, n as int), key@, value@));
        }
        i = i + 1;
    }
    let ghost before = fields@;
    proof {
        lemma_fields_view(before);
    }
    let replace = i < n && fields[i].0.eq(&key);
    let entry = (key, Box::new(value));
    let ghost e = entry;
    if replace {
        fields.set(i, entry);
        proof {
            lemma_fields_view(fields@);
            let t = o.subrange(i as int, n as int);
            assert(t[0] == o[i as int]);
            assert(t.drop_first() =~= o.subrange(i + 1, n as int));
            assert(fields_view(fields@) =~= o.subrange(0, i as int) + (seq![(e.0@, value_view(*e.1))]
                + t.drop_first()));
        }
    } else {
        fields.insert(i, entry);
        proof {
            lemma_fields_view(fields@);
            let t = o.subrange(i as int, n as int);
            if i < n {
                assert(t[0] == o[i as int]);
            } else {
                assert(t =~= Seq::<(Seq<char>, ValueView)>::empty());
            }
            assert(fields_view(fields@) =~= o.subrange(0, i as int) + (seq![(e.0@, value_view(*e.1))] + t));
        }
    }
}

/// The value the S-expression `ast` reads as.
pub fn walk(ast: &SExp) -> (res: Value)
    ensures
        res@ == walk_view(*ast),
        res@ matches ValueView::Object(fs) ==> sorted_by_name(fs),
    decreases ast,
{
    match ast {
        SExp::Symbol(s) => Value::String(symbol_text(s)),
        SExp::List(items) => {
            if items.len() > 0 && struct_tag(&items[0]) {
                let ghost total: nat = ((items@.len() - 1) / 2) as nat;
                let mut fields: Vec<(String, Box<Value>)> = Vec::new();
                let mut i: usize = 1;
                let ghost mut j: nat = 0;
                proof {
                    assert(fields_view(fields@) =~= Seq::<(Seq<char>, ValueView)>::empty());
                }
                while i < items.len() - 1
                    invariant
                        items@.len() > 0,
                        is_struct_tag(items@[0]),
                        *ast == SExp::List(*items),
                        total == ((items@.len() - 1) / 2) as nat,
                        i == 2 * j + 1,
                        j <= total,
                        struct_fields(items@, j) == Some(fields_view(fields@)),
                        sorted_by_name(fields_view(fields@)),
                    decreases items@.len() - i,
                {
                    assert(2 * (j + 1) < items@.len());
                    match &items[i] {
                        SExp::Symbol(key) => {
                            let k = trim_leading_colons(key.as_str());
                            proof {
                                assert(decreases_to!(*ast => (*ast)->List_0));
                                assert(decreases_to!(*items => items@));
                                assert(decreases_to!(items@ => items@[i + 1]));
                            }
                            let v = walk(&items[i + 1]);
                            proof {
                                law_field_insert_sorted(fields_view(fields@), k@, v@);
                            }
                            insert_field(&mut fields, k, v);
                            i = i + 2;
                            proof {
                                j = j + 1;
                            }
                        },
                        SExp::List(_) => {
                            proof {
                                assert(items@[2 * (j + 1) - 1] is List);
                                assert(struct_fields(items@, (j + 1) as nat) is None);
                                assert(2 * total < items@.len());
                                lemma_struct_fields_none(items@, (j + 1) as nat, total);
                            }
                            return Value::Error(String::from_str("Expected symbol as struct key"));
                        },
                    }
                }
                assert(j == total);
                Value::Object(fields)
            } else {
                Value::Error(String::from_str("Only (:struct ...) supported for now"))
            }
        },
    }
}

/// Once a key is not a symbol, every longer run of pairs has no fields either.
proof fn lemma_struct_fields_none(items: Seq<SExp>, n: nat, m: nat)
    requires
        struct_fields(items, n) is None,
        n <= m,
        2 * m < items.len(),
    ensures
        struct_fields(items, m) is None,
    decreases m - n,
{
    if n < m {
        lemma_struct_fields_none(items, n, (m - 1) as nat);
    }
}

} // verus!
