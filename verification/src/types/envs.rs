//! Scoped environments: names bound to schemes, looked up from the innermost scope out.
use vstd::prelude::*;

verus! {

/// The bindings of one scope, by name, each name once.
pub struct Env<S> {
    vars: Vec<(String, S)>,
}

/// A scope's bindings as plain values.
pub open spec fn env_view<S>(vars: Seq<(String, S)>) -> Seq<(Seq<char>, S)> {
    vars.map_values(|p: (String, S)| (p.0@, p.1))
}

/// The binding of `name` in one scope.
pub open spec fn scope_get<S>(vars: Seq<(Seq<char>, S)>, name: Seq<char>) -> Option<S>
    decreases vars.len(),
{
    if vars.len() == 0 {
        None
    } else if vars.last().0 == name {
        Some(vars.last().1)
    } else {
        scope_get(vars.drop_last(), name)
    }
}

/// The binding of `name` in the innermost scope that binds it.
pub open spec fn scopes_get<S>(scopes: Seq<Seq<(Seq<char>, S)>>, name: Seq<char>) -> Option<S>
    decreases scopes.len(),
{
    if scopes.len() == 0 {
        None
    } else {
        match scope_get(scopes.last(), name) {
            Some(v) => Some(v),
            None => scopes_get(scopes.drop_last(), name),
        }
    }
}

/// A scope with `name` bound to `value`, replacing an earlier binding of it.
pub open spec fn scope_set<S>(vars: Seq<(Seq<char>, S)>, name: Seq<char>, value: S) -> Seq<(Seq<char>, S)> {
    vars.filter(unbound(name)).push((name, value))
}

/// Whether a binding is of a name other than `name`.
pub open spec fn unbound<S>(name: Seq<char>) -> spec_fn((Seq<char>, S)) -> bool {
    |p: (Seq<char>, S)| p.0 != name
}

/// Names in the order of their characters' code points, a name before every
/// longer name it starts.
pub open spec fn name_lt(a: Seq<char>, b: Seq<char>) -> bool
    decreases a.len(),
{
    if a.len() == 0 {
        b.len() > 0
    } else if b.len() == 0 {
        false
    } else if a[0] != b[0] {
        a[0] < b[0]
    } else {
        name_lt(a.drop_first(), b.drop_first())
    }
}

/// The order of names is strict and total.
pub proof fn lemma_name_lt_order(a: Seq<char>, b: Seq<char>)
    ensures
        !name_lt(a, a),
        name_lt(a, b) ==> !name_lt(b, a),
        a != b ==> name_lt(a, b) || name_lt(b, a),
    decreases a.len(),
{
    if a.len() > 0 && b.len() > 0 {
        lemma_name_lt_order(a.drop_first(), b.drop_first());
        lemma_name_lt_order(a.drop_first(), a.drop_first());
        if a[0] == b[0] && a != b {
            assert(a =~= seq![a[0]] + a.drop_first());
            assert(b =~= seq![b[0]] + b.drop_first());
        }
    } else if a.len() > 0 {
        lemma_name_lt_order(a.drop_first(), a.drop_first());
    } else if b.len() == 0 {
        assert(a =~= b);
    }
}

/// The order of names is transitive.
pub proof fn lemma_name_lt_trans(a: Seq<char>, b: Seq<char>, c: Seq<char>)
    requires
        name_lt(a, b),
        name_lt(b, c),
    ensures
        name_lt(a, c),
    decreases a.len(),
{
    if a.len() > 0 && b.len() > 0 && c.len() > 0 && a[0] == b[0] && b[0] == c[0] {
        lemma_name_lt_trans(a.drop_first(), b.drop_first(), c.drop_first());
    }
}

/// Each name comes before the next one.
pub open spec fn sorted_by_name<S>(vars: Seq<(Seq<char>, S)>) -> bool {
    forall|i: int, j: int| 0 <= i < j < vars.len() ==> name_lt(#[trigger] vars[i].0, #[trigger] vars[j].0)
}

/// In bindings with distinct names, a name is bound to the value of its entry.
proof fn lemma_scope_get_sorted<S>(vars: Seq<(Seq<char>, S)>, name: Seq<char>)
    requires
        sorted_by_name(vars),
    ensures
        forall|i: int| 0 <= i < vars.len() && #[trigger] vars[i].0 == name ==> scope_get(vars, name) == Some(vars[i].1),
        (forall|i: int| 0 <= i < vars.len() ==> #[trigger] vars[i].0 != name) ==> scope_get(vars, name) is None,
    decreases vars.len(),
{
    if vars.len() > 0 {
        let d = vars.drop_last();
        assert forall|i: int, j: int| 0 <= i < j < d.len() implies name_lt(#[trigger] d[i].0, #[trigger] d[j].0) by {
            assert(d[i] == vars[i] && d[j] == vars[j]);
        }
        lemma_scope_get_sorted(d, name);
        assert forall|i: int| 0 <= i < vars.len() && #[trigger] vars[i].0 == name implies scope_get(vars, name) == Some(
            vars[i].1,
        ) by {
            if i < vars.len() - 1 {
                assert(name_lt(vars[i].0, vars[vars.len() - 1].0));
                lemma_name_lt_order(vars[i].0, vars[vars.len() - 1].0);
                assert(d[i] == vars[i]);
            }
        }
        if forall|i: int| 0 <= i < vars.len() ==> #[trigger] vars[i].0 != name {
            assert forall|i: int| 0 <= i < d.len() implies #[trigger] d[i].0 != name by {
                assert(d[i] == vars[i]);
            }
        }
    }
}

/// Whether name `a` comes before name `b`.
pub(crate) fn name_less(a: &String, b: &String) -> (res: bool)
    ensures
        res == name_lt(a@, b@),
{
    let x = a.as_str();
    let y = b.as_str();
    let n = x.unicode_len();
    let m = y.unicode_len();
    let mut i: usize = 0;
    assert(a@.subrange(0, n as int) =~= a@);
    assert(b@.subrange(0, m as int) =~= b@);
    while i < n && i < m
        invariant
            i <= n,
            i <= m,
            n == a@.len(),
            m == b@.len(),
            x@ == a@,
            y@ == b@,
            name_lt(a@, b@) == name_lt(a@.subrange(i as int, n as int), b@.subrange(i as int, m as int)),
        decreases n - i,
    {
        let c = x.get_char(i);
        let d = y.get_char(i);
        assert(a@.subrange(i as int, n as int)[0] == c);
        assert(b@.subrange(i as int, m as int)[0] == d);
        if c != d {
            return c < d;
        }
        assert(a@.subrange(i as int, n as int).drop_first() =~= a@.subrange(i + 1, n as int));
        assert(b@.subrange(i as int, m as int).drop_first() =~= b@.subrange(i + 1, m as int));
        i = i + 1;
    }
    i == n && i < m
}

/// The scopes, innermost last; there is always at least one.
pub struct Envs<S> {
    envs: Vec<Env<S>>,
}

/// How many scopes there were when it was taken.
pub struct EnvSavePoint(usize);

impl EnvSavePoint {
    /// The number of scopes at the time.
    pub closed spec fn depth(self) -> nat {
        self.0 as nat
    }
}

impl<S> View for Envs<S> {
    type V = Seq<Seq<(Seq<char>, S)>>;

    closed spec fn view(&self) -> Self::V {
        self.envs@.map_values(|e: Env<S>| env_view(e.vars@))
    }
}

impl<S: Copy> Envs<S> {
    /// The binding of `name` in the innermost scope that binds it.
    pub open spec fn lookup(&self, name: Seq<char>) -> Option<S> {
        scopes_get(self@, name)
    }

    /// One empty scope.
    pub fn new() -> (res: Self)
        ensures
            res@ == seq![Seq::<(Seq<char>, S)>::empty()],
    {
        let mut envs: Vec<Env<S>> = Vec::new();
        envs.push(Env { vars: Vec::new() });
        let res = Envs { envs };
        assert(res@ =~= seq![Seq::<(Seq<char>, S)>::empty()]) by {
            assert(env_view(res.envs@[0].vars@) =~= Seq::<(Seq<char>, S)>::empty());
        }
        res
    }

    /// Binds `name` to `value` in the innermost scope, replacing a binding of it there.
    pub fn set(&mut self, name: &str, value: S)
        requires
            old(self)@.len() > 0,
        ensures
            final(self)@ == old(self)@.update(
                old(self)@.len() - 1,
                scope_set(old(self)@.last(), name@, value),
            ),
    {
        let last = self.envs.len() - 1;
        let name_s = String::from_str(name);
        let env = &self.envs[last];
        let ghost old_vars = env_view(env.vars@);
        let mut kept: Vec<(String, S)> = Vec::new();
        let n = env.vars.len();
        let ghost pred = unbound::<S>(name@);
        for i in 0..n
            invariant
                n == env.vars@.len(),
                name_s@ == name@,
                pred == unbound::<S>(name@),
                old_vars == env_view(env.vars@),
                env_view(kept@) == old_vars.subrange(0, i as int).filter(pred),
        {
            proof {
                assert(old_vars.subrange(0, i + 1) =~= old_vars.subrange(0, i as int).push(old_vars[i as int]));
                old_vars.subrange(0, i as int).lemma_filter_push(old_vars[i as int], pred);
                assert(old_vars[i as int].0 == env.vars@[i as int].0@);
            }
            let ghost kept_before = kept@;
            if !env.vars[i].0.eq(&name_s) {
                let e = (env.vars[i].0.clone(), env.vars[i].1);
                kept.push(e);
                assert(pred(old_vars[i as int]));
                assert(env_view(kept@) =~= env_view(kept_before).push(old_vars[i as int]));
            } else {
                assert(!pred(old_vars[i as int]));
            }
            assert(env_view(kept@) =~= old_vars.subrange(0, i + 1).filter(pred));
        }
        assert(old_vars.subrange(0, n as int) =~= old_vars);
        kept.push((name_s, value));
        assert(env_view(kept@) =~= scope_set(old_vars, name@, value));
        self.envs.set(last, Env { vars: kept });
        assert(self@ =~= old(self)@.update(old(self)@.len() - 1, scope_set(old(self)@.last(), name@, value)));
    }

    /// The binding of `name` in the innermost scope that binds it.
    pub fn get(&self, name: &str) -> (res: Option<&S>)
        ensures
            match self.lookup(name@) {
                Some(v) => res matches Some(r) && *r == v,
                None => res is None,
            },
    {
        let name_s = String::from_str(name);
        let mut i = self.envs.len();
        assert(self@.subrange(0, i as int) =~= self@);
        while i > 0
            invariant
                name_s@ == name@,
                i <= self@.len(),
                scopes_get(self@, name@) == scopes_get(self@.subrange(0, i as int), name@),
            decreases i,
        {
            let vars = &self.envs[i - 1].vars;
            let ghost scope = env_view(vars@);
            assert(self@.subrange(0, i as int).last() == scope);
            assert(self@.subrange(0, i as int).drop_last() =~= self@.subrange(0, i - 1));
            let mut j = vars.len();
            assert(scope.subrange(0, j as int) =~= scope);
            while j > 0
                invariant
                    0 < i <= self@.len(),
                    scopes_get(self@, name@) == scopes_get(self@.subrange(0, i as int), name@),
                    self@.subrange(0, i as int).last() == scope,
                    name_s@ == name@,
                    j <= vars@.len(),
                    scope == env_view(vars@),
                    scope_get(scope, name@) == scope_get(scope.subrange(0, j as int), name@),
                decreases j,
            {
                assert(scope.subrange(0, j as int).drop_last() =~= scope.subrange(0, j - 1));
                assert(scope[j - 1] == (vars@[j - 1].0@, vars@[j - 1].1));
                if vars[j - 1].0.eq(&name_s) {
                    assert(scope_get(scope, name@) == Some(vars@[j - 1].1));
                    return Some(&vars[j - 1].1);
                }
                j = j - 1;
            }
            i = i - 1;
        }
        None
    }

    /// Opens a new innermost scope; the save point returns to the scopes before it.
    pub fn push(&mut self) -> (res: EnvSavePoint)
        ensures
            final(self)@ == old(self)@.push(Seq::empty()),
            res.depth() == old(self)@.len(),
    {
        let point = EnvSavePoint(self.envs.len());
        self.envs.push(Env { vars: Vec::new() });
        proof {
            assert(env_view(self.envs@.last().vars@) =~= Seq::<(Seq<char>, S)>::empty());
            assert(self@ =~= old(self)@.push(Seq::empty()));
        }
        point
    }

    /// A save point for the current scopes.
    pub fn save(&self) -> (res: EnvSavePoint)
        ensures
            res.depth() == self@.len(),
    {
        EnvSavePoint(self.envs.len())
    }

    /// Closes the innermost scope and gives its bindings, one for each name
    /// it binds, in the order of the names.
    pub fn pop(&mut self) -> (res: Option<Vec<(String, S)>>)
        ensures
            old(self)@.len() == 0 ==> res is None && final(self)@ == old(self)@,
            old(self)@.len() > 0 ==> (res matches Some(v) && sorted_by_name(env_view(v@)) && (forall|name: Seq<char>|
                #[trigger] scope_get(env_view(v@), name) == scope_get(old(self)@.last(), name))
                && final(self)@ == old(self)@.drop_last()),
    {
        match self.envs.pop() {
            Some(env) => {
                assert(self@ =~= old(self)@.drop_last());
                Some(sort_by_name(env.vars))
            },
            None => None,
        }
    }

    /// Returns to the scopes of the save point, dropping those opened since.
    pub fn restore(&mut self, point: EnvSavePoint)
        ensures
            point.depth() <= old(self)@.len() ==> final(self)@ == old(self)@.subrange(0, point.depth() as int),
            point.depth() > old(self)@.len() ==> final(self)@ == old(self)@,
    {
        self.envs.truncate(point.0);
        assert(point.depth() <= old(self)@.len() ==> self@ =~= old(self)@.subrange(0, point.depth() as int));
        assert(point.depth() > old(self)@.len() ==> self@ =~= old(self)@);
    }
}

/// The bindings of `vars`, one for each name, with the value of its last
/// binding, in the order of the names.
fn sort_by_name<S: Copy>(vars: Vec<(String, S)>) -> (res: Vec<(String, S)>)
    ensures
        sorted_by_name(env_view(res@)),
        forall|name: Seq<char>| #[trigger] scope_get(env_view(res@), name) == scope_get(env_view(vars@), name),
{
    let mut out: Vec<(String, S)> = Vec::new();
    let n = vars.len();
    let ghost src = env_view(vars@);
    assert(src.take(0) =~= Seq::<(Seq<char>, S)>::empty());
    for k in 0..n
        invariant
            n == vars@.len(),
            src == env_view(vars@),
            sorted_by_name(env_view(out@)),
            forall|name: Seq<char>| #[trigger] scope_get(env_view(out@), name) == scope_get(src.take(k as int), name),
    {
        let key = vars[k].0.clone();
        let value = vars[k].1;
        let ghost before = env_view(out@);
        proof {
            assert(src.take(k + 1).drop_last() =~= src.take(k as int));
            assert(src.take(k + 1).last() == (key@, value));
        }
        let m = out.len();
        let mut i: usize = 0;
        while i < m && name_less(&out[i].0, &key)
            invariant
                i <= m,
                m == out@.len(),
                env_view(out@) == before,
                sorted_by_name(before),
                forall|j: int| 0 <= j < i ==> name_lt(#[trigger] before[j].0, key@),
            decreases m - i,
        {
            i = i + 1;
        }
        if i < m && out[i].0.eq(&key) {
            out.set(i, (key, value));
            proof {
                let after = env_view(out@);
                assert(after =~= before.update(i as int, (key@, value)));
                assert forall|a: int, b: int| 0 <= a < b < after.len() implies name_lt(#[trigger] after[a].0, #[trigger] after[b].0) by {
                    assert(after[a].0 == before[a].0 && after[b].0 == before[b].0);
                }
                assert forall|name: Seq<char>| #[trigger] scope_get(after, name) == scope_get(src.take(k + 1), name) by {
                    lemma_scope_get_sorted(after, name);
                    lemma_scope_get_sorted(before, name);
                    if name != key@ {
                        if exists|j: int| 0 <= j < before.len() && #[trigger] before[j].0 == name {
                            let j = choose|j: int| 0 <= j < before.len() && #[trigger] before[j].0 == name;
                            assert(after[j] == before[j]);
                        } else {
                            assert forall|j: int| 0 <= j < after.len() implies #[trigger] after[j].0 != name by {
                                if j != i {
                                    assert(after[j] == before[j]);
                                }
                            }
                        }
                    } else {
                        assert(after[i as int].0 == name);
                    }
                }
            }
        } else {
            proof {
                if i < m {
                    lemma_name_lt_order(before[i as int].0, key@);
                }
            }
            out.insert(i, (key, value));
            proof {
                let after = env_view(out@);
                assert(after =~= before.insert(i as int, (key@, value)));
                assert forall|a: int, b: int| 0 <= a < b < after.len() implies name_lt(#[trigger] after[a].0, #[trigger] after[b].0) by {
                    if b < i {
                        assert(after[a] == before[a] && after[b] == before[b]);
                    } else if b == i {
                        assert(after[a] == before[a]);
                    } else if a < i {
                        assert(after[a] == before[a] && after[b] == before[b - 1]);
                        lemma_name_lt_trans(before[a].0, key@, before[i as int].0);
                        if b - 1 > i {
                            lemma_name_lt_trans(before[a].0, before[i as int].0, before[b - 1].0);
                        }
                    } else if a == i {
                        assert(after[b] == before[b - 1]);
                        if b - 1 > i {
                            lemma_name_lt_trans(key@, before[i as int].0, before[b - 1].0);
                        }
                    } else {
                        assert(after[a] == before[a - 1] && after[b] == before[b - 1]);
                    }
                }
                assert forall|name: Seq<char>| #[trigger] scope_get(after, name) == scope_get(src.take(k + 1), name) by {
                    lemma_scope_get_sorted(after, name);
                    lemma_scope_get_sorted(before, name);
                    if name != key@ {
                        if exists|j: int| 0 <= j < before.len() && #[trigger] before[j].0 == name {
                            let j = choose|j: int| 0 <= j < before.len() && #[trigger] before[j].0 == name;
                            if j < i {
                                assert(after[j] == before[j]);
                            } else {
                                assert(after[j + 1] == before[j]);
                            }
                        } else {
                            assert forall|j: int| 0 <= j < after.len() implies #[trigger] after[j].0 != name by {
                                if j < i {
                                    assert(after[j] == before[j]);
                                } else if j > i {
                                    assert(after[j] == before[j - 1]);
                                }
                            }
                        }
                    } else {
                        assert(after[i as int].0 == name);
                    }
                }
            }
        }
    }
    assert(src.take(n as int) =~= src);
    out
}

/// Taking the bindings of `name` out of a scope leaves those of other names as they were.
proof fn lemma_scope_get_filter<S>(vars: Seq<(Seq<char>, S)>, name: Seq<char>, other: Seq<char>)
    requires
        other != name,
    ensures
        scope_get(vars.filter(unbound(name)), other) == scope_get(vars, other),
    decreases vars.len(),
{
    reveal(Seq::filter);
    if vars.len() > 0 {
        lemma_scope_get_filter(vars.drop_last(), name, other);
        let sub = vars.drop_last().filter(unbound(name));
        assert(sub.push(vars.last()).drop_last() =~= sub);
    }
}

/// After binding `name` to `value` in the innermost scope, looking `name` up
/// gives `value`, and looking up any other name gives what it gave before.
pub proof fn law_lookup_after_set<S>(scopes: Seq<Seq<(Seq<char>, S)>>, name: Seq<char>, value: S, other: Seq<char>)
    requires
        scopes.len() > 0,
    ensures
        scopes_get(scopes.update(scopes.len() - 1, scope_set(scopes.last(), name, value)), name) == Some(value),
        other != name ==> scopes_get(scopes.update(scopes.len() - 1, scope_set(scopes.last(), name, value)), other)
            == scopes_get(scopes, other),
{
    let after = scopes.update(scopes.len() - 1, scope_set(scopes.last(), name, value));
    assert(after.last() == scope_set(scopes.last(), name, value));
    assert(after.drop_last() =~= scopes.drop_last());
    if other != name {
        lemma_scope_get_filter(scopes.last(), name, other);
        assert(scope_set(scopes.last(), name, value).drop_last() =~= scopes.last().filter(unbound(name)));
    }
}

/// A scope opened with `push` changes no lookup, and restoring the save point
/// that `push` returned gives back the scopes as they were before it.
pub proof fn law_push_then_restore<S>(scopes: Seq<Seq<(Seq<char>, S)>>, name: Seq<char>)
    ensures
        scopes_get(scopes.push(Seq::empty()), name) == scopes_get(scopes, name),
        scopes.push(Seq::empty()).subrange(0, scopes.len() as int) == scopes,
{
    assert(scopes.push(Seq::empty()).drop_last() =~= scopes);
    assert(scopes.push(Seq::empty()).subrange(0, scopes.len() as int) =~= scopes);
}

} // verus!
