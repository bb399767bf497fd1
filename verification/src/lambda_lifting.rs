//! The scopes seen while lifting lambdas: which names a body binds itself and
//! which it takes from an enclosing function.
use vstd::prelude::*;

verus! {

/// What kind of scope a scope is.
#[derive(Clone, Copy, PartialEq, Debug, Structural)]
pub enum EnvKind {
    Global,
    Function,
    Object,
    Local,
}

/// How a name is reached from the innermost scope: bound without crossing a
/// function, or taken from outside one.
#[derive(Debug, Clone, Copy, PartialEq, Structural)]
pub enum VariableKind {
    Local,
    Free,
}

/// One scope: the names it binds, each once, and its kind.
pub struct Env {
    vars: Vec<String>,
    kind: EnvKind,
}

/// The scopes, innermost last.
pub struct Envs {
    envs: Vec<Env>,
}

/// A scope as plain values: its kind and the names it binds.
pub type EnvView = (EnvKind, Set<Seq<char>>);

impl View for Env {
    type V = EnvView;

    closed spec fn view(&self) -> EnvView {
        (self.kind, self.vars@.map_values(|s: String| s@).to_set())
    }
}

impl View for Envs {
    type V = Seq<EnvView>;

    closed spec fn view(&self) -> Seq<EnvView> {
        self.envs@.map_values(|e: Env| e@)
    }
}

/// The names an object scope provides without binding them.
pub open spec fn is_object_var(name: Seq<char>) -> bool {
    name == "self"@ || name == "super"@ || name == "root"@
}

/// How `name` is reached, looking from the innermost of `scopes` outwards with
/// `outcome` so far: an object scope provides its own names, a scope other
/// than the global one provides the names it binds, and crossing a function
/// makes the name free; `None` where no scope provides it.
pub open spec fn lookup_kind(scopes: Seq<EnvView>, name: Seq<char>, outcome: VariableKind) -> Option<VariableKind>
    decreases scopes.len(),
{
    if scopes.len() == 0 {
        None
    } else {
        let e = scopes.last();
        if e.0 == EnvKind::Object && is_object_var(name) {
            Some(outcome)
        } else if e.1.contains(name) && e.0 != EnvKind::Global {
            Some(outcome)
        } else {
            lookup_kind(scopes.drop_last(), name, if e.0 == EnvKind::Function { VariableKind::Free } else { outcome })
        }
    }
}

impl Env {
    /// An empty scope of kind `kind`.
    pub fn new(kind: EnvKind) -> (res: Self)
        ensures
            res@ == (kind, Set::<Seq<char>>::empty()),
    {
        let res = Env { vars: Vec::new(), kind };
        assert(res@.1 =~= Set::<Seq<char>>::empty());
        res
    }

    /// The empty global scope.
    pub fn global() -> (res: Self)
        ensures
            res@ == (EnvKind::Global, Set::<Seq<char>>::empty()),
    {
        Self::new(EnvKind::Global)
    }

    /// Whether this scope binds `name`.
    fn binds(&self, name: &str) -> (res: bool)
        ensures
            res == self@.1.contains(name@),
    {
        let wanted = String::from_str(name);
        let n = self.vars.len();
        for i in 0..n
            invariant
                n == self.vars@.len(),
                wanted@ == name@,
                forall|j: int| 0 <= j < i ==> self.vars@[j]@ != name@,
        {
            if self.vars[i].eq(&wanted) {
                assert(self.vars@.map_values(|s: String| s@)[i as int] == name@);
                return true;
            }
        }
        let ghost names = self.vars@.map_values(|s: String| s@);
        assert forall|j: int| 0 <= j < names.len() implies #[trigger] names[j] != name@ by {
            assert(names[j] == self.vars@[j]@);
        }
        assert(!names.contains(name@));
        false
    }
}

impl Envs {
    /// The global scope alone.
    pub fn new() -> (res: Self)
        ensures
            res@ == seq![(EnvKind::Global, Set::<Seq<char>>::empty())],
    {
        let mut envs: Vec<Env> = Vec::new();
        envs.push(Env::global());
        let res = Envs { envs };
        assert(res@ =~= seq![(EnvKind::Global, Set::<Seq<char>>::empty())]);
        res
    }

    /// Opens an empty scope of kind `kind`.
    pub fn push(&mut self, kind: EnvKind)
        ensures
            final(self)@ == old(self)@.push((kind, Set::<Seq<char>>::empty())),
    {
        self.envs.push(Env::new(kind));
        assert(self@ =~= old(self)@.push((kind, Set::<Seq<char>>::empty())));
    }

    /// Closes the innermost scope, if there is one.
    pub fn pop(&mut self)
        ensures
            old(self)@.len() > 0 ==> final(self)@ == old(self)@.drop_last(),
            old(self)@.len() == 0 ==> final(self)@ == old(self)@,
    {
        if self.envs.len() > 0 {
            self.envs.pop();
            assert(self@ =~= old(self)@.drop_last());
        }
    }

    /// Binds `name` in the innermost scope.
    pub fn set(&mut self, name: &str)
        requires
            old(self)@.len() > 0,
        ensures
            final(self)@ == old(self)@.update(
                old(self)@.len() - 1,
                (old(self)@.last().0, old(self)@.last().1.insert(name@)),
            ),
    {
        let last = self.envs.len() - 1;
        let ghost before = self.envs@[last as int]@;
        if !self.envs[last].binds(name) {
            let mut env = self.envs.pop().unwrap();
            let ghost old_vars = env.vars@;
            env.vars.push(String::from_str(name));
            assert(env.vars@.map_values(|s: String| s@) =~= old_vars.map_values(|s: String| s@).push(name@));
            proof {
                old_vars.map_values(|s: String| s@).lemma_push_to_set_commute(name@);
            }
            assert(env@.1 =~= before.1.insert(name@));
            self.envs.push(env);
        } else {
            assert(before.1.insert(name@) =~= before.1);
        }
        assert(self@ =~= old(self)@.update(
            old(self)@.len() - 1,
            (old(self)@.last().0, old(self)@.last().1.insert(name@)),
        ));
    }

    /// How `name` is reached from the innermost scope, if a scope provides it.
    pub fn has(&self, name: &str) -> (res: Option<VariableKind>)
        ensures
            res == lookup_kind(self@, name@, VariableKind::Local),
    {
        let mut outcome = VariableKind::Local;
        let object_var = String::from_str(name).eq(&String::from_str("self")) || String::from_str(name).eq(
            &String::from_str("super"),
        ) || String::from_str(name).eq(&String::from_str("root"));
        let mut i = self.envs.len();
        assert(self@.subrange(0, i as int) =~= self@);
        while i > 0
            invariant
                i <= self@.len(),
                object_var == is_object_var(name@),
                lookup_kind(self@, name@, VariableKind::Local) == lookup_kind(self@.subrange(0, i as int), name@, outcome),
            decreases i,
        {
            let env = &self.envs[i - 1];
            assert(self@.subrange(0, i as int).drop_last() =~= self@.subrange(0, i - 1));
            assert(self@.subrange(0, i as int).last() == env@);
            if env.kind == EnvKind::Object && object_var {
                return Some(outcome);
            }
            if env.binds(name) && env.kind != EnvKind::Global {
                return Some(outcome);
            }
            if env.kind == EnvKind::Function {
                outcome = VariableKind::Free;
            }
            i = i - 1;
        }
        None
    }
}

} // verus!
