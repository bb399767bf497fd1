//! The pieces of the native-function interface that do not depend on the
//! runtime: overload sets, named function wrappers, rest arguments, markers,
//! and the checks on the number of arguments.
use crate::text::{decimal, push_decimal};
use std::marker::PhantomData;
use vstd::prelude::*;

verus! {

/// A set of native functions tried in order, under an optional name.
pub struct Overloaded<T> {
    fns: T,
    name: Option<&'static str>,
}

impl<T> Overloaded<T> {
    /// The functions.
    pub closed spec fn fns(&self) -> T {
        self.fns
    }

    /// The name, where one was given.
    pub closed spec fn name(&self) -> Option<&'static str> {
        self.name
    }

    /// The set `fns`, without a name yet.
    pub fn new(fns: T) -> (res: Self)
        ensures
            res.fns() == fns,
            res.name() is None,
    {
        Self { fns, name: None }
    }

    /// Gives the set a name.
    pub fn set_name(&mut self, name: &'static str)
        ensures
            final(self).fns() == old(self).fns(),
            final(self).name() == Some(name),
    {
        self.name = Some(name);
    }
}

/// A native function of the shape `Ctx`, under an optional name.
pub struct FnLike<F, Ctx> {
    f: F,
    name: Option<&'static str>,
    marker: PhantomData<Ctx>,
}

impl<F, Ctx> FnLike<F, Ctx> {
    /// The function.
    pub closed spec fn func(&self) -> F {
        self.f
    }

    /// The name, where one was given.
    pub closed spec fn name(&self) -> Option<&'static str> {
        self.name
    }

    /// The function `f` in a box, without a name yet.
    pub fn box_new(f: F) -> (res: Box<Self>)
        ensures
            res.func() == f,
            res.name() is None,
    {
        Box::new(Self { f, name: None, marker: PhantomData })
    }

    /// Gives the function the name `name`.
    pub fn set_name(&mut self, name: &'static str)
        ensures
            final(self).func() == old(self).func(),
            final(self).name() == Some(name),
    {
        self.name = Some(name);
    }

    /// The same function under the name `name`.
    pub fn with_name(self, name: &'static str) -> (res: Self)
        ensures
            res.func() == self.func(),
            res.name() == Some(name),
    {
        Self { f: self.f, name: Some(name), marker: PhantomData }
    }
}

impl<F1, C1> Overloaded<(FnLike<F1, C1>,)> {
    /// Names the set and its function `name`.
    pub fn with_name(&mut self, name: &'static str)
        ensures
            final(self).name() == Some(name),
            final(self).fns().0.name() == Some(name),
            final(self).fns().0.func() == old(self).fns().0.func(),
    {
        self.name = Some(name);
        self.fns.0.set_name(name);
    }
}

impl<F1, C1, F2, C2> Overloaded<(FnLike<F1, C1>, FnLike<F2, C2>)> {
    /// Names the set and both its functions `name`.
    pub fn with_name(&mut self, name: &'static str)
        ensures
            final(self).name() == Some(name),
            final(self).fns().0.name() == Some(name),
            final(self).fns().0.func() == old(self).fns().0.func(),
            final(self).fns().1.name() == Some(name),
            final(self).fns().1.func() == old(self).fns().1.func(),
    {
        self.name = Some(name);
        self.fns.0.set_name(name);
        self.fns.1.set_name(name);
    }
}

/// The arguments that remain after the fixed ones.
pub struct Rest<T> {
    values: Vec<T>,
}

impl<T> View for Rest<T> {
    type V = Seq<T>;

    closed spec fn view(&self) -> Seq<T> {
        self.values@
    }
}

/// The message for `got` arguments where exactly `expected` were wanted.
pub open spec fn arity_message(expected: nat, got: nat) -> Seq<char> {
    "Expected "@ + decimal(expected) + " arguments, got "@ + decimal(got)
}

/// The message for `got` arguments where `expected` or more were wanted.
pub open spec fn at_least_arity_message(expected: nat, got: nat) -> Seq<char> {
    "Expected at least "@ + decimal(expected) + " arguments, got "@ + decimal(got)
}

impl<T> Rest<T> {
    /// The arguments `values`.
    pub fn new(values: Vec<T>) -> (res: Self)
        ensures
            res@ == values@,
    {
        Self { values }
    }

    /// The arguments, as a vector.
    pub fn into_vec(self) -> (res: Vec<T>)
        ensures
            res@ == self@,
    {
        self.values
    }

    /// The number of arguments.
    pub fn len(&self) -> (res: usize)
        ensures
            res == self@.len(),
    {
        self.values.len()
    }

    /// The first `N` arguments and the rest, or the message when there are fewer than `N`.
    pub fn with_arity_and_rest<const N: usize>(self) -> (res: Result<(Vec<T>, Rest<T>), String>)
        ensures
            self@.len() >= N ==> (res matches Ok(p) && p.0@ == self@.subrange(0, N as int) && p.1@
                == self@.subrange(N as int, self@.len() as int)),
            self@.len() < N ==> (res matches Err(m) && m@ == at_least_arity_message(N as nat, self@.len())),
    {
        let mut values = self.values;
        match assert_at_least_arity(N, &values) {
            Err(m) => Err(m),
            Ok(()) => {
                let rest = values.split_off(N);
                Ok((values, Rest { values: rest }))
            },
        }
    }

    /// Exactly `N` arguments, or the message when there are not.
    pub fn with_arity<const N: usize>(self) -> (res: Result<Vec<T>, String>)
        ensures
            self@.len() == N ==> (res matches Ok(v) && v@ == self@),
            self@.len() != N ==> (res matches Err(m) && m@ == arity_message(N as nat, self@.len())),
    {
        match assert_arity(N, &self.values) {
            Err(m) => Err(m),
            Ok(()) => Ok(self.values),
        }
    }
}

/// Marks a native function whose arguments carry their type parameters.
pub struct WithParams;

/// Marks a native function that takes the runtime as its first argument.
pub struct WithRuntime;

/// Marks a native function whose last argument collects the remaining ones.
pub struct WithRest;

/// A value taken through a constructor call where it is a constructor.
pub struct CalledConstructor<T>(pub T);

/// Marks a conversion that calls constructors.
pub struct WithConstructor;

/// Marks a conversion that leaves constructors alone.
pub struct WithoutConstructor;

/// A value evaluated eagerly and recursively before conversion.
pub struct EagerRec<T, Marker> {
    pub value: T,
    pub marker: PhantomData<Marker>,
}

impl<T, Marker> EagerRec<T, Marker> {
    /// Wraps `value`.
    pub fn new(value: T) -> (res: Self)
        ensures
            res.value == value,
    {
        Self { value, marker: PhantomData }
    }
}

/// A keyword, by its name.
pub struct Keyword(pub String);

/// Whether there are exactly `len` values.
pub fn has_arity<T>(len: usize, values: &[T]) -> (res: bool)
    ensures
        res == (values@.len() == len),
{
    values.len() == len
}

/// Whether there are `len` values or more.
pub fn has_at_least_arity<T>(len: usize, values: &[T]) -> (res: bool)
    ensures
        res == (values@.len() >= len),
{
    values.len() >= len
}

/// Succeeds where there are exactly `len` values, else gives the message.
pub fn assert_arity<T>(len: usize, values: &[T]) -> (res: Result<(), String>)
    ensures
        values@.len() == len ==> res is Ok,
        values@.len() != len ==> (res matches Err(m) && m@ == arity_message(len as nat, values@.len())),
{
    if !has_arity(len, values) {
        let mut m = String::from_str("Expected ");
        push_decimal(&mut m, len);
        m.append(" arguments, got ");
        push_decimal(&mut m, values.len());
        return Err(m);
    }
    Ok(())
}

/// Succeeds where there are `len` values or more, else gives the message.
pub fn assert_at_least_arity<T>(len: usize, values: &[T]) -> (res: Result<(), String>)
    ensures
        values@.len() >= len ==> res is Ok,
        values@.len() < len ==> (res matches Err(m) && m@ == at_least_arity_message(len as nat, values@.len())),
{
    if !has_at_least_arity(len, values) {
        let mut m = String::from_str("Expected at least ");
        push_decimal(&mut m, len);
        m.append(" arguments, got ");
        push_decimal(&mut m, values.len());
        return Err(m);
    }
    Ok(())
}

} // verus!
