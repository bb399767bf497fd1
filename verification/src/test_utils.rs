//! Helpers for running the language's examples: the log level asked for by
//! the flags of an example.
use vstd::prelude::*;

verus! {

/// How much the log shows, from the most to the least.
#[derive(Clone, Copy, Debug, PartialEq, Eq, Structural)]
pub enum Level {
    Trace,
    Debug,
    Info,
    Warn,
    Error,
}

/// The level asked for by the flags `args`: the first of `trace`, `debug`,
/// `info`, `warn` and `error` among them, else `info`.
pub open spec fn chosen_level(args: Seq<Seq<char>>) -> Level {
    if args.contains("trace"@) {
        Level::Trace
    } else if args.contains("debug"@) {
        Level::Debug
    } else if args.contains("info"@) {
        Level::Info
    } else if args.contains("warn"@) {
        Level::Warn
    } else if args.contains("error"@) {
        Level::Error
    } else {
        Level::Info
    }
}

/// The texts of the flags.
pub open spec fn flag_texts(args: Seq<&str>) -> Seq<Seq<char>> {
    args.map_values(|a: &str| a@)
}

/// Whether `name` is among the flags.
fn has_flag(args: &[&str], name: &str) -> (res: bool)
    ensures
        res == flag_texts(args@).contains(name@),
{
    let wanted = String::from_str(name);
    let n = args.len();
    let mut i: usize = 0;
    while i < n
        invariant
            i <= n,
            n == args@.len(),
            wanted@ == name@,
            forall|j: int| 0 <= j < i ==> args@[j]@ != name@,
        decreases n - i,
    {
        if String::from_str(args[i]).eq(&wanted) {
            assert(flag_texts(args@)[i as int] == name@);
            return true;
        }
        i = i + 1;
    }
    assert forall|j: int| 0 <= j < flag_texts(args@).len() implies flag_texts(args@)[j] != name@ by {
        assert(flag_texts(args@)[j] == args@[j]@);
    }
    false
}

/// The log level asked for by the flags `args`.
pub fn level_from_args(args: &[&str]) -> (res: Level)
    ensures
        res == chosen_level(flag_texts(args@)),
{
    if has_flag(args, "trace") {
        Level::Trace
    } else if has_flag(args, "debug") {
        Level::Debug
    } else if has_flag(args, "info") {
        Level::Info
    } else if has_flag(args, "warn") {
        Level::Warn
    } else if has_flag(args, "error") {
        Level::Error
    } else {
        Level::Info
    }
}

} // verus!
