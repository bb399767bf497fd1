//! Problems found in programs, with their spans and notes.
use crate::ast::{SExpId, ASTS};
use crate::source::{Sources, Span};
use vstd::prelude::*;

verus! {

/// An additional note of a diagnostic, placed at a span or standing alone.
pub struct Extra {
    pub message: String,
    pub span: Option<Span>,
}

/// One problem found in a program, with its notes.
pub struct Diag {
    pub span: Span,
    pub message: String,
    pub extras: Vec<Extra>,
}

/// A diagnostic as plain values: its span, its message, and each note with its span.
pub type DiagView = (Span, Seq<char>, Seq<(Seq<char>, Option<Span>)>);

impl View for Extra {
    type V = (Seq<char>, Option<Span>);

    open spec fn view(&self) -> Self::V {
        (self.message@, self.span)
    }
}

impl View for Diag {
    type V = DiagView;

    open spec fn view(&self) -> Self::V {
        (self.span, self.message@, self.extras@.map_values(|e: Extra| e@))
    }
}

impl Diag {
    /// Adds a note to this diagnostic.
    pub fn add_extra(&mut self, message: String, span: Option<Span>)
        ensures
            final(self)@ == (old(self)@.0, old(self)@.1, old(self)@.2.push((message@, span))),
    {
        self.extras.push(Extra { message, span });
        assert(self@.2 =~= old(self)@.2.push((message@, span)));
    }
}

/// All problems found so far, in the order they were found.
pub struct Diagnostics {
    pub diags: Vec<Diag>,
}

impl View for Diagnostics {
    type V = Seq<DiagView>;

    open spec fn view(&self) -> Self::V {
        self.diags@.map_values(|d: Diag| d@)
    }
}

impl Diagnostics {
    /// No diagnostics.
    pub fn new() -> (res: Self)
        ensures
            res@ == Seq::<DiagView>::empty(),
    {
        let res = Diagnostics { diags: Vec::new() };
        assert(res@ =~= Seq::<DiagView>::empty());
        res
    }

    /// Records a problem at `span`, without notes.
    pub fn add(&mut self, span: Span, message: String)
        ensures
            final(self)@ == old(self)@.push((span, message@, Seq::empty())),
    {
        self.diags.push(Diag { span, message, extras: Vec::new() });
        proof {
            let d = self.diags@[self.diags@.len() - 1];
            assert(d.extras@.map_values(|e: Extra| e@) =~= Seq::<(Seq<char>, Option<Span>)>::empty());
            assert(self@ =~= old(self)@.push((span, message@, Seq::empty())));
        }
    }

    /// Records a problem at `span` with two notes.
    pub fn add_with_extras(
        &mut self,
        span: Span,
        message: String,
        first: (String, Option<Span>),
        second: (String, Option<Span>),
    )
        ensures
            final(self)@ == old(self)@.push(
                (span, message@, seq![(first.0@, first.1), (second.0@, second.1)]),
            ),
    {
        let mut extras: Vec<Extra> = Vec::new();
        let f1 = first.1;
        let f2 = second.1;
        extras.push(Extra { message: first.0, span: f1 });
        extras.push(Extra { message: second.0, span: f2 });
        self.diags.push(Diag { span, message, extras });
        proof {
            let d = self.diags@[self.diags@.len() - 1];
            assert(d.extras@.map_values(|e: Extra| e@) =~= seq![(first.0@, first.1), (second.0@, second.1)]);
            assert(self@ =~= old(self)@.push(
                (span, message@, seq![(first.0@, first.1), (second.0@, second.1)]),
            ));
        }
    }

    /// Whether any problem was recorded.
    pub fn has_errors(&self) -> (res: bool)
        ensures
            res == (self@.len() > 0),
    {
        self.diags.len() > 0
    }
}

/// Once a diagnostic was added, there are errors, and the diagnostics added
/// before stay as they were.
pub proof fn law_errors_after_add(before: Seq<DiagView>, after: Seq<DiagView>, d: DiagView)
    requires
        after == before.push(d),
    ensures
        after.len() > 0,
        after.last() == d,
        after.drop_last() == before,
{
    assert(after.drop_last() =~= before);
}

/// The plain listing of diagnostics: for each, in order, the name of the file
/// it belongs to, a colon, its message, and a line break.
pub open spec fn printed(diags: Seq<DiagView>, sources: Seq<(Seq<char>, Seq<char>)>) -> Seq<char>
    decreases diags.len(),
{
    if diags.len() == 0 {
        Seq::empty()
    } else {
        let d = diags.last();
        printed(diags.drop_last(), sources) + sources[d.0.source_id.index() as int].0 + ": "@ + d.1 + "\n"@
    }
}

impl Diagnostics {
    /// Each diagnostic on a line of its own, after the name of its file.
    pub fn print(self, sources: &Sources) -> (res: String)
        requires
            forall|i: int| 0 <= i < self@.len() ==> sources.contains_id(#[trigger] self@[i].0.source_id),
        ensures
            res@ == printed(self@, sources@),
    {
        let mut out = String::new();
        let n = self.diags.len();
        for i in 0..n
            invariant
                n == self@.len(),
                forall|j: int| 0 <= j < self@.len() ==> sources.contains_id(#[trigger] self@[j].0.source_id),
                out@ == printed(self@.subrange(0, i as int), sources@),
        {
            proof {
                assert(self@.subrange(0, i + 1).drop_last() =~= self@.subrange(0, i as int));
                assert(self@[i as int] == self.diags@[i as int]@);
                assert(sources.contains_id(self@[i as int].0.source_id));
            }
            let diag = &self.diags[i];
            let source = sources.get(diag.span.source_id);
            out.append(source.filename.as_str());
            out.append(": ");
            out.append(diag.message.as_str());
            out.append("\n");
        }
        assert(self@.subrange(0, n as int) =~= self@);
        out
    }

    /// Adds a diagnostic with the span of the S-expression `sexp`.
    pub fn add_sexp(&mut self, asts: &ASTS, sexp: SExpId, message: String)
        requires
            asts.contains(sexp),
        ensures
            final(self)@ == old(self)@.push(
                (asts.arenas()[sexp.gen()].node_views()[sexp.index() as int].1, message@, Seq::empty()),
            ),
    {
        let span = asts.get(sexp).span;
        self.add(span, message);
    }
}

} // verus!
