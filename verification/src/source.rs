//! Sources, the ids they are known by, and spans within them.
use vstd::prelude::*;

verus! {

/// A position in a text: zero-based row and column.
#[derive(Clone, Copy, Debug, PartialEq, Eq, Structural)]
pub struct Point {
    pub row: usize,
    pub column: usize,
}

/// A region of a text, in bytes and in rows and columns.
#[derive(Clone, Copy, Debug, PartialEq, Eq, Structural)]
pub struct Range {
    pub start_byte: usize,
    pub end_byte: usize,
    pub start_point: Point,
    pub end_point: Point,
}

/// The identifier of a source registered in a [`Sources`] store.
#[derive(Clone, Copy, Debug, PartialEq, Eq, Hash, Structural)]
pub struct SourceId(usize);

impl SourceId {
    /// The position of the source in the store that issued this id.
    pub closed spec fn index(self) -> nat {
        self.0 as nat
    }

    /// The position of the source, as a machine integer.
    pub closed spec fn raw_spec(self) -> usize {
        self.0
    }

    /// The position of the source, as a machine integer.
    pub fn raw(self) -> (res: usize)
        ensures
            res == self.raw_spec(),
            res == self.index(),
    {
        self.0
    }

    /// Whether this id is below `len`.
    pub fn below(self, len: usize) -> (res: bool)
        ensures
            res == (self.index() < len),
    {
        self.0 < len
    }
}

/// One source text and the name it was loaded under.
#[derive(Debug, Clone)]
pub struct Source {
    pub filename: String,
    pub source: String,
}

/// All sources known to a session, in the order they were added.
#[derive(Debug)]
pub struct Sources {
    sources: Vec<Source>,
}

impl View for Sources {
    /// Each source as its file name and its text.
    type V = Seq<(Seq<char>, Seq<char>)>;

    closed spec fn view(&self) -> Self::V {
        self.sources@.map_values(|s: Source| (s.filename@, s.source@))
    }
}

impl Sources {
    /// Whether `id` names a source of this store.
    pub open spec fn contains_id(&self, id: SourceId) -> bool {
        id.index() < self@.len()
    }

    /// An empty store.
    pub fn new() -> (res: Self)
        ensures
            res@ == Seq::<(Seq<char>, Seq<char>)>::empty(),
    {
        let res = Sources { sources: Vec::new() };
        assert(res@ =~= Seq::<(Seq<char>, Seq<char>)>::empty());
        res
    }

    /// A store that holds one source, and the id of that source.
    pub fn single(filename: &str, source: &str) -> (res: (Self, SourceId))
        ensures
            res.0@ == seq![(filename@, source@)],
            res.1.index() == 0,
    {
        let mut sources = Self::new();
        let id = sources.add(filename, source);
        assert(sources@ =~= seq![(filename@, source@)]);
        (sources, id)
    }

    /// Registers a source; its id is its position, the number of sources before it.
    pub fn add(&mut self, filename: &str, source: &str) -> (id: SourceId)
        requires
            old(self)@.len() < usize::MAX,
        ensures
            final(self)@ == old(self)@.push((filename@, source@)),
            id.index() == old(self)@.len(),
    {
        let id = SourceId(self.sources.len());
        self.sources.push(Source { filename: filename.to_string(), source: source.to_string() });
        assert(self@ =~= old(self)@.push((filename@, source@)));
        id
    }

    /// The source that `id` names.
    pub fn get(&self, id: SourceId) -> (res: &Source)
        requires
            self.contains_id(id),
        ensures
            (res.filename@, res.source@) == self@[id.index() as int],
    {
        &self.sources[id.0]
    }

    /// The number of sources.
    pub fn len(&self) -> (res: usize)
        ensures
            res == self@.len(),
    {
        self.sources.len()
    }

    /// All sources, in the order they were added.
    pub fn iter(&self) -> (res: &[Source])
        ensures
            res@.map_values(|s: Source| (s.filename@, s.source@)) == self@,
    {
        self.sources.as_slice()
    }

    /// All sources with their ids, in the order they were added.
    pub fn iter_with_id(&self) -> (res: Vec<(SourceId, &Source)>)
        ensures
            res@.len() == self@.len(),
            forall|i: int|
                0 <= i < res@.len() ==> {
                    &&& (#[trigger] res@[i]).0.index() == i
                    &&& (res@[i].1.filename@, res@[i].1.source@) == self@[i]
                },
    {
        let mut res: Vec<(SourceId, &Source)> = Vec::new();
        let n = self.sources.len();
        for i in 0..n
            invariant
                n == self@.len(),
                res@.len() == i,
                forall|j: int|
                    0 <= j < i ==> {
                        &&& (#[trigger] res@[j]).0.index() == j
                        &&& (res@[j].1.filename@, res@[j].1.source@) == self@[j]
                    },
        {
            res.push((SourceId(i), &self.sources[i]));
        }
        res
    }
}

/// After any number of further `add`s, each id keeps naming the source it
/// named, the new ids name the added sources in the order they were added, and
/// the store lists its sources in that order.
pub proof fn law_get_after_adds(
    before: Sources,
    after: Sources,
    added: Seq<(Seq<char>, Seq<char>)>,
    id: SourceId,
)
    requires
        after@ == before@ + added,
    ensures
        after@.len() == before@.len() + added.len(),
        before.contains_id(id) ==> after.contains_id(id) && after@[id.index() as int] == before@[id.index() as int],
        before@.len() <= id.index() < after@.len() ==> after@[id.index() as int] == added[id.index() - before@.len()],
        after@.subrange(before@.len() as int, after@.len() as int) == added,
{
    assert(after@.subrange(before@.len() as int, after@.len() as int) =~= added);
}

/// The id that `add` returns names the source just added, and every id issued
/// before it keeps naming the source it named.
pub proof fn law_get_after_add(
    before: Sources,
    after: Sources,
    id: SourceId,
    filename: Seq<char>,
    text: Seq<char>,
    earlier: SourceId,
)
    requires
        after@ == before@.push((filename, text)),
        id.index() == before@.len(),
    ensures
        after.contains_id(id),
        after@[id.index() as int] == (filename, text),
        before.contains_id(earlier) ==> after.contains_id(earlier) && after@[earlier.index() as int]
            == before@[earlier.index() as int],
{
}

/// A place in a source: a range and the source it belongs to.
#[derive(Debug, Clone, Copy, PartialEq, Eq, Structural)]
pub struct Span {
    pub range: Range,
    pub source_id: SourceId,
}

/// The range that covers nothing at the start of a text.
pub open spec fn spec_default_range() -> Range {
    Range {
        start_byte: 0,
        end_byte: 0,
        start_point: Point { row: 0, column: 0 },
        end_point: Point { row: 0, column: 0 },
    }
}

/// The range that covers nothing at the start of a text.
pub fn default_range() -> (res: Range)
    ensures
        res == spec_default_range(),
{
    Range {
        start_byte: 0,
        end_byte: 0,
        start_point: Point { row: 0, column: 0 },
        end_point: Point { row: 0, column: 0 },
    }
}

impl Span {
    /// The span of `range` in the source `source_id`.
    pub fn new(range: Range, source_id: SourceId) -> (res: Self)
        ensures
            res.range == range,
            res.source_id == source_id,
    {
        Span { range, source_id }
    }

    /// An empty span at the start of the source `source_id`.
    pub fn new_empty(source_id: SourceId) -> (res: Self)
        ensures
            res.range == spec_default_range(),
            res.source_id == source_id,
    {
        Span { range: default_range(), source_id }
    }
}

/// Anything that knows the span it came from.
pub trait WithSpan {
    fn span(&self) -> Span;
}

impl WithSpan for Span {
    fn span(&self) -> (res: Span)
        ensures
            res == *self,
    {
        *self
    }
}

/// A value together with the span it came from.
#[derive(Debug, Clone)]
pub struct Spanned<T> {
    pub item: T,
    pub span: Span,
}

impl<T> Spanned<T> {
    /// The item carried.
    pub open spec fn item(&self) -> T {
        self.item
    }

    /// Attaches `span` to `item`.
    pub fn new(item: T, span: Span) -> (res: Self)
        ensures
            res.item() == item,
            res.span == span,
    {
        Spanned { item, span }
    }

    /// The item, without its span.
    pub fn inner(self) -> (res: T)
        ensures
            res == self.item(),
    {
        self.item
    }

    /// The item, borrowed.
    pub fn get(&self) -> (res: &T)
        ensures
            *res == self.item(),
    {
        &self.item
    }

    /// Applies `f` to the item and keeps the span.
    pub fn map<O, F: FnOnce(T) -> O>(self, f: F) -> (res: Spanned<O>)
        requires
            f.requires((self.item(),)),
        ensures
            f.ensures((self.item(),), res.item()),
            res.span == self.span,
    {
        let item = f(self.item);
        Spanned { item, span: self.span }
    }
}

impl<T> Spanned<Option<T>> {
    /// `Some` with the span kept where the item is `Some`, else `None`.
    pub fn transpose(self) -> (res: Option<Spanned<T>>)
        ensures
            self.item() is None ==> res is None,
            self.item() matches Some(x) ==> res matches Some(r) && r.item() == x && r.span
                == self.span,
    {
        match self.item {
            Some(item) => Some(Spanned { item, span: self.span }),
            None => None,
        }
    }
}

impl<T> WithSpan for Spanned<T> {
    fn span(&self) -> (res: Span)
        ensures
            res == self.span,
    {
        self.span
    }
}

} // verus!
