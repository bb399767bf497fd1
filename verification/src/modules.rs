//! Where modules come from: a table from module paths to loaded sources.
use crate::source::{Source, SourceId, Sources};
use vstd::prelude::*;

verus! {

/// A provider of module sources by path.
pub trait ModuleProvider {
    fn sources_mut(&mut self) -> &mut Sources;

    fn sources(&self) -> &Sources;

    fn get_module(&mut self, path: &str) -> Option<SourceId>;

    fn get_source(&self, source_id: SourceId) -> Option<&Source>;
}

/// Modules held in memory: each path with the id of its source.
pub struct MemoryModules {
    pub modules: Vec<(String, SourceId)>,
    pub sources: Sources,
}

/// The source id given for `path`: the last entry for it.
pub open spec fn module_of(modules: Seq<(String, SourceId)>, path: Seq<char>) -> Option<SourceId>
    decreases modules.len(),
{
    if modules.len() == 0 {
        None
    } else if modules.last().0@ == path {
        Some(modules.last().1)
    } else {
        module_of(modules.drop_last(), path)
    }
}

/// The source id given for `path` in `modules`: that of the last entry for it.
fn find_module(modules: &Vec<(String, SourceId)>, path: &str) -> (res: Option<SourceId>)
    ensures
        res == module_of(modules@, path@),
{
    let wanted = String::from_str(path);
    let mut i = modules.len();
    assert(modules@.subrange(0, i as int) =~= modules@);
    while i > 0
        invariant
            wanted@ == path@,
            i <= modules@.len(),
            module_of(modules@, path@) == module_of(modules@.subrange(0, i as int), path@),
        decreases i,
    {
        assert(modules@.subrange(0, i as int).drop_last() =~= modules@.subrange(0, i - 1));
        if modules[i - 1].0.eq(&wanted) {
            return Some(modules[i - 1].1);
        }
        i = i - 1;
    }
    None
}

impl MemoryModules {
    /// No modules and no sources.
    pub fn new() -> (res: Self)
        ensures
            res.modules@.len() == 0,
            res.sources@.len() == 0,
    {
        MemoryModules { modules: Vec::new(), sources: Sources::new() }
    }

    /// The source id of the module at `path`.
    pub fn find(&self, path: &str) -> (res: Option<SourceId>)
        ensures
            res == module_of(self.modules@, path@),
    {
        find_module(&self.modules, path)
    }

    /// Registers the source `source` as the module at `path`, with that path as its name.
    pub fn add_module(&mut self, path: &str, source: &str) -> (res: SourceId)
        requires
            old(self).sources@.len() < usize::MAX,
        ensures
            final(self).sources@ == old(self).sources@.push((path@, source@)),
            final(self).modules@ == old(self).modules@.push((final(self).modules@.last().0, res)),
            final(self).modules@.last().0@ == path@,
            res.index() == old(self).sources@.len(),
            module_of(final(self).modules@, path@) == Some(res),
    {
        let id = self.sources.add(path, source);
        self.modules.push((String::from_str(path), id));
        id
    }
}

impl ModuleProvider for MemoryModules {
    fn sources_mut(&mut self) -> (res: &mut Sources)
        ensures
            *res == old(self).sources,
            final(self).sources == *final(res),
            final(self).modules == old(self).modules,
    {
        &mut self.sources
    }

    fn sources(&self) -> (res: &Sources)
        ensures
            *res == self.sources,
    {
        &self.sources
    }

    fn get_module(&mut self, path: &str) -> (res: Option<SourceId>)
        ensures
            res == module_of(old(self).modules@, path@),
            final(self).modules == old(self).modules,
            final(self).sources == old(self).sources,
    {
        self.find(path)
    }

    fn get_source(&self, source_id: SourceId) -> (res: Option<&Source>)
        ensures
            self.sources.contains_id(source_id) ==> (res matches Some(s) && (s.filename@, s.source@)
                == self.sources@[source_id.index() as int]),
            !self.sources.contains_id(source_id) ==> res is None,
    {
        if source_id.below(self.sources.len()) {
            Some(self.sources.get(source_id))
        } else {
            None
        }
    }
}

/// Modules loaded from files: the sources, and each path with the id of the
/// source read from it. Reading a file that is not known yet is up to the caller,
/// which then records it with `record`.
pub struct FileModules {
    sources: Sources,
    path_to_id: Vec<(String, SourceId)>,
}

impl FileModules {
    /// The paths known, each with the id of its source; a later entry for a path
    /// takes the place of an earlier one.
    pub closed spec fn paths(&self) -> Seq<(String, SourceId)> {
        self.path_to_id@
    }

    /// The sources.
    pub closed spec fn sources_spec(&self) -> Sources {
        self.sources
    }

    /// Modules for the sources `sources`, each known under its file name.
    pub fn from_sources(sources: Sources) -> (res: Self)
        ensures
            res.sources_spec() == sources,
            res.paths().len() == sources@.len(),
            forall|i: int|
                0 <= i < res.paths().len() ==> (#[trigger] res.paths()[i]).0@ == sources@[i].0 && res.paths()[i].1.index()
                    == i,
    {
        let mut path_to_id: Vec<(String, SourceId)> = Vec::new();
        let listed = sources.iter_with_id();
        let n = listed.len();
        for i in 0..n
            invariant
                n == listed@.len(),
                n == sources@.len(),
                path_to_id@.len() == i,
                forall|j: int|
                    0 <= j < listed@.len() ==> {
                        &&& (#[trigger] listed@[j]).0.index() == j
                        &&& (listed@[j].1.filename@, listed@[j].1.source@) == sources@[j]
                    },
                forall|j: int|
                    0 <= j < i ==> (#[trigger] path_to_id@[j]).0@ == sources@[j].0 && path_to_id@[j].1.index() == j,
        {
            let (id, src) = listed[i];
            path_to_id.push((src.filename.clone(), id));
        }
        FileModules { sources, path_to_id }
    }

    /// The source id of the module at `path`, if it was loaded.
    pub fn find(&self, path: &str) -> (res: Option<SourceId>)
        ensures
            res == module_of(self.paths(), path@),
    {
        find_module(&self.path_to_id, path)
    }

    /// Records `text`, read from the file at `path`, as the module at `path`.
    pub fn record(&mut self, path: &str, text: &str) -> (res: SourceId)
        requires
            old(self).sources_spec()@.len() < usize::MAX,
        ensures
            final(self).sources_spec()@ == old(self).sources_spec()@.push((path@, text@)),
            final(self).paths().drop_last() == old(self).paths(),
            final(self).paths().last().0@ == path@,
            final(self).paths().last().1 == res,
            res.index() == old(self).sources_spec()@.len(),
            module_of(final(self).paths(), path@) == Some(res),
    {
        let id = self.sources.add(path, text);
        self.path_to_id.push((String::from_str(path), id));
        assert(self.paths().drop_last() =~= old(self).paths());
        id
    }

    /// The sources.
    pub fn sources(&self) -> (res: &Sources)
        ensures
            *res == self.sources_spec(),
    {
        &self.sources
    }

    /// The sources, to add to.
    pub fn sources_mut(&mut self) -> (res: &mut Sources)
        ensures
            *res == old(self).sources_spec(),
            final(self).sources_spec() == *final(res),
            final(self).paths() == old(self).paths(),
    {
        &mut self.sources
    }

    /// The source `source_id`, if it is one of these sources.
    pub fn get_source(&self, source_id: SourceId) -> (res: Option<&Source>)
        ensures
            self.sources_spec().contains_id(source_id) ==> (res matches Some(s) && (s.filename@, s.source@)
                == self.sources_spec()@[source_id.index() as int]),
            !self.sources_spec().contains_id(source_id) ==> res is None,
    {
        if source_id.below(self.sources.len()) {
            Some(self.sources.get(source_id))
        } else {
            None
        }
    }
}

} // verus!
