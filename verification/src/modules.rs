//! The registry of imported modules: each normalized path gets one id, the
//! index at which it was first registered.

use vstd::prelude::*;

verus! {

/// Whether no path occurs twice.
pub open spec fn distinct_paths(s: Seq<Seq<char>>) -> bool {
    forall|i: int, j: int| 0 <= i < j < s.len() ==> s[i] != s[j]
}

/// The paths of the modules imported so far, in the order they were first
/// imported; a module's id is the index of its path.
pub struct ModuleRegistry {
    paths: Vec<String>,
}

impl View for ModuleRegistry {
    type V = Seq<Seq<char>>;

    closed spec fn view(&self) -> Seq<Seq<char>> {
        self.paths@.map_values(|p: String| p@)
    }
}

impl ModuleRegistry {
    #[verifier::type_invariant]
    spec fn paths_distinct(&self) -> bool {
        distinct_paths(self@)
    }

    /// A registry without modules.
    pub fn new() -> (r: ModuleRegistry)
        ensures
            r@ == Seq::<Seq<char>>::empty(),
    {
        let r = ModuleRegistry { paths: Vec::new() };
        proof {
            assert(r@ =~= Seq::<Seq<char>>::empty());
        }
        r
    }

    /// The number of modules registered.
    pub fn len(&self) -> (r: usize)
        ensures
            r == self@.len(),
    {
        self.paths.len()
    }

    /// The id of the module at `path`, if it is registered.
    pub fn lookup(&self, path: &str) -> (r: Option<usize>)
        ensures
            r is None <==> !self@.contains(path@),
            r matches Some(i) ==> i < self@.len() && self@[i as int] == path@,
    {
        let mut i: usize = 0;
        while i < self.paths.len()
            invariant
                i <= self.paths@.len(),
                forall|j: int| 0 <= j < i ==> self@[j] != path@,
            decreases self.paths@.len() - i,
        {
            if crate::value::str_eq(self.paths[i].as_str(), path) {
                proof {
                    assert(self@[i as int] == path@);
                    assert(self@.contains(path@));
                }
                return Some(i);
            }
            i = i + 1;
        }
        None
    }

    /// The path of the module with id `id`, if there is one.
    pub fn path_of(&self, id: u32) -> (r: Option<String>)
        ensures
            r is None <==> id >= self@.len(),
            r matches Some(p) ==> p@ == self@[id as int],
    {
        if (id as usize) < self.paths.len() {
            Some(self.paths[id as usize].clone())
        } else {
            None
        }
    }

    /// The id of the module at `path`, and whether it is new: a path met
    /// before keeps its id and leaves the registry as it was; a new path is
    /// registered under the next id. Ids are `u32`, so the registry holds
    /// fewer than `u32::MAX` modules.
    pub fn lookup_or_register(&mut self, path: String) -> (r: (u32, bool))
        requires
            old(self)@.len() < u32::MAX,
        ensures
            old(self)@.contains(path@) ==> !r.1 && r.0 < old(self)@.len() && old(self)@[r.0 as int] == path@
                && final(self)@ == old(self)@,
            !old(self)@.contains(path@) ==> r.1 && r.0 == old(self)@.len() && final(self)@ == old(self)@.push(path@),
            distinct_paths(final(self)@),
    {
        proof {
            use_type_invariant(&*self);
        }
        match self.lookup(path.as_str()) {
            Some(i) => (i as u32, false),
            None => {
                let id = self.paths.len() as u32;
                let ghost p = path@;
                let mut paths: Vec<String> = Vec::new();
                std::mem::swap(&mut paths, &mut self.paths);
                paths.push(path);
                proof {
                    assert(paths@.map_values(|q: String| q@) =~= old(self)@.push(p));
                }
                self.paths = paths;
                proof {
                    assert(self@ =~= old(self)@.push(p));
                    assert forall|i: int, j: int| 0 <= i < j < self@.len() implies self@[i] != self@[j] by {
                        if j == old(self)@.len() {
                            assert(old(self)@[i] != p);
                        }
                    }
                }
                (id, true)
            },
        }
    }
}

} // verus!
