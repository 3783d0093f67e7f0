use vstd::prelude::*;

verus! {

/// One component of a file path.
#[derive(Debug)]
pub enum PathComponent {
    /// A Windows path prefix such as `C:`.
    Prefix(String),
    RootDir,
    CurDir,
    ParentDir,
    Normal(String),
}

/// The view of a path component.
pub enum PathComponentView {
    Prefix(Seq<char>),
    RootDir,
    CurDir,
    ParentDir,
    Normal(Seq<char>),
}

impl View for PathComponent {
    type V = PathComponentView;

    open spec fn view(&self) -> PathComponentView {
        match self {
            PathComponent::Prefix(s) => PathComponentView::Prefix(s@),
            PathComponent::RootDir => PathComponentView::RootDir,
            PathComponent::CurDir => PathComponentView::CurDir,
            PathComponent::ParentDir => PathComponentView::ParentDir,
            PathComponent::Normal(s) => PathComponentView::Normal(s@),
        }
    }
}

/// The views of path components.
pub open spec fn component_views(s: Seq<PathComponent>) -> Seq<PathComponentView> {
    s.map_values(|c: PathComponent| c@)
}

/// The components that `std::path::Path::components` gives for a path, in
/// the path syntax of the platform (Unix: `/` separates components).
pub uninterp spec fn components_of(p: Seq<char>) -> Seq<PathComponentView>;

/// The path that `std::path::PathBuf::push` gives from `base` and `part`
/// on Unix: an absolute `part` (one starting with `/`) replaces the path;
/// otherwise `part` is appended, after a `/` where `base` is not empty and
/// does not already end with one.
pub open spec fn path_pushed(base: Seq<char>, part: Seq<char>) -> Seq<char> {
    if part.len() > 0 && part[0] == '/' {
        part
    } else if base.len() > 0 && base.last() != '/' {
        base + seq!['/'] + part
    } else {
        base + part
    }
}

/// The path that `std::path::PathBuf::pop` leaves of `p`, in the path
/// syntax of the platform (Unix: `/` separates components).
pub uninterp spec fn path_popped(p: Seq<char>) -> Seq<char>;

/// The path that `std::path::PathBuf::set_extension` gives from `p` and
/// `ext`, in the path syntax of the platform (Unix: `/` separates
/// components).
pub uninterp spec fn path_with_extension(p: Seq<char>, ext: Seq<char>) -> Seq<char>;

/// The components of `p`, as `std::path::Path::components` gives them.
#[verifier::external_body]
fn path_components(p: &str) -> (r: Vec<PathComponent>)
    ensures
        component_views(r@) == components_of(p@),
{
    let mut r = Vec::new();
    for c in std::path::Path::new(p).components() {
        r.push(match c {
            std::path::Component::Prefix(x) => PathComponent::Prefix(x.as_os_str().to_string_lossy().into_owned()),
            std::path::Component::RootDir => PathComponent::RootDir,
            std::path::Component::CurDir => PathComponent::CurDir,
            std::path::Component::ParentDir => PathComponent::ParentDir,
            std::path::Component::Normal(x) => PathComponent::Normal(x.to_string_lossy().into_owned()),
        });
    }
    r
}

/// `base` with `part` pushed on, as `std::path::PathBuf::push` does it on
/// Unix (see `path_pushed`).
#[verifier::external_body]
fn path_push(base: &str, part: &str) -> (r: String)
    ensures
        r@ == path_pushed(base@, part@),
{
    let mut p = std::path::PathBuf::from(base);
    p.push(part);
    p.to_string_lossy().into_owned()
}

/// `p` without its last component, as `std::path::PathBuf::pop` leaves it.
#[verifier::external_body]
fn path_pop(p: &str) -> (r: String)
    ensures
        r@ == path_popped(p@),
{
    let mut b = std::path::PathBuf::from(p);
    b.pop();
    b.to_string_lossy().into_owned()
}

/// `p` with the extension `ext`, as `std::path::PathBuf::set_extension`
/// gives it; that function panics on an extension holding a path
/// separator, which `requires` leaves out (`/`, and `\\` where it is one).
#[verifier::external_body]
fn path_set_extension(p: &str, ext: &str) -> (r: String)
    requires
        !ext@.contains('/'),
        !ext@.contains('\\'),
    ensures
        r@ == path_with_extension(p@, ext@),
{
    let mut b = std::path::PathBuf::from(p);
    b.set_extension(ext);
    b.to_string_lossy().into_owned()
}

/// The stack after one more component: `.` is dropped; `..` removes a
/// preceding normal component, is dropped right after the root, and is kept
/// otherwise; every other component is kept.
pub open spec fn push_component(stack: Seq<PathComponentView>, c: PathComponentView) -> Seq<PathComponentView> {
    match c {
        PathComponentView::CurDir => stack,
        PathComponentView::ParentDir => if stack.len() == 0 {
            stack.push(c)
        } else {
            match stack.last() {
                PathComponentView::Prefix(_) => stack.push(c),
                PathComponentView::RootDir => stack,
                PathComponentView::CurDir => stack,
                PathComponentView::ParentDir => stack.push(c),
                PathComponentView::Normal(_) => stack.drop_last(),
            }
        },
        _ => stack.push(c),
    }
}

/// The components of a path with `.` and `..` resolved lexically.
pub open spec fn normalized_components(cs: Seq<PathComponentView>) -> Seq<PathComponentView>
    decreases cs.len(),
{
    if cs.len() == 0 {
        Seq::empty()
    } else {
        push_component(normalized_components(cs.drop_last()), cs.last())
    }
}

/// The text of a component.
pub open spec fn component_text(c: PathComponentView) -> Seq<char> {
    match c {
        PathComponentView::Prefix(s) => s,
        PathComponentView::RootDir => "/"@,
        PathComponentView::CurDir => "."@,
        PathComponentView::ParentDir => ".."@,
        PathComponentView::Normal(s) => s,
    }
}

/// The path built by pushing each component, in order, onto the empty path.
pub open spec fn joined_path(cs: Seq<PathComponentView>) -> Seq<char>
    decreases cs.len(),
{
    if cs.len() == 0 {
        Seq::empty()
    } else {
        path_pushed(joined_path(cs.drop_last()), component_text(cs.last()))
    }
}

/// The lexically normalized form of `p`: its components with `.` and `..`
/// resolved, joined again; `.` where nothing is left.
pub open spec fn normalized_path(p: Seq<char>) -> Seq<char> {
    let stack = normalized_components(components_of(p));
    if stack.len() == 0 {
        "."@
    } else {
        joined_path(stack)
    }
}

/// Whether a stack is one that normalizing leaves as it is: no `.`, and a
/// `..` only at the start or after a prefix or another `..`.
pub open spec fn settled(s: Seq<PathComponentView>) -> bool {
    forall|i: int|
        0 <= i < s.len() ==> !(#[trigger] s[i] is CurDir) && (s[i] is ParentDir ==> i == 0 || s[i - 1] is Prefix
            || s[i - 1] is ParentDir)
}

/// A copy of a component.
fn copy_component(c: &PathComponent) -> (r: PathComponent)
    ensures
        r@ == c@,
{
    match c {
        PathComponent::Prefix(s) => PathComponent::Prefix(s.clone()),
        PathComponent::RootDir => PathComponent::RootDir,
        PathComponent::CurDir => PathComponent::CurDir,
        PathComponent::ParentDir => PathComponent::ParentDir,
        PathComponent::Normal(s) => PathComponent::Normal(s.clone()),
    }
}

/// Resolves `.` and `..` in a sequence of components.
pub fn normalize_components(cs: &Vec<PathComponent>) -> (r: Vec<PathComponent>)
    ensures
        component_views(r@) == normalized_components(component_views(cs@)),
        settled(component_views(r@)),
{
    let ghost v = component_views(cs@);
    let mut stack: Vec<PathComponent> = Vec::new();
    let mut i: usize = 0;
    proof {
        assert(v.subrange(0, 0) =~= Seq::<PathComponentView>::empty());
        assert(component_views(stack@) =~= Seq::<PathComponentView>::empty());
    }
    while i < cs.len()
        invariant
            i <= cs@.len(),
            v == component_views(cs@),
            component_views(stack@) == normalized_components(v.subrange(0, i as int)),
            settled(component_views(stack@)),
        decreases cs@.len() - i,
    {
        let ghost before = component_views(stack@);
        proof {
            let sub = v.subrange(0, i + 1);
            assert(sub.drop_last() =~= v.subrange(0, i as int));
            assert(sub.last() == v[i as int]);
        }
        match &cs[i] {
            PathComponent::CurDir => {},
            PathComponent::ParentDir => {
                let n = stack.len();
                if n == 0 {
                    stack.push(PathComponent::ParentDir);
                    proof {
                        assert(component_views(stack@) =~= before.push(PathComponentView::ParentDir));
                    }
                } else {
                    let top_kind: u8 = match &stack[n - 1] {
                        PathComponent::Prefix(_) => 0,
                        PathComponent::RootDir => 1,
                        PathComponent::CurDir => 2,
                        PathComponent::ParentDir => 3,
                        PathComponent::Normal(_) => 4,
                    };
                    proof {
                        assert(before.last() == stack@[n - 1]@);
                    }
                    if top_kind == 0 || top_kind == 3 {
                        stack.push(PathComponent::ParentDir);
                        proof {
                            assert(component_views(stack@) =~= before.push(PathComponentView::ParentDir));
                        }
                    } else if top_kind == 4 {
                        stack.pop();
                        proof {
                            assert(component_views(stack@) =~= before.drop_last());
                        }
                    } else if top_kind == 2 {
                        proof {
                            assert(!(before[n - 1] is CurDir));
                            assert(false);
                        }
                    }
                }
            },
            other => {
                let c = copy_component(other);
                stack.push(c);
                proof {
                    assert(component_views(stack@) =~= before.push(c@));
                }
            },
        }
        proof {
            let after = component_views(stack@);
            assert forall|j: int| 0 <= j < after.len() implies !(#[trigger] after[j] is CurDir) && (after[j] is ParentDir
                ==> j == 0 || after[j - 1] is Prefix || after[j - 1] is ParentDir) by {
                if j < before.len() {
                    assert(after[j] == before[j]);
                    if j > 0 {
                        assert(after[j - 1] == before[j - 1]);
                    }
                }
            }
        }
        i = i + 1;
    }
    proof {
        assert(v.subrange(0, cs@.len() as int) =~= v);
    }
    stack
}

/// Normalizing a settled stack changes nothing.
proof fn lemma_settled_fixed(s: Seq<PathComponentView>)
    requires
        settled(s),
    ensures
        normalized_components(s) == s,
    decreases s.len(),
{
    if s.len() > 0 {
        let init = s.drop_last();
        assert(settled(init)) by {
            assert forall|i: int| 0 <= i < init.len() implies !(#[trigger] init[i] is CurDir) && (init[i] is ParentDir ==> i == 0
                || init[i - 1] is Prefix || init[i - 1] is ParentDir) by {
                assert(init[i] == s[i]);
                if i > 0 {
                    assert(init[i - 1] == s[i - 1]);
                }
            }
        }
        lemma_settled_fixed(init);
        assert(!(s[s.len() - 1] is CurDir));
        if s.last() is ParentDir && s.len() > 1 {
            assert(s[s.len() - 2] == init.last());
        }
        assert(init.push(s.last()) =~= s);
    }
}

/// What normalizing gives is settled.
proof fn lemma_normalized_settled(cs: Seq<PathComponentView>)
    ensures
        settled(normalized_components(cs)),
    decreases cs.len(),
{
    if cs.len() > 0 {
        lemma_normalized_settled(cs.drop_last());
        let before = normalized_components(cs.drop_last());
        let after = normalized_components(cs);
        assert forall|j: int| 0 <= j < after.len() implies !(#[trigger] after[j] is CurDir) && (after[j] is ParentDir ==> j == 0
            || after[j - 1] is Prefix || after[j - 1] is ParentDir) by {
            if j < before.len() {
                assert(after[j] == before[j]);
                if j > 0 {
                    assert(after[j - 1] == before[j - 1]);
                }
            } else if before.len() > 0 {
                assert(after[j - 1] == before.last());
            }
        }
    }
}

/// Normalizing path components is idempotent: normalizing what
/// normalizing gave changes nothing.
pub proof fn law_normalize_idempotent(cs: Seq<PathComponentView>)
    ensures
        normalized_components(normalized_components(cs)) == normalized_components(cs),
{
    lemma_normalized_settled(cs);
    lemma_settled_fixed(normalized_components(cs));
}

/// The text of a component.
fn component_str(c: &PathComponent) -> (r: String)
    ensures
        r@ == component_text(c@),
{
    match c {
        PathComponent::Prefix(s) => s.clone(),
        PathComponent::RootDir => {
            proof {
                reveal_strlit("/");
            }
            String::from_str("/")
        },
        PathComponent::CurDir => {
            proof {
                reveal_strlit(".");
            }
            String::from_str(".")
        },
        PathComponent::ParentDir => {
            proof {
                reveal_strlit("..");
            }
            String::from_str("..")
        },
        PathComponent::Normal(s) => s.clone(),
    }
}

/// Resolves `.` and `..` in a path lexically, without looking at the file
/// system.
pub fn normalize(p: &str) -> (r: String)
    ensures
        r@ == normalized_path(p@),
{
    let cs = path_components(p);
    let stack = normalize_components(&cs);
    if stack.len() == 0 {
        proof {
            reveal_strlit(".");
        }
        return String::from_str(".");
    }
    let ghost sv = component_views(stack@);
    let mut out = String::new();
    let mut i: usize = 0;
    proof {
        assert(sv.subrange(0, 0) =~= Seq::<PathComponentView>::empty());
    }
    while i < stack.len()
        invariant
            i <= stack@.len(),
            sv == component_views(stack@),
            out@ == joined_path(sv.subrange(0, i as int)),
        decreases stack@.len() - i,
    {
        let part = component_str(&stack[i]);
        out = path_push(out.as_str(), part.as_str());
        proof {
            let sub = sv.subrange(0, i + 1);
            assert(sub.drop_last() =~= sv.subrange(0, i as int));
            assert(sub.last() == sv[i as int]);
        }
        i = i + 1;
    }
    proof {
        assert(sv.subrange(0, stack@.len() as int) =~= sv);
    }
    out
}


/// Whether a specifier is relative: it starts with `.`.
pub open spec fn is_relative(specifier: Seq<char>) -> bool {
    specifier.len() > 0 && specifier[0] == '.'
}

/// A specifier without a leading `./`.
pub open spec fn without_dot_slash(specifier: Seq<char>) -> Seq<char> {
    if specifier.len() >= 2 && specifier[0] == '.' && specifier[1] == '/' {
        specifier.skip(2)
    } else {
        specifier
    }
}

/// The paths tried, in order, for a relative specifier: the specifier
/// joined to the importer's directory, then with the extensions `js`,
/// `mjs` and `cjs` set in turn.
pub open spec fn candidates(importer: Seq<char>, specifier: Seq<char>) -> Seq<Seq<char>> {
    let base = path_pushed(path_popped(importer), without_dot_slash(specifier));
    let js = path_with_extension(base, "js"@);
    let mjs = path_with_extension(js, "mjs"@);
    let cjs = path_with_extension(mjs, "cjs"@);
    seq![base, js, mjs, cjs]
}

/// The first of `paths` that `present` holds of.
pub open spec fn first_existing(paths: Seq<Seq<char>>, present: spec_fn(Seq<char>) -> bool) -> Option<Seq<char>>
    decreases paths.len(),
{
    if paths.len() == 0 {
        None
    } else if present(paths[0]) {
        Some(paths[0])
    } else {
        first_existing(paths.skip(1), present)
    }
}

/// The view of an optional string.
pub open spec fn opt_string_view(s: Option<String>) -> Option<Seq<char>> {
    match s {
        Some(x) => Some(x@),
        None => None,
    }
}

/// A file system that modules are read from.
pub trait Vfs {
    /// Whether `read_file` can read `path`.
    spec fn can_read(&self, path: Seq<char>) -> bool;

    /// Whether `resolve_module` can resolve `specifier` from `importer`.
    spec fn can_resolve(&self, importer: Seq<char>, specifier: Seq<char>) -> bool;

    /// The path of the module `specifier` refers to from `importer`, if it
    /// refers to a file.
    fn resolve_module(&self, importer: &str, specifier: &str) -> Option<String>
        requires
            self.can_resolve(importer@, specifier@),
    ;

    /// The contents of a file.
    fn read_file(&self, path: &str) -> String
        requires
            self.can_read(path@),
    ;

    /// The canonical form of a path.
    fn normalize_path(&self, path: String) -> String;
}

/// The path under which the single file is known.
pub const ENTRY_PATH: &'static str = "/entry.js";

/// A file system holding one file, at `ENTRY_PATH`.
pub struct SingleFileFs(pub String);

impl Vfs for SingleFileFs {
    open spec fn can_read(&self, path: Seq<char>) -> bool {
        path == ENTRY_PATH@
    }

    open spec fn can_resolve(&self, importer: Seq<char>, specifier: Seq<char>) -> bool {
        true
    }

    /// Nothing can be imported.
    fn resolve_module(&self, importer: &str, specifier: &str) -> (r: Option<String>)
        ensures
            r is None,
    {
        None
    }

    /// The single file.
    fn read_file(&self, path: &str) -> (r: String)
        ensures
            r@ == self.0@,
    {
        self.0.clone()
    }

    /// Paths are taken as they are.
    fn normalize_path(&self, path: String) -> (r: String)
        ensures
            r@ == path@,
    {
        path
    }
}

/// The files of a list of (path, contents) entries; a later entry for a
/// path replaces an earlier one.
pub open spec fn files_of(entries: Seq<(String, String)>) -> Map<Seq<char>, Seq<char>>
    decreases entries.len(),
{
    if entries.len() == 0 {
        Map::empty()
    } else {
        files_of(entries.drop_last()).insert(entries.last().0@, entries.last().1@)
    }
}

/// A file system held in memory: paths and their contents.
pub struct MultiModuleFs(pub Vec<(String, String)>);

impl MultiModuleFs {
    /// The files, by path.
    pub open spec fn files(&self) -> Map<Seq<char>, Seq<char>> {
        files_of(self.0@)
    }

    /// Whether a file exists at `path`.
    pub fn path_exists(&self, path: &str) -> (r: bool)
        ensures
            r == self.files().contains_key(path@),
    {
        self.lookup(path).is_some()
    }

    /// The contents at `path`: the last entry for it.
    fn lookup(&self, path: &str) -> (r: Option<usize>)
        ensures
            r is None ==> !self.files().contains_key(path@),
            r matches Some(i) ==> i < self.0@.len() && self.files().contains_key(path@) && self.files()[path@]
                == self.0@[i as int].1@,
    {
        let ghost es = self.0@;
        let mut i: usize = self.0.len();
        proof {
            assert(es.subrange(0, i as int) =~= es);
        }
        while i > 0
            invariant
                i <= es.len(),
                es == self.0@,
                files_of(es).contains_key(path@) == files_of(es.subrange(0, i as int)).contains_key(path@),
                files_of(es).contains_key(path@) ==> files_of(es)[path@] == files_of(es.subrange(0, i as int))[path@],
            decreases i,
        {
            proof {
                let sub = es.subrange(0, i as int);
                assert(sub.drop_last() =~= es.subrange(0, i - 1));
                assert(sub.last() == es[i - 1]);
            }
            if crate::value::str_eq(self.0[i - 1].0.as_str(), path) {
                return Some(i - 1);
            }
            i = i - 1;
        }
        proof {
            assert(es.subrange(0, 0) =~= Seq::<(String, String)>::empty());
        }
        None
    }
}

/// Whether `s` starts with `.`.
fn starts_with_dot(s: &str) -> (r: bool)
    ensures
        r == is_relative(s@),
{
    s.unicode_len() > 0 && s.get_char(0) == '.'
}

/// `s` without a leading `./`.
fn strip_dot_slash(s: &str) -> (r: &str)
    ensures
        r@ == without_dot_slash(s@),
{
    let n = s.unicode_len();
    if n >= 2 && s.get_char(0) == '.' && s.get_char(1) == '/' {
        let r = s.substring_char(2, n);
        proof {
            assert(r@ =~= s@.skip(2));
        }
        r
    } else {
        s
    }
}

impl MultiModuleFs {
    /// The spec of the existence test, as a function.
    pub open spec fn exists_fn(&self) -> spec_fn(Seq<char>) -> bool {
        |p: Seq<char>| self.files().contains_key(p)
    }

    /// Where a relative specifier resolves: the first candidate that
    /// exists.
    pub open spec fn resolution(&self, importer: Seq<char>, specifier: Seq<char>) -> Option<Seq<char>> {
        first_existing(candidates(importer, specifier), self.exists_fn())
    }

    /// Resolves `specifier` from `importer` where that is possible: `None`
    /// when a relative specifier names no file (where resolving would
    /// fail), the resolution otherwise.
    pub fn try_resolve_module(&self, importer: &str, specifier: &str) -> (r: Option<Option<String>>)
        ensures
            r is None <==> !self.can_resolve(importer@, specifier@),
            r matches Some(x) ==> opt_string_view(x) == (if is_relative(specifier@) {
                self.resolution(importer@, specifier@)
            } else {
                None
            }),
    {
        if !starts_with_dot(specifier) {
            return Some(None);
        }
        let base = path_push(path_pop(importer).as_str(), strip_dot_slash(specifier));
        proof {
            reveal_strlit("js");
            reveal_strlit("mjs");
            reveal_strlit("cjs");
            assert(!"js"@.contains('/') && !"js"@.contains('\\'));
            assert(!"mjs"@.contains('/') && !"mjs"@.contains('\\'));
            assert(!"cjs"@.contains('/') && !"cjs"@.contains('\\'));
        }
        let js = path_set_extension(base.as_str(), "js");
        let mjs = path_set_extension(js.as_str(), "mjs");
        let cjs = path_set_extension(mjs.as_str(), "cjs");
        proof {
            let cs = candidates(importer@, specifier@);
            assert(cs[0] == base@ && cs[1] == js@ && cs[2] == mjs@ && cs[3] == cjs@);
            assert(cs.skip(1) =~= seq![js@, mjs@, cjs@]);
            assert(cs.skip(1).skip(1) =~= seq![mjs@, cjs@]);
            assert(cs.skip(1).skip(1).skip(1) =~= seq![cjs@]);
            assert(cs.skip(1).skip(1).skip(1).skip(1) =~= Seq::<Seq<char>>::empty());
            reveal_with_fuel(first_existing, 5);
            let f = self.exists_fn();
            assert(f(base@) == self.files().contains_key(base@));
            assert(f(js@) == self.files().contains_key(js@));
            assert(f(mjs@) == self.files().contains_key(mjs@));
            assert(f(cjs@) == self.files().contains_key(cjs@));
        }
        if self.path_exists(base.as_str()) {
            Some(Some(base))
        } else if self.path_exists(js.as_str()) {
            Some(Some(js))
        } else if self.path_exists(mjs.as_str()) {
            Some(Some(mjs))
        } else if self.path_exists(cjs.as_str()) {
            Some(Some(cjs))
        } else {
            None
        }
    }
}

impl Vfs for MultiModuleFs {
    open spec fn can_read(&self, path: Seq<char>) -> bool {
        self.files().contains_key(path)
    }

    open spec fn can_resolve(&self, importer: Seq<char>, specifier: Seq<char>) -> bool {
        is_relative(specifier) ==> self.resolution(importer, specifier) is Some
    }

    /// A relative specifier resolves to the first candidate path that
    /// exists; any other specifier to nothing.
    fn resolve_module(&self, importer: &str, specifier: &str) -> (r: Option<String>)
        ensures
            opt_string_view(r) == (if is_relative(specifier@) {
                self.resolution(importer@, specifier@)
            } else {
                None
            }),
    {
        match self.try_resolve_module(importer, specifier) {
            Some(x) => x,
            None => {
                proof {
                    assert(false);
                }
                None
            },
        }
    }

    /// The contents of the file at `path`.
    fn read_file(&self, path: &str) -> (r: String)
        ensures
            r@ == self.files()[path@],
    {
        match self.lookup(path) {
            Some(i) => self.0[i].1.clone(),
            None => {
                proof {
                    assert(false);
                }
                String::new()
            },
        }
    }

    /// Paths are normalized lexically.
    fn normalize_path(&self, path: String) -> (r: String)
        ensures
            r@ == normalized_path(path@),
    {
        normalize(path.as_str())
    }
}

/// The paths a specifier may name on disk, imported from `importer`: the
/// specifier pushed onto the importer's directory, then that path with the
/// extension set to `js`, `mjs` and `cjs` in turn.
pub open spec fn disk_candidate_paths(importer: Seq<char>, specifier: Seq<char>) -> Seq<Seq<char>> {
    let base = path_pushed(path_popped(importer), specifier);
    let js = path_with_extension(base, "js"@);
    let mjs = path_with_extension(js, "mjs"@);
    let cjs = path_with_extension(mjs, "cjs"@);
    seq![base, js, mjs, cjs]
}

/// The paths a specifier may name on disk, in the order they are tried
/// (see `disk_candidate_paths`); `None` for a specifier that is not
/// relative, which names no file on disk.
pub fn disk_candidates(importer: &str, specifier: &str) -> (r: Option<Vec<String>>)
    ensures
        r is None <==> !is_relative(specifier@),
        r matches Some(v) ==> v@.map_values(|s: String| s@) == disk_candidate_paths(importer@, specifier@),
{
    if !starts_with_dot(specifier) {
        return None;
    }
    let base = path_push(path_pop(importer).as_str(), specifier);
    proof {
        reveal_strlit("js");
        reveal_strlit("mjs");
        reveal_strlit("cjs");
        assert(!"js"@.contains('/') && !"js"@.contains('\\'));
        assert(!"mjs"@.contains('/') && !"mjs"@.contains('\\'));
        assert(!"cjs"@.contains('/') && !"cjs"@.contains('\\'));
    }
    let js = path_set_extension(base.as_str(), "js");
    let mjs = path_set_extension(js.as_str(), "mjs");
    let cjs = path_set_extension(mjs.as_str(), "cjs");
    let mut r: Vec<String> = Vec::new();
    r.push(base);
    r.push(js);
    r.push(mjs);
    r.push(cjs);
    proof {
        assert(r@.map_values(|s: String| s@) =~= disk_candidate_paths(importer@, specifier@));
    }
    Some(r)
}

/// The first of `paths` found present (`present` telling which are), if
/// any.
pub fn first_present(paths: &Vec<String>, present: &Vec<bool>) -> (r: Option<String>)
    requires
        paths@.len() == present@.len(),
    ensures
        r is None <==> forall|i: int| 0 <= i < present@.len() ==> !present@[i],
        r matches Some(p) ==> exists|i: int|
            0 <= i < present@.len() && present@[i] && p@ == paths@[i]@ && forall|j: int| 0 <= j < i ==> !present@[j],
{
    let mut i: usize = 0;
    while i < present.len()
        invariant
            paths@.len() == present@.len(),
            i <= present@.len(),
            forall|j: int| 0 <= j < i ==> !present@[j],
        decreases present@.len() - i,
    {
        if present[i] {
            let p = paths[i].clone();
            proof {
                assert(p@ == paths@[i as int]@);
            }
            return Some(p);
        }
        i = i + 1;
    }
    None
}

/// The text that `str::to_lowercase` gives for `s`.
pub uninterp spec fn lowercase_of(s: Seq<char>) -> Seq<char>;

/// `s` in lower case, as `str::to_lowercase` gives it.
#[verifier::external_body]
fn to_lowercase(s: &str) -> (r: String)
    ensures
        r@ == lowercase_of(s@),
{
    s.to_lowercase()
}

/// `s` with every backslash turned into a slash.
pub open spec fn backslashes_to_slashes(s: Seq<char>) -> Seq<char> {
    s.map_values(|c: char| if c == '\\' { '/' } else { c })
}

/// `s` with every `./` removed, scanning from the left as `str::replace`
/// does.
pub open spec fn without_dot_slashes(s: Seq<char>) -> Seq<char>
    decreases s.len(),
{
    if s.len() == 0 {
        s
    } else if s.len() >= 2 && s[0] == '.' && s[1] == '/' {
        without_dot_slashes(s.skip(2))
    } else {
        seq![s[0]] + without_dot_slashes(s.skip(1))
    }
}

/// The form under which paths are compared case-insensitively: lower case,
/// with slashes for backslashes and every `./` removed.
pub fn fold_path(path: &str) -> (r: String)
    ensures
        r@ == without_dot_slashes(backslashes_to_slashes(lowercase_of(path@))),
{
    let lower = to_lowercase(path);
    let t = lower.as_str();
    let n = t.unicode_len();
    let mut mapped = String::new();
    let mut i: usize = 0;
    while i < n
        invariant
            n == t@.len(),
            i <= n,
            mapped@ == backslashes_to_slashes(t@).subrange(0, i as int),
        decreases n - i,
    {
        let c = t.get_char(i);
        if c == '\\' {
            proof {
                reveal_strlit("/");
                assert("/"@ =~= seq!['/']);
            }
            mapped.append("/");
        } else {
            let one = t.substring_char(i, i + 1);
            proof {
                assert(one@ =~= seq![c]);
            }
            mapped.append(one);
        }
        proof {
            assert(backslashes_to_slashes(t@).subrange(0, i + 1) =~= backslashes_to_slashes(t@).subrange(0, i as int).push(
                backslashes_to_slashes(t@)[i as int],
            ));
        }
        i = i + 1;
    }
    let ghost m = backslashes_to_slashes(t@);
    proof {
        assert(mapped@ =~= m);
    }
    let ms = mapped.as_str();
    let mn = ms.unicode_len();
    let mut out = String::new();
    let mut j: usize = 0;
    proof {
        assert(m.skip(0) =~= m);
        assert(out@ + without_dot_slashes(m.skip(0)) =~= without_dot_slashes(m));
    }
    while j < mn
        invariant
            mn == m.len(),
            ms@ == m,
            j <= mn,
            out@ + without_dot_slashes(m.skip(j as int)) == without_dot_slashes(m),
        decreases mn - j,
    {
        let ghost rest = m.skip(j as int);
        if j + 1 < mn && ms.get_char(j) == '.' && ms.get_char(j + 1) == '/' {
            proof {
                assert(rest.skip(2) =~= m.skip(j + 2));
            }
            j = j + 2;
        } else {
            let one = ms.substring_char(j, j + 1);
            proof {
                assert(one@ =~= seq![m[j as int]]);
                assert(rest.skip(1) =~= m.skip(j + 1));
                assert(rest[0] == m[j as int]);
                assert(out@ + one@ + without_dot_slashes(m.skip(j + 1)) =~= out@ + without_dot_slashes(rest));
            }
            out.append(one);
            j = j + 1;
        }
    }
    proof {
        assert(m.skip(mn as int) =~= Seq::<char>::empty());
        assert(out@ + Seq::<char>::empty() =~= out@);
    }
    out
}


/// Resolving a relative specifier in an in-memory file system tries the
/// specifier joined to the importer's directory, then that path with the
/// extension `js`, then `mjs`, then `cjs`: it gives the first of these
/// that is a file, and nothing where none is.
pub proof fn law_resolution_order(fs: MultiModuleFs, importer: Seq<char>, specifier: Seq<char>)
    ensures
        ({
            let base = path_pushed(path_popped(importer), without_dot_slash(specifier));
            let js = path_with_extension(base, "js"@);
            let mjs = path_with_extension(js, "mjs"@);
            let cjs = path_with_extension(mjs, "cjs"@);
            let f = fs.files();
            let r = fs.resolution(importer, specifier);
            &&& f.contains_key(base) ==> r == Some(base)
            &&& !f.contains_key(base) && f.contains_key(js) ==> r == Some(js)
            &&& !f.contains_key(base) && !f.contains_key(js) && f.contains_key(mjs) ==> r == Some(mjs)
            &&& !f.contains_key(base) && !f.contains_key(js) && !f.contains_key(mjs) && f.contains_key(cjs) ==> r
                == Some(cjs)
            &&& !f.contains_key(base) && !f.contains_key(js) && !f.contains_key(mjs) && !f.contains_key(cjs) ==> r
                is None
        }),
{
    let cs = candidates(importer, specifier);
    assert(cs.skip(1) =~= seq![cs[1], cs[2], cs[3]]);
    assert(cs.skip(1).skip(1) =~= seq![cs[2], cs[3]]);
    assert(cs.skip(1).skip(1).skip(1) =~= seq![cs[3]]);
    assert(cs.skip(1).skip(1).skip(1).skip(1) =~= Seq::<Seq<char>>::empty());
    reveal_with_fuel(first_existing, 5);
}


/// The paths tried on disk for a specifier: the specifier pushed onto the
/// importer's directory, then that path with the extension `js`, then
/// `mjs`, then `cjs`, each set on the path before.
pub proof fn law_disk_candidates_order(importer: Seq<char>, specifier: Seq<char>)
    ensures
        ({
            let c = disk_candidate_paths(importer, specifier);
            &&& c.len() == 4
            &&& c[0] == path_pushed(path_popped(importer), specifier)
            &&& c[1] == path_with_extension(c[0], "js"@)
            &&& c[2] == path_with_extension(c[1], "mjs"@)
            &&& c[3] == path_with_extension(c[2], "cjs"@)
        }),
{
}

} // verus!
