//! Finding the packages of the cloned dependents that use the library.
//!
//! Each directory under the dependents directory whose name starts with the
//! library's name is a candidate. Its manifest is read; a package manifest
//! that lists the library among its dependencies makes its directory one of
//! the results, and a workspace manifest sends the walk on to its members.
//! A `ManifestWalk` holds the directories still to visit and decides, from
//! each manifest read, what comes next.
use vstd::prelude::*;
use crate::paths::{join_path, path_join};
use crate::records::string_views;
use crate::text::{chars_equal, chars_of, contains, contains_seq, split, split_seq, views};

verus! {

/// The last component of a path: what follows its last `/`.
pub open spec fn last_component(path: Seq<char>) -> Seq<char> {
    split_seq(path, seq!['/']).last()
}

/// The library a cloned dependent's directory belongs to: the part of its
/// name before the first `_dep`.
pub open spec fn cloned_for(name: Seq<char>) -> Seq<char> {
    split_seq(name, seq!['_', 'd', 'e', 'p'])[0]
}

/// A directory entry of the dependents directory is examined when its name
/// was given for library `lib` and its path holds no `61`.
pub open spec fn is_candidate(lib: Seq<char>, path: Seq<char>) -> bool {
    cloned_for(last_component(path)) == lib && !contains_seq(path, seq!['6', '1'])
}

/// Whether the directory entry at `path` is a candidate dependent of `lib`.
pub fn is_candidate_dependent(lib: &str, path: &str) -> (r: bool)
    ensures
        r == is_candidate(lib@, path@),
{
    let p = chars_of(path);
    let slash = vec!['/'];
    assert(slash@ =~= seq!['/']);
    let parts = split(&p, &slash);
    proof {
        crate::text::lemma_split_nonempty(p@, slash@);
    }
    let last = &parts[parts.len() - 1];
    assert(views(parts@)[parts@.len() - 1] == last@);
    let dep = vec!['_', 'd', 'e', 'p'];
    assert(dep@ =~= seq!['_', 'd', 'e', 'p']);
    let pieces = split(last, &dep);
    proof {
        crate::text::lemma_split_nonempty(last@, dep@);
    }
    assert(views(pieces@)[0] == pieces@[0]@);
    let l = chars_of(lib);
    if !chars_equal(&pieces[0], &l) {
        return false;
    }
    let sixty_one = vec!['6', '1'];
    assert(sixty_one@ =~= seq!['6', '1']);
    !contains(&p, &sixty_one)
}

/// What the walk needs of a package's manifest section.
pub struct PackageInfo {
    /// The package's name.
    pub name: String,
    /// The package names a workspace root of its own (`package.workspace`).
    pub in_workspace: bool,
}

/// What the walk needs of a manifest (`Cargo.toml`).
pub struct ManifestInfo {
    /// The `[package]` section, if any.
    pub package: Option<PackageInfo>,
    /// The members of the `[workspace]` section, if there is one.
    pub workspace_members: Option<Vec<String>>,
    /// The names under `[dependencies]`.
    pub dependencies: Vec<String>,
}

/// A manifest the walk can handle: it has a package or a workspace (a
/// manifest with neither stops the run).
pub open spec fn is_usable(m: ManifestInfo) -> bool {
    m.package is Some || m.workspace_members is Some
}

impl ManifestInfo {
    /// Whether the walk can handle this manifest.
    pub fn is_usable(&self) -> (r: bool)
        ensures
            r == is_usable(*self),
    {
        self.package.is_some() || self.workspace_members.is_some()
    }
}

/// The package of manifest `m` depends on library `lib`.
pub open spec fn depends_on(m: ManifestInfo, lib: Seq<char>) -> bool {
    string_views(m.dependencies@).contains(lib)
}

/// The directory of manifest `m` is a result of the walk.
pub open spec fn is_result(m: ManifestInfo, lib: Seq<char>) -> bool {
    m.package is Some && depends_on(m, lib)
}

/// A manifest's directory is a result exactly when it has a package and the
/// library's name is one of its dependencies, wherever it stands among them:
/// the order of the dependency list does not matter.
pub proof fn lemma_result_iff_listed(m: ManifestInfo, lib: Seq<char>)
    ensures
        is_result(m, lib) <==> m.package is Some && exists|j: int|
            0 <= j < m.dependencies@.len() && #[trigger] m.dependencies@[j]@ == lib,
{
    let d = string_views(m.dependencies@);
    if exists|j: int| 0 <= j < m.dependencies@.len() && #[trigger] m.dependencies@[j]@ == lib {
        let j = choose|j: int| 0 <= j < m.dependencies@.len() && #[trigger] m.dependencies@[j]@ == lib;
        assert(d[j] == lib);
    }
    if d.contains(lib) {
        let j = choose|j: int| 0 <= j < d.len() && d[j] == lib;
        assert(m.dependencies@[j]@ == lib);
    }
}

/// Member entries that name the workspace's own directory.
pub open spec fn is_self_member(member: Seq<char>) -> bool {
    member == seq!['.'] || member == seq!['.', '/']
}

/// The member entries the walk goes on to: all of them for a virtual
/// manifest; for a package that is itself the workspace root, all but those
/// naming its own directory; none for a package without a workspace section
/// or one that belongs to another workspace.
pub open spec fn members_to_visit(m: ManifestInfo) -> Seq<Seq<char>> {
    match m.package {
        None => match m.workspace_members {
            Some(ms) => string_views(ms@),
            None => Seq::empty(),
        },
        Some(p) => if p.in_workspace {
            Seq::empty()
        } else {
            match m.workspace_members {
                Some(ms) => string_views(ms@).filter(is_other_member()),
                None => Seq::empty(),
            }
        },
    }
}

/// Holds of the member entries that name another directory.
pub open spec fn is_other_member() -> spec_fn(Seq<char>) -> bool {
    |s: Seq<char>| !is_self_member(s)
}

/// A directory whose path holds `184` or `191` is passed over.
pub open spec fn is_passed_over(path: Seq<char>) -> bool {
    contains_seq(path, seq!['1', '8', '4']) || contains_seq(path, seq!['1', '9', '1'])
}

/// The directories to visit after `dir`, most recent last: its members, in
/// reverse so that the first member is visited next.
pub open spec fn pushed_members(dir: Seq<char>, members: Seq<Seq<char>>) -> Seq<Seq<char>> {
    members.map_values(|m: Seq<char>| path_join(dir, m)).reverse()
}

/// The state of a walk through the manifests of a cloned dependent.
pub struct ManifestWalk {
    lib: String,
    pending: Vec<String>,
    found: Vec<String>,
    current: Option<String>,
}

/// What a walk holds: the library, the directories still to visit (the last
/// is visited next), the result directories found so far, and the directory
/// handed out whose manifest is awaited.
pub struct WalkView {
    pub lib: Seq<char>,
    pub pending: Seq<Seq<char>>,
    pub found: Seq<Seq<char>>,
    pub current: Option<Seq<char>>,
}

impl WalkView {
    /// No result and no awaited directory is one the walk passes over.
    pub open spec fn wf(self) -> bool {
        &&& forall|i: int| 0 <= i < self.found.len() ==> !is_passed_over(#[trigger] self.found[i])
        &&& self.current matches Some(d) ==> !is_passed_over(d)
    }
}

impl View for ManifestWalk {
    type V = WalkView;

    closed spec fn view(&self) -> WalkView {
        WalkView {
            lib: self.lib@,
            pending: string_views(self.pending@),
            found: string_views(self.found@),
            current: match &self.current {
                Some(d) => Some(d@),
                None => None,
            },
        }
    }
}

fn is_passed_over_path(path: &[char]) -> (r: bool)
    ensures
        r == is_passed_over(path@),
{
    let a = vec!['1', '8', '4'];
    let b = vec!['1', '9', '1'];
    assert(a@ =~= seq!['1', '8', '4']);
    assert(b@ =~= seq!['1', '9', '1']);
    contains(path, &a) || contains(path, &b)
}

fn list_contains(v: &Vec<String>, s: &[char]) -> (r: bool)
    ensures
        r == string_views(v@).contains(s@),
{
    let mut i: usize = 0;
    while i < v.len()
        invariant
            i <= v@.len(),
            forall|j: int| 0 <= j < i ==> v@[j]@ != s@,
        decreases v.len() - i,
    {
        let c = chars_of(v[i].as_str());
        if chars_equal(&c, s) {
            assert(string_views(v@)[i as int] == s@);
            return true;
        }
        i = i + 1;
    }
    assert forall|j: int| 0 <= j < string_views(v@).len() implies string_views(v@)[j] != s@ by {
        assert(string_views(v@)[j] == v@[j]@);
    }
    false
}

impl ManifestWalk {
    /// A walk of the dependent of `lib` cloned into `root`.
    pub fn new(lib: &str, root: &str) -> (r: Self)
        ensures
            r@.lib == lib@,
            r@.pending == seq![root@],
            r@.found == Seq::<Seq<char>>::empty(),
            r@.current is None,
            r@.wf(),
    {
        let mut pending: Vec<String> = Vec::new();
        pending.push(root.to_owned());
        let r = ManifestWalk { lib: lib.to_owned(), pending, found: Vec::new(), current: None };
        assert(r@.pending =~= seq![root@]);
        assert(r@.found =~= Seq::<Seq<char>>::empty());
        r
    }

    /// The next directory whose manifest is to be read, if any: the last
    /// pending directory that is not passed over. It and the passed-over
    /// directories after it leave the pending list, and it becomes the
    /// directory whose manifest the walk awaits.
    pub fn next_dir(&mut self) -> (r: Option<String>)
        requires
            old(self)@.wf(),
        ensures
            final(self)@.lib == old(self)@.lib,
            final(self)@.found == old(self)@.found,
            final(self)@.current == (match r {
                Some(d) => Some(d@),
                None => None::<Seq<char>>,
            }),
            final(self)@.wf(),
            r is None ==> final(self)@.pending == Seq::<Seq<char>>::empty() && forall|i: int|
                0 <= i < old(self)@.pending.len() ==> is_passed_over(#[trigger] old(self)@.pending[i]),
            r matches Some(d) ==> {
                let k = final(self)@.pending.len() as int;
                &&& k < old(self)@.pending.len()
                &&& final(self)@.pending == old(self)@.pending.take(k)
                &&& old(self)@.pending[k] == d@
                &&& !is_passed_over(d@)
                &&& forall|i: int| k < i < old(self)@.pending.len() ==> is_passed_over(
                    #[trigger] old(self)@.pending[i],
                )
            },
    {
        let ghost start = string_views(self.pending@);
        loop
            invariant
                old(self)@.wf(),
                self.lib@ == old(self)@.lib,
                string_views(self.found@) == old(self)@.found,
                start == old(self)@.pending,
                self.pending@.len() <= start.len(),
                string_views(self.pending@) == start.take(self.pending@.len() as int),
                forall|i: int| self.pending@.len() <= i < start.len() ==> is_passed_over(#[trigger] start[i]),
            ensures
                self.lib@ == old(self)@.lib,
                string_views(self.found@) == old(self)@.found,
                self.pending@.len() == 0,
                forall|i: int| 0 <= i < start.len() ==> is_passed_over(#[trigger] start[i]),
            decreases self.pending@.len(),
        {
            match self.pending.pop() {
                None => {
                    break;
                },
                Some(d) => {
                    let k: usize = self.pending.len();
                    assert(start[k as int] == d@) by {
                        assert(string_views(self.pending@.push(d)) == start.take(k + 1));
                        assert(string_views(self.pending@.push(d))[k as int] == d@);
                    }
                    assert(string_views(self.pending@) =~= start.take(k as int)) by {
                        assert(string_views(self.pending@.push(d)) == start.take(k + 1));
                        assert forall|i: int| 0 <= i < k implies string_views(self.pending@)[i] == start.take(k as int)[i] by {
                            assert(string_views(self.pending@.push(d))[i] == string_views(self.pending@)[i]);
                        }
                    }
                    let dc = chars_of(d.as_str());
                    if !is_passed_over_path(&dc) {
                        let c = d.clone();
                        assert(c@ == d@);
                        self.current = Some(c);
                        assert(self@.found == old(self)@.found);
                        return Some(d);
                    }
                },
            }
        }
        self.current = None;
        None
    }

    /// Records the manifest read from `dir` (`None` when it could not be
    /// read or parsed): a package that depends on the library makes `dir` a
    /// result, and the members to visit become pending, the first on top.
    #[verifier::spinoff_prover]
    pub fn visit(&mut self, dir: &str, manifest: Option<&ManifestInfo>)
        requires
            old(self)@.wf(),
            old(self)@.current == Some(dir@),
            manifest matches Some(m) ==> is_usable(*m),
        ensures
            final(self)@.lib == old(self)@.lib,
            final(self)@.current is None,
            final(self)@.wf(),
            manifest is None ==> final(self)@ == (WalkView { current: None, ..old(self)@ }),
            manifest matches Some(m) ==> {
                &&& final(self)@.found == if is_result(*m, old(self)@.lib) {
                    old(self)@.found.push(dir@)
                } else {
                    old(self)@.found
                }
                &&& final(self)@.pending == old(self)@.pending + pushed_members(dir@, members_to_visit(*m))
            },
    {
        let ghost dir_v = dir@;
        assert(!is_passed_over(dir_v));
        match manifest {
            None => {},
            Some(m) => {
                let lib = chars_of(self.lib.as_str());
                let add_dir = match &m.package {
                    Some(_) => list_contains(&m.dependencies, &lib),
                    None => false,
                };
                if add_dir {
                    let ghost prev = string_views(self.found@);
                    self.found.push(dir.to_owned());
                    assert(string_views(self.found@) =~= prev.push(dir@));
                }
                let ghost found_after = string_views(self.found@);
                let ghost members = members_to_visit(*m);
                let ghost start = string_views(self.pending@);
                let ghost joined = members.map_values(|s: Seq<char>| path_join(dir@, s));
                let visit_all = match &m.package {
                    None => true,
                    Some(p) => !p.in_workspace,
                };
                if visit_all {
                    match &m.workspace_members {
                        None => {
                            assert(members =~= Seq::<Seq<char>>::empty());
                            assert(start + joined.reverse() =~= start);
                        },
                        Some(ms) => {
                            let skip_self = m.package.is_some();
                            let ghost all = string_views(ms@);
                            let mut i: usize = ms.len();
                            assert(all.skip(i as int) =~= Seq::<Seq<char>>::empty());
                            assert(string_views(self.pending@) =~= start + pushed_members(dir@, Seq::<Seq<char>>::empty()));
                            while i > 0
                                invariant
                                    i <= ms@.len(),
                                    all == string_views(ms@),
                                    self.lib@ == old(self)@.lib,
                                    string_views(self.found@) == found_after,
                                    skip_self == (m.package is Some),
                                    string_views(self.pending@) == start + pushed_members(dir@, if skip_self {
                                        all.skip(i as int).filter(is_other_member())
                                    } else {
                                        all.skip(i as int)
                                    }),
                                decreases i,
                            {
                                i = i - 1;
                                let mc = chars_of(ms[i].as_str());
                                let is_self = (mc.len() == 1 && mc[0] == '.') || (mc.len() == 2 && mc[0] == '.' && mc[1] == '/');
                                assert(is_self == is_self_member(mc@)) by {
                                    if mc@.len() == 1 && mc@[0] == '.' {
                                        assert(mc@ =~= seq!['.']);
                                    }
                                    if mc@.len() == 2 && mc@[0] == '.' && mc@[1] == '/' {
                                        assert(mc@ =~= seq!['.', '/']);
                                    }
                                }
                                let ghost x = all[i as int];
                                assert(x == mc@);
                                let ghost rest = all.skip(i + 1);
                                assert(all.skip(i as int) =~= seq![x] + rest);
                                proof {
                                    rest.lemma_filter_prepend(x, is_other_member());
                                }
                                let ghost before = string_views(self.pending@);
                                if !(skip_self && is_self) {
                                    let joined_dir = join_path(dir, ms[i].as_str());
                                    self.pending.push(joined_dir);
                                    assert(string_views(self.pending@) =~= before.push(path_join(dir@, x)));
                                    let ghost sel = if skip_self { rest.filter(is_other_member()) } else { rest };
                                    let ghost sel2 = if skip_self { all.skip(i as int).filter(is_other_member()) } else { all.skip(i as int) };
                                    assert(sel2 =~= seq![x] + sel);
                                    assert(pushed_members(dir@, sel2) =~= pushed_members(dir@, sel).push(path_join(dir@, x)));
                                } else {
                                    assert(rest.filter(is_other_member()) =~= all.skip(i as int).filter(is_other_member()));
                                }
                            }
                            assert(all.skip(0) =~= all);
                        },
                    }
                } else {
                    assert(members =~= Seq::<Seq<char>>::empty());
                    assert(start + joined.reverse() =~= start);
                }
            },
        }
        self.current = None;
    }

    /// The result directories found so far, in the order found.
    pub fn into_found(self) -> (r: Vec<String>)
        requires
            self@.wf(),
        ensures
            string_views(r@) == self@.found,
            forall|i: int| 0 <= i < r@.len() ==> !is_passed_over(#[trigger] string_views(r@)[i]),
    {
        assert(self@.found == string_views(self.found@));
        assert forall|i: int| 0 <= i < self.found@.len() implies !is_passed_over(
            #[trigger] string_views(self.found@)[i],
        ) by {
            assert(self@.found[i] == string_views(self.found@)[i]);
        }
        self.found
    }
}

} // verus!
