//! Gathering the repositories of a library's dependents, and the shell
//! commands that clone them.
//!
//! The dependents are listed page by page; for each dependent its repository
//! address is looked up. A `DependentsCrawl` decides, from what each page and
//! lookup returned, whether to go on and which addresses to keep.
use vstd::prelude::*;
use crate::paths::{clone_target_dir, clone_target_path, dependents_dir, get_dependents_dir_path};
use crate::records::string_views;
use crate::text::{chars_of, find, first_match, insert_at, push_all, string_of};

verus! {

/// The state of a walk through the pages of a library's dependents.
pub struct DependentsCrawl {
    max_dependents: usize,
    page: u64,
    repositories: Vec<String>,
    finished: bool,
}

/// What a crawl has done so far.
pub struct CrawlView {
    pub max_dependents: nat,
    pub page: nat,
    pub repositories: Seq<Seq<char>>,
    pub finished: bool,
}

impl View for DependentsCrawl {
    type V = CrawlView;

    closed spec fn view(&self) -> CrawlView {
        CrawlView {
            max_dependents: self.max_dependents as nat,
            page: self.page as nat,
            repositories: string_views(self.repositories@),
            finished: self.finished,
        }
    }
}

impl CrawlView {
    /// A crawl never holds more than `max_dependents` addresses, and one
    /// that is still going has room for another.
    pub open spec fn wf(self) -> bool {
        &&& self.repositories.len() <= self.max_dependents
        &&& !self.finished ==> self.repositories.len() < self.max_dependents
    }
}

impl DependentsCrawl {
    /// A crawl that keeps up to `max_dependents` repository addresses; with
    /// a maximum of 0 it is over before it starts.
    pub fn new(max_dependents: usize) -> (r: Self)
        ensures
            r@.max_dependents == max_dependents,
            r@.page == 0,
            r@.repositories == Seq::<Seq<char>>::empty(),
            r@.finished == (max_dependents == 0),
            r@.wf(),
    {
        let r = DependentsCrawl {
            max_dependents,
            page: 0,
            repositories: Vec::new(),
            finished: max_dependents == 0,
        };
        assert(r@.repositories =~= Seq::<Seq<char>>::empty());
        r
    }

    /// Moves on to the next page and returns its number (pages count from 1).
    pub fn next_page(&mut self) -> (page: u64)
        requires
            old(self)@.page < u64::MAX,
        ensures
            page == old(self)@.page + 1,
            final(self)@ == (CrawlView { page: page as nat, ..old(self)@ }),
    {
        self.page = self.page + 1;
        self.page
    }

    /// Records what fetching the current page gave: `None` when the page
    /// could not be had, else the number of dependents on it. The crawl ends
    /// on a missing or empty page.
    pub fn page_fetched(&mut self, dependents: Option<usize>)
        requires
            old(self)@.wf(),
        ensures
            final(self)@ == (CrawlView {
                finished: old(self)@.finished || dependents is None || dependents == Some(0usize),
                ..old(self)@
            }),
            final(self)@.wf(),
    {
        match dependents {
            None => {
                self.finished = true;
            },
            Some(n) => {
                if n == 0 {
                    self.finished = true;
                }
            },
        }
    }

    /// Records the repository address of the next dependent, if it has one;
    /// the crawl ends once it holds `max_dependents` addresses.
    pub fn repository_found(&mut self, repository: Option<String>)
        requires
            !old(self)@.finished,
            old(self)@.wf(),
        ensures
            repository is None ==> final(self)@ == old(self)@,
            repository matches Some(addr) ==> final(self)@ == (CrawlView {
                repositories: old(self)@.repositories.push(addr@),
                finished: old(self)@.repositories.len() + 1 >= old(self)@.max_dependents,
                ..old(self)@
            }),
            final(self)@.wf(),
    {
        match repository {
            None => {},
            Some(addr) => {
                let ghost prev = string_views(self.repositories@);
                let ghost a = addr@;
                self.repositories.push(addr);
                assert(string_views(self.repositories@) =~= prev.push(a));
                self.finished = self.repositories.len() >= self.max_dependents;
            },
        }
    }

    /// The number of the page last moved to (0 before the first).
    pub fn page(&self) -> (r: u64)
        ensures
            r == self@.page,
    {
        self.page
    }

    /// Whether the crawl has ended.
    pub fn is_finished(&self) -> (r: bool)
        ensures
            r == self@.finished,
    {
        self.finished
    }

    /// The number of repository addresses kept so far.
    pub fn found(&self) -> (r: usize)
        ensures
            r == self@.repositories.len(),
    {
        self.repositories.len()
    }

    /// The repository addresses kept, in the order they were found.
    pub fn into_repositories(self) -> (r: Vec<String>)
        ensures
            string_views(r@) == self@.repositories,
    {
        self.repositories
    }
}

/// `addr` with an empty user and password (`:@`) after its first `//`, so
/// that cloning never stops to ask for credentials.
pub open spec fn with_empty_credentials(addr: Seq<char>) -> Seq<char> {
    match first_match(addr, seq!['/', '/']) {
        Some(p) => addr.take(p + 2) + seq![':', '@'] + addr.skip(p + 2),
        None => addr,
    }
}

/// The repository address with an empty user and password.
pub fn clone_address(addr: &str) -> (r: String)
    ensures
        r@ == with_empty_credentials(addr@),
{
    let a = chars_of(addr);
    let slashes = vec!['/', '/'];
    assert(slashes@ =~= seq!['/', '/']);
    match find(&a, &slashes) {
        Some(p) => {
            assert(slashes@.len() == 2);
            let n: usize = a.len();
            assert(p + 2 <= n);
            let cred = vec![':', '@'];
            assert(cred@ =~= seq![':', '@']);
            let v = insert_at(&a, p + 2, &cred);
            string_of(&v)
        },
        None => string_of(&a),
    }
}

/// The shell command that clones `addr` into `target`, giving up after
/// thirty seconds.
pub open spec fn clone_command_text(addr: Seq<char>, target: Seq<char>) -> Seq<char> {
    "timeout 30s git clone "@ + with_empty_credentials(addr) + " "@ + target
}

/// The clone of one dependent: where it goes, the address it is cloned
/// from, and the command that clones it.
pub struct ClonePlan {
    pub target_dir: String,
    pub address: String,
    pub command: String,
}

/// How dependent number `num` of library `lib_name`, found at `repo_addr`, is
/// cloned.
pub fn clone_plan(lib_name: &str, repo_addr: &str, num: u32) -> (r: ClonePlan)
    ensures
        r.target_dir@ == clone_target_dir(lib_name@, num as nat),
        r.address@ == with_empty_credentials(repo_addr@),
        r.command@ == clone_command_text(repo_addr@, clone_target_dir(lib_name@, num as nat)),
{
    let target_dir = clone_target_path(lib_name, num);
    let addr = clone_address(repo_addr);
    let mut cmd = chars_of("timeout 30s git clone ");
    push_all(&mut cmd, &chars_of(addr.as_str()));
    push_all(&mut cmd, &chars_of(" "));
    push_all(&mut cmd, &chars_of(target_dir.as_str()));
    ClonePlan { target_dir, address: addr, command: string_of(&cmd) }
}

/// What is run for dependent `num` found at `addr`: nothing when its target
/// directory already exists, else its clone command.
pub open spec fn clone_step(lib: Seq<char>, addr: Seq<char>, num: nat, target_exists: bool) -> Option<
    Seq<char>,
> {
    if target_exists {
        None
    } else {
        Some(clone_command_text(addr, clone_target_dir(lib, num)))
    }
}

/// What is run for each of the addresses `addrs`, numbered from 0, given
/// which of their target directories exist.
pub open spec fn clone_schedule(lib: Seq<char>, addrs: Seq<Seq<char>>, exists: Seq<bool>) -> Seq<
    Option<Seq<char>>,
> {
    Seq::new(addrs.len(), |j: int| clone_step(lib, addrs[j], j as nat, exists[j]))
}

/// An existing target directory only spares its own dependent: nothing is
/// cloned into it, and every other dependent gets the same command as if it
/// did not exist.
pub proof fn lemma_existing_target_is_left_alone(
    lib: Seq<char>,
    addrs: Seq<Seq<char>>,
    exists: Seq<bool>,
    i: int,
)
    requires
        exists.len() == addrs.len(),
        0 <= i < addrs.len(),
    ensures
        clone_schedule(lib, addrs, exists.update(i, true))[i] is None,
        clone_schedule(lib, addrs, exists.update(i, false))[i] == Some(
            clone_command_text(addrs[i], clone_target_dir(lib, i as nat)),
        ),
        forall|j: int|
            0 <= j < addrs.len() && j != i ==> #[trigger] clone_schedule(lib, addrs, exists.update(i, true))[j]
                == clone_schedule(lib, addrs, exists.update(i, false))[j],
{
}

/// How dependent number `num` at `repo_addr` is cloned, given whether its
/// target directory exists: not at all when it does.
pub fn clone_step_for(lib_name: &str, repo_addr: &str, num: u32, target_exists: bool) -> (r: Option<
    ClonePlan,
>)
    ensures
        r is None <==> clone_step(lib_name@, repo_addr@, num as nat, target_exists) is None,
        r matches Some(p) ==> clone_step(lib_name@, repo_addr@, num as nat, target_exists) == Some(
            p.command@,
        ) && p.target_dir@ == clone_target_dir(lib_name@, num as nat) && p.address@
            == with_empty_credentials(repo_addr@),
{
    if target_exists {
        None
    } else {
        Some(clone_plan(lib_name, repo_addr, num))
    }
}

/// The shell command run after cloning, which appends a line count of the
/// dependents directory to `line_count.txt`; the directory stands right
/// after `ls` and right before `-l`, with no spaces between.
pub open spec fn line_count_command_text(lib: Seq<char>) -> Seq<char> {
    "ls"@ + dependents_dir(lib) + "-l | wc -l >> line_count.txt"@
}

/// The command run after the dependents of `lib_name` are cloned.
pub fn line_count_command(lib_name: &str) -> (r: String)
    ensures
        r@ == line_count_command_text(lib_name@),
{
    let mut cmd = chars_of("ls");
    let dir = get_dependents_dir_path(lib_name);
    push_all(&mut cmd, &chars_of(dir.as_str()));
    push_all(&mut cmd, &chars_of("-l | wc -l >> line_count.txt"));
    string_of(&cmd)
}

} // verus!
