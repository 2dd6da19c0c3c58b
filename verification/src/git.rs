//! Skills kept in git repositories, cloned once and then cached.

use vstd::prelude::*;
use vstd::utf8;
use crate::outside;
use crate::path;
use crate::path::SkillPath;
use crate::request;
use crate::request::{FileSystem, Reply, ReplyView, Request, RequestView};
use crate::scan;
use crate::scan::{Phase, ScanView, Scanner};
use crate::skill;
use crate::skill::{DiscoveredSkill, SkillView};
use crate::text;

verus! {

/// The local name of the repository at `url`: the last segment of the URL without `.git` at its
/// end.
pub open spec fn repo_name(url: Seq<char>) -> Seq<char> {
    text::without_suffix(text::split_on(url, '/').last(), ".git"@)
}

/// The directory below the system's cache directory in which repositories are kept.
pub open spec fn repos_dir(cache: Seq<u8>) -> Seq<u8> {
    path::below(path::below(cache, "claurst"@), "skills"@)
}

/// The directory in which the repository at `url` is kept.
pub open spec fn repo_dir(cache: Seq<u8>, url: Seq<char>) -> Seq<u8> {
    path::below(repos_dir(cache), repo_name(url))
}

/// The arguments with which `git` clones `url` into the directory named `dest`.
pub open spec fn clone_args(url: Seq<char>, dest: Seq<char>) -> Seq<Seq<char>> {
    seq!["clone"@, "--depth=1"@, url, dest]
}

/// The commands that have been carried out once the repository at `url` has been fetched, where
/// `done` had been before: none more where it is kept already; else the directory for repositories
/// is created and, where that succeeds, the repository is cloned.
pub open spec fn repo_done(
    fs: FileSystem,
    done: Seq<RequestView>,
    cache: Option<Seq<u8>>,
    url: Seq<char>,
) -> Seq<RequestView> {
    if cache is None || repo_name(url).len() == 0 {
        done
    } else {
        let repo = repo_dir(cache->Some_0, url);
        let create = RequestView::CreateDirs(repos_dir(cache->Some_0));
        if fs(done)(RequestView::Exists(repo)).yes() {
            done
        } else if fs(done)(create).yes() && path::as_text(repo) is Some {
            done.push(create).push(
                RequestView::Git(clone_args(url, path::as_text(repo)->Some_0)),
            )
        } else {
            done.push(create)
        }
    }
}

/// Whether the repository at `url` is kept where the commands `done` have been carried out, or can
/// be cloned there.
pub open spec fn is_available(
    fs: FileSystem,
    done: Seq<RequestView>,
    cache: Seq<u8>,
    url: Seq<char>,
) -> bool {
    let repo = repo_dir(cache, url);
    let create = RequestView::CreateDirs(repos_dir(cache));
    fs(done)(RequestView::Exists(repo)).yes() || (fs(done)(create).yes() && path::as_text(
        repo,
    ) is Some && fs(done.push(create))(
        RequestView::Git(clone_args(url, path::as_text(repo)->Some_0)),
    ).yes())
}

/// The skills of the repository at `url`, where the commands `done` have been carried out: those of
/// its root, then those of its `skills` directory, as they are once it has been fetched. None where
/// there is no cache directory, where the URL names no repository, and where the repository cannot
/// be had.
pub open spec fn repo_skills(
    fs: FileSystem,
    done: Seq<RequestView>,
    cache: Option<Seq<u8>>,
    url: Seq<char>,
) -> Option<Seq<SkillView>> {
    if cache is None || repo_name(url).len() == 0 || !is_available(fs, done, cache->Some_0, url) {
        None
    } else {
        let w = fs(repo_done(fs, done, cache, url));
        let repo = repo_dir(cache->Some_0, url);
        Some(scan::skills_in(w, repo) + scan::skills_in(w, path::below(repo, "skills"@)))
    }
}

/// What the fetching of a repository waits for.
#[derive(Debug, Clone, Copy, PartialEq, Eq, Structural)]
pub enum FetchPhase {
    /// Whether the repository is kept already.
    Exists,
    /// Whether the directory for repositories could be created.
    CreateDirs,
    /// Whether the repository could be cloned.
    Clone,
    /// The scan of the root of the repository.
    ScanRoot,
    /// The scan of its `skills` directory.
    ScanSkills,
    /// Nothing more: the repository cannot be had.
    Failed,
    /// Nothing more: the skills are found.
    Done,
}

/// The state of the fetching of a repository.
#[verifier::ext_equal]
pub struct FetchView {
    /// Where the repository comes from.
    pub url: Seq<char>,
    /// The directory in which repositories are kept.
    pub repos: Seq<u8>,
    /// The directory of this repository.
    pub repo: Seq<u8>,
    /// What the fetching waits for.
    pub phase: FetchPhase,
    /// The scan that runs, or the last one that ran.
    pub scan: ScanView,
    /// The skills of the scans that are done.
    pub skills: Seq<SkillView>,
}

/// The state in which the fetching of `url` starts.
pub open spec fn fetch_start(cache: Option<Seq<u8>>, url: Seq<char>) -> FetchView {
    let (repos, repo) = match cache {
        Some(c) => (repos_dir(c), repo_dir(c, url)),
        None => (Seq::empty(), Seq::empty()),
    };
    FetchView {
        url,
        repos,
        repo,
        phase: if cache is None || repo_name(url).len() == 0 {
            FetchPhase::Failed
        } else {
            FetchPhase::Exists
        },
        scan: scan::scan_start(repo),
        skills: Seq::empty(),
    }
}

impl FetchView {
    /// Whether a scan that runs is under way.
    pub open spec fn wf(self) -> bool {
        &&& self.scan.wf()
        &&& self.is_scanning() ==> self.scan.phase != Phase::Done
        &&& self.phase == FetchPhase::Clone ==> path::as_text(self.repo) is Some
    }

    /// Whether a scan runs.
    pub open spec fn is_scanning(self) -> bool {
        self.phase == FetchPhase::ScanRoot || self.phase == FetchPhase::ScanSkills
    }

    /// What the fetching asks next; nothing when it is over.
    pub open spec fn request(self) -> Option<RequestView> {
        match self.phase {
            FetchPhase::Exists => Some(RequestView::Exists(self.repo)),
            FetchPhase::CreateDirs => Some(RequestView::CreateDirs(self.repos)),
            FetchPhase::Clone => Some(
                RequestView::Git(clone_args(self.url, path::as_text(self.repo)->Some_0)),
            ),
            FetchPhase::ScanRoot => self.scan.request(),
            FetchPhase::ScanSkills => self.scan.request(),
            FetchPhase::Failed => None,
            FetchPhase::Done => None,
        }
    }

    /// The state with another phase.
    pub open spec fn at(self, phase: FetchPhase) -> FetchView {
        FetchView { phase, ..self }
    }

    /// The state behind a reply to the scan that runs, when that is over: `next` is the directory
    /// of the next scan.
    pub open spec fn scanned(self, reply: ReplyView, phase: FetchPhase, next: Seq<u8>) -> FetchView {
        let scan = self.scan.after(reply);
        if scan.phase == Phase::Done {
            FetchView {
                phase,
                skills: self.skills + scan.skills,
                scan: scan::scan_start(next),
                ..self
            }
        } else {
            FetchView { scan, ..self }
        }
    }

    /// The state behind a reply.
    pub open spec fn after(self, reply: ReplyView) -> FetchView {
        match self.phase {
            FetchPhase::Exists => if reply.yes() {
                self.scan_repo()
            } else {
                self.at(FetchPhase::CreateDirs)
            },
            FetchPhase::CreateDirs => if reply.yes() && path::as_text(self.repo) is Some {
                self.at(FetchPhase::Clone)
            } else {
                self.at(FetchPhase::Failed)
            },
            FetchPhase::Clone => if reply.yes() {
                self.scan_repo()
            } else {
                self.at(FetchPhase::Failed)
            },
            FetchPhase::ScanRoot => self.scanned(
                reply,
                FetchPhase::ScanSkills,
                path::below(self.repo, "skills"@),
            ),
            FetchPhase::ScanSkills => self.scanned(reply, FetchPhase::Done, self.repo),
            FetchPhase::Failed => self,
            FetchPhase::Done => self,
        }
    }

    /// The state in which the scan of the repository starts.
    pub open spec fn scan_repo(self) -> FetchView {
        FetchView { phase: FetchPhase::ScanRoot, scan: scan::scan_start(self.repo), ..self }
    }

    /// What the fetching has come to, when it is over: the skills, or none where the repository
    /// cannot be had.
    pub open spec fn result(self) -> Option<Seq<SkillView>> {
        if self.phase == FetchPhase::Done {
            Some(self.skills)
        } else {
            None
        }
    }
}

/// The fetching of a repository and the scans for its skills.
#[derive(Debug)]
pub struct GitFetch {
    url: String,
    repos: SkillPath,
    repo: SkillPath,
    phase: FetchPhase,
    scan: Scanner,
    skills: Vec<DiscoveredSkill>,
}

impl View for GitFetch {
    type V = FetchView;

    closed spec fn view(&self) -> FetchView {
        FetchView {
            url: self.url@,
            repos: self.repos@,
            repo: self.repo@,
            phase: self.phase,
            scan: self.scan@,
            skills: skill::skill_views(self.skills@),
        }
    }
}

/// Starts the fetching of the repository at `url`: it is cloned where it is not yet kept below
/// the system's cache directory, and kept as it is where it is.
pub fn fetch_git_skills(url: &str) -> (r: GitFetch)
    ensures
        r@.wf(),
        repo_name(url@).len() == 0 ==> r@.phase == FetchPhase::Failed,
        exists|cache: Option<Seq<u8>>| r@ == #[trigger] fetch_start(cache, url@),
{
    let cache = outside::cache_dir();
    fetch_below(&cache, url)
}

/// Starts the fetching of the repository at `url` into the cache directory `cache`.
pub fn fetch_below(cache: &Option<SkillPath>, url: &str) -> (r: GitFetch)
    ensures
        r@.wf(),
        r@ == fetch_start(path::path_view(*cache), url@),
{
    let url_chars = text::chars_of(url);
    let suffix = text::chars_of(".git");
    let name = text::strip_suffix(text::last_piece(url_chars.as_slice(), '/'), suffix.as_slice());
    let known: bool = cache.is_some() && name.len() > 0;
    let repos: SkillPath = match cache {
        Some(c) => c.join_text("claurst").join_text("skills"),
        None => SkillPath::from_bytes(&[]),
    };
    let repo: SkillPath = match cache {
        Some(_) => repos.join_text(text::string_of(name).as_str()),
        None => SkillPath::from_bytes(&[]),
    };
    let scan = scan::scan_dir(&repo);
    let r = GitFetch {
        url: url.to_string(),
        repos,
        repo,
        phase: if known {
            FetchPhase::Exists
        } else {
            FetchPhase::Failed
        },
        scan,
        skills: Vec::new(),
    };
    assert(r@ =~= fetch_start(path::path_view(*cache), url@));
    r
}

impl GitFetch {
    /// What the fetching asks next; nothing when it is over.
    pub fn request(&self) -> (r: Option<Request>)
        requires
            self@.wf(),
        ensures
            request::request_view(r) == self@.request(),
    {
        match self.phase {
            FetchPhase::Exists => Some(Request::Exists(self.repo.clone())),
            FetchPhase::CreateDirs => Some(Request::CreateDirs(self.repos.clone())),
            FetchPhase::Clone => {
                match self.repo.to_text() {
                    Some(dest) => {
                        let mut args: Vec<String> = Vec::new();
                        args.push("clone".to_string());
                        args.push("--depth=1".to_string());
                        args.push(self.url.clone());
                        args.push(dest);
                        assert(args@.map_values(|a: String| a@) =~= clone_args(self.url@, dest@));
                        Some(Request::Git(args))
                    },
                    None => None,
                }
            },
            FetchPhase::ScanRoot => self.scan.request(),
            FetchPhase::ScanSkills => self.scan.request(),
            FetchPhase::Failed => None,
            FetchPhase::Done => None,
        }
    }

    /// What the fetching waits for.
    pub fn phase(&self) -> (r: FetchPhase)
        ensures
            r == self@.phase,
    {
        self.phase
    }

    /// What the fetching has come to, when it is over: the skills, or none where the repository
    /// cannot be had.
    pub fn into_result(self) -> (r: Option<Vec<DiscoveredSkill>>)
        ensures
            match r {
                Some(s) => self@.result() == Some(skill::skill_views(s@)),
                None => self@.result() is None,
            },
    {
        if self.phase == FetchPhase::Done {
            Some(self.skills)
        } else {
            None
        }
    }

    fn scan_repo(&mut self)
        ensures
            final(self)@ == old(self)@.scan_repo(),
            final(self)@.wf(),
    {
        self.scan = scan::scan_dir(&self.repo);
        self.phase = FetchPhase::ScanRoot;
    }

    fn scanned(&mut self, reply: Reply, phase: FetchPhase, next: &SkillPath)
        requires
            old(self)@.wf(),
            old(self)@.is_scanning(),
            phase == FetchPhase::ScanSkills || phase == FetchPhase::Done,
        ensures
            final(self)@ == old(self)@.scanned(reply@, phase, next@),
            final(self)@.wf(),
    {
        self.scan.resume(reply);
        if self.scan.is_done() {
            let mut scan = scan::scan_dir(next);
            core::mem::swap(&mut scan, &mut self.scan);
            let mut found = scan.into_skills();
            let ghost more = found@;
            let ghost before = self.skills@;
            self.skills.append(&mut found);
            assert(skill::skill_views(before + more) =~= skill::skill_views(before)
                + skill::skill_views(more));
            self.phase = phase;
        }
    }

    /// Goes on with the reply to the request.
    pub fn resume(&mut self, reply: Reply)
        requires
            old(self)@.wf(),
        ensures
            final(self)@ == old(self)@.after(reply@),
            final(self)@.wf(),
    {
        match self.phase {
            FetchPhase::Exists => {
                if reply.is_yes() {
                    self.scan_repo();
                } else {
                    self.phase = FetchPhase::CreateDirs;
                }
            },
            FetchPhase::CreateDirs => {
                if reply.is_yes() && self.repo.to_text().is_some() {
                    self.phase = FetchPhase::Clone;
                } else {
                    self.phase = FetchPhase::Failed;
                }
            },
            FetchPhase::Clone => {
                if reply.is_yes() {
                    self.scan_repo();
                } else {
                    self.phase = FetchPhase::Failed;
                }
            },
            FetchPhase::ScanRoot => {
                let next = self.repo.join_text("skills");
                self.scanned(reply, FetchPhase::ScanSkills, &next);
            },
            FetchPhase::ScanSkills => {
                let next = self.repo.clone();
                self.scanned(reply, FetchPhase::Done, &next);
            },
            FetchPhase::Failed => {},
            FetchPhase::Done => {},
        }
    }
}

impl FetchView {
    /// The request to clone the repository.
    pub open spec fn clone_request(self) -> RequestView {
        RequestView::Git(clone_args(self.url, path::as_text(self.repo)->Some_0))
    }

    /// The commands that will have been carried out when the fetching is over, where `done` have
    /// been.
    pub open spec fn commands(self, fs: FileSystem, done: Seq<RequestView>) -> Seq<RequestView> {
        let create = RequestView::CreateDirs(self.repos);
        let created = if fs(done)(create).yes() && path::as_text(self.repo) is Some {
            done.push(create).push(self.clone_request())
        } else {
            done.push(create)
        };
        match self.phase {
            FetchPhase::Exists => if fs(done)(RequestView::Exists(self.repo)).yes() {
                done
            } else {
                created
            },
            FetchPhase::CreateDirs => created,
            FetchPhase::Clone => done.push(self.clone_request()),
            _ => done,
        }
    }

    /// What the fetching will have come to when it is over, where the commands `done` have been
    /// carried out.
    pub open spec fn outcome(self, fs: FileSystem, done: Seq<RequestView>) -> Option<
        Seq<SkillView>,
    > {
        let w = fs(self.commands(fs, done));
        let root = scan::skills_in(w, self.repo);
        let inner = scan::skills_in(w, path::below(self.repo, "skills"@));
        let create = RequestView::CreateDirs(self.repos);
        let made = fs(done)(create).yes() && path::as_text(self.repo) is Some && fs(
            done.push(create),
        )(self.clone_request()).yes();
        match self.phase {
            FetchPhase::Exists => if fs(done)(RequestView::Exists(self.repo)).yes() || made {
                Some(self.skills + root + inner)
            } else {
                None
            },
            FetchPhase::CreateDirs => if made {
                Some(self.skills + root + inner)
            } else {
                None
            },
            FetchPhase::Clone => if fs(done)(self.clone_request()).yes() {
                Some(self.skills + root + inner)
            } else {
                None
            },
            FetchPhase::ScanRoot => Some(self.skills + self.scan.outcome(w) + inner),
            FetchPhase::ScanSkills => Some(self.skills + self.scan.outcome(w)),
            FetchPhase::Failed => None,
            FetchPhase::Done => Some(self.skills),
        }
    }

    /// How many phases may follow, at most.
    pub open spec fn phases_left(self) -> nat {
        match self.phase {
            FetchPhase::Exists => 5,
            FetchPhase::CreateDirs => 4,
            FetchPhase::Clone => 3,
            FetchPhase::ScanRoot => 2,
            FetchPhase::ScanSkills => 1,
            FetchPhase::Failed => 0,
            FetchPhase::Done => 0,
        }
    }

    /// Whether the repository is at hand: nothing will be cloned.
    pub open spec fn is_at_hand(self) -> bool {
        self.is_scanning() || self.phase == FetchPhase::Done
    }
}

/// What the fetching from the state `v` on comes to, when every request is carried out and replied
/// to, and the commands that have been carried out then.
pub open spec fn fetch_run(v: FetchView, fs: FileSystem, done: Seq<RequestView>) -> (
    Option<Seq<SkillView>>,
    Seq<RequestView>,
)
    decreases v.phases_left(), v.scan.stage(), v.scan.replies_left(),
    when v.wf()
{
    match v.request() {
        Some(q) => {
            proof {
                fetch_comes_to_an_end(v, fs(done)(q));
            }
            fetch_run(v.after(fs(done)(q)), fs, request::done_with(done, q))
        },
        None => (v.result(), done),
    }
}

/// The fetching of a repository comes nearer to its end with every reply, whatever it says.
pub proof fn fetch_comes_to_an_end(v: FetchView, reply: ReplyView)
    requires
        v.wf(),
        v.request() is Some,
    ensures
        v.after(reply).wf(),
        v.after(reply).phases_left() < v.phases_left() || (v.after(reply).phases_left()
            == v.phases_left() && (v.after(reply).scan.stage() < v.scan.stage() || (v.after(
            reply,
        ).scan.stage() == v.scan.stage() && 0 <= v.after(reply).scan.replies_left()
            < v.scan.replies_left()))),
{
    if v.is_scanning() {
        scan::scan_comes_to_an_end(v.scan, reply);
    }
}

/// A reply that is the one the file system gives does not change what the fetching will have come
/// to.
pub proof fn fetch_reply_keeps_outcome(v: FetchView, fs: FileSystem, done: Seq<RequestView>)
    requires
        v.wf(),
        v.request() is Some,
    ensures
        ({
            let q = v.request()->Some_0;
            let a = v.after(fs(done)(q));
            let more = request::done_with(done, q);
            &&& a.outcome(fs, more) == v.outcome(fs, done)
            &&& a.commands(fs, more) == v.commands(fs, done)
        }),
{
    let reply = fs(done)(v.request()->Some_0);
    let w = fs(v.commands(fs, done));
    scan::scan_start_outcome(v.repo, w);
    if v.is_scanning() {
        scan::scan_commands_nothing(v.scan);
        scan::scan_reply_keeps_outcome(v.scan, w);
        let scan = v.scan.after(reply);
        if scan.phase == Phase::Done {
            scan::done_scan_outcome(scan, w);
            scan::scan_start_outcome(path::below(v.repo, "skills"@), w);
        }
    }
}

proof fn fetch_run_finds_outcome(v: FetchView, fs: FileSystem, done: Seq<RequestView>)
    requires
        v.wf(),
    ensures
        fetch_run(v, fs, done) == (v.outcome(fs, done), v.commands(fs, done)),
    decreases v.phases_left(), v.scan.stage(), v.scan.replies_left(),
{
    if v.request() is Some {
        let q = v.request()->Some_0;
        fetch_comes_to_an_end(v, fs(done)(q));
        fetch_reply_keeps_outcome(v, fs, done);
        fetch_run_finds_outcome(v.after(fs(done)(q)), fs, request::done_with(done, q));
    }
}

/// What the fetching of a repository will come to from its start.
pub(crate) proof fn fetch_start_outcome(
    fs: FileSystem,
    done: Seq<RequestView>,
    cache: Option<Seq<u8>>,
    url: Seq<char>,
)
    ensures
        fetch_start(cache, url).outcome(fs, done) == repo_skills(fs, done, cache, url),
        fetch_start(cache, url).commands(fs, done) == repo_done(fs, done, cache, url),
{
    let v = fetch_start(cache, url);
    if v.phase == FetchPhase::Exists {
        let w = fs(v.commands(fs, done));
        let root = scan::skills_in(w, v.repo);
        let inner = scan::skills_in(w, path::below(v.repo, "skills"@));
        assert(v.skills + root + inner =~= root + inner);
    }
}

/// The fetching of a repository comes to exactly the skills of its root and of its `skills`
/// directory, and to none where the repository cannot be had; it creates and clones what the
/// repository needs, and no more.
pub proof fn fetch_finds_the_skills(
    fs: FileSystem,
    done: Seq<RequestView>,
    cache: Option<Seq<u8>>,
    url: Seq<char>,
)
    ensures
        fetch_run(fetch_start(cache, url), fs, done) == (
            repo_skills(fs, done, cache, url),
            repo_done(fs, done, cache, url),
        ),
{
    fetch_run_finds_outcome(fetch_start(cache, url), fs, done);
    fetch_start_outcome(fs, done, cache, url);
}

/// A repository is cloned once: where it has been fetched and stands in its directory, the fetching
/// of any URL of the same name comes to the same skills, and creates and clones nothing.
pub proof fn repository_is_cloned_once(
    fs: FileSystem,
    done: Seq<RequestView>,
    cache: Seq<u8>,
    url: Seq<char>,
    again: Seq<char>,
)
    requires
        repo_name(again) == repo_name(url),
        fetch_run(fetch_start(Some(cache), url), fs, done).0 is Some,
        ({
            let behind = fetch_run(fetch_start(Some(cache), url), fs, done).1;
            fs(behind)(RequestView::Exists(repo_dir(cache, url))).yes()
        }),
    ensures
        ({
            let first = fetch_run(fetch_start(Some(cache), url), fs, done);
            fetch_run(fetch_start(Some(cache), again), fs, first.1) == first
        }),
{
    fetch_finds_the_skills(fs, done, Some(cache), url);
    fetch_finds_the_skills(fs, repo_done(fs, done, Some(cache), url), Some(cache), again);
}

/// A repository that is not kept yet is cloned into its directory without its history, once the
/// directory above is there.
pub proof fn missing_repository_is_cloned(cache: Seq<u8>, url: Seq<char>, dest: Seq<char>)
    requires
        repo_name(url).len() > 0,
        path::as_text(repo_dir(cache, url)) == Some(dest),
    ensures
        ({
            let asked = fetch_start(Some(cache), url);
            let missing = asked.after(ReplyView::Flag(false));
            let ready = missing.after(ReplyView::Flag(true));
            &&& asked.request() == Some(RequestView::Exists(repo_dir(cache, url)))
            &&& missing.request() == Some(RequestView::CreateDirs(repos_dir(cache)))
            &&& ready.request() == Some(
                RequestView::Git(seq!["clone"@, "--depth=1"@, url, dest]),
            )
        }),
{
}

/// A repository that is kept already is used as it is: from then on nothing is asked but what a
/// scan asks, whatever the replies say, so nothing is created or cloned.
pub proof fn kept_repository_is_used_as_it_is(v: FetchView, reply: ReplyView)
    requires
        v.wf(),
        v.is_at_hand() || (v.phase == FetchPhase::Exists && reply.yes()),
    ensures
        v.after(reply).is_at_hand(),
        v.after(reply).request() matches Some(q) ==> !(q is Git) && !(q is CreateDirs),
{
}

/// The name of a repository holds no `/` and does not end in `.git`.
pub proof fn repo_name_is_one_segment(url: Seq<char>)
    ensures
        text::is_without(repo_name(url), '/'),
        !".git"@.is_suffix_of(repo_name(url)),
{
    reveal_strlit(".git");
    text::pieces_are_without(url, '/');
    let pieces = text::split_on(url, '/');
    assert(text::is_without(pieces[pieces.len() - 1], '/'));
    text::without_suffix_ends(pieces.last(), ".git"@, '/');
}

/// A repository is kept in a directory of its name directly below the one for repositories,
/// unless it is named `.` or `..`.
pub proof fn repository_has_its_directory(cache: Seq<u8>, url: Seq<char>)
    requires
        repo_name(url).len() > 0,
        utf8::encode_utf8(repo_name(url)) != seq![path::DOT],
        utf8::encode_utf8(repo_name(url)) != seq![path::DOT, path::DOT],
    ensures
        path::components(repo_dir(cache, url)) == path::components(repos_dir(cache)).push(
            utf8::encode_utf8(repo_name(url)),
        ),
{
    repo_name_is_one_segment(url);
    path::encoding_without_slash(repo_name(url));
    path::joined_name_is_last_component(repos_dir(cache), utf8::encode_utf8(repo_name(url)));
}

proof fn split_has_last_segment(prefix: Seq<char>, n: Seq<char>)
    requires
        prefix.len() == 0 || prefix.last() == '/',
        text::is_without(n, '/'),
    ensures
        text::split_on(prefix + n, '/').last() == n,
{
    if prefix.len() == 0 {
        assert(prefix + n =~= n);
        text::split_of_one_piece(n, '/');
    } else {
        let before = prefix.drop_last();
        assert(before.push('/') =~= prefix);
        text::split_behind_separator(before, n, '/');
    }
}

/// A repository is named by what stands behind the last `/` of its URL, whatever that is, and `.git`
/// at its end does not count, however often it stands there.
pub proof fn last_segment_names_the_repository(prefix: Seq<char>, n: Seq<char>, url: Seq<char>)
    requires
        prefix.len() == 0 || prefix.last() == '/',
        forall|i: int| 0 <= i < n.len() ==> n[i] != '/',
        !".git"@.is_suffix_of(n),
    ensures
        repo_name(prefix + n) == n,
        repo_name(prefix + n + ".git"@) == n,
        repo_name(url + ".git"@) == repo_name(url),
{
    reveal_strlit(".git");
    let git = ".git"@;
    assert(text::is_without(git, '/'));
    split_has_last_segment(prefix, n);
    text::suffixes_do_not_count(n, git);
    assert(prefix + n + git =~= prefix + (n + git));
    split_has_last_segment(prefix, n + git);
    let k = last_slash(url);
    let head = url.take(k);
    let last = url.skip(k);
    assert(url =~= head + last);
    assert(url + git =~= head + (last + git));
    split_has_last_segment(head, last);
    split_has_last_segment(head, last + git);
    text::suffixes_do_not_count(last, git);
}

/// Where the last segment of a URL starts.
proof fn last_slash(url: Seq<char>) -> (k: int)
    ensures
        0 <= k <= url.len(),
        k > 0 ==> url[k - 1] == '/',
        text::is_without(url.skip(k), '/'),
    decreases url.len(),
{
    if url.len() == 0 || url.last() == '/' {
        url.len() as int
    } else {
        let k = last_slash(url.drop_last());
        assert forall|i: int| 0 <= i < url.skip(k).len() implies url.skip(k)[i] != '/' by {
            if i < url.skip(k).len() - 1 {
                assert(url.skip(k)[i] == url.drop_last().skip(k)[i]);
            }
        }
        k
    }
}

/// The directory of a repository lies in `claurst/skills` below the cache directory and has the
/// name of the repository.
pub proof fn repository_lies_in_the_cache(cache: Seq<u8>, url: Seq<char>)
    requires
        repo_name(url).len() > 0,
        repo_name(url) != "."@,
        repo_name(url) != ".."@,
    ensures
        path::components(repos_dir(cache)) == path::components(cache).push(
            utf8::encode_utf8("claurst"@),
        ).push(utf8::encode_utf8("skills"@)),
        path::components(repo_dir(cache, url)) == path::components(cache).push(
            utf8::encode_utf8("claurst"@),
        ).push(utf8::encode_utf8("skills"@)).push(utf8::encode_utf8(repo_name(url))),
{
    let name = repo_name(url);
    path::separators_are_characters();
    utf8::encode_utf8_decode_utf8(name);
    utf8::encode_utf8_decode_utf8("."@);
    utf8::encode_utf8_decode_utf8(".."@);
    repos_lie_in_the_cache(cache);
    repository_has_its_directory(cache, url);
}

proof fn repos_lie_in_the_cache(cache: Seq<u8>)
    ensures
        path::components(repos_dir(cache)) == path::components(cache).push(
            utf8::encode_utf8("claurst"@),
        ).push(utf8::encode_utf8("skills"@)),
{
    reveal_strlit("claurst");
    reveal_strlit("skills");
    path::encoding_without_slash("claurst"@);
    path::encoding_without_slash("skills"@);
    path::joined_name_is_last_component(cache, utf8::encode_utf8("claurst"@));
    path::joined_name_is_last_component(
        path::below(cache, "claurst"@),
        utf8::encode_utf8("skills"@),
    );
}

/// Repositories of different names are kept in different directories.
pub proof fn repositories_are_kept_apart(cache: Seq<u8>, url: Seq<char>, other: Seq<char>)
    requires
        repo_name(url).len() > 0 && repo_name(url) != "."@ && repo_name(url) != ".."@,
        repo_name(other).len() > 0 && repo_name(other) != "."@ && repo_name(other) != ".."@,
        repo_name(url) != repo_name(other),
    ensures
        repo_dir(cache, url) != repo_dir(cache, other),
{
    repository_lies_in_the_cache(cache, url);
    repository_lies_in_the_cache(cache, other);
    utf8::encode_utf8_decode_utf8(repo_name(url));
    utf8::encode_utf8_decode_utf8(repo_name(other));
    assert(path::components(repo_dir(cache, url)).last() == utf8::encode_utf8(repo_name(url)));
    assert(path::components(repo_dir(cache, other)).last() == utf8::encode_utf8(repo_name(other)));
}

/// What is found in the repository that is kept in `repo`: the skills of its root and then those of
/// its directory `skills`.
pub proof fn repository_brings_root_and_skills(
    fs: FileSystem,
    done: Seq<RequestView>,
    cache: Seq<u8>,
    url: Seq<char>,
    n: Seq<char>,
    dest: Seq<char>,
)
    requires
        repo_name(url) == n,
        n.len() > 0,
    ensures
        ({
            let repos = path::below(path::below(cache, "claurst"@), "skills"@);
            let repo = path::below(repos, n);
            let create = RequestView::CreateDirs(repos);
            let clone = RequestView::Git(seq!["clone"@, "--depth=1"@, url, dest]);
            let run = fetch_run(fetch_start(Some(cache), url), fs, done);
            let is_kept = fs(done)(RequestView::Exists(repo)) == ReplyView::Flag(true);
            let is_created = fs(done)(create) == ReplyView::Flag(true);
            let is_cloned = fs(done.push(create))(clone) == ReplyView::Flag(true);
            let now = fs(done);
            let cloned_done = done.push(create).push(clone);
            let later = fs(cloned_done);
            &&& is_kept ==> run == (
                Some(
                    scan::scan_run(scan::scan_start(repo), now) + scan::scan_run(
                        scan::scan_start(path::below(repo, "skills"@)),
                        now,
                    ),
                ),
                done,
            )
            &&& !is_kept && !is_created ==> run == (None::<Seq<SkillView>>, done.push(create))
            &&& !is_kept && is_created && path::as_text(repo) is None ==> run == (
                None::<Seq<SkillView>>,
                done.push(create),
            )
            &&& !is_kept && is_created && path::as_text(repo) == Some(dest) && !is_cloned ==> run
                == (None::<Seq<SkillView>>, cloned_done)
            &&& !is_kept && is_created && path::as_text(repo) == Some(dest) && is_cloned ==> run == (
                Some(
                    scan::scan_run(scan::scan_start(repo), later) + scan::scan_run(
                        scan::scan_start(path::below(repo, "skills"@)),
                        later,
                    ),
                ),
                cloned_done,
            )
        }),
{
    let repo = repo_dir(cache, url);
    fetch_finds_the_skills(fs, done, Some(cache), url);
    let w = fs(repo_done(fs, done, Some(cache), url));
    scan::scan_finds_the_skills(w, repo);
    scan::scan_finds_the_skills(w, path::below(repo, "skills"@));
}

/// Without a cache directory, and where the URL has no name, nothing is found and nothing is done.
pub proof fn nothing_is_fetched_without_a_place(
    fs: FileSystem,
    done: Seq<RequestView>,
    cache: Seq<u8>,
    url: Seq<char>,
)
    ensures
        fetch_run(fetch_start(None, url), fs, done) == (None::<Seq<SkillView>>, done),
        repo_name(url).len() == 0 ==> fetch_run(fetch_start(Some(cache), url), fs, done) == (
            None::<Seq<SkillView>>,
            done,
        ),
{
    fetch_finds_the_skills(fs, done, None, url);
    fetch_finds_the_skills(fs, done, Some(cache), url);
}

} // verus!
