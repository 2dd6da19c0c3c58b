//! The discovery of skills from all sources.

use vstd::prelude::*;
use crate::catalog;
use crate::catalog::{Catalog, CatalogView};
use crate::git;
use crate::git::{FetchPhase, FetchView, GitFetch};
use crate::outside;
use crate::path;
use crate::path::SkillPath;
use crate::plan;
use crate::plan::{SkillsConfig, Source, SourceView};
use crate::request;
use crate::request::{FileSystem, Reply, ReplyView, Request, RequestView};
use crate::scan;
use crate::scan::{Phase, ScanView, Scanner};
use crate::skill;
use crate::skill::SkillView;

verus! {

/// The skills of a source, where the commands `done` have been carried out.
pub open spec fn source_skills(
    fs: FileSystem,
    done: Seq<RequestView>,
    cache: Option<Seq<u8>>,
    source: SourceView,
) -> Seq<SkillView> {
    match source {
        SourceView::Directory(dir) => scan::skills_in(fs(done), dir),
        SourceView::Repository(url) => skills_or_none(git::repo_skills(fs, done, cache, url)),
    }
}

/// The commands that have been carried out once a source has been searched, where `done` had been
/// before.
pub open spec fn source_done(
    fs: FileSystem,
    done: Seq<RequestView>,
    cache: Option<Seq<u8>>,
    source: SourceView,
) -> Seq<RequestView> {
    match source {
        SourceView::Directory(_) => done,
        SourceView::Repository(url) => git::repo_done(fs, done, cache, url),
    }
}

/// The skills, where there are any.
pub open spec fn skills_or_none(s: Option<Seq<SkillView>>) -> Seq<SkillView> {
    match s {
        Some(all) => all,
        None => Seq::empty(),
    }
}

/// The skills of the sources from the `i`-th on, one source behind the other, where the commands
/// `done` have been carried out before. Each source finds the file system as those before it have
/// left it.
pub open spec fn skills_from(
    fs: FileSystem,
    done: Seq<RequestView>,
    cache: Option<Seq<u8>>,
    sources: Seq<SourceView>,
    i: int,
) -> Seq<SkillView>
    decreases sources.len() - i,
{
    if i < 0 || i >= sources.len() {
        Seq::empty()
    } else {
        source_skills(fs, done, cache, sources[i]) + skills_from(
            fs,
            source_done(fs, done, cache, sources[i]),
            cache,
            sources,
            i + 1,
        )
    }
}

/// The commands that have been carried out before the `i`-th source is searched.
pub open spec fn done_before(
    fs: FileSystem,
    cache: Option<Seq<u8>>,
    sources: Seq<SourceView>,
    i: int,
) -> Seq<RequestView>
    decreases i,
{
    if i <= 0 {
        Seq::empty()
    } else {
        source_done(fs, done_before(fs, cache, sources, i - 1), cache, sources[i - 1])
    }
}

/// What a discovery is at: one source, or nothing.
pub enum CurrentView {
    Idle,
    Scan(ScanView),
    Fetch(FetchView),
}

/// The state of a discovery.
#[verifier::ext_equal]
pub struct DiscoveryView {
    /// The sources, the one that wins first.
    pub sources: Seq<SourceView>,
    /// How many sources have been taken up.
    pub next: int,
    /// The system's cache directory.
    pub cache: Option<Seq<u8>>,
    /// The directory of the process, below which relative paths stand.
    pub process_dir: Seq<u8>,
    /// The source that is being searched.
    pub current: CurrentView,
    /// The skills of the sources that have been searched.
    pub catalog: CatalogView,
    /// The URLs taken up from which no repository name can be derived.
    pub nameless: Seq<Seq<char>>,
}

/// Whether a source is passed over because no repository name can be derived from its URL. Without
/// a cache directory no repository is looked at.
pub open spec fn is_nameless(cache: Option<Seq<u8>>, source: SourceView) -> bool {
    cache is Some && (source matches SourceView::Repository(url) && git::repo_name(url).len() == 0)
}

/// The URLs among the first `n` sources from which no repository name can be derived, in order.
pub open spec fn nameless_urls(
    cache: Option<Seq<u8>>,
    sources: Seq<SourceView>,
    n: int,
) -> Seq<Seq<char>>
    decreases n,
{
    if n <= 0 {
        Seq::empty()
    } else if is_nameless(cache, sources[n - 1]) {
        nameless_urls(cache, sources, n - 1).push(sources[n - 1]->Repository_0)
    } else {
        nameless_urls(cache, sources, n - 1)
    }
}

/// The state of a discovery that has searched no source yet.
pub open spec fn discovery_start(
    sources: Seq<SourceView>,
    cache: Option<Seq<u8>>,
    process_dir: Seq<u8>,
) -> DiscoveryView {
    begin(
        DiscoveryView {
            sources,
            next: 0,
            cache,
            process_dir,
            current: CurrentView::Idle,
            catalog: catalog::empty_catalog(),
            nameless: Seq::empty(),
        },
    )
}

/// The state in which the next source that has anything to ask is taken up.
pub open spec fn begin(v: DiscoveryView) -> DiscoveryView
    decreases v.sources.len() - v.next,
{
    if v.next < 0 || v.next >= v.sources.len() {
        DiscoveryView { current: CurrentView::Idle, ..v }
    } else {
        match v.sources[v.next] {
            SourceView::Directory(dir) => DiscoveryView {
                current: CurrentView::Scan(scan::scan_start(dir)),
                next: v.next + 1,
                ..v
            },
            SourceView::Repository(url) => {
                let fetch = git::fetch_start(v.cache, url);
                if fetch.phase == FetchPhase::Failed {
                    begin(passed_over(v, url))
                } else {
                    DiscoveryView { current: CurrentView::Fetch(fetch), next: v.next + 1, ..v }
                }
            },
        }
    }
}

/// The state in which the next source, the repository at `url`, is passed over.
pub open spec fn passed_over(v: DiscoveryView, url: Seq<char>) -> DiscoveryView {
    DiscoveryView {
        next: v.next + 1,
        nameless: if v.cache is Some {
            v.nameless.push(url)
        } else {
            v.nameless
        },
        ..v
    }
}

impl DiscoveryView {
    /// Whether the source that is being searched has something to ask, none is left when no source
    /// is being searched, and the URLs without a name are those of the sources taken up.
    pub open spec fn wf(self) -> bool {
        &&& 0 <= self.next <= self.sources.len()
        &&& self.nameless == nameless_urls(self.cache, self.sources, self.next)
        &&& self.catalog.wf()
        &&& match self.current {
            CurrentView::Idle => self.next == self.sources.len(),
            CurrentView::Scan(s) => s.wf() && s.phase != Phase::Done,
            CurrentView::Fetch(f) => f.wf() && f.phase != FetchPhase::Failed && f.phase
                != FetchPhase::Done,
        }
    }

    /// What the discovery asks next; nothing when it is done.
    pub open spec fn request(self) -> Option<RequestView> {
        match self.current {
            CurrentView::Idle => None,
            CurrentView::Scan(s) => s.request(),
            CurrentView::Fetch(f) => f.request(),
        }
    }

    /// The state in which the next source is taken up, with the skills of the last one. Their
    /// source paths are taken below the directory of the process.
    pub open spec fn with_found(self, found: Seq<SkillView>) -> DiscoveryView {
        begin(
            DiscoveryView {
                catalog: self.catalog.with_all(skill::located_views(found, self.process_dir)),
                current: CurrentView::Idle,
                ..self
            },
        )
    }

    /// The state behind a reply.
    pub open spec fn after(self, reply: ReplyView) -> DiscoveryView {
        match self.current {
            CurrentView::Idle => self,
            CurrentView::Scan(s) => {
                let s = s.after(reply);
                if s.phase == Phase::Done {
                    self.with_found(s.skills)
                } else {
                    DiscoveryView { current: CurrentView::Scan(s), ..self }
                }
            },
            CurrentView::Fetch(f) => {
                let f = f.after(reply);
                if f.phase == FetchPhase::Done || f.phase == FetchPhase::Failed {
                    self.with_found(skills_or_none(f.result()))
                } else {
                    DiscoveryView { current: CurrentView::Fetch(f), ..self }
                }
            },
        }
    }
}

#[derive(Debug)]
enum Current {
    Idle,
    Scan(Scanner),
    Fetch(GitFetch),
}

impl Current {
    spec fn state(&self) -> CurrentView {
        match *self {
            Current::Idle => CurrentView::Idle,
            Current::Scan(s) => CurrentView::Scan(s@),
            Current::Fetch(f) => CurrentView::Fetch(f@),
        }
    }
}

/// A discovery of skills from a list of sources.
#[derive(Debug)]
pub struct Discovery {
    sources: Vec<Source>,
    next: usize,
    cache: Option<SkillPath>,
    process_dir: SkillPath,
    current: Current,
    catalog: Catalog,
    nameless: Vec<String>,
}

impl View for Discovery {
    type V = DiscoveryView;

    closed spec fn view(&self) -> DiscoveryView {
        DiscoveryView {
            sources: plan::source_views(self.sources@),
            next: self.next as int,
            cache: path::path_view(self.cache),
            process_dir: self.process_dir@,
            current: self.current.state(),
            catalog: self.catalog@,
            nameless: plan::texts(self.nameless@),
        }
    }
}

/// Whether the source path of every skill is absolute.
pub open spec fn all_absolute(skills: Seq<SkillView>) -> bool {
    forall|k: int|
        0 <= k < skills.len() ==> path::is_absolute((#[trigger] skills[k]).source_path)
}

/// Starts a discovery of all skills from all sources, in the order in which they win:
/// 1. the project's `.claurst/skills` and `.agents/skills`, from `cwd` upwards;
/// 2. `skills` in the configuration directory;
/// 3. `.agents/skills` in the home directory;
/// 4. the configured paths;
/// 5. the configured git repositories.
///
/// `process_dir` is the directory of the process, below which the requests for relative paths are
/// carried out. Where it is absolute, so is the source path of every skill found.
pub fn discover_skills(
    cwd: &SkillPath,
    process_dir: &SkillPath,
    config_dir: &SkillPath,
    config: &SkillsConfig,
) -> (r: Discovery)
    ensures
        r@.wf(),
        r@.request() == Some(RequestView::IsDir(plan::skills_below(cwd@, ".claurst"@))),
        exists|home: Option<Seq<u8>>, cache: Option<Seq<u8>>|
            r@ == #[trigger] discovery_start(
                plan::all_sources(
                    cwd@,
                    config_dir@,
                    home,
                    plan::texts(config.paths@),
                    plan::texts(config.urls@),
                ),
                cache,
                process_dir@,
            ),
        path::is_absolute(process_dir@) ==> forall|replies: Seq<ReplyView>|
            all_absolute((#[trigger] discovery_after(r@, replies)).catalog.skills),
{
    let home = outside::home_dir();
    let cache = outside::cache_dir();
    let sources = plan::list_sources(cwd, config_dir, &home, config);
    assert(plan::source_views(sources@)[0] == SourceView::Directory(
        plan::skills_below(cwd@, ".claurst"@),
    ));
    let r = discover_in(sources, cache, process_dir.clone());
    proof {
        if path::is_absolute(process_dir@) {
            assert forall|replies: Seq<ReplyView>|
                all_absolute((#[trigger] discovery_after(r@, replies)).catalog.skills) by {
                source_paths_are_absolute(r@, replies);
            }
        }
    }
    r
}

/// Starts a discovery of the skills of `sources`, of which the first wins. `process_dir` is the
/// directory of the process.
pub fn discover_in(sources: Vec<Source>, cache: Option<SkillPath>, process_dir: SkillPath) -> (r:
    Discovery)
    ensures
        r@.wf(),
        r@ == discovery_start(
            plan::source_views(sources@),
            path::path_view(cache),
            process_dir@,
        ),
        r@.catalog == catalog::empty_catalog(),
        r@.process_dir == process_dir@,
{
    let mut r = Discovery {
        sources,
        next: 0,
        cache,
        process_dir,
        current: Current::Idle,
        catalog: Catalog::new(),
        nameless: Vec::new(),
    };
    assert(r@.nameless =~= Seq::empty());
    proof {
        begin_is_in_order(r@);
    }
    r.begin();
    r
}

impl Discovery {
    fn begin(&mut self)
        requires
            0 <= old(self)@.next <= old(self)@.sources.len(),
            old(self)@.catalog.wf(),
            old(self)@.nameless == nameless_urls(
                old(self)@.cache,
                old(self)@.sources,
                old(self)@.next,
            ),
        ensures
            final(self)@ == begin(old(self)@),
            final(self)@.wf(),
    {
        while self.next < self.sources.len()
            invariant
                0 <= self@.next <= self@.sources.len(),
                self@.catalog.wf(),
                self@.nameless == nameless_urls(self@.cache, self@.sources, self@.next),
                begin(self@) == begin(old(self)@),
            decreases self.sources.len() - self.next,
        {
            let ghost before = self@;
            let at: usize = self.next;
            assert(before.sources[at as int] == self.sources[at as int]@);
            self.next = at + 1;
            match &self.sources[at] {
                Source::Directory(dir) => {
                    self.current = Current::Scan(scan::scan_dir(dir));
                    return;
                },
                Source::Repository(url) => {
                    let fetch = git::fetch_below(&self.cache, url.as_str());
                    if fetch.phase() != FetchPhase::Failed {
                        self.current = Current::Fetch(fetch);
                        return;
                    }
                    if self.cache.is_some() {
                        self.nameless.push(url.clone());
                        assert(self@.nameless =~= before.nameless.push(url@));
                    }
                    assert(self@ =~= passed_over(before, url@));
                },
            }
        }
        self.current = Current::Idle;
    }

    /// What the discovery asks next; nothing when it is done.
    pub fn request(&self) -> (r: Option<Request>)
        requires
            self@.wf(),
        ensures
            request::request_view(r) == self@.request(),
    {
        match &self.current {
            Current::Idle => None,
            Current::Scan(s) => s.request(),
            Current::Fetch(f) => f.request(),
        }
    }

    /// Goes on with the reply to the request.
    pub fn resume(&mut self, reply: Reply)
        requires
            old(self)@.wf(),
        ensures
            final(self)@ == old(self)@.after(reply@),
            final(self)@.wf(),
    {
        let mut current = Current::Idle;
        core::mem::swap(&mut current, &mut self.current);
        match current {
            Current::Idle => {},
            Current::Scan(s) => {
                let mut s = s;
                s.resume(reply);
                if s.is_done() {
                    self.catalog.add(skill::locate(s.into_skills(), &self.process_dir));
                    self.begin();
                } else {
                    self.current = Current::Scan(s);
                }
            },
            Current::Fetch(f) => {
                let mut f = f;
                f.resume(reply);
                let over: bool = f.phase() == FetchPhase::Done || f.phase() == FetchPhase::Failed;
                if over {
                    match f.into_result() {
                        Some(found) => {
                            self.catalog.add(skill::locate(found, &self.process_dir));
                        },
                        None => {
                            assert(skill::located_views(Seq::empty(), self@.process_dir)
                                =~= Seq::<SkillView>::empty());
                        },
                    }
                    self.begin();
                } else {
                    self.current = Current::Fetch(f);
                }
            },
        }
    }

    /// The URLs taken up so far from which no repository name can be derived, in order.
    pub fn nameless_urls(&self) -> (r: &Vec<String>)
        requires
            self@.wf(),
        ensures
            plan::texts(r@) == nameless_urls(self@.cache, self@.sources, self@.next),
            self@.request() is None ==> plan::texts(r@) == nameless_urls(
                self@.cache,
                self@.sources,
                self@.sources.len() as int,
            ),
    {
        &self.nameless
    }

    /// The skills found.
    pub fn finish(self) -> (r: Catalog)
        ensures
            r@ == self@.catalog,
    {
        self.catalog
    }
}

impl CurrentView {
    /// The skills that will have been found where the discovery is at, where the commands `done`
    /// have been carried out.
    pub open spec fn outcome(self, fs: FileSystem, done: Seq<RequestView>) -> Seq<SkillView> {
        match self {
            CurrentView::Idle => Seq::empty(),
            CurrentView::Scan(s) => s.outcome(fs(done)),
            CurrentView::Fetch(f) => skills_or_none(f.outcome(fs, done)),
        }
    }

    /// The commands that will have been carried out when the source that is being searched has
    /// been, where `done` have been.
    pub open spec fn commands(self, fs: FileSystem, done: Seq<RequestView>) -> Seq<RequestView> {
        match self {
            CurrentView::Fetch(f) => f.commands(fs, done),
            _ => done,
        }
    }

    /// How many phases may follow where the discovery is at, at most.
    pub open spec fn phases_left(self) -> nat {
        match self {
            CurrentView::Fetch(f) => f.phases_left(),
            _ => 0,
        }
    }

    /// The scan that runs.
    pub open spec fn scan(self) -> ScanView {
        match self {
            CurrentView::Idle => scan::scan_start(Seq::empty()),
            CurrentView::Scan(s) => s,
            CurrentView::Fetch(f) => f.scan,
        }
    }
}

impl DiscoveryView {
    /// The skills that will have been found from here on when the discovery is done, where the
    /// commands `done` have been carried out.
    pub open spec fn found_ahead(self, fs: FileSystem, done: Seq<RequestView>) -> Seq<SkillView> {
        self.current.outcome(fs, done) + skills_from(
            fs,
            self.current.commands(fs, done),
            self.cache,
            self.sources,
            self.next,
        )
    }

    /// The catalog that the discovery will have made when it is done, where the commands `done`
    /// have been carried out.
    pub open spec fn outcome(self, fs: FileSystem, done: Seq<RequestView>) -> CatalogView {
        self.catalog.with_all(skill::located_views(self.found_ahead(fs, done), self.process_dir))
    }

    /// How many sources have not been searched to their end.
    pub open spec fn sources_left(self) -> int {
        self.sources.len() - self.next + if self.current is Idle {
            0int
        } else {
            1int
        }
    }
}

/// The catalog that a discovery from the state `v` on makes, when every request is carried out and
/// replied to, where the commands `done` have been carried out.
pub open spec fn discovery_run(
    v: DiscoveryView,
    fs: FileSystem,
    done: Seq<RequestView>,
) -> CatalogView
    decreases
            v.sources_left(),
            v.current.phases_left(),
            v.current.scan().stage(),
            v.current.scan().replies_left(),
    when v.wf()
{
    match v.request() {
        Some(q) => {
            proof {
                discovery_comes_to_an_end(v, fs(done)(q));
            }
            discovery_run(v.after(fs(done)(q)), fs, request::done_with(done, q))
        },
        None => v.catalog,
    }
}

/// Taking up the next source gives a state in order, with the catalog as it was. Where nothing is
/// being searched behind it, no source is left.
proof fn begin_is_in_order(v: DiscoveryView)
    requires
        0 <= v.next <= v.sources.len(),
        v.catalog.wf(),
        v.nameless == nameless_urls(v.cache, v.sources, v.next),
    ensures
        begin(v).wf(),
        begin(v).catalog == v.catalog,
        begin(v).sources == v.sources,
        begin(v).cache == v.cache,
        begin(v).process_dir == v.process_dir,
        begin(v).next >= v.next,
        begin(v).next == v.next ==> begin(v).current is Idle,
    decreases v.sources.len() - v.next,
{
    if v.next < v.sources.len() && v.sources[v.next] is Repository {
        let url = v.sources[v.next]->Repository_0;
        let fetch = git::fetch_start(v.cache, url);
        if fetch.phase == FetchPhase::Failed {
            begin_is_in_order(passed_over(v, url));
        }
    }
}

/// A discovery comes nearer to its end with every reply, whatever it says.
pub proof fn discovery_comes_to_an_end(v: DiscoveryView, reply: ReplyView)
    requires
        v.wf(),
        v.request() is Some,
    ensures
        v.after(reply).wf(),
        ({
            let a = v.after(reply);
            let (x, y) = (a.current, v.current);
            ||| 0 <= a.sources_left() < v.sources_left()
            ||| a.sources_left() == v.sources_left() && {
                ||| x.phases_left() < y.phases_left()
                ||| x.phases_left() == y.phases_left() && x.scan().stage() < y.scan().stage()
                ||| x.phases_left() == y.phases_left() && x.scan().stage() == y.scan().stage() && 0
                    <= x.scan().replies_left() < y.scan().replies_left()
            }
        }),
{
    match v.current {
        CurrentView::Idle => {},
        CurrentView::Scan(s) => {
            scan::scan_comes_to_an_end(s, reply);
            let t = s.after(reply);
            if t.phase == Phase::Done {
                found_is_in_order(v, t.skills);
            }
        },
        CurrentView::Fetch(f) => {
            git::fetch_comes_to_an_end(f, reply);
            let g = f.after(reply);
            found_is_in_order(v, skills_or_none(g.result()));
        },
    }
}

proof fn found_is_in_order(v: DiscoveryView, found: Seq<SkillView>)
    requires
        0 <= v.next <= v.sources.len(),
        v.catalog.wf(),
        v.nameless == nameless_urls(v.cache, v.sources, v.next),
    ensures
        v.with_found(found).wf(),
        v.with_found(found).next >= v.next,
        v.with_found(found).sources == v.sources,
        v.with_found(found).cache == v.cache,
        v.with_found(found).process_dir == v.process_dir,
        v.with_found(found).next == v.next ==> v.with_found(found).current is Idle,
        v.with_found(found).catalog == v.catalog.with_all(
            skill::located_views(found, v.process_dir),
        ),
{
    let located = skill::located_views(found, v.process_dir);
    catalog::no_skill_is_lost(v.catalog, located);
    begin_is_in_order(
        DiscoveryView {
            catalog: v.catalog.with_all(located),
            current: CurrentView::Idle,
            ..v
        },
    );
}

proof fn begin_keeps_outcome(v: DiscoveryView, fs: FileSystem, done: Seq<RequestView>)
    requires
        0 <= v.next <= v.sources.len(),
    ensures
        begin(v).found_ahead(fs, done) == skills_from(fs, done, v.cache, v.sources, v.next),
        begin(v).catalog == v.catalog,
        begin(v).process_dir == v.process_dir,
    decreases v.sources.len() - v.next,
{
    if v.next < v.sources.len() {
        let source = v.sources[v.next];
        match source {
            SourceView::Directory(dir) => {
                scan::scan_start_outcome(dir, fs(done));
            },
            SourceView::Repository(url) => {
                git::fetch_start_outcome(fs, done, v.cache, url);
                if git::fetch_start(v.cache, url).phase == FetchPhase::Failed {
                    let rest = skills_from(fs, done, v.cache, v.sources, v.next + 1);
                    assert(Seq::<SkillView>::empty() + rest =~= rest);
                    begin_keeps_outcome(passed_over(v, url), fs, done);
                }
            },
        }
    } else {
        assert(begin(v).found_ahead(fs, done) =~= Seq::empty());
    }
}

/// A reply that is the one the file system gives does not change the catalog that the discovery
/// will have made.
pub proof fn discovery_reply_keeps_outcome(
    v: DiscoveryView,
    fs: FileSystem,
    done: Seq<RequestView>,
)
    requires
        v.wf(),
        v.request() is Some,
    ensures
        v.after(fs(done)(v.request()->Some_0)).outcome(
            fs,
            request::done_with(done, v.request()->Some_0),
        ) == v.outcome(fs, done),
{
    let q = v.request()->Some_0;
    let reply = fs(done)(q);
    match v.current {
        CurrentView::Idle => {},
        CurrentView::Scan(s) => {
            scan::scan_commands_nothing(s);
            scan::scan_reply_keeps_outcome(s, fs(done));
            let t = s.after(reply);
            if t.phase == Phase::Done {
                scan::done_scan_outcome(t, fs(done));
                found_keeps_outcome(v, fs, done, t.skills);
            }
        },
        CurrentView::Fetch(f) => {
            git::fetch_reply_keeps_outcome(f, fs, done);
            let g = f.after(reply);
            if g.phase == FetchPhase::Done || g.phase == FetchPhase::Failed {
                found_keeps_outcome(
                    v,
                    fs,
                    request::done_with(done, q),
                    skills_or_none(g.result()),
                );
            }
        },
    }
}

proof fn located_of_concat(a: Seq<SkillView>, b: Seq<SkillView>, base: Seq<u8>)
    ensures
        skill::located_views(a + b, base) == skill::located_views(a, base) + skill::located_views(
            b,
            base,
        ),
{
    assert(skill::located_views(a + b, base) =~= skill::located_views(a, base)
        + skill::located_views(b, base));
}

proof fn found_keeps_outcome(
    v: DiscoveryView,
    fs: FileSystem,
    done: Seq<RequestView>,
    found: Seq<SkillView>,
)
    requires
        0 <= v.next <= v.sources.len(),
    ensures
        v.with_found(found).outcome(fs, done) == v.catalog.with_all(
            skill::located_views(
                found + skills_from(fs, done, v.cache, v.sources, v.next),
                v.process_dir,
            ),
        ),
{
    let located = skill::located_views(found, v.process_dir);
    let rest = skills_from(fs, done, v.cache, v.sources, v.next);
    located_of_concat(found, rest, v.process_dir);
    catalog::batches_add_up(v.catalog, located, skill::located_views(rest, v.process_dir));
    begin_keeps_outcome(
        DiscoveryView {
            catalog: v.catalog.with_all(located),
            current: CurrentView::Idle,
            ..v
        },
        fs,
        done,
    );
}

proof fn discovery_run_makes_outcome(v: DiscoveryView, fs: FileSystem, done: Seq<RequestView>)
    requires
        v.wf(),
    ensures
        discovery_run(v, fs, done) == v.outcome(fs, done),
    decreases
            v.sources_left(),
            v.current.phases_left(),
            v.current.scan().stage(),
            v.current.scan().replies_left(),
{
    if v.request() is Some {
        let q = v.request()->Some_0;
        discovery_comes_to_an_end(v, fs(done)(q));
        discovery_reply_keeps_outcome(v, fs, done);
        discovery_run_makes_outcome(v.after(fs(done)(q)), fs, request::done_with(done, q));
    } else {
        assert(v.found_ahead(fs, done) =~= Seq::empty());
        assert(skill::located_views(v.found_ahead(fs, done), v.process_dir) =~= Seq::empty());
    }
}

/// A discovery makes the catalog of exactly the skills of its sources, one source behind the
/// other, in any file system that changes by nothing but what the discovery does to it.
pub proof fn discovery_finds_the_skills(
    fs: FileSystem,
    sources: Seq<SourceView>,
    cache: Option<Seq<u8>>,
    process_dir: Seq<u8>,
)
    ensures
        discovery_run(discovery_start(sources, cache, process_dir), fs, Seq::empty())
            == catalog::empty_catalog().with_all(
            skill::located_views(skills_from(fs, Seq::empty(), cache, sources, 0), process_dir),
        ),
{
    let v = DiscoveryView {
        sources,
        next: 0,
        cache,
        process_dir,
        current: CurrentView::Idle,
        catalog: catalog::empty_catalog(),
        nameless: Seq::empty(),
    };
    begin_is_in_order(v);
    begin_keeps_outcome(v, fs, Seq::empty());
    discovery_run_makes_outcome(begin(v), fs, Seq::empty());
}

proof fn first_named_of_concat(a: Seq<SkillView>, b: Seq<SkillView>, name: Seq<char>)
    ensures
        catalog::first_named(a + b, name) == match catalog::first_named(a, name) {
            Some(s) => Some(s),
            None => catalog::first_named(b, name),
        },
    decreases a.len(),
{
    if a.len() == 0 {
        assert(a + b == b);
    } else {
        assert((a + b)[0] == a[0]);
        assert((a + b).drop_first() == a.drop_first() + b);
        first_named_of_concat(a.drop_first(), b, name);
    }
}

/// The skill in `s`, if there is one, with its source path taken below `base`.
pub open spec fn located_option(s: Option<SkillView>, base: Seq<u8>) -> Option<SkillView> {
    match s {
        Some(k) => Some(k.located(base)),
        None => None,
    }
}

proof fn first_named_of_located(skills: Seq<SkillView>, base: Seq<u8>, name: Seq<char>)
    ensures
        catalog::first_named(skill::located_views(skills, base), name) == located_option(
            catalog::first_named(skills, name),
            base,
        ),
    decreases skills.len(),
{
    if skills.len() > 0 {
        let located = skill::located_views(skills, base);
        assert(located.drop_first() =~= skill::located_views(skills.drop_first(), base));
        first_named_of_located(skills.drop_first(), base, name);
    }
}

proof fn first_source_names(
    fs: FileSystem,
    sources: Seq<SourceView>,
    cache: Option<Seq<u8>>,
    name: Seq<char>,
    from: int,
    i: int,
)
    requires
        0 <= from <= i < sources.len(),
        forall|k: int|
            from <= k < i ==> catalog::first_named(
                source_skills(fs, done_before(fs, cache, sources, k), cache, #[trigger] sources[k]),
                name,
            ) is None,
        catalog::first_named(
            source_skills(fs, done_before(fs, cache, sources, i), cache, sources[i]),
            name,
        ) is Some,
    ensures
        catalog::first_named(
            skills_from(fs, done_before(fs, cache, sources, from), cache, sources, from),
            name,
        ) == catalog::first_named(
            source_skills(fs, done_before(fs, cache, sources, i), cache, sources[i]),
            name,
        ),
    decreases i - from,
{
    first_named_of_concat(
        source_skills(fs, done_before(fs, cache, sources, from), cache, sources[from]),
        skills_from(fs, done_before(fs, cache, sources, from + 1), cache, sources, from + 1),
        name,
    );
    if from < i {
        first_source_names(fs, sources, cache, name, from + 1, i);
    }
}

/// What a discovery knows by a name is the first skill of that name among those of all sources;
/// it knows none where no source has one. The file system may change by what the discovery does to
/// it.
pub proof fn discovery_knows_the_first(
    fs: FileSystem,
    sources: Seq<SourceView>,
    cache: Option<Seq<u8>>,
    process_dir: Seq<u8>,
    name: Seq<char>,
)
    ensures
        discovery_run(discovery_start(sources, cache, process_dir), fs, Seq::empty()).get(name)
            == located_option(
            catalog::first_named(skills_from(fs, Seq::empty(), cache, sources, 0), name),
            process_dir,
        ),
{
    let found = skills_from(fs, Seq::empty(), cache, sources, 0);
    discovery_finds_the_skills(fs, sources, cache, process_dir);
    first_named_of_located(found, process_dir, name);
    catalog::first_found_wins(
        catalog::empty_catalog(),
        skill::located_views(found, process_dir),
        name,
    );
}

/// A skill is known from the first source that has one of its name, whatever later sources have.
/// Each source is taken as it is when its turn comes.
pub proof fn earlier_source_wins(
    fs: FileSystem,
    sources: Seq<SourceView>,
    cache: Option<Seq<u8>>,
    process_dir: Seq<u8>,
    name: Seq<char>,
    i: int,
)
    requires
        0 <= i < sources.len(),
        forall|k: int|
            0 <= k < i ==> catalog::first_named(
                source_skills(fs, done_before(fs, cache, sources, k), cache, #[trigger] sources[k]),
                name,
            ) is None,
        catalog::first_named(
            source_skills(fs, done_before(fs, cache, sources, i), cache, sources[i]),
            name,
        ) is Some,
    ensures
        discovery_run(discovery_start(sources, cache, process_dir), fs, Seq::empty()).get(name)
            == located_option(
            catalog::first_named(
                source_skills(fs, done_before(fs, cache, sources, i), cache, sources[i]),
                name,
            ),
            process_dir,
        ),
{
    discovery_knows_the_first(fs, sources, cache, process_dir, name);
    first_source_names(fs, sources, cache, name, 0, i);
}

/// The state behind a row of replies.
pub open spec fn discovery_after(v: DiscoveryView, replies: Seq<ReplyView>) -> DiscoveryView
    decreases replies.len(),
{
    if replies.len() == 0 {
        v
    } else {
        discovery_after(v, replies.drop_last()).after(replies.last())
    }
}

impl CurrentView {
    /// The search behind a reply.
    pub open spec fn after(self, reply: ReplyView) -> CurrentView {
        match self {
            CurrentView::Idle => self,
            CurrentView::Scan(s) => CurrentView::Scan(s.after(reply)),
            CurrentView::Fetch(f) => CurrentView::Fetch(f.after(reply)),
        }
    }

    /// Whether the search is over.
    pub open spec fn is_over(self) -> bool {
        match self {
            CurrentView::Idle => true,
            CurrentView::Scan(s) => s.phase == Phase::Done,
            CurrentView::Fetch(f) => f.phase == FetchPhase::Done || f.phase == FetchPhase::Failed,
        }
    }

    /// What the search has found, when it is over.
    pub open spec fn found(self) -> Seq<SkillView> {
        match self {
            CurrentView::Idle => Seq::empty(),
            CurrentView::Scan(s) => s.skills,
            CurrentView::Fetch(f) => skills_or_none(f.result()),
        }
    }
}

/// The search of a source, at its start.
pub open spec fn search_start(cache: Option<Seq<u8>>, source: SourceView) -> CurrentView {
    match source {
        SourceView::Directory(dir) => CurrentView::Scan(scan::scan_start(dir)),
        SourceView::Repository(url) => CurrentView::Fetch(git::fetch_start(cache, url)),
    }
}

/// The search `c` behind as many of a row of replies as it takes, and those that are left.
pub open spec fn searched(c: CurrentView, replies: Seq<ReplyView>) -> (CurrentView, Seq<ReplyView>)
    decreases replies.len(),
{
    if c.is_over() || replies.len() == 0 {
        (c, replies)
    } else {
        searched(c.after(replies[0]), replies.drop_first())
    }
}

/// What the search `c`, and behind it the searches of the sources from the `i`-th on, find with a
/// row of replies, one source behind the other. Each takes its own replies from the row; one that
/// is not over when they are used up has found nothing yet.
pub open spec fn found_with(
    c: CurrentView,
    cache: Option<Seq<u8>>,
    sources: Seq<SourceView>,
    i: int,
    replies: Seq<ReplyView>,
) -> Seq<SkillView>
    decreases sources.len() - i,
{
    let (end, rest) = searched(c, replies);
    if !end.is_over() {
        Seq::empty()
    } else if i < 0 || i >= sources.len() {
        end.found()
    } else {
        end.found() + found_with(search_start(cache, sources[i]), cache, sources, i + 1, rest)
    }
}

proof fn after_first_reply(v: DiscoveryView, replies: Seq<ReplyView>)
    requires
        replies.len() > 0,
    ensures
        discovery_after(v, replies) == discovery_after(v.after(replies[0]), replies.drop_first()),
    decreases replies.len(),
{
    if replies.len() > 1 {
        after_first_reply(v, replies.drop_last());
        assert(replies.drop_first().drop_last() =~= replies.drop_last().drop_first());
    } else {
        reveal_with_fuel(discovery_after, 2);
    }
}

/// Taking up the next source passes over none that would find anything.
proof fn begin_keeps_found(v: DiscoveryView, replies: Seq<ReplyView>)
    requires
        0 <= v.next <= v.sources.len(),
    ensures
        found_with(begin(v).current, v.cache, v.sources, begin(v).next, replies) == found_with(
            CurrentView::Idle,
            v.cache,
            v.sources,
            v.next,
            replies,
        ),
    decreases v.sources.len() - v.next,
{
    let none = Seq::<SkillView>::empty();
    if v.next < v.sources.len() {
        let start = search_start(v.cache, v.sources[v.next]);
        let ahead = found_with(start, v.cache, v.sources, v.next + 1, replies);
        assert(none + ahead =~= ahead);
        if v.sources[v.next] is Repository && start.is_over() {
            let url = v.sources[v.next]->Repository_0;
            begin_keeps_found(passed_over(v, url), replies);
            if v.next + 1 < v.sources.len() {
                let more = found_with(
                    search_start(v.cache, v.sources[v.next + 1]),
                    v.cache,
                    v.sources,
                    v.next + 2,
                    replies,
                );
                assert(none + more =~= more);
            }
        }
    }
}

/// Whatever the replies say, and even where the file system changes under the discovery: the
/// catalog holds what was known before and what each source that has been searched to its end has
/// found, one source behind the other.
pub proof fn replies_make_the_catalog(v: DiscoveryView, replies: Seq<ReplyView>)
    requires
        v.wf(),
    ensures
        discovery_after(v, replies).catalog == v.catalog.with_all(
            skill::located_views(
                found_with(v.current, v.cache, v.sources, v.next, replies),
                v.process_dir,
            ),
        ),
    decreases replies.len(),
{
    let ahead = found_with(v.current, v.cache, v.sources, v.next, replies);
    if replies.len() == 0 {
        assert(skill::located_views(ahead, v.process_dir) =~= Seq::empty());
    } else {
        let rest = replies.drop_first();
        let a = v.after(replies[0]);
        after_first_reply(v, replies);
        if v.current is Idle {
            replies_make_the_catalog(v, rest);
            assert(searched(v.current, replies) == (v.current, replies));
            assert(searched(v.current, rest) == (v.current, rest));
        } else {
            discovery_comes_to_an_end(v, replies[0]);
            replies_make_the_catalog(a, rest);
            let c = v.current.after(replies[0]);
            assert(searched(v.current, replies) == searched(c, rest));
            if c.is_over() {
                let found = c.found();
                let more = found_with(CurrentView::Idle, v.cache, v.sources, v.next, rest);
                found_is_in_order(v, found);
                begin_keeps_found(
                    DiscoveryView {
                        catalog: v.catalog.with_all(skill::located_views(found, v.process_dir)),
                        current: CurrentView::Idle,
                        ..v
                    },
                    rest,
                );
                assert(a == v.with_found(found));
                assert(searched(CurrentView::Idle, rest) == (CurrentView::Idle, rest));
                assert(ahead =~= found + more);
                located_of_concat(found, more, v.process_dir);
                catalog::batches_add_up(
                    v.catalog,
                    skill::located_views(found, v.process_dir),
                    skill::located_views(more, v.process_dir),
                );
            }
        }
    }
}

/// Whatever the replies say, and even where the file system changes under the discovery: what is
/// known by a name is the first skill of that name that the sources have found, one source behind
/// the other.
pub proof fn replies_make_the_first_known(
    sources: Seq<SourceView>,
    cache: Option<Seq<u8>>,
    process_dir: Seq<u8>,
    replies: Seq<ReplyView>,
    name: Seq<char>,
)
    ensures
        discovery_after(discovery_start(sources, cache, process_dir), replies).catalog.get(name)
            == located_option(
            catalog::first_named(
                found_with(CurrentView::Idle, cache, sources, 0, replies),
                name,
            ),
            process_dir,
        ),
{
    let v = DiscoveryView {
        sources,
        next: 0,
        cache,
        process_dir,
        current: CurrentView::Idle,
        catalog: catalog::empty_catalog(),
        nameless: Seq::empty(),
    };
    let found = found_with(CurrentView::Idle, cache, sources, 0, replies);
    begin_is_in_order(v);
    begin_keeps_found(v, replies);
    replies_make_the_catalog(begin(v), replies);
    first_named_of_located(found, process_dir, name);
    catalog::first_found_wins(
        catalog::empty_catalog(),
        skill::located_views(found, process_dir),
        name,
    );
}

/// Where the directory of the process is absolute, so is the source path of every skill that the
/// discovery makes known, whatever the sources are and whatever the replies say.
pub proof fn source_paths_are_absolute(v: DiscoveryView, replies: Seq<ReplyView>)
    requires
        v.wf(),
        path::is_absolute(v.process_dir),
        all_absolute(v.catalog.skills),
    ensures
        all_absolute(discovery_after(v, replies).catalog.skills),
{
    let found = found_with(v.current, v.cache, v.sources, v.next, replies);
    let located = skill::located_views(found, v.process_dir);
    let known = discovery_after(v, replies).catalog.skills;
    replies_make_the_catalog(v, replies);
    assert forall|k: int| 0 <= k < known.len() implies path::is_absolute(
        (#[trigger] known[k]).source_path,
    ) by {
        catalog::known_skills_were_found(v.catalog, located, k);
        if v.catalog.skills.contains(known[k]) {
            let n = choose|n: int|
                0 <= n < v.catalog.skills.len() && v.catalog.skills[n] == known[k];
            assert(path::is_absolute(v.catalog.skills[n].source_path));
        } else {
            let n = choose|n: int| 0 <= n < located.len() && located[n] == known[k];
            path::joined_stays_absolute(v.process_dir, found[n].source_path);
        }
    }
}

/// Whatever the replies say, and even where the file system changes under the discovery: a skill
/// that is known stays known by its name, and sources are taken up in their order.
pub proof fn known_skill_is_never_replaced(
    v: DiscoveryView,
    replies: Seq<ReplyView>,
    name: Seq<char>,
)
    requires
        v.wf(),
    ensures
        discovery_after(v, replies).wf(),
        discovery_after(v, replies).sources == v.sources,
        discovery_after(v, replies).next >= v.next,
        v.catalog.get(name) is Some ==> discovery_after(v, replies).catalog.get(name)
            == v.catalog.get(name),
    decreases replies.len(),
{
    if replies.len() > 0 {
        let before = discovery_after(v, replies.drop_last());
        let reply = replies.last();
        known_skill_is_never_replaced(v, replies.drop_last(), name);
        match before.current {
            CurrentView::Idle => {},
            CurrentView::Scan(s) => {
                scan::scan_comes_to_an_end(s, reply);
                known_skill_stays(before, s.after(reply).skills, name);
            },
            CurrentView::Fetch(f) => {
                git::fetch_comes_to_an_end(f, reply);
                known_skill_stays(before, skills_or_none(f.after(reply).result()), name);
            },
        }
    }
}

proof fn known_skill_stays(v: DiscoveryView, found: Seq<SkillView>, name: Seq<char>)
    requires
        v.wf(),
    ensures
        v.with_found(found).wf(),
        v.with_found(found).sources == v.sources,
        v.with_found(found).next >= v.next,
        v.catalog.get(name) is Some ==> v.with_found(found).catalog.get(name) == v.catalog.get(
            name,
        ),
{
    found_is_in_order(v, found);
    catalog::first_found_wins(
        v.catalog,
        skill::located_views(found, v.process_dir),
        name,
    );
}

/// Whether the `i`-th of a row of replies to a discovery that started as `v` brought the text `t` of
/// the file at `p`, which was asked for then.
pub open spec fn is_read(
    v: DiscoveryView,
    replies: Seq<ReplyView>,
    i: int,
    p: Seq<u8>,
    t: Seq<char>,
) -> bool {
    &&& 0 <= i < replies.len()
    &&& discovery_after(v, replies.take(i)).request() == Some(RequestView::Read(p))
    &&& replies[i] == ReplyView::Content(Some(t))
}

/// Whether `s` is what a text that was read holds.
pub open spec fn was_read(v: DiscoveryView, replies: Seq<ReplyView>, s: SkillView) -> bool {
    exists|i: int, p: Seq<u8>, t: Seq<char>|
        #[trigger] is_read(v, replies, i, p, t) && skill::parsed_skill(t, p) == Some(s)
}

spec fn all_read(v: DiscoveryView, replies: Seq<ReplyView>, skills: Seq<SkillView>) -> bool {
    forall|k: int| 0 <= k < skills.len() ==> was_read(v, replies, #[trigger] skills[k])
}

spec fn is_known_as_read(v: DiscoveryView, replies: Seq<ReplyView>, x: SkillView) -> bool {
    exists|s: SkillView| #[trigger] was_read(v, replies, s) && x == s.located(v.process_dir)
}

spec fn knows_what_was_read(v: DiscoveryView, replies: Seq<ReplyView>, a: DiscoveryView) -> bool {
    &&& forall|k: int|
        0 <= k < a.catalog.skills.len() ==> is_known_as_read(
            v,
            replies,
            #[trigger] a.catalog.skills[k],
        )
    &&& match a.current {
        CurrentView::Idle => true,
        CurrentView::Scan(s) => all_read(v, replies, s.skills),
        CurrentView::Fetch(f) => all_read(v, replies, f.skills) && all_read(
            v,
            replies,
            f.scan.skills,
        ),
    }
}

proof fn stays_read(v: DiscoveryView, replies: Seq<ReplyView>, s: SkillView)
    requires
        replies.len() > 0,
        was_read(v, replies.drop_last(), s),
    ensures
        was_read(v, replies, s),
{
    let (i, p, t) = choose|i: int, p: Seq<u8>, t: Seq<char>|
        #[trigger] is_read(v, replies.drop_last(), i, p, t) && skill::parsed_skill(t, p) == Some(s);
    assert(replies.drop_last().take(i) =~= replies.take(i));
    assert(is_read(v, replies, i, p, t));
}

proof fn all_stay_read(v: DiscoveryView, replies: Seq<ReplyView>, skills: Seq<SkillView>)
    requires
        replies.len() > 0,
        all_read(v, replies.drop_last(), skills),
    ensures
        all_read(v, replies, skills),
{
    assert forall|k: int| 0 <= k < skills.len() implies was_read(v, replies, #[trigger] skills[k]) by {
        stays_read(v, replies, skills[k]);
    }
}

proof fn scan_has_read(v: DiscoveryView, replies: Seq<ReplyView>, s: ScanView)
    requires
        replies.len() > 0,
        all_read(v, replies.drop_last(), s.skills),
        discovery_after(v, replies.drop_last()).request() == s.request(),
    ensures
        all_read(v, replies, s.after(replies.last()).skills),
{
    let reply = replies.last();
    all_stay_read(v, replies, s.skills);
    scan::reply_brings_what_was_read(s, reply);
    if s.after(reply).skills != s.skills {
        let (p, t) = choose|p: Seq<u8>, t: Seq<char>|
            {
                &&& s.request() == Some(RequestView::Read(p))
                &&& reply == ReplyView::Content(Some(t))
                &&& (#[trigger] skill::parsed_skill(t, p)) matches Some(x) && s.after(reply).skills
                    == s.skills.push(x)
            };
        let x = skill::parsed_skill(t, p)->Some_0;
        let i = replies.len() - 1;
        assert(replies.take(i) =~= replies.drop_last());
        assert(is_read(v, replies, i, p, t));
        assert(was_read(v, replies, x));
    }
}

/// What a state that takes up the next source knows and holds.
proof fn begin_holds_nothing(v: DiscoveryView)
    requires
        v.next <= v.sources.len(),
    ensures
        begin(v).catalog == v.catalog,
        match begin(v).current {
            CurrentView::Idle => true,
            CurrentView::Scan(s) => s.skills.len() == 0,
            CurrentView::Fetch(f) => f.skills.len() == 0 && f.scan.skills.len() == 0,
        },
    decreases v.sources.len() - v.next,
{
    if 0 <= v.next < v.sources.len() && v.sources[v.next] is Repository {
        let url = v.sources[v.next]->Repository_0;
        if git::fetch_start(v.cache, url).phase == FetchPhase::Failed {
            begin_holds_nothing(passed_over(v, url));
        }
    }
}

proof fn found_was_read(
    v: DiscoveryView,
    replies: Seq<ReplyView>,
    before: DiscoveryView,
    found: Seq<SkillView>,
)
    requires
        before.wf(),
        before.process_dir == v.process_dir,
        forall|k: int|
            0 <= k < before.catalog.skills.len() ==> is_known_as_read(
                v,
                replies,
                #[trigger] before.catalog.skills[k],
            ),
        all_read(v, replies, found),
    ensures
        knows_what_was_read(v, replies, before.with_found(found)),
{
    let located = skill::located_views(found, v.process_dir);
    let a = before.with_found(found);
    begin_holds_nothing(
        DiscoveryView {
            catalog: before.catalog.with_all(located),
            current: CurrentView::Idle,
            ..before
        },
    );
    assert forall|k: int| 0 <= k < a.catalog.skills.len() implies is_known_as_read(
        v,
        replies,
        #[trigger] a.catalog.skills[k],
    ) by {
        let x = a.catalog.skills[k];
        catalog::known_skills_were_found(before.catalog, located, k);
        if before.catalog.skills.contains(x) {
            let n = choose|n: int|
                0 <= n < before.catalog.skills.len() && before.catalog.skills[n] == x;
            assert(is_known_as_read(v, replies, before.catalog.skills[n]));
        } else {
            let n = choose|n: int| 0 <= n < located.len() && located[n] == x;
            assert(was_read(v, replies, found[n]));
        }
    }
}

proof fn known_stay_read(v: DiscoveryView, replies: Seq<ReplyView>, a: DiscoveryView)
    requires
        replies.len() > 0,
        knows_what_was_read(v, replies.drop_last(), a),
    ensures
        forall|k: int|
            0 <= k < a.catalog.skills.len() ==> is_known_as_read(
                v,
                replies,
                #[trigger] a.catalog.skills[k],
            ),
{
    assert forall|k: int| 0 <= k < a.catalog.skills.len() implies is_known_as_read(
        v,
        replies,
        #[trigger] a.catalog.skills[k],
    ) by {
        let x = a.catalog.skills[k];
        assert(is_known_as_read(v, replies.drop_last(), x));
        let s = choose|s: SkillView|
            #[trigger] was_read(v, replies.drop_last(), s) && x == s.located(v.process_dir);
        stays_read(v, replies, s);
    }
}

proof fn fetch_has_read(v: DiscoveryView, replies: Seq<ReplyView>, f: FetchView)
    requires
        replies.len() > 0,
        all_read(v, replies.drop_last(), f.skills),
        all_read(v, replies.drop_last(), f.scan.skills),
        discovery_after(v, replies.drop_last()).request() == f.request(),
    ensures
        all_read(v, replies, f.after(replies.last()).skills),
        all_read(v, replies, f.after(replies.last()).scan.skills),
        all_read(v, replies, skills_or_none(f.after(replies.last()).result())),
{
    let reply = replies.last();
    all_stay_read(v, replies, f.skills);
    all_stay_read(v, replies, f.scan.skills);
    if f.is_scanning() {
        scan_has_read(v, replies, f.scan);
        let more = f.scan.after(reply).skills;
        let both = f.skills + more;
        assert forall|k: int| 0 <= k < both.len() implies was_read(v, replies, #[trigger] both[k]) by {
            if k < f.skills.len() {
                assert(both[k] == f.skills[k]);
            } else {
                assert(both[k] == more[k - f.skills.len()]);
            }
        }
    }
}

proof fn discovery_has_read(v: DiscoveryView, replies: Seq<ReplyView>)
    requires
        v.wf(),
        knows_what_was_read(v, Seq::empty(), v),
    ensures
        knows_what_was_read(v, replies, discovery_after(v, replies)),
        discovery_after(v, replies).wf(),
        discovery_after(v, replies).process_dir == v.process_dir,
    decreases replies.len(),
{
    if replies.len() == 0 {
        assert(replies =~= Seq::empty());
    } else {
        let before = discovery_after(v, replies.drop_last());
        let reply = replies.last();
        let a = discovery_after(v, replies);
        discovery_has_read(v, replies.drop_last());
        known_stay_read(v, replies, before);
        match before.current {
            CurrentView::Idle => {},
            CurrentView::Scan(s) => {
                discovery_comes_to_an_end(before, reply);
                scan_has_read(v, replies, s);
                let t = s.after(reply);
                if t.phase == Phase::Done {
                    found_is_in_order(before, t.skills);
                    found_was_read(v, replies, before, t.skills);
                }
            },
            CurrentView::Fetch(f) => {
                discovery_comes_to_an_end(before, reply);
                fetch_has_read(v, replies, f);
                let g = f.after(reply);
                if g.phase == FetchPhase::Done || g.phase == FetchPhase::Failed {
                    found_is_in_order(before, skills_or_none(g.result()));
                    found_was_read(v, replies, before, skills_or_none(g.result()));
                }
            },
        }
    }
}

/// Whatever the replies say: every skill that a discovery makes known has the name, the description
/// and the template that the text of a file holds that was asked for and read, unchanged. Only its
/// source path is taken below the directory of the process.
pub proof fn known_skills_are_as_they_were_read(
    sources: Seq<SourceView>,
    cache: Option<Seq<u8>>,
    process_dir: Seq<u8>,
    replies: Seq<ReplyView>,
    k: int,
)
    requires
        0 <= k < discovery_after(
            discovery_start(sources, cache, process_dir),
            replies,
        ).catalog.skills.len(),
    ensures
        ({
            let start = discovery_start(sources, cache, process_dir);
            let known = discovery_after(start, replies).catalog.skills[k];
            exists|i: int, p: Seq<u8>, t: Seq<char>|
                {
                    &&& #[trigger] is_read(start, replies, i, p, t)
                    &&& skill::parsed_skill(t, p) matches Some(s) && s.name == known.name
                        && s.description == known.description && s.template == known.template
                    &&& known.source_path == path::joined(process_dir, p)
                }
        }),
{
    let v = DiscoveryView {
        sources,
        next: 0,
        cache,
        process_dir,
        current: CurrentView::Idle,
        catalog: catalog::empty_catalog(),
        nameless: Seq::empty(),
    };
    let start = begin(v);
    begin_is_in_order(v);
    begin_holds_nothing(v);
    discovery_has_read(start, replies);
    let known = discovery_after(start, replies).catalog.skills[k];
    assert(is_known_as_read(start, replies, known));
    let s = choose|s: SkillView|
        #[trigger] was_read(start, replies, s) && known == s.located(process_dir);
    let (i, p, t) = choose|i: int, p: Seq<u8>, t: Seq<char>|
        #[trigger] is_read(start, replies, i, p, t) && skill::parsed_skill(t, p) == Some(s);
    assert(is_read(start, replies, i, p, t));
    assert(s.source_path == p);
}

/// A single source brings what its search finds, and changes the file system as that does: a
/// directory what its scan finds, a repository what its fetching comes to.
pub proof fn source_brings_what_its_search_finds(
    fs: FileSystem,
    done: Seq<RequestView>,
    cache: Option<Seq<u8>>,
    dir: Seq<u8>,
    url: Seq<char>,
)
    ensures
        skills_from(fs, done, cache, seq![SourceView::Directory(dir)], 0) == scan::scan_run(
            scan::scan_start(dir),
            fs(done),
        ),
        source_done(fs, done, cache, SourceView::Directory(dir)) == done,
        ({
            let run = git::fetch_run(git::fetch_start(cache, url), fs, done);
            &&& source_done(fs, done, cache, SourceView::Repository(url)) == run.1
            &&& run.0 matches Some(found) ==> skills_from(
                fs,
                done,
                cache,
                seq![SourceView::Repository(url)],
                0,
            ) == found
            &&& run.0 is None ==> skills_from(fs, done, cache, seq![SourceView::Repository(url)], 0)
                == Seq::<SkillView>::empty()
        }),
{
    let none = Seq::<SkillView>::empty();
    let a = seq![SourceView::Directory(dir)];
    let b = seq![SourceView::Repository(url)];
    scan::scan_finds_the_skills(fs(done), dir);
    git::fetch_finds_the_skills(fs, done, cache, url);
    reveal_with_fuel(skills_from, 2);
    let x = source_skills(fs, done, cache, a[0]);
    let y = source_skills(fs, done, cache, b[0]);
    assert(x + none =~= x);
    assert(y + none =~= y);
}

proof fn later_sources(
    fs: FileSystem,
    done: Seq<RequestView>,
    cache: Option<Seq<u8>>,
    all: Seq<SourceView>,
    some: Seq<SourceView>,
    i: int,
    j: int,
)
    requires
        0 <= i,
        0 <= j <= some.len(),
        all.len() - i == some.len() - j,
        forall|k: int| j <= k < some.len() ==> #[trigger] some[k] == all[k - j + i],
    ensures
        skills_from(fs, done, cache, all, i) == skills_from(fs, done, cache, some, j),
    decreases some.len() - j,
{
    if j < some.len() {
        assert(some[j] == all[i]);
        later_sources(
            fs,
            source_done(fs, done, cache, some[j]),
            cache,
            all,
            some,
            i + 1,
            j + 1,
        );
    }
}

proof fn first_sources(
    fs: FileSystem,
    cache: Option<Seq<u8>>,
    a: Seq<SourceView>,
    b: Seq<SourceView>,
    i: int,
)
    requires
        0 <= i <= a.len(),
    ensures
        skills_from(fs, done_before(fs, cache, a, i), cache, a + b, i) == skills_from(
            fs,
            done_before(fs, cache, a, i),
            cache,
            a,
            i,
        ) + skills_from(fs, done_before(fs, cache, a, a.len() as int), cache, b, 0),
    decreases a.len() - i,
{
    let done = done_before(fs, cache, a, i);
    let rest = skills_from(fs, done_before(fs, cache, a, a.len() as int), cache, b, 0);
    if i < a.len() {
        assert((a + b)[i] == a[i]);
        first_sources(fs, cache, a, b, i + 1);
        assert(done_before(fs, cache, a, i + 1) == source_done(fs, done, cache, a[i]));
        assert(skills_from(fs, done, cache, a + b, i) =~= skills_from(fs, done, cache, a, i) + rest);
    } else {
        later_sources(fs, done, cache, a + b, b, a.len() as int, 0);
        assert(skills_from(fs, done, cache, a, i) + rest =~= rest);
    }
}

/// Sources are searched one behind the other, all of them: a list of sources in two parts brings
/// what the first part brings and then what the second does, as the first has left the file system.
pub proof fn sources_add_up(
    fs: FileSystem,
    cache: Option<Seq<u8>>,
    a: Seq<SourceView>,
    b: Seq<SourceView>,
)
    ensures
        skills_from(fs, Seq::empty(), cache, a + b, 0) == skills_from(fs, Seq::empty(), cache, a, 0)
            + skills_from(fs, done_before(fs, cache, a, a.len() as int), cache, b, 0),
        done_before(fs, cache, a, 0) == Seq::<RequestView>::empty(),
        b.len() > 0 ==> done_before(fs, cache, a + b, a.len() as int + 1) == source_done(
            fs,
            done_before(fs, cache, a, a.len() as int),
            cache,
            b[0],
        ),
{
    first_sources(fs, cache, a, b, 0);
    if b.len() > 0 {
        assert((a + b)[a.len() as int] == b[0]);
        done_before_of_concat(fs, cache, a, b, a.len() as int);
    }
}

proof fn done_before_of_concat(
    fs: FileSystem,
    cache: Option<Seq<u8>>,
    a: Seq<SourceView>,
    b: Seq<SourceView>,
    i: int,
)
    requires
        0 <= i <= a.len(),
    ensures
        done_before(fs, cache, a + b, i) == done_before(fs, cache, a, i),
    decreases i,
{
    if i > 0 {
        assert((a + b)[i - 1] == a[i - 1]);
        done_before_of_concat(fs, cache, a, b, i - 1);
    }
}

/// Every skill that a source brings is known by its name when the discovery is done, as it is and
/// with its source path below the directory of the process, unless one of that name was found
/// before it; then that one is.
pub proof fn skill_of_a_source_is_known(
    fs: FileSystem,
    cache: Option<Seq<u8>>,
    process_dir: Seq<u8>,
    before: Seq<SourceView>,
    dir: Seq<u8>,
    after: Seq<SourceView>,
    k: int,
)
    requires
        ({
            let done = done_before(fs, cache, before, before.len() as int);
            0 <= k < scan::scan_run(scan::scan_start(dir), fs(done)).len()
        }),
    ensures
        ({
            let done = done_before(fs, cache, before, before.len() as int);
            let earlier = skills_from(fs, Seq::empty(), cache, before, 0);
            let here = scan::scan_run(scan::scan_start(dir), fs(done));
            let sources = before + (seq![SourceView::Directory(dir)] + after);
            let run = discovery_run(discovery_start(sources, cache, process_dir), fs, Seq::empty());
            let s = here[k];
            &&& run.get(s.name) matches Some(x) && x.name == s.name
            &&& (forall|j: int| 0 <= j < earlier.len() ==> (#[trigger] earlier[j]).name != s.name)
                && (forall|j: int| 0 <= j < k ==> (#[trigger] here[j]).name != s.name) ==> run.get(
                s.name,
            ) == Some(
                SkillView {
                    name: s.name,
                    description: s.description,
                    template: s.template,
                    source_path: path::joined(process_dir, s.source_path),
                },
            )
        }),
{
    let done = done_before(fs, cache, before, before.len() as int);
    let earlier = skills_from(fs, Seq::empty(), cache, before, 0);
    let here = scan::scan_run(scan::scan_start(dir), fs(done));
    let one = seq![SourceView::Directory(dir)];
    let sources = before + (one + after);
    let all = skills_from(fs, Seq::empty(), cache, sources, 0);
    let s = here[k];
    sources_add_up(fs, cache, before, one + after);
    scan::scan_finds_the_skills(fs(done), dir);
    assert((one + after)[0] == SourceView::Directory(dir));
    let rest = skills_from(fs, done, cache, one + after, 1);
    assert(skills_from(fs, done, cache, one + after, 0) == here + rest);
    assert(all == earlier + (here + rest));
    discovery_knows_the_first(fs, sources, cache, process_dir, s.name);
    first_named_of_concat(earlier, here + rest, s.name);
    first_named_of_concat(here, rest, s.name);
    catalog::named_skill_is_found(here, s.name, k);
    catalog::found_skill_is_named(earlier, s.name);
    catalog::found_skill_is_named(here, s.name);
    let run = discovery_run(discovery_start(sources, cache, process_dir), fs, Seq::empty());
    assert(run.get(s.name) is Some);
}

/// The URLs from which no name can be derived are told in order: a list of sources in two parts has
/// those of the first part and then those of the second. A single URL is told exactly if there is a
/// cache directory and no name can be derived from it, and a directory never is.
pub proof fn nameless_urls_add_up(
    cache: Option<Seq<u8>>,
    a: Seq<SourceView>,
    b: Seq<SourceView>,
    dir: Seq<u8>,
    url: Seq<char>,
)
    ensures
        nameless_urls(cache, a + b, (a + b).len() as int) == nameless_urls(
            cache,
            a,
            a.len() as int,
        ) + nameless_urls(cache, b, b.len() as int),
        nameless_urls(cache, seq![SourceView::Directory(dir)], 1) == Seq::<Seq<char>>::empty(),
        nameless_urls(cache, seq![SourceView::Repository(url)], 1) == if cache is Some
            && git::repo_name(url).len() == 0 {
            seq![url]
        } else {
            Seq::empty()
        },
    decreases b.len(),
{
    reveal_with_fuel(nameless_urls, 2);
    let one = seq![SourceView::Repository(url)];
    assert(nameless_urls(cache, one, 1) =~= if cache is Some && git::repo_name(url).len() == 0 {
        seq![url]
    } else {
        Seq::empty()
    });
    first_nameless(cache, a, b, a.len() as int);
    later_nameless(cache, a, b, b.len() as int);
}

proof fn first_nameless(
    cache: Option<Seq<u8>>,
    a: Seq<SourceView>,
    b: Seq<SourceView>,
    n: int,
)
    requires
        0 <= n <= a.len(),
    ensures
        nameless_urls(cache, a + b, n) == nameless_urls(cache, a, n),
    decreases n,
{
    if n > 0 {
        assert((a + b)[n - 1] == a[n - 1]);
        first_nameless(cache, a, b, n - 1);
    }
}

proof fn later_nameless(
    cache: Option<Seq<u8>>,
    a: Seq<SourceView>,
    b: Seq<SourceView>,
    n: int,
)
    requires
        0 <= n <= b.len(),
    ensures
        nameless_urls(cache, a + b, a.len() + n) == nameless_urls(cache, a, a.len() as int)
            + nameless_urls(cache, b, n),
    decreases n,
{
    let before = nameless_urls(cache, a, a.len() as int);
    if n > 0 {
        assert((a + b)[a.len() + n - 1] == b[n - 1]);
        later_nameless(cache, a, b, n - 1);
        assert(nameless_urls(cache, a + b, a.len() + n) =~= before + nameless_urls(cache, b, n));
    } else {
        first_nameless(cache, a, b, a.len() as int);
        assert(before + nameless_urls(cache, b, 0) =~= before);
    }
}

} // verus!
