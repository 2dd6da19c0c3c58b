//! The scan of a directory for skill files.
//!
//! A scan does nothing to the file system, so what it finds is stated over the file system at one
//! moment.

use vstd::prelude::*;
use vstd::utf8;
use crate::path;
use crate::path::SkillPath;
use crate::request;
use crate::request::{Reply, ReplyView, Request, RequestView, World};
use crate::skill;
use crate::skill::{DiscoveredSkill, SkillView};
use crate::text;
use crate::text::CharClass;

verus! {

/// How many names a file can have that makes its directory a skill.
pub const SKILL_FILES: usize = 4;

/// The names of a file that makes its directory a skill, in the order in which they are tried.
pub open spec fn skill_file(i: int) -> Seq<char> {
    if i == 0 {
        "SKILL.md"@
    } else if i == 1 {
        "skill.md"@
    } else if i == 2 {
        "SKILL.MD"@
    } else {
        "Skill.md"@
    }
}

fn skill_file_name(i: usize) -> (r: &'static str)
    ensures
        r@ == skill_file(i as int),
{
    if i == 0 {
        "SKILL.md"
    } else if i == 1 {
        "skill.md"
    } else if i == 2 {
        "SKILL.MD"
    } else {
        "Skill.md"
    }
}

/// The path of the `i`-th candidate for a skill file in `dir`.
pub open spec fn candidate_path(dir: Seq<u8>, i: int) -> Seq<u8> {
    path::below(dir, skill_file(i))
}

/// Whether an entry of a directory is passed over for its name.
pub open spec fn is_hidden(name: Seq<u8>) -> bool {
    name.len() > 0 && name[0] == path::DOT
}

/// Whether the extension of `p` is the one of a skill file.
pub open spec fn is_markdown(p: Seq<u8>) -> bool {
    path::extension(p) == Some(utf8::encode_utf8("md"@))
}

/// The skill in the file at `p`.
pub open spec fn skill_at(w: World, p: Seq<u8>) -> Option<SkillView> {
    match w(RequestView::Read(p)).content() {
        Some(t) => skill::parsed_skill(t, p),
        None => None,
    }
}

/// The skill that `dir` itself is: the first that a candidate from the `i`-th on holds.
pub open spec fn own_skill(w: World, dir: Seq<u8>, i: int) -> Option<SkillView>
    decreases SKILL_FILES - i,
{
    let p = candidate_path(dir, i);
    if i >= SKILL_FILES {
        None
    } else if w(RequestView::IsFile(p)).yes() && skill_at(w, p) is Some {
        skill_at(w, p)
    } else {
        own_skill(w, dir, i + 1)
    }
}

/// The skill that the directory `dir`, found in a scanned one, is: what the first candidate from
/// the `i`-th on that is a file holds.
pub open spec fn nested_skill(w: World, dir: Seq<u8>, i: int) -> Option<SkillView>
    decreases SKILL_FILES - i,
{
    let p = candidate_path(dir, i);
    if i >= SKILL_FILES {
        None
    } else if w(RequestView::IsFile(p)).yes() {
        skill_at(w, p)
    } else {
        nested_skill(w, dir, i + 1)
    }
}

/// The skill that the entry `name` of `dir` brings: a markdown file holds one, and a directory
/// may be one; hidden entries bring none.
pub open spec fn entry_skill(w: World, dir: Seq<u8>, name: Seq<u8>) -> Option<SkillView> {
    let p = path::joined(dir, name);
    if is_hidden(name) {
        None
    } else if w(RequestView::IsFile(p)).yes() {
        if is_markdown(p) {
            skill_at(w, p)
        } else {
            None
        }
    } else if w(RequestView::IsDir(p)).yes() {
        nested_skill(w, p, 0)
    } else {
        None
    }
}

/// No skill or one.
pub open spec fn one_or_none(s: Option<SkillView>) -> Seq<SkillView> {
    match s {
        Some(k) => seq![k],
        None => Seq::empty(),
    }
}

/// The skills of the entries of `dir` from the `i`-th of `names` on.
pub open spec fn entry_skills(w: World, dir: Seq<u8>, names: Seq<Seq<u8>>, i: int) -> Seq<SkillView>
    decreases names.len() - i,
{
    if i < 0 || i >= names.len() {
        Seq::empty()
    } else {
        one_or_none(entry_skill(w, dir, names[i])) + entry_skills(w, dir, names, i + 1)
    }
}

/// The skills of the entries of `dir`.
pub open spec fn listed_skills(w: World, dir: Seq<u8>) -> Seq<SkillView> {
    match w(RequestView::List(dir)).names() {
        Some(names) => entry_skills(w, dir, names, 0),
        None => Seq::empty(),
    }
}

/// The skills of `dir`: itself alone where it is one, else those of its entries.
pub open spec fn skills_in(w: World, dir: Seq<u8>) -> Seq<SkillView> {
    if !w(RequestView::IsDir(dir)).yes() {
        Seq::empty()
    } else {
        match own_skill(w, dir, 0) {
            Some(s) => seq![s],
            None => listed_skills(w, dir),
        }
    }
}

/// What a scan waits for.
#[derive(Debug, Clone, Copy, PartialEq, Eq, Structural)]
pub enum Phase {
    /// Whether the directory is one.
    Dir,
    /// Whether a candidate in the directory is a file.
    OwnFile,
    /// The text of a candidate in the directory.
    OwnText,
    /// The entries of the directory.
    Listing,
    /// Whether an entry is a file.
    EntryFile,
    /// The text of an entry.
    EntryText,
    /// Whether an entry is a directory.
    EntryDir,
    /// Whether a candidate in an entry is a file.
    NestedFile,
    /// The text of a candidate in an entry.
    NestedText,
    /// Nothing more.
    Done,
}

/// The state of a scan.
#[verifier::ext_equal]
pub struct ScanView {
    /// The directory that is scanned.
    pub dir: Seq<u8>,
    /// What the scan waits for.
    pub phase: Phase,
    /// The candidate that is being tried.
    pub candidate: int,
    /// The names of the entries of the directory, once they are known.
    pub names: Seq<Seq<u8>>,
    /// The entry that is being looked at.
    pub entry: int,
    /// The skills found so far.
    pub skills: Seq<SkillView>,
}

/// The first index from `i` on of a name that is not hidden, or the number of names.
pub open spec fn next_visible(names: Seq<Seq<u8>>, i: int) -> int
    decreases names.len() - i,
{
    if 0 <= i < names.len() && is_hidden(names[i]) {
        next_visible(names, i + 1)
    } else {
        i
    }
}

/// The state in which a scan of `dir` starts.
pub open spec fn scan_start(dir: Seq<u8>) -> ScanView {
    ScanView {
        dir,
        phase: Phase::Dir,
        candidate: 0,
        names: Seq::empty(),
        entry: 0,
        skills: Seq::empty(),
    }
}

impl ScanView {
    /// Whether the indices of the state point at something.
    pub open spec fn wf(self) -> bool {
        &&& 0 <= self.candidate < SKILL_FILES
        &&& 0 <= self.entry
        &&& (self.phase == Phase::EntryFile || self.phase == Phase::EntryText || self.phase
            == Phase::EntryDir || self.phase == Phase::NestedFile || self.phase
            == Phase::NestedText) ==> self.entry < self.names.len() && !is_hidden(
            self.names[self.entry],
        )
    }

    /// The path of the entry that is being looked at.
    pub open spec fn entry_path(self) -> Seq<u8> {
        path::joined(self.dir, self.names[self.entry])
    }

    /// What the scan asks next; nothing when it is done.
    pub open spec fn request(self) -> Option<RequestView> {
        match self.phase {
            Phase::Dir => Some(RequestView::IsDir(self.dir)),
            Phase::OwnFile => Some(RequestView::IsFile(candidate_path(self.dir, self.candidate))),
            Phase::OwnText => Some(RequestView::Read(candidate_path(self.dir, self.candidate))),
            Phase::Listing => Some(RequestView::List(self.dir)),
            Phase::EntryFile => Some(RequestView::IsFile(self.entry_path())),
            Phase::EntryText => Some(RequestView::Read(self.entry_path())),
            Phase::EntryDir => Some(RequestView::IsDir(self.entry_path())),
            Phase::NestedFile => Some(
                RequestView::IsFile(candidate_path(self.entry_path(), self.candidate)),
            ),
            Phase::NestedText => Some(
                RequestView::Read(candidate_path(self.entry_path(), self.candidate)),
            ),
            Phase::Done => None,
        }
    }

    /// The state with another phase.
    pub open spec fn at(self, phase: Phase) -> ScanView {
        ScanView { phase, ..self }
    }

    /// The state in which the next candidate in the directory is tried, or its entries are read.
    pub open spec fn next_own(self) -> ScanView {
        if self.candidate + 1 < SKILL_FILES {
            ScanView { candidate: self.candidate + 1, phase: Phase::OwnFile, ..self }
        } else {
            self.at(Phase::Listing)
        }
    }

    /// The state in which the first entry from the `i`-th on that is not hidden is looked at, or
    /// the scan is done.
    pub open spec fn from_entry(self, i: int) -> ScanView {
        let entry = next_visible(self.names, i);
        ScanView {
            entry,
            phase: if entry < self.names.len() {
                Phase::EntryFile
            } else {
                Phase::Done
            },
            ..self
        }
    }

    /// The state with the skill of the file at `p`, if its text holds one.
    pub open spec fn with_skill(self, reply: ReplyView, p: Seq<u8>) -> ScanView {
        ScanView { skills: self.skills + one_or_none(parsed_reply(reply, p)), ..self }
    }

    /// The state behind a reply.
    pub open spec fn after(self, reply: ReplyView) -> ScanView {
        match self.phase {
            Phase::Dir => if reply.yes() {
                ScanView { candidate: 0, phase: Phase::OwnFile, ..self }
            } else {
                self.at(Phase::Done)
            },
            Phase::OwnFile => if reply.yes() {
                self.at(Phase::OwnText)
            } else {
                self.next_own()
            },
            Phase::OwnText => {
                let p = candidate_path(self.dir, self.candidate);
                if parsed_reply(reply, p) is Some {
                    self.with_skill(reply, p).at(Phase::Done)
                } else {
                    self.next_own()
                }
            },
            Phase::Listing => match reply.names() {
                Some(names) => ScanView { names, ..self }.from_entry(0),
                None => self.at(Phase::Done),
            },
            Phase::EntryFile => if reply.yes() {
                if is_markdown(self.entry_path()) {
                    self.at(Phase::EntryText)
                } else {
                    self.from_entry(self.entry + 1)
                }
            } else {
                self.at(Phase::EntryDir)
            },
            Phase::EntryText => self.with_skill(reply, self.entry_path()).from_entry(
                self.entry + 1,
            ),
            Phase::EntryDir => if reply.yes() {
                ScanView { candidate: 0, phase: Phase::NestedFile, ..self }
            } else {
                self.from_entry(self.entry + 1)
            },
            Phase::NestedFile => if reply.yes() {
                self.at(Phase::NestedText)
            } else if self.candidate + 1 < SKILL_FILES {
                ScanView { candidate: self.candidate + 1, ..self }
            } else {
                self.from_entry(self.entry + 1)
            },
            Phase::NestedText => self.with_skill(
                reply,
                candidate_path(self.entry_path(), self.candidate),
            ).from_entry(self.entry + 1),
            Phase::Done => self,
        }
    }
}

/// The skill that a reply to the request for the text of the file at `p` brings.
pub open spec fn parsed_reply(reply: ReplyView, p: Seq<u8>) -> Option<SkillView> {
    match reply.content() {
        Some(t) => skill::parsed_skill(t, p),
        None => None,
    }
}

/// A scan of a directory for skill files:
/// - the directory itself, if it directly contains a skill file;
/// - else the markdown files directly in it, and its subdirectories that contain a skill file.
#[derive(Debug)]
pub struct Scanner {
    dir: SkillPath,
    phase: Phase,
    candidate: usize,
    names: Vec<Vec<u8>>,
    entry: usize,
    skills: Vec<DiscoveredSkill>,
}

impl View for Scanner {
    type V = ScanView;

    closed spec fn view(&self) -> ScanView {
        ScanView {
            dir: self.dir@,
            phase: self.phase,
            candidate: self.candidate as int,
            names: request::name_views(self.names@),
            entry: self.entry as int,
            skills: skill::skill_views(self.skills@),
        }
    }
}

/// Starts a scan of `dir`.
pub fn scan_dir(dir: &SkillPath) -> (r: Scanner)
    ensures
        r@ == scan_start(dir@),
        r@.wf(),
{
    let r = Scanner {
        dir: dir.clone(),
        phase: Phase::Dir,
        candidate: 0,
        names: Vec::new(),
        entry: 0,
        skills: Vec::new(),
    };
    assert(r@ =~= scan_start(dir@));
    r
}

impl Scanner {
    fn entry_path(&self) -> (r: SkillPath)
        requires
            self@.wf(),
            self@.entry < self@.names.len(),
        ensures
            r@ == self@.entry_path(),
    {
        self.dir.join(self.names[self.entry].as_slice())
    }

    /// What the scan asks next; nothing when it is done.
    pub fn request(&self) -> (r: Option<Request>)
        requires
            self@.wf(),
        ensures
            request::request_view(r) == self@.request(),
    {
        match self.phase {
            Phase::Dir => Some(Request::IsDir(self.dir.clone())),
            Phase::OwnFile => Some(
                Request::IsFile(self.dir.join_text(skill_file_name(self.candidate))),
            ),
            Phase::OwnText => Some(
                Request::Read(self.dir.join_text(skill_file_name(self.candidate))),
            ),
            Phase::Listing => Some(Request::List(self.dir.clone())),
            Phase::EntryFile => Some(Request::IsFile(self.entry_path())),
            Phase::EntryText => Some(Request::Read(self.entry_path())),
            Phase::EntryDir => Some(Request::IsDir(self.entry_path())),
            Phase::NestedFile => Some(
                Request::IsFile(self.entry_path().join_text(skill_file_name(self.candidate))),
            ),
            Phase::NestedText => Some(
                Request::Read(self.entry_path().join_text(skill_file_name(self.candidate))),
            ),
            Phase::Done => None,
        }
    }

    /// Whether the scan is done.
    pub fn is_done(&self) -> (r: bool)
        ensures
            r == (self@.phase == Phase::Done),
    {
        self.phase == Phase::Done
    }

    /// The skills found.
    pub fn into_skills(self) -> (r: Vec<DiscoveredSkill>)
        ensures
            skill::skill_views(r@) == self@.skills,
    {
        self.skills
    }

    fn next_own(&mut self)
        requires
            old(self)@.wf(),
        ensures
            final(self)@ == old(self)@.next_own(),
    {
        if self.candidate + 1 < SKILL_FILES {
            self.candidate = self.candidate + 1;
            self.phase = Phase::OwnFile;
        } else {
            self.phase = Phase::Listing;
        }
    }

    fn from_entry(&mut self, i: usize)
        requires
            i <= old(self)@.names.len(),
            0 <= old(self)@.candidate < SKILL_FILES,
        ensures
            final(self)@ == old(self)@.from_entry(i as int),
            final(self)@.wf(),
    {
        let mut k: usize = i;
        while k < self.names.len() && self.names[k].len() > 0 && self.names[k][0] == path::DOT
            invariant
                k <= self.names.len(),
                self@ == old(self)@,
                next_visible(self@.names, k as int) == next_visible(self@.names, i as int),
            decreases self.names.len() - k,
        {
            k += 1;
        }
        self.entry = k;
        self.phase = if k < self.names.len() {
            Phase::EntryFile
        } else {
            Phase::Done
        };
    }

    fn next_entry(&mut self)
        requires
            old(self)@.wf(),
            old(self)@.entry < old(self)@.names.len(),
        ensures
            final(self)@ == old(self)@.from_entry(old(self)@.entry + 1),
            final(self)@.wf(),
    {
        assert(self@.names.len() == self.names.len());
        self.from_entry(self.entry + 1);
    }

    /// Adds the skill of the file at `p`, if its text holds one, and tells whether it does.
    fn take_skill(&mut self, reply: Reply, p: &SkillPath) -> (r: bool)
        ensures
            final(self)@ == old(self)@.with_skill(reply@, p@),
            r == (parsed_reply(reply@, p@) is Some),
    {
        match reply.into_content() {
            Some(t) => match skill::parse_skill_file(t.as_str(), p) {
                Some(s) => {
                    self.skills.push(s);
                    assert(self@.skills =~= old(self)@.skills.push(s@));
                    true
                },
                None => false,
            },
            None => false,
        }
    }

    /// Goes on with the reply to the request.
    pub fn resume(&mut self, reply: Reply)
        requires
            old(self)@.wf(),
        ensures
            final(self)@ == old(self)@.after(reply@),
            final(self)@.wf(),
    {
        match self.phase {
            Phase::Dir => {
                if reply.is_yes() {
                    self.candidate = 0;
                    self.phase = Phase::OwnFile;
                } else {
                    self.phase = Phase::Done;
                }
            },
            Phase::OwnFile => {
                if reply.is_yes() {
                    self.phase = Phase::OwnText;
                } else {
                    self.next_own();
                }
            },
            Phase::OwnText => {
                let p = self.dir.join_text(skill_file_name(self.candidate));
                if self.take_skill(reply, &p) {
                    self.phase = Phase::Done;
                } else {
                    self.next_own();
                }
            },
            Phase::Listing => {
                match reply.into_names() {
                    Some(names) => {
                        self.names = names;
                        self.from_entry(0);
                    },
                    None => {
                        self.phase = Phase::Done;
                    },
                }
            },
            Phase::EntryFile => {
                if reply.is_yes() {
                    let p = self.entry_path();
                    let markdown: bool = match p.extension() {
                        Some(x) => same_bytes(x, "md".as_bytes()),
                        None => false,
                    };
                    if markdown {
                        self.phase = Phase::EntryText;
                    } else {
                        self.next_entry();
                    }
                } else {
                    self.phase = Phase::EntryDir;
                }
            },
            Phase::EntryText => {
                let p = self.entry_path();
                self.take_skill(reply, &p);
                self.next_entry();
            },
            Phase::EntryDir => {
                if reply.is_yes() {
                    self.candidate = 0;
                    self.phase = Phase::NestedFile;
                } else {
                    self.next_entry();
                }
            },
            Phase::NestedFile => {
                if reply.is_yes() {
                    self.phase = Phase::NestedText;
                } else if self.candidate + 1 < SKILL_FILES {
                    self.candidate = self.candidate + 1;
                } else {
                    self.next_entry();
                }
            },
            Phase::NestedText => {
                let p = self.entry_path().join_text(skill_file_name(self.candidate));
                self.take_skill(reply, &p);
                self.next_entry();
            },
            Phase::Done => {},
        }
    }
}

/// Whether two byte slices hold the same bytes.
fn same_bytes(a: &[u8], b: &[u8]) -> (r: bool)
    ensures
        r == (a@ == b@),
{
    if a.len() != b.len() {
        return false;
    }
    let mut i: usize = 0;
    while i < a.len()
        invariant
            i <= a.len(),
            a.len() == b.len(),
            forall|j: int| 0 <= j < i ==> a[j] == b[j],
        decreases a.len() - i,
    {
        if a[i] != b[i] {
            return false;
        }
        i += 1;
    }
    assert(a@ == b@);
    true
}

impl ScanView {
    /// The skills that the scan will have found in `w` when it is done.
    pub open spec fn outcome(self, w: World) -> Seq<SkillView> {
        let own = candidate_path(self.dir, self.candidate);
        let nested = candidate_path(self.entry_path(), self.candidate);
        self.skills + match self.phase {
            Phase::Dir => skills_in(w, self.dir),
            Phase::OwnFile => own_or_listed(w, self.dir, self.candidate),
            Phase::OwnText => match skill_at(w, own) {
                Some(s) => seq![s],
                None => own_or_listed(w, self.dir, self.candidate + 1),
            },
            Phase::Listing => listed_skills(w, self.dir),
            Phase::EntryFile => entry_skills(w, self.dir, self.names, self.entry),
            Phase::EntryText => self.entry_then_rest(w, skill_at(w, self.entry_path())),
            Phase::EntryDir => self.entry_then_rest(
                w,
                if w(RequestView::IsDir(self.entry_path())).yes() {
                    nested_skill(w, self.entry_path(), 0)
                } else {
                    None
                },
            ),
            Phase::NestedFile => self.entry_then_rest(
                w,
                nested_skill(w, self.entry_path(), self.candidate),
            ),
            Phase::NestedText => self.entry_then_rest(w, skill_at(w, nested)),
            Phase::Done => Seq::empty(),
        }
    }

    /// What the current entry brings, and the skills of the entries behind it.
    pub open spec fn entry_then_rest(self, w: World, s: Option<SkillView>) -> Seq<SkillView> {
        one_or_none(s) + entry_skills(w, self.dir, self.names, self.entry + 1)
    }

    /// How far the scan is from knowing the entries of its directory.
    pub open spec fn stage(self) -> nat {
        match self.phase {
            Phase::Dir => 3,
            Phase::OwnFile => 2,
            Phase::OwnText => 2,
            Phase::Listing => 1,
            _ => 0,
        }
    }

    /// How many replies the scan can still take at its stage, at most.
    pub open spec fn replies_left(self) -> int {
        let candidates = 2 * (SKILL_FILES - self.candidate);
        let entries = 12 * (self.names.len() - self.entry);
        match self.phase {
            Phase::OwnFile => candidates,
            Phase::OwnText => candidates - 1,
            Phase::EntryFile => entries,
            Phase::EntryText => entries - 1,
            Phase::EntryDir => entries - 1,
            Phase::NestedFile => entries - 12 + candidates + 2,
            Phase::NestedText => entries - 12 + candidates + 1,
            _ => 0,
        }
    }
}

/// The skills that a scan from the state `v` on finds in `w`, when every request is carried out
/// and replied to.
pub open spec fn scan_run(v: ScanView, w: World) -> Seq<SkillView>
    decreases v.stage(), v.replies_left(),
    when v.wf()
{
    match v.request() {
        Some(q) => {
            proof {
                scan_comes_to_an_end(v, w(q));
            }
            scan_run(v.after(w(q)), w)
        },
        None => v.skills,
    }
}

/// The skill that `dir` itself is by a candidate from the `i`-th on, else those of its entries.
pub open spec fn own_or_listed(w: World, dir: Seq<u8>, i: int) -> Seq<SkillView> {
    match own_skill(w, dir, i) {
        Some(s) => seq![s],
        None => listed_skills(w, dir),
    }
}

proof fn next_visible_bounds(names: Seq<Seq<u8>>, i: int)
    requires
        0 <= i <= names.len(),
    ensures
        i <= next_visible(names, i) <= names.len(),
        next_visible(names, i) < names.len() ==> !is_hidden(names[next_visible(names, i)]),
    decreases names.len() - i,
{
    if i < names.len() && is_hidden(names[i]) {
        next_visible_bounds(names, i + 1);
    }
}

proof fn hidden_entries_bring_nothing(w: World, dir: Seq<u8>, names: Seq<Seq<u8>>, i: int)
    requires
        0 <= i <= names.len(),
    ensures
        entry_skills(w, dir, names, i) == entry_skills(w, dir, names, next_visible(names, i)),
    decreases names.len() - i,
{
    if i < names.len() && is_hidden(names[i]) {
        hidden_entries_bring_nothing(w, dir, names, i + 1);
        assert(entry_skills(w, dir, names, i) =~= entry_skills(w, dir, names, i + 1));
    }
}

/// A scan keeps its indices in place and comes nearer to its end with every reply, whatever the
/// reply says.
pub proof fn scan_comes_to_an_end(v: ScanView, reply: ReplyView)
    requires
        v.wf(),
        v.phase != Phase::Done,
    ensures
        v.after(reply).wf(),
        v.after(reply).stage() < v.stage() || (v.after(reply).stage() == v.stage() && 0 <= v.after(
            reply,
        ).replies_left() < v.replies_left()),
{
    if v.phase == Phase::Listing {
        if reply.names() is Some {
            next_visible_bounds(reply.names()->Some_0, 0);
        }
    } else if v.stage() == 0 {
        next_visible_bounds(v.names, v.entry + 1);
    }
}

/// A scan does nothing to the file system.
pub proof fn scan_commands_nothing(v: ScanView)
    ensures
        v.request() matches Some(q) ==> !q.is_command(),
{
}

/// A reply that is the one `w` gives does not change what the scan will have found in `w`.
pub proof fn scan_reply_keeps_outcome(v: ScanView, w: World)
    requires
        v.wf(),
        v.request() is Some,
    ensures
        v.after(w(v.request()->Some_0)).outcome(w) == v.outcome(w),
{
    match v.phase {
        Phase::Dir => {
            assert(v.after(w(v.request()->Some_0)).outcome(w) =~= v.outcome(w));
        },
        Phase::OwnFile => own_phase_keeps_outcome(v, w),
        Phase::OwnText => own_phase_keeps_outcome(v, w),
        Phase::Listing => listing_keeps_outcome(v, w),
        Phase::EntryFile => entry_phase_keeps_outcome(v, w),
        Phase::EntryText => text_phase_keeps_outcome(v, w, v.entry_path()),
        Phase::EntryDir => entry_phase_keeps_outcome(v, w),
        Phase::NestedFile => entry_phase_keeps_outcome(v, w),
        Phase::NestedText => text_phase_keeps_outcome(
            v,
            w,
            candidate_path(v.entry_path(), v.candidate),
        ),
        Phase::Done => {},
    }
}

proof fn own_phase_keeps_outcome(v: ScanView, w: World)
    requires
        v.wf(),
        v.phase == Phase::OwnFile || v.phase == Phase::OwnText,
    ensures
        v.after(w(v.request()->Some_0)).outcome(w) == v.outcome(w),
{
    let reply = w(v.request()->Some_0);
    let next = v.after(reply);
    let p = candidate_path(v.dir, v.candidate);
    assert(skill_at(w, p) == parsed_reply(w(RequestView::Read(p)), p));
    assert(v.candidate + 1 == SKILL_FILES ==> own_skill(w, v.dir, v.candidate + 1) is None);
    if v.phase == Phase::OwnText && skill_at(w, p) is Some {
        assert(next.outcome(w) =~= v.skills + seq![skill_at(w, p)->Some_0]);
    } else {
        assert(next.outcome(w) =~= v.outcome(w));
    }
}

proof fn listing_keeps_outcome(v: ScanView, w: World)
    requires
        v.wf(),
        v.phase == Phase::Listing,
    ensures
        v.after(w(v.request()->Some_0)).outcome(w) == v.outcome(w),
{
    let reply = w(v.request()->Some_0);
    if reply.names() is Some {
        goes_to_entry(ScanView { names: reply.names()->Some_0, ..v }, w, 0);
    } else {
        assert(v.after(reply).outcome(w) =~= v.outcome(w));
    }
}

proof fn goes_to_entry(v: ScanView, w: World, i: int)
    requires
        0 <= i <= v.names.len(),
    ensures
        v.from_entry(i).outcome(w) == v.skills + entry_skills(w, v.dir, v.names, i),
{
    next_visible_bounds(v.names, i);
    hidden_entries_bring_nothing(w, v.dir, v.names, i);
    assert(entry_skills(w, v.dir, v.names, v.names.len() as int) =~= Seq::empty());
}

proof fn entry_phase_keeps_outcome(v: ScanView, w: World)
    requires
        v.wf(),
        v.phase == Phase::EntryFile || v.phase == Phase::EntryDir || v.phase == Phase::NestedFile,
    ensures
        v.after(w(v.request()->Some_0)).outcome(w) == v.outcome(w),
{
    let reply = w(v.request()->Some_0);
    let next = v.after(reply);
    let rest = entry_skills(w, v.dir, v.names, v.entry + 1);
    assert(entry_skills(w, v.dir, v.names, v.entry) == one_or_none(
        entry_skill(w, v.dir, v.names[v.entry]),
    ) + rest);
    assert(nested_skill(w, v.entry_path(), SKILL_FILES as int) is None);
    assert(Seq::<SkillView>::empty() + rest =~= rest);
    goes_to_entry(v, w, v.entry + 1);
}

proof fn text_phase_keeps_outcome(v: ScanView, w: World, p: Seq<u8>)
    requires
        v.wf(),
        v.phase == Phase::EntryText || v.phase == Phase::NestedText,
        v.request() == Some(RequestView::Read(p)),
    ensures
        v.after(w(v.request()->Some_0)).outcome(w) == v.outcome(w),
{
    let reply = w(v.request()->Some_0);
    assert(skill_at(w, p) == parsed_reply(reply, p));
    goes_to_entry(v.with_skill(reply, p), w, v.entry + 1);
    assert(v.outcome(w) =~= v.with_skill(reply, p).skills + entry_skills(
        w,
        v.dir,
        v.names,
        v.entry + 1,
    ));
}

/// What a scan will find from its start.
pub(crate) proof fn scan_start_outcome(dir: Seq<u8>, w: World)
    ensures
        scan_start(dir).outcome(w) == skills_in(w, dir),
{
    assert(scan_start(dir).outcome(w) =~= skills_in(w, dir));
}

/// What a scan that is done has found.
pub(crate) proof fn done_scan_outcome(v: ScanView, w: World)
    requires
        v.phase == Phase::Done,
    ensures
        v.outcome(w) == v.skills,
{
    assert(v.outcome(w) =~= v.skills);
}

proof fn run_finds_outcome(v: ScanView, w: World)
    requires
        v.wf(),
    ensures
        scan_run(v, w) == v.outcome(w),
    decreases v.stage(), v.replies_left(),
{
    if v.request() is Some {
        scan_comes_to_an_end(v, w(v.request()->Some_0));
        scan_reply_keeps_outcome(v, w);
        run_finds_outcome(v.after(w(v.request()->Some_0)), w);
    } else {
        done_scan_outcome(v, w);
    }
}

/// A scan of a directory finds exactly the skills of that directory.
pub proof fn scan_finds_the_skills(w: World, dir: Seq<u8>)
    ensures
        scan_run(scan_start(dir), w) == skills_in(w, dir),
{
    run_finds_outcome(scan_start(dir), w);
    scan_start_outcome(dir, w);
}

/// Whether `s` is what the file at its source path holds, and that file is there.
pub open spec fn stands_in_its_file(w: World, s: SkillView) -> bool {
    &&& w(RequestView::IsFile(s.source_path)).yes()
    &&& skill_at(w, s.source_path) == Some(s)
}

proof fn own_skill_stands_in_its_file(w: World, dir: Seq<u8>, i: int)
    requires
        0 <= i,
    ensures
        own_skill(w, dir, i) matches Some(s) ==> stands_in_its_file(w, s) && (path::is_absolute(dir)
            ==> path::is_absolute(s.source_path)),
    decreases SKILL_FILES - i,
{
    if i < SKILL_FILES {
        own_skill_stands_in_its_file(w, dir, i + 1);
    }
}

proof fn nested_skill_stands_in_its_file(w: World, dir: Seq<u8>, i: int)
    requires
        0 <= i,
    ensures
        nested_skill(w, dir, i) matches Some(s) ==> stands_in_its_file(w, s) && (path::is_absolute(
            dir,
        ) ==> path::is_absolute(s.source_path)),
    decreases SKILL_FILES - i,
{
    if i < SKILL_FILES {
        nested_skill_stands_in_its_file(w, dir, i + 1);
    }
}

proof fn entry_skills_stand_in_their_files(w: World, dir: Seq<u8>, names: Seq<Seq<u8>>, i: int)
    requires
        0 <= i <= names.len(),
    ensures
        forall|k: int|
            0 <= k < entry_skills(w, dir, names, i).len() ==> {
                let s = #[trigger] entry_skills(w, dir, names, i)[k];
                stands_in_its_file(w, s) && (path::is_absolute(dir) ==> path::is_absolute(
                    s.source_path,
                ))
            },
    decreases names.len() - i,
{
    if i < names.len() {
        let rest = entry_skills(w, dir, names, i + 1);
        entry_skills_stand_in_their_files(w, dir, names, i + 1);
        nested_skill_stands_in_its_file(w, path::joined(dir, names[i]), 0);
        let own = one_or_none(entry_skill(w, dir, names[i]));
        assert(entry_skills(w, dir, names, i) == own + rest);
        assert forall|k: int| 0 <= k < (own + rest).len() implies {
            let s = #[trigger] (own + rest)[k];
            stands_in_its_file(w, s) && (path::is_absolute(dir) ==> path::is_absolute(
                s.source_path,
            ))
        } by {
            if k >= own.len() {
                assert((own + rest)[k] == rest[k - own.len()]);
            }
        }
    }
}

/// Every skill of a directory is what the file at its source path holds, and that path is
/// absolute if the directory's is.
pub proof fn skills_stand_in_their_files(w: World, dir: Seq<u8>, k: int)
    requires
        0 <= k < skills_in(w, dir).len(),
    ensures
        stands_in_its_file(w, skills_in(w, dir)[k]),
        path::is_absolute(dir) ==> path::is_absolute(skills_in(w, dir)[k].source_path),
{
    own_skill_stands_in_its_file(w, dir, 0);
    match w(RequestView::List(dir)).names() {
        Some(names) => entry_skills_stand_in_their_files(w, dir, names, 0),
        None => {},
    }
}

/// A scan of what is no directory finds nothing.
pub proof fn no_directory_no_skills(w: World, dir: Seq<u8>)
    requires
        !w(RequestView::IsDir(dir)).yes(),
    ensures
        scan_run(scan_start(dir), w) == Seq::<SkillView>::empty(),
{
    scan_finds_the_skills(w, dir);
}

/// Whether `p` is one of the candidates for a skill file in `dir`.
pub open spec fn is_candidate(dir: Seq<u8>, p: Seq<u8>) -> bool {
    exists|i: int| 0 <= i < SKILL_FILES && p == #[trigger] candidate_path(dir, i)
}

/// Whether `p` is the entry `name` of `dir`, or one of the candidates for a skill file in it.
pub open spec fn is_at_entry(dir: Seq<u8>, name: Seq<u8>, p: Seq<u8>) -> bool {
    p == path::joined(dir, name) || is_candidate(path::joined(dir, name), p)
}

/// Whether `p` is one of the candidates for a skill file in `dir`, or stands at an entry that is
/// listed there.
pub open spec fn lies_in(w: World, dir: Seq<u8>, p: Seq<u8>) -> bool {
    is_candidate(dir, p) || (w(RequestView::List(dir)).names() matches Some(names) && exists|n: int|
        0 <= n < names.len() && is_at_entry(dir, #[trigger] names[n], p))
}

proof fn own_skill_is_candidate(w: World, dir: Seq<u8>, i: int)
    requires
        0 <= i,
    ensures
        own_skill(w, dir, i) matches Some(s) ==> is_candidate(dir, s.source_path),
    decreases SKILL_FILES - i,
{
    if i < SKILL_FILES {
        own_skill_is_candidate(w, dir, i + 1);
        assert(is_candidate(dir, candidate_path(dir, i)));
    }
}

proof fn nested_skill_is_candidate(w: World, dir: Seq<u8>, i: int)
    requires
        0 <= i,
    ensures
        nested_skill(w, dir, i) matches Some(s) ==> is_candidate(dir, s.source_path),
    decreases SKILL_FILES - i,
{
    if i < SKILL_FILES {
        nested_skill_is_candidate(w, dir, i + 1);
        assert(is_candidate(dir, candidate_path(dir, i)));
    }
}

proof fn entry_skill_is_at_entry(w: World, dir: Seq<u8>, name: Seq<u8>)
    ensures
        entry_skill(w, dir, name) matches Some(s) ==> is_at_entry(dir, name, s.source_path),
{
    nested_skill_is_candidate(w, path::joined(dir, name), 0);
}

/// The entry from the `i`-th on that the `k`-th skill stands at.
proof fn entry_of_skill(w: World, dir: Seq<u8>, names: Seq<Seq<u8>>, i: int, k: int) -> (n: int)
    requires
        0 <= i <= names.len(),
        0 <= k < entry_skills(w, dir, names, i).len(),
    ensures
        i <= n < names.len(),
        is_at_entry(dir, names[n], entry_skills(w, dir, names, i)[k].source_path),
    decreases names.len() - i,
{
    let own = one_or_none(entry_skill(w, dir, names[i]));
    entry_skill_is_at_entry(w, dir, names[i]);
    if k < own.len() {
        i
    } else {
        entry_of_skill(w, dir, names, i + 1, k - own.len())
    }
}

/// Every skill of a directory comes from a candidate for a skill file in it, from an entry of it,
/// or from a candidate for a skill file in an entry.
pub proof fn skills_lie_in_the_directory(w: World, dir: Seq<u8>, k: int)
    requires
        0 <= k < skills_in(w, dir).len(),
    ensures
        lies_in(w, dir, skills_in(w, dir)[k].source_path),
{
    own_skill_is_candidate(w, dir, 0);
    if own_skill(w, dir, 0) is None {
        let names = w(RequestView::List(dir)).names()->Some_0;
        let n = entry_of_skill(w, dir, names, 0, k);
        assert(is_at_entry(dir, names[n], skills_in(w, dir)[k].source_path));
    }
}

proof fn candidate_components(dir: Seq<u8>, i: int)
    ensures
        path::components(candidate_path(dir, i)) == path::components(dir).push(
            utf8::encode_utf8(skill_file(i)),
        ),
{
    reveal_strlit("SKILL.md");
    reveal_strlit("skill.md");
    reveal_strlit("SKILL.MD");
    reveal_strlit("Skill.md");
    path::encoding_without_slash(skill_file(i));
    path::joined_name_is_last_component(dir, utf8::encode_utf8(skill_file(i)));
}

/// What stands at an entry has the name of the entry behind the components of the directory.
proof fn entry_name_of(dir: Seq<u8>, name: Seq<u8>, p: Seq<u8>)
    requires
        path::is_plain_name(name),
        is_at_entry(dir, name, p),
    ensures
        path::components(p).len() > path::components(dir).len(),
        path::components(p)[path::components(dir).len() as int] == name,
{
    let q = path::joined(dir, name);
    path::joined_name_is_last_component(dir, name);
    if p != q {
        let i = choose|i: int| 0 <= i < SKILL_FILES && p == #[trigger] candidate_path(q, i);
        candidate_components(q, i);
    }
}

/// Whether the entries of a directory have names, and no two the same one.
pub open spec fn are_entry_names(names: Seq<Seq<u8>>) -> bool {
    &&& forall|i: int| 0 <= i < names.len() ==> path::is_plain_name(#[trigger] names[i])
    &&& names.no_duplicates()
}

proof fn entry_sources_are_distinct(
    w: World,
    dir: Seq<u8>,
    names: Seq<Seq<u8>>,
    i: int,
    j: int,
    k: int,
)
    requires
        are_entry_names(names),
        0 <= i <= names.len(),
        0 <= j < k < entry_skills(w, dir, names, i).len(),
    ensures
        entry_skills(w, dir, names, i)[j].source_path != entry_skills(
            w,
            dir,
            names,
            i,
        )[k].source_path,
    decreases names.len() - i,
{
    let own = one_or_none(entry_skill(w, dir, names[i]));
    let rest = entry_skills(w, dir, names, i + 1);
    assert(entry_skills(w, dir, names, i) == own + rest);
    if j < own.len() {
        entry_skill_is_at_entry(w, dir, names[i]);
        let n = entry_of_skill(w, dir, names, i + 1, k - own.len());
        entry_name_of(dir, names[i], own[j].source_path);
        entry_name_of(dir, names[n], rest[k - own.len()].source_path);
        assert(names[i] != names[n]);
    } else {
        entry_sources_are_distinct(w, dir, names, i + 1, j - own.len(), k - own.len());
    }
}

/// No two skills of a directory come from the same path.
pub proof fn source_paths_are_distinct(w: World, dir: Seq<u8>, j: int, k: int)
    requires
        w(RequestView::List(dir)).names() matches Some(names) ==> are_entry_names(names),
        0 <= j < k < skills_in(w, dir).len(),
    ensures
        skills_in(w, dir)[j].source_path != skills_in(w, dir)[k].source_path,
{
    let names = w(RequestView::List(dir)).names()->Some_0;
    entry_sources_are_distinct(w, dir, names, 0, j, k);
}

/// Whether `v` is `w` without the file `name` in `dir`: nothing stands at its path, it is gone from
/// the listing, where it stood between `a` and `b`, and all else is the same.
pub open spec fn is_without_file(
    w: World,
    v: World,
    dir: Seq<u8>,
    name: Seq<u8>,
    a: Seq<Seq<u8>>,
    b: Seq<Seq<u8>>,
) -> bool {
    let p = path::joined(dir, name);
    &&& forall|q: RequestView|
        q != RequestView::IsFile(p) && q != RequestView::IsDir(p) && q != RequestView::Read(p) && q
            != RequestView::Exists(p) && q != RequestView::List(dir) ==> #[trigger] v(q) == w(q)
    &&& !v(RequestView::IsFile(p)).yes()
    &&& !v(RequestView::IsDir(p)).yes()
    &&& match w(RequestView::List(dir)).names() {
        Some(names) => names == a.push(name) + b && v(RequestView::List(dir)).names() == Some(
            a + b,
        ),
        None => v(RequestView::List(dir)).names() is None,
    }
}

proof fn own_skill_without_file(
    w: World,
    v: World,
    dir: Seq<u8>,
    name: Seq<u8>,
    a: Seq<Seq<u8>>,
    b: Seq<Seq<u8>>,
    i: int,
)
    requires
        0 <= i,
        is_without_file(w, v, dir, name, a, b),
        skill_at(w, path::joined(dir, name)) is None,
    ensures
        own_skill(v, dir, i) == own_skill(w, dir, i),
    decreases SKILL_FILES - i,
{
    if i < SKILL_FILES {
        own_skill_without_file(w, v, dir, name, a, b, i + 1);
        let q = candidate_path(dir, i);
        if q != path::joined(dir, name) {
            assert(v(RequestView::IsFile(q)) == w(RequestView::IsFile(q)));
            assert(v(RequestView::Read(q)) == w(RequestView::Read(q)));
        }
    }
}

proof fn nested_skill_without_file(
    w: World,
    v: World,
    dir: Seq<u8>,
    name: Seq<u8>,
    a: Seq<Seq<u8>>,
    b: Seq<Seq<u8>>,
    sub: Seq<u8>,
    i: int,
)
    requires
        0 <= i,
        is_without_file(w, v, dir, name, a, b),
        path::is_plain_name(name),
        path::is_plain_name(sub),
    ensures
        nested_skill(v, path::joined(dir, sub), i) == nested_skill(w, path::joined(dir, sub), i),
    decreases SKILL_FILES - i,
{
    if i < SKILL_FILES {
        nested_skill_without_file(w, v, dir, name, a, b, sub, i + 1);
        let q = candidate_path(path::joined(dir, sub), i);
        candidate_components(path::joined(dir, sub), i);
        path::joined_name_is_last_component(dir, sub);
        path::joined_name_is_last_component(dir, name);
        assert(q != path::joined(dir, name));
        assert(v(RequestView::IsFile(q)) == w(RequestView::IsFile(q)));
        assert(v(RequestView::Read(q)) == w(RequestView::Read(q)));
    }
}

proof fn entry_skill_without_file(
    w: World,
    v: World,
    dir: Seq<u8>,
    name: Seq<u8>,
    a: Seq<Seq<u8>>,
    b: Seq<Seq<u8>>,
    other: Seq<u8>,
)
    requires
        is_without_file(w, v, dir, name, a, b),
        path::is_plain_name(name),
        path::is_plain_name(other),
        other != name,
    ensures
        entry_skill(v, dir, other) == entry_skill(w, dir, other),
{
    let q = path::joined(dir, other);
    path::joined_name_is_last_component(dir, other);
    path::joined_name_is_last_component(dir, name);
    assert(q != path::joined(dir, name));
    nested_skill_without_file(w, v, dir, name, a, b, other, 0);
    assert(v(RequestView::IsFile(q)) == w(RequestView::IsFile(q)));
    assert(v(RequestView::IsDir(q)) == w(RequestView::IsDir(q)));
    assert(v(RequestView::Read(q)) == w(RequestView::Read(q)));
}

proof fn entry_skills_without_file(
    w: World,
    v: World,
    dir: Seq<u8>,
    name: Seq<u8>,
    a: Seq<Seq<u8>>,
    b: Seq<Seq<u8>>,
    i: int,
)
    requires
        is_without_file(w, v, dir, name, a, b),
        w(RequestView::IsFile(path::joined(dir, name))).yes(),
        skill_at(w, path::joined(dir, name)) is None,
        are_entry_names(a.push(name) + b),
        0 <= i <= a.len() + b.len(),
    ensures
        i <= a.len() ==> entry_skills(v, dir, a + b, i) == entry_skills(
            w,
            dir,
            a.push(name) + b,
            i,
        ),
        i >= a.len() ==> entry_skills(v, dir, a + b, i) == entry_skills(
            w,
            dir,
            a.push(name) + b,
            i + 1,
        ),
    decreases a.len() + b.len() - i,
{
    let old_names = a.push(name) + b;
    let new_names = a + b;
    let at = a.len() as int;
    assert(old_names[at] == name);
    assert(path::is_plain_name(old_names[at]));
    if i < new_names.len() {
        entry_skills_without_file(w, v, dir, name, a, b, i + 1);
        let place = if i < at {
            i
        } else {
            i + 1
        };
        assert(old_names[place] == new_names[i]);
        assert(path::is_plain_name(old_names[place]));
        assert(old_names[place] != old_names[at]);
        entry_skill_without_file(w, v, dir, name, a, b, new_names[i]);
    }
    if i == at {
        assert(entry_skill(w, dir, name) is None);
        assert(entry_skills(w, dir, old_names, at) =~= entry_skills(w, dir, old_names, at + 1));
    }
}

/// A file directly in a directory that holds no skill, because it is unreadable or blank or for
/// another reason, changes nothing of what is found: without it the same skills are found, in the
/// same order.
pub proof fn file_without_skill_changes_nothing(
    w: World,
    v: World,
    dir: Seq<u8>,
    name: Seq<u8>,
    a: Seq<Seq<u8>>,
    b: Seq<Seq<u8>>,
)
    requires
        is_without_file(w, v, dir, name, a, b),
        w(RequestView::IsFile(path::joined(dir, name))).yes(),
        skill_at(w, path::joined(dir, name)) is None,
        are_entry_names(a.push(name) + b),
    ensures
        skills_in(v, dir) == skills_in(w, dir),
        scan_run(scan_start(dir), v) == scan_run(scan_start(dir), w),
{
    let names = a.push(name) + b;
    assert(names[a.len() as int] == name);
    assert(path::is_plain_name(names[a.len() as int]));
    path::joined_name_is_last_component(dir, name);
    assert(dir != path::joined(dir, name));
    assert(v(RequestView::IsDir(dir)) == w(RequestView::IsDir(dir)));
    own_skill_without_file(w, v, dir, name, a, b, 0);
    entry_skills_without_file(w, v, dir, name, a, b, 0);
    scan_finds_the_skills(v, dir);
    scan_finds_the_skills(w, dir);
}

/// A file that cannot be read, or that is empty after trimming, holds no skill.
pub proof fn unreadable_or_blank_file_holds_no_skill(w: World, p: Seq<u8>)
    requires
        w(RequestView::Read(p)).content() matches Some(t) ==> text::trimmed(
            t,
            CharClass::Whitespace,
        ).len() == 0,
    ensures
        skill_at(w, p) is None,
{
}

/// The names of a file that makes its directory a skill.
pub open spec fn skill_file_names() -> Seq<Seq<char>> {
    seq!["SKILL.md"@, "skill.md"@, "SKILL.MD"@, "Skill.md"@]
}

/// Whether a file stands at `p` in `w`.
pub open spec fn is_file(w: World, p: Seq<u8>) -> bool {
    w(RequestView::IsFile(p)) == ReplyView::Flag(true)
}

/// Whether a directory stands at `p` in `w`.
pub open spec fn is_dir(w: World, p: Seq<u8>) -> bool {
    w(RequestView::IsDir(p)) == ReplyView::Flag(true)
}

/// Whether the text at `p` in `w` can be read and holds the skill `s`.
pub open spec fn reads_as(w: World, p: Seq<u8>, s: SkillView) -> bool {
    w(RequestView::Read(p)) matches ReplyView::Content(Some(t)) && skill::parsed_skill(t, p)
        == Some(s)
}

/// Whether the text at `p` in `w` cannot be read or holds no skill.
pub open spec fn reads_as_none(w: World, p: Seq<u8>) -> bool {
    w(RequestView::Read(p)) matches ReplyView::Content(Some(t)) ==> skill::parsed_skill(t, p) is None
}

/// Whether `dir` is a directory in `w` in which no file of the names of a skill file holds a skill,
/// and whose entries are `names`.
pub open spec fn is_listed_as(w: World, dir: Seq<u8>, names: Seq<Seq<u8>>) -> bool {
    &&& is_dir(w, dir)
    &&& forall|i: int|
        0 <= i < 4 ==> {
            let p = path::below(dir, #[trigger] skill_file_names()[i]);
            !is_file(w, p) || reads_as_none(w, p)
        }
    &&& w(RequestView::List(dir)) == ReplyView::Names(Some(names))
}

proof fn candidates_have_their_names(dir: Seq<u8>, i: int)
    requires
        0 <= i < 4,
    ensures
        candidate_path(dir, i) == path::below(dir, skill_file_names()[i]),
{
}

proof fn unread_is_no_skill(w: World, p: Seq<u8>)
    requires
        reads_as_none(w, p),
    ensures
        skill_at(w, p) is None,
{
}

proof fn own_skill_is_first(w: World, dir: Seq<u8>, from: int, i: int, s: SkillView)
    requires
        0 <= from <= i < 4,
        is_file(w, path::below(dir, skill_file_names()[i])),
        reads_as(w, path::below(dir, skill_file_names()[i]), s),
        forall|j: int|
            0 <= j < i ==> {
                let p = path::below(dir, #[trigger] skill_file_names()[j]);
                !is_file(w, p) || reads_as_none(w, p)
            },
    ensures
        own_skill(w, dir, from) == Some(s),
    decreases i - from,
{
    candidates_have_their_names(dir, from);
    if from < i {
        assert(skill_file_names()[from] == skill_file(from));
        own_skill_is_first(w, dir, from + 1, i, s);
    }
}

proof fn no_own_skill(w: World, dir: Seq<u8>, from: int)
    requires
        0 <= from <= 4,
        forall|j: int|
            0 <= j < 4 ==> {
                let p = path::below(dir, #[trigger] skill_file_names()[j]);
                !is_file(w, p) || reads_as_none(w, p)
            },
    ensures
        own_skill(w, dir, from) is None,
    decreases 4 - from,
{
    if from < 4 {
        candidates_have_their_names(dir, from);
        assert(skill_file_names()[from] == skill_file(from));
        no_own_skill(w, dir, from + 1);
    }
}

/// A directory with a file `SKILL.md`, `skill.md`, `SKILL.MD` or `Skill.md` that holds a skill is
/// that skill and nothing else; of several the first of these names counts that holds one.
pub proof fn directory_with_a_skill_file_is_the_skill(
    w: World,
    dir: Seq<u8>,
    i: int,
    s: SkillView,
)
    requires
        is_dir(w, dir),
        0 <= i < 4,
        is_file(w, path::below(dir, skill_file_names()[i])),
        reads_as(w, path::below(dir, skill_file_names()[i]), s),
        forall|j: int|
            0 <= j < i ==> {
                let p = path::below(dir, #[trigger] skill_file_names()[j]);
                !is_file(w, p) || reads_as_none(w, p)
            },
    ensures
        skills_in(w, dir) == seq![s],
        scan_run(scan_start(dir), w) == seq![s],
{
    own_skill_is_first(w, dir, 0, i, s);
    scan_finds_the_skills(w, dir);
}

proof fn listed_as_entries(w: World, dir: Seq<u8>, names: Seq<Seq<u8>>)
    requires
        is_listed_as(w, dir, names),
    ensures
        skills_in(w, dir) == entry_skills(w, dir, names, 0),
{
    no_own_skill(w, dir, 0);
}

/// A directory that cannot be listed, or that has no entries, brings nothing unless it is a skill
/// itself.
pub proof fn directory_without_entries_has_no_skills(w: World, v: World, dir: Seq<u8>)
    requires
        is_listed_as(w, dir, Seq::empty()),
        forall|q: RequestView| q != RequestView::List(dir) ==> #[trigger] v(q) == w(q),
        v(RequestView::List(dir)) == ReplyView::Names(None),
    ensures
        skills_in(w, dir) == Seq::<SkillView>::empty(),
        skills_in(v, dir) == Seq::<SkillView>::empty(),
{
    listed_as_entries(w, dir, Seq::empty());
    assert forall|i: int| 0 <= i < 4 implies {
        let p = path::below(dir, #[trigger] skill_file_names()[i]);
        !is_file(v, p) || reads_as_none(v, p)
    } by {
        let p = path::below(dir, skill_file_names()[i]);
        assert(v(RequestView::IsFile(p)) == w(RequestView::IsFile(p)));
        assert(v(RequestView::Read(p)) == w(RequestView::Read(p)));
    }
    no_own_skill(v, dir, 0);
}

/// Whether `v` is `w` but for what is listed in `dir`.
pub open spec fn differs_in_listing(w: World, v: World, dir: Seq<u8>) -> bool {
    forall|q: RequestView| q != RequestView::List(dir) ==> #[trigger] v(q) == w(q)
}

proof fn candidates_in_other_listing(w: World, v: World, dir: Seq<u8>, at: Seq<u8>, i: int)
    requires
        differs_in_listing(w, v, dir),
        0 <= i,
    ensures
        own_skill(v, at, i) == own_skill(w, at, i),
        nested_skill(v, at, i) == nested_skill(w, at, i),
    decreases SKILL_FILES - i,
{
    if i < SKILL_FILES {
        let p = candidate_path(at, i);
        assert(v(RequestView::IsFile(p)) == w(RequestView::IsFile(p)));
        assert(v(RequestView::Read(p)) == w(RequestView::Read(p)));
        candidates_in_other_listing(w, v, dir, at, i + 1);
    }
}

proof fn entry_in_other_listing(w: World, v: World, dir: Seq<u8>, name: Seq<u8>)
    requires
        differs_in_listing(w, v, dir),
    ensures
        entry_skill(v, dir, name) == entry_skill(w, dir, name),
{
    let p = path::joined(dir, name);
    assert(v(RequestView::IsFile(p)) == w(RequestView::IsFile(p)));
    assert(v(RequestView::IsDir(p)) == w(RequestView::IsDir(p)));
    assert(v(RequestView::Read(p)) == w(RequestView::Read(p)));
    candidates_in_other_listing(w, v, dir, p, 0);
}

proof fn entries_in_other_listing(
    w: World,
    v: World,
    dir: Seq<u8>,
    all: Seq<Seq<u8>>,
    some: Seq<Seq<u8>>,
    i: int,
    j: int,
)
    requires
        differs_in_listing(w, v, dir),
        0 <= j <= some.len(),
        0 <= i,
        all.len() - i == some.len() - j,
        forall|k: int| j <= k < some.len() ==> #[trigger] some[k] == all[k - j + i],
    ensures
        entry_skills(v, dir, some, j) == entry_skills(w, dir, all, i),
    decreases some.len() - j,
{
    if j < some.len() {
        assert(some[j] == all[i]);
        entry_in_other_listing(w, v, dir, some[j]);
        entries_in_other_listing(w, v, dir, all, some, i + 1, j + 1);
    }
}

proof fn first_entries(
    w: World,
    v: World,
    dir: Seq<u8>,
    a: Seq<Seq<u8>>,
    b: Seq<Seq<u8>>,
    i: int,
)
    requires
        differs_in_listing(w, v, dir),
        0 <= i <= a.len(),
    ensures
        entry_skills(w, dir, a + b, i) == entry_skills(v, dir, a, i) + entry_skills(
            w,
            dir,
            a + b,
            a.len() as int,
        ),
    decreases a.len() - i,
{
    let rest = entry_skills(w, dir, a + b, a.len() as int);
    if i < a.len() {
        assert((a + b)[i] == a[i]);
        entry_in_other_listing(w, v, dir, a[i]);
        first_entries(w, v, dir, a, b, i + 1);
        assert(entry_skills(w, dir, a + b, i) =~= entry_skills(v, dir, a, i) + rest);
    } else {
        assert(entry_skills(v, dir, a, i) + rest =~= rest);
    }
}

/// The skills of a directory are those of its entries, one entry behind the other in the order in
/// which they are listed: a listing in two parts brings what the first part brings and then what
/// the second does.
pub proof fn listings_add_up(
    w: World,
    v1: World,
    v2: World,
    dir: Seq<u8>,
    a: Seq<Seq<u8>>,
    b: Seq<Seq<u8>>,
)
    requires
        is_listed_as(w, dir, a + b),
        is_listed_as(v1, dir, a),
        is_listed_as(v2, dir, b),
        differs_in_listing(w, v1, dir),
        differs_in_listing(w, v2, dir),
    ensures
        skills_in(w, dir) == skills_in(v1, dir) + skills_in(v2, dir),
{
    listed_as_entries(w, dir, a + b);
    listed_as_entries(v1, dir, a);
    listed_as_entries(v2, dir, b);
    first_entries(w, v1, dir, a, b, 0);
    entries_in_other_listing(w, v2, dir, a + b, b, a.len() as int, 0);
}

proof fn only_entry(w: World, dir: Seq<u8>, name: Seq<u8>)
    requires
        is_listed_as(w, dir, seq![name]),
    ensures
        skills_in(w, dir) == one_or_none(entry_skill(w, dir, name)),
{
    let names = seq![name];
    listed_as_entries(w, dir, names);
    assert(entry_skills(w, dir, names, 1) =~= Seq::empty());
    assert(entry_skills(w, dir, names, 0) =~= one_or_none(entry_skill(w, dir, name)));
}

proof fn entry_among_others(w: World, dir: Seq<u8>, names: Seq<Seq<u8>>, i: int, n: int)
    requires
        0 <= i <= n < names.len(),
    ensures
        entry_skill(w, dir, names[n]) matches Some(s) ==> entry_skills(w, dir, names, i).contains(s),
    decreases n - i,
{
    if entry_skill(w, dir, names[n]) is Some {
        let s = entry_skill(w, dir, names[n])->Some_0;
        let own = one_or_none(entry_skill(w, dir, names[i]));
        let rest = entry_skills(w, dir, names, i + 1);
        if i == n {
            assert((own + rest)[0] == s);
        } else {
            entry_among_others(w, dir, names, i + 1, n);
            let k = choose|k: int| 0 <= k < rest.len() && rest[k] == s;
            assert((own + rest)[own.len() + k] == s);
        }
    }
}

/// The bytes of `.md`.
pub open spec fn markdown_suffix() -> Seq<u8> {
    seq![46u8, 109u8, 100u8]
}

proof fn markdown_extension()
    ensures
        utf8::encode_utf8("md"@) == seq![109u8, 100u8],
{
    reveal_strlit("md");
    utf8::is_ascii_chars_encode_utf8("md"@);
    assert('m' as u8 == 109u8);
    assert('d' as u8 == 100u8);
    assert(utf8::encode_utf8("md"@) =~= seq![109u8, 100u8]);
}

proof fn named_markdown(dir: Seq<u8>, stem: Seq<u8>)
    requires
        stem.len() > 0,
        forall|i: int| 0 <= i < stem.len() ==> stem[i] != 47u8,
    ensures
        is_markdown(path::joined(dir, stem + markdown_suffix())),
{
    let name = stem + markdown_suffix();
    let ext = seq![109u8, 100u8];
    markdown_extension();
    assert(name =~= stem.push(path::DOT) + ext);
    path::name_has_stem_and_extension(stem, ext);
    assert forall|i: int| 0 <= i < name.len() implies name[i] != path::SLASH by {
        if i < stem.len() {
            assert(name[i] == stem[i]);
        }
    }
    assert(name.len() > 2);
    path::joined_name_is_last_component(dir, name);
}

proof fn last_dot_is_a_dot(name: Seq<u8>)
    ensures
        path::last_dot(name) matches Some(d) ==> 0 <= d < name.len() && name[d] == path::DOT,
    decreases name.len(),
{
    if name.len() > 0 && name.last() != path::DOT {
        last_dot_is_a_dot(name.drop_last());
    }
}

proof fn not_named_markdown(dir: Seq<u8>, name: Seq<u8>)
    requires
        path::is_plain_name(name),
        !markdown_suffix().is_suffix_of(name),
    ensures
        !is_markdown(path::joined(dir, name)),
{
    path::joined_name_is_last_component(dir, name);
    markdown_extension();
    last_dot_is_a_dot(name);
    if path::extension_of(name) == Some(seq![109u8, 100u8]) {
        let d = path::last_dot(name)->Some_0;
        let x = name.skip(d + 1);
        assert(x[0] == 109u8 && x[1] == 100u8 && x.len() == 2);
        assert(name.subrange(name.len() - 3, name.len() as int) =~= markdown_suffix());
    }
}

/// Every file `<stem>.md` in a directory that is not a skill itself, whatever its stem, brings the
/// skill that its text holds, unless its name starts with a dot. Alone it brings just that, and
/// nothing where it cannot be read or holds no skill.
pub proof fn markdown_file_brings_its_skill(
    w: World,
    dir: Seq<u8>,
    names: Seq<Seq<u8>>,
    n: int,
    stem: Seq<u8>,
    s: SkillView,
)
    requires
        is_listed_as(w, dir, names),
        0 <= n < names.len(),
        names[n] == stem + markdown_suffix(),
        stem.len() > 0,
        stem[0] != 46u8,
        forall|i: int| 0 <= i < stem.len() ==> stem[i] != 47u8,
        is_file(w, path::joined(dir, names[n])),
    ensures
        reads_as(w, path::joined(dir, names[n]), s) ==> skills_in(w, dir).contains(s),
        names.len() == 1 && reads_as(w, path::joined(dir, names[n]), s) ==> skills_in(w, dir)
            == seq![s],
        names.len() == 1 && reads_as_none(w, path::joined(dir, names[n])) ==> skills_in(w, dir)
            == Seq::<SkillView>::empty(),
        scan_run(scan_start(dir), w) == skills_in(w, dir),
{
    named_markdown(dir, stem);
    assert(names[n][0] == stem[0]);
    listed_as_entries(w, dir, names);
    entry_among_others(w, dir, names, 0, n);
    scan_finds_the_skills(w, dir);
    if names.len() == 1 {
        assert(names =~= seq![names[n]]);
        only_entry(w, dir, names[n]);
    }
}

/// An entry whose name starts with a dot brings nothing, nor does a file whose name does not end in
/// `.md`, nor what is neither a file nor a directory.
pub proof fn other_entries_bring_nothing(w: World, dir: Seq<u8>, name: Seq<u8>)
    requires
        is_listed_as(w, dir, seq![name]),
        ({
            let p = path::joined(dir, name);
            ||| seq![46u8].is_prefix_of(name)
            ||| is_file(w, p) && path::is_plain_name(name) && !markdown_suffix().is_suffix_of(name)
            ||| !is_file(w, p) && !is_dir(w, p)
        }),
    ensures
        skills_in(w, dir) == Seq::<SkillView>::empty(),
{
    only_entry(w, dir, name);
    if seq![46u8].is_prefix_of(name) {
        assert(name.subrange(0, 1)[0] == 46u8);
    } else if is_file(w, path::joined(dir, name)) {
        not_named_markdown(dir, name);
    }
}

proof fn nested_skill_is_first(w: World, dir: Seq<u8>, from: int, i: int)
    requires
        0 <= from <= i <= 4,
        i < 4 ==> is_file(w, path::below(dir, skill_file_names()[i])),
        forall|j: int| 0 <= j < i ==> !is_file(w, path::below(dir, #[trigger] skill_file_names()[j])),
    ensures
        nested_skill(w, dir, from) == if i < 4 {
            skill_at(w, path::below(dir, skill_file_names()[i]))
        } else {
            None
        },
    decreases i - from,
{
    if from < 4 {
        candidates_have_their_names(dir, from);
    }
    if from < i {
        assert(!is_file(w, path::below(dir, skill_file_names()[from])));
        nested_skill_is_first(w, dir, from + 1, i);
    }
}

/// Every directory in a directory that is not a skill itself brings the skill that its file
/// `SKILL.md`, `skill.md`, `SKILL.MD` or `Skill.md` holds, the first of these names that is there,
/// unless its own name starts with a dot. Alone it brings just that, and nothing where that file
/// cannot be read or holds no skill, or where there is no such file.
pub proof fn directory_brings_its_skill(
    w: World,
    dir: Seq<u8>,
    names: Seq<Seq<u8>>,
    n: int,
    i: int,
    s: SkillView,
)
    requires
        is_listed_as(w, dir, names),
        0 <= n < names.len(),
        names[n].len() > 0 ==> names[n][0] != 46u8,
        !is_file(w, path::joined(dir, names[n])),
        is_dir(w, path::joined(dir, names[n])),
        0 <= i <= 4,
        i < 4 ==> is_file(w, path::below(path::joined(dir, names[n]), skill_file_names()[i])),
        forall|j: int|
            0 <= j < i ==> !is_file(
                w,
                path::below(path::joined(dir, names[n]), #[trigger] skill_file_names()[j]),
            ),
    ensures
        ({
            let p = path::below(path::joined(dir, names[n]), skill_file_names()[i]);
            &&& i < 4 && reads_as(w, p, s) ==> skills_in(w, dir).contains(s)
            &&& i < 4 && reads_as(w, p, s) && names.len() == 1 ==> skills_in(w, dir) == seq![s]
            &&& names.len() == 1 && (i == 4 || reads_as_none(w, p)) ==> skills_in(w, dir)
                == Seq::<SkillView>::empty()
        }),
        scan_run(scan_start(dir), w) == skills_in(w, dir),
{
    let q = path::joined(dir, names[n]);
    nested_skill_is_first(w, q, 0, i);
    listed_as_entries(w, dir, names);
    entry_among_others(w, dir, names, 0, n);
    scan_finds_the_skills(w, dir);
    if names.len() == 1 {
        assert(names =~= seq![names[n]]);
        only_entry(w, dir, names[n]);
    }
}

/// A reply brings a scan at most one skill: the one that the text holds that was asked for.
pub proof fn reply_brings_what_was_read(v: ScanView, reply: ReplyView)
    ensures
        v.after(reply).skills == v.skills || exists|p: Seq<u8>, t: Seq<char>|
            {
                &&& v.request() == Some(RequestView::Read(p))
                &&& reply == ReplyView::Content(Some(t))
                &&& (#[trigger] skill::parsed_skill(t, p)) matches Some(s) && v.after(reply).skills
                    == v.skills.push(s)
            },
{
    let p = match v.phase {
        Phase::OwnText => candidate_path(v.dir, v.candidate),
        Phase::EntryText => v.entry_path(),
        Phase::NestedText => candidate_path(v.entry_path(), v.candidate),
        _ => v.dir,
    };
    if v.phase == Phase::OwnText || v.phase == Phase::EntryText || v.phase == Phase::NestedText {
        match reply {
            ReplyView::Content(Some(t)) => {
                match skill::parsed_skill(t, p) {
                    Some(s) => {
                        assert(v.after(reply).skills =~= v.skills.push(s));
                        assert(v.request() == Some(RequestView::Read(p)));
                    },
                    None => {
                        assert(v.after(reply).skills =~= v.skills);
                    },
                }
            },
            _ => {
                assert(v.after(reply).skills =~= v.skills);
            },
        }
    }
}

} // verus!
