//! The questions the library asks of the file system, and the replies.
//!
//! The library does no input or output. Its machines hand out a `Request`; the caller carries it
//! out and hands back the `Reply`.

use vstd::prelude::*;
use crate::path::SkillPath;
use crate::skill;

verus! {

/// Something to be asked of the file system or done to it.
#[derive(Debug)]
pub enum Request {
    /// Whether a directory stands at the path; replied to with a flag.
    IsDir(SkillPath),
    /// Whether a regular file stands at the path; replied to with a flag.
    IsFile(SkillPath),
    /// The text of the file at the path; replied to with content.
    Read(SkillPath),
    /// The names of the entries of the directory at the path; replied to with names.
    List(SkillPath),
    /// Whether anything stands at the path; replied to with a flag.
    Exists(SkillPath),
    /// Create the directory at the path and those above it; replied to with a flag that tells
    /// whether it is there now.
    CreateDirs(SkillPath),
    /// Run `git` with the arguments; replied to with a flag that tells whether it succeeded.
    Git(Vec<String>),
}

/// What a request asks.
pub enum RequestView {
    IsDir(Seq<u8>),
    IsFile(Seq<u8>),
    Read(Seq<u8>),
    List(Seq<u8>),
    Exists(Seq<u8>),
    CreateDirs(Seq<u8>),
    Git(Seq<Seq<char>>),
}

impl View for Request {
    type V = RequestView;

    open spec fn view(&self) -> RequestView {
        match *self {
            Request::IsDir(p) => RequestView::IsDir(p@),
            Request::IsFile(p) => RequestView::IsFile(p@),
            Request::Read(p) => RequestView::Read(p@),
            Request::List(p) => RequestView::List(p@),
            Request::Exists(p) => RequestView::Exists(p@),
            Request::CreateDirs(p) => RequestView::CreateDirs(p@),
            Request::Git(args) => RequestView::Git(args@.map_values(|a: String| a@)),
        }
    }
}

/// The view of an optional request.
pub open spec fn request_view(r: Option<Request>) -> Option<RequestView> {
    match r {
        Some(q) => Some(q@),
        None => None,
    }
}

/// What came of a request. A reply of another kind than the request calls for counts as a
/// failure.
#[derive(Debug)]
pub enum Reply {
    /// Yes or no, or success or failure.
    Flag(bool),
    /// The text of a file, where it could be read.
    Content(Option<String>),
    /// The names of the entries of a directory, where it could be read.
    Names(Option<Vec<Vec<u8>>>),
}

/// What a reply says.
pub enum ReplyView {
    Flag(bool),
    Content(Option<Seq<char>>),
    Names(Option<Seq<Seq<u8>>>),
}

/// The names of a list of entries, in order.
pub open spec fn name_views(names: Seq<Vec<u8>>) -> Seq<Seq<u8>> {
    names.map_values(|n: Vec<u8>| n@)
}

impl View for Reply {
    type V = ReplyView;

    open spec fn view(&self) -> ReplyView {
        match *self {
            Reply::Flag(b) => ReplyView::Flag(b),
            Reply::Content(c) => ReplyView::Content(skill::text_view(c)),
            Reply::Names(Some(n)) => ReplyView::Names(Some(name_views(n@))),
            Reply::Names(None) => ReplyView::Names(None),
        }
    }
}

impl ReplyView {
    /// Whether the reply is a yes.
    pub open spec fn yes(self) -> bool {
        self == ReplyView::Flag(true)
    }

    /// The text that the reply brings.
    pub open spec fn content(self) -> Option<Seq<char>> {
        match self {
            ReplyView::Content(c) => c,
            _ => None,
        }
    }

    /// The names that the reply brings.
    pub open spec fn names(self) -> Option<Seq<Seq<u8>>> {
        match self {
            ReplyView::Names(n) => n,
            _ => None,
        }
    }
}

/// A file system at one moment: it gives every request its reply.
pub type World = spec_fn(RequestView) -> ReplyView;

/// A file system that changes by what is done to it and by nothing else: what it is behind each
/// row of commands.
pub type FileSystem = spec_fn(Seq<RequestView>) -> World;

impl RequestView {
    /// Whether the request does something to the file system: it creates directories or runs
    /// `git`. Any other leaves the file system as it is.
    pub open spec fn is_command(self) -> bool {
        self is CreateDirs || self is Git
    }
}

/// The row of commands `done` behind one more request.
pub open spec fn done_with(done: Seq<RequestView>, q: RequestView) -> Seq<RequestView> {
    if q.is_command() {
        done.push(q)
    } else {
        done
    }
}

impl Reply {
    /// Whether the reply is a yes.
    pub fn is_yes(&self) -> (r: bool)
        ensures
            r == self@.yes(),
    {
        match self {
            Reply::Flag(b) => *b,
            _ => false,
        }
    }

    /// The text that the reply brings.
    pub fn into_content(self) -> (r: Option<String>)
        ensures
            skill::text_view(r) == self@.content(),
    {
        match self {
            Reply::Content(c) => c,
            _ => None,
        }
    }

    /// The names that the reply brings.
    pub fn into_names(self) -> (r: Option<Vec<Vec<u8>>>)
        ensures
            match r {
                Some(n) => self@.names() == Some(name_views(n@)),
                None => self@.names() is None,
            },
    {
        match self {
            Reply::Names(n) => n,
            _ => None,
        }
    }
}

/// A flag is a yes exactly if it is set, and no other reply is; only content brings text, and only
/// names bring names.
pub proof fn replies_say_what_they_hold(b: bool, c: Option<Seq<char>>, n: Option<Seq<Seq<u8>>>)
    ensures
        ReplyView::Flag(b).yes() == b,
        !ReplyView::Content(c).yes() && !ReplyView::Names(n).yes(),
        ReplyView::Content(c).content() == c,
        ReplyView::Flag(b).content() is None && ReplyView::Names(n).content() is None,
        ReplyView::Names(n).names() == n,
        ReplyView::Flag(b).names() is None && ReplyView::Content(c).names() is None,
{
}

/// The view of a request holds what the request holds.
pub proof fn request_view_shows_the_request(p: SkillPath, args: Vec<String>, i: int)
    requires
        0 <= i < args@.len(),
    ensures
        Request::IsDir(p)@ == RequestView::IsDir(p.bytes@),
        Request::IsFile(p)@ == RequestView::IsFile(p.bytes@),
        Request::Read(p)@ == RequestView::Read(p.bytes@),
        Request::List(p)@ == RequestView::List(p.bytes@),
        Request::Exists(p)@ == RequestView::Exists(p.bytes@),
        Request::CreateDirs(p)@ == RequestView::CreateDirs(p.bytes@),
        Request::Git(args)@ matches RequestView::Git(a) && a.len() == args@.len() && a[i]
            == args@[i]@,
{
}

/// The view of a reply holds what the reply holds.
pub proof fn reply_view_shows_the_reply(b: bool, t: String, names: Vec<Vec<u8>>, i: int)
    requires
        0 <= i < names@.len(),
    ensures
        Reply::Flag(b)@ == ReplyView::Flag(b),
        Reply::Content(Some(t))@ == ReplyView::Content(Some(t@)),
        Reply::Content(None)@ == ReplyView::Content(None),
        Reply::Names(Some(names))@ matches ReplyView::Names(Some(n)) && n.len() == names@.len()
            && n[i] == names@[i]@,
        Reply::Names(None)@ == ReplyView::Names(None),
{
}

/// Creating directories and running `git` are commands, and are put behind those that have been
/// carried out; questions are not.
pub proof fn commands_are_kept_in_order(done: Seq<RequestView>, p: Seq<u8>, args: Seq<Seq<char>>)
    ensures
        done_with(done, RequestView::CreateDirs(p)) == done + seq![RequestView::CreateDirs(p)],
        done_with(done, RequestView::Git(args)) == done + seq![RequestView::Git(args)],
        done_with(done, RequestView::IsDir(p)) == done,
        done_with(done, RequestView::IsFile(p)) == done,
        done_with(done, RequestView::Read(p)) == done,
        done_with(done, RequestView::List(p)) == done,
        done_with(done, RequestView::Exists(p)) == done,
{
}

/// The view of a request, given or not, is the view of what is there.
pub proof fn optional_view_shows_what_is_there(q: Request)
    ensures
        request_view(Some(q)) == Some(q@),
        request_view(None) is None,
{
}

} // verus!
