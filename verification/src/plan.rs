//! Where skills are looked for, and in which order.

use vstd::prelude::*;
use vstd::slice::slice_subrange;
use vstd::utf8;
use crate::outside;
use crate::path;
use crate::path::SkillPath;
use crate::text;
use crate::text::CharClass;

verus! {

/// The sources of skills that the user has configured.
#[derive(Debug)]
pub struct SkillsConfig {
    /// Directories to search besides the usual ones.
    pub paths: Vec<String>,
    /// URLs of git repositories to search.
    pub urls: Vec<String>,
}

impl Default for SkillsConfig {
    fn default() -> (r: SkillsConfig)
        ensures
            r.paths@.len() == 0,
            r.urls@.len() == 0,
    {
        SkillsConfig { paths: Vec::new(), urls: Vec::new() }
    }
}

/// The texts of a list of strings, in order.
pub open spec fn texts(s: Seq<String>) -> Seq<Seq<char>> {
    s.map_values(|t: String| t@)
}

/// The directory that a configured path stands for: `~` at its start stands for the home
/// directory, of whichever user it names, and what follows the separators behind it is taken below
/// that; a relative path is taken below `cwd`. Whitespace around the path does not count. Without
/// a home directory `~` alone is the current directory, and any other path that starts with `~` is
/// taken as it is.
pub open spec fn resolved(path_str: Seq<char>, cwd: Seq<u8>, home: Option<Seq<u8>>) -> Seq<u8> {
    let t = text::trimmed(path_str, CharClass::Whitespace);
    if t == "~"@ {
        match home {
            Some(h) => h,
            None => utf8::encode_utf8("."@),
        }
    } else if t.len() > 0 && t[0] == '~' {
        match home {
            Some(h) => match text::first_occurrence(t, "/"@) {
                Some(i) => path::below(
                    h,
                    text::trimmed_start(t.skip(i + 1), CharClass::Only('/')),
                ),
                None => h,
            },
            None => utf8::encode_utf8(t),
        }
    } else {
        path::below(cwd, t)
    }
}

/// Whether a configured path starts with `~`.
pub open spec fn starts_with_tilde(path_str: Seq<char>) -> bool {
    let t = text::trimmed(path_str, CharClass::Whitespace);
    t.len() > 0 && t[0] == '~'
}

/// Resolves a configured path, expanding `~` to the user's home directory.
pub fn resolve_path(path_str: &str, cwd: &SkillPath) -> (r: SkillPath)
    ensures
        !starts_with_tilde(path_str@) ==> r@ == path::below(
            cwd@,
            text::trimmed(path_str@, CharClass::Whitespace),
        ),
        exists|home: Option<Seq<u8>>| r@ == #[trigger] resolved(path_str@, cwd@, home),
{
    let home = outside::home_dir();
    proof {
        reveal_strlit("~");
    }
    resolve_with_home(path_str, cwd, &home)
}

/// Resolves a configured path, expanding `~` to `home`.
pub fn resolve_with_home(path_str: &str, cwd: &SkillPath, home: &Option<SkillPath>) -> (r: SkillPath)
    ensures
        r@ == resolved(path_str@, cwd@, path::path_view(*home)),
{
    let all = text::chars_of(path_str);
    let t = text::trim(all.as_slice(), CharClass::Whitespace);
    proof {
        reveal_strlit("~");
        reveal_strlit("/");
        assert(t@ == "~"@ <==> t@.len() == 1 && t@[0] == '~') by {
            if t@.len() == 1 && t@[0] == '~' {
                assert(t@ =~= "~"@);
            }
        }
    }
    if t.len() == 1 && t[0] == '~' {
        match home {
            Some(h) => h.clone(),
            None => SkillPath::new("."),
        }
    } else if t.len() > 0 && t[0] == '~' {
        match home {
            Some(h) => {
                let slash = text::chars_of("/");
                match text::find(t, slash.as_slice()) {
                    Some(i) => {
                        let rest = text::trim_start(
                            slice_subrange(t, i + 1, t.len()),
                            CharClass::Only('/'),
                        );
                        h.join_text(text::string_of(rest).as_str())
                    },
                    None => h.clone(),
                }
            },
            None => SkillPath::new(text::string_of(t).as_str()),
        }
    } else {
        cwd.join_text(text::string_of(t).as_str())
    }
}

/// A place in which skills are looked for.
#[derive(Debug)]
pub enum Source {
    /// A directory.
    Directory(SkillPath),
    /// A git repository, by its URL.
    Repository(String),
}

/// What a source is.
pub enum SourceView {
    Directory(Seq<u8>),
    Repository(Seq<char>),
}

impl View for Source {
    type V = SourceView;

    open spec fn view(&self) -> SourceView {
        match *self {
            Source::Directory(p) => SourceView::Directory(p@),
            Source::Repository(u) => SourceView::Repository(u@),
        }
    }
}

/// The sources of a plan, in order.
pub open spec fn source_views(s: Seq<Source>) -> Seq<SourceView> {
    s.map_values(|x: Source| x@)
}

/// The directory of skills below the directory `name` in `dir`.
pub open spec fn skills_below(dir: Seq<u8>, name: Seq<char>) -> Seq<u8> {
    path::below(path::below(dir, name), "skills"@)
}

/// The sources of a project: from `dir` upwards, the directories of skills in `.claurst` and in
/// `.agents`.
pub open spec fn project_sources(dir: Seq<u8>) -> Seq<SourceView>
    decreases dir.len(),
{
    let own = seq![
        SourceView::Directory(skills_below(dir, ".claurst"@)),
        SourceView::Directory(skills_below(dir, ".agents"@)),
    ];
    match path::parent(dir) {
        Some(up) => {
            proof {
                path::parent_is_shorter(dir);
            }
            own + project_sources(up)
        },
        None => own,
    }
}

/// The sources of skills of the user, which do not depend on the project.
pub open spec fn global_sources(config_dir: Seq<u8>, home: Option<Seq<u8>>) -> Seq<SourceView> {
    let configured = seq![SourceView::Directory(path::below(config_dir, "skills"@))];
    match home {
        Some(h) => configured.push(SourceView::Directory(skills_below(h, ".agents"@))),
        None => configured,
    }
}

/// The directories that the configured paths stand for.
pub open spec fn path_sources(
    paths: Seq<Seq<char>>,
    cwd: Seq<u8>,
    home: Option<Seq<u8>>,
) -> Seq<SourceView> {
    paths.map_values(|p: Seq<char>| SourceView::Directory(resolved(p, cwd, home)))
}

/// The configured repositories.
pub open spec fn url_sources(urls: Seq<Seq<char>>) -> Seq<SourceView> {
    urls.map_values(|u: Seq<char>| SourceView::Repository(u))
}

/// All sources of skills, the one that wins first: those of the project, those of the user, the
/// configured paths, the configured repositories.
pub open spec fn all_sources(
    cwd: Seq<u8>,
    config_dir: Seq<u8>,
    home: Option<Seq<u8>>,
    paths: Seq<Seq<char>>,
    urls: Seq<Seq<char>>,
) -> Seq<SourceView> {
    project_sources(cwd) + global_sources(config_dir, home) + path_sources(paths, cwd, home)
        + url_sources(urls)
}

fn add_project_sources(cwd: &SkillPath, sources: &mut Vec<Source>)
    ensures
        source_views(final(sources)@) == source_views(old(sources)@) + project_sources(cwd@),
{
    let mut dir = cwd.clone();
    loop
        invariant
            source_views(sources@) + project_sources(dir@) == source_views(old(sources)@)
                + project_sources(cwd@),
        decreases dir@.len(),
    {
        let ghost before = source_views(sources@);
        sources.push(Source::Directory(dir.join_text(".claurst").join_text("skills")));
        sources.push(Source::Directory(dir.join_text(".agents").join_text("skills")));
        let ghost own = seq![
            SourceView::Directory(skills_below(dir@, ".claurst"@)),
            SourceView::Directory(skills_below(dir@, ".agents"@)),
        ];
        assert(source_views(sources@) =~= before + own);
        match dir.parent() {
            Some(up) => {
                proof {
                    path::parent_is_shorter(dir@);
                    assert(before + own + project_sources(up@) =~= before + (own + project_sources(
                        up@,
                    )));
                }
                dir = up;
            },
            None => {
                return;
            },
        }
    }
}

/// Lists all sources of skills, the one that wins first:
/// 1. the project's `.claurst/skills` and `.agents/skills`, from `cwd` upwards;
/// 2. `skills` in the configuration directory;
/// 3. `.agents/skills` in the home directory;
/// 4. the configured paths;
/// 5. the configured repositories.
pub fn list_sources(
    cwd: &SkillPath,
    config_dir: &SkillPath,
    home: &Option<SkillPath>,
    config: &SkillsConfig,
) -> (r: Vec<Source>)
    ensures
        source_views(r@) == all_sources(
            cwd@,
            config_dir@,
            path::path_view(*home),
            texts(config.paths@),
            texts(config.urls@),
        ),
{
    let ghost h = path::path_view(*home);
    let mut sources: Vec<Source> = Vec::new();
    add_project_sources(cwd, &mut sources);
    let ghost project = source_views(sources@);
    assert(project =~= project_sources(cwd@));
    sources.push(Source::Directory(config_dir.join_text("skills")));
    match home {
        Some(p) => {
            sources.push(Source::Directory(p.join_text(".agents").join_text("skills")));
        },
        None => {},
    }
    let ghost fixed = source_views(sources@);
    assert(fixed =~= project + global_sources(config_dir@, h));
    let ghost paths = texts(config.paths@);
    let mut i: usize = 0;
    while i < config.paths.len()
        invariant
            i <= config.paths.len(),
            h == path::path_view(*home),
            paths == texts(config.paths@),
            source_views(sources@) =~= fixed + path_sources(paths, cwd@, h).take(i as int),
        decreases config.paths.len() - i,
    {
        let ghost before = source_views(sources@);
        let source = Source::Directory(resolve_with_home(config.paths[i].as_str(), cwd, home));
        sources.push(source);
        assert(source_views(sources@) =~= before.push(source@));
        assert(path_sources(paths, cwd@, h).take(i + 1) =~= path_sources(paths, cwd@, h).take(
            i as int,
        ).push(source@));
        i += 1;
    }
    let ghost local = source_views(sources@);
    assert(local =~= fixed + path_sources(paths, cwd@, h));
    let ghost urls = texts(config.urls@);
    let mut i: usize = 0;
    while i < config.urls.len()
        invariant
            i <= config.urls.len(),
            urls == texts(config.urls@),
            source_views(sources@) =~= local + url_sources(urls).take(i as int),
        decreases config.urls.len() - i,
    {
        let ghost before = source_views(sources@);
        let source = Source::Repository(config.urls[i].clone());
        sources.push(source);
        assert(source_views(sources@) =~= before.push(source@));
        assert(url_sources(urls).take(i + 1) =~= url_sources(urls).take(i as int).push(source@));
        i += 1;
    }
    assert(source_views(sources@) =~= local + url_sources(urls));
    sources
}

/// The sources of a project are the two directories of skills of `cwd` and of each path above it,
/// the nearest first.
pub proof fn project_sources_follow_ancestors(cwd: Seq<u8>, k: int)
    requires
        0 <= k < path::ancestors(cwd).len(),
    ensures
        project_sources(cwd).len() == 2 * path::ancestors(cwd).len(),
        project_sources(cwd)[2 * k] == SourceView::Directory(
            skills_below(path::ancestors(cwd)[k], ".claurst"@),
        ),
        project_sources(cwd)[2 * k + 1] == SourceView::Directory(
            skills_below(path::ancestors(cwd)[k], ".agents"@),
        ),
    decreases cwd.len(),
{
    match path::parent(cwd) {
        Some(up) => {
            path::parent_is_shorter(cwd);
            assert(path::ancestors(cwd) == seq![cwd] + path::ancestors(up));
            if k > 0 {
                project_sources_follow_ancestors(up, k - 1);
                assert(path::ancestors(cwd)[k] == path::ancestors(up)[k - 1]);
                assert(project_sources(cwd)[2 * k] == project_sources(up)[2 * (k - 1)]);
                assert(project_sources(cwd)[2 * k + 1] == project_sources(up)[2 * (k - 1) + 1]);
            } else {
                path::ancestors_drop_components(up, 0);
                project_sources_follow_ancestors(up, 0);
            }
        },
        None => {},
    }
}

/// Whitespace around a configured path does not count.
pub proof fn whitespace_around_a_path_does_not_count(
    path_str: Seq<char>,
    cwd: Seq<u8>,
    home: Option<Seq<u8>>,
)
    ensures
        resolved(text::trimmed(path_str, CharClass::Whitespace), cwd, home) == resolved(
            path_str,
            cwd,
            home,
        ),
{
    let t = text::trimmed(path_str, CharClass::Whitespace);
    text::trimmed_ends(path_str, CharClass::Whitespace);
    text::trimmed_keeps(t, CharClass::Whitespace);
}

/// `~` stands for the home directory, and `~/rest` for `rest` below it, whatever `rest` is: the
/// whitespace behind it and the separators before it do not count.
pub proof fn tilde_stands_for_home(rest: Seq<char>, cwd: Seq<u8>, home: Seq<u8>)
    ensures
        resolved("~"@, cwd, Some(home)) == home,
        resolved("~/"@ + rest, cwd, Some(home)) == path::below(
            home,
            text::trimmed_start(
                text::trimmed_end(rest, CharClass::Whitespace),
                CharClass::Only('/'),
            ),
        ),
{
    reveal_strlit("~");
    reveal_strlit("~/");
    reveal_strlit("/");
    let k = CharClass::Whitespace;
    text::trimmed_keeps("~"@, k);
    let s = "~/"@ + rest;
    let end = text::trimmed_end(rest, k);
    let t = "~/"@ + end;
    assert(text::trimmed_start(s, k) == s);
    text::trimmed_end_of_concat("~/"@, rest, k);
    assert(text::trimmed(s, k) == t);
    assert(t.subrange(1, 2) =~= "/"@);
    assert(t.subrange(0, 1) =~= "~"@);
    assert(t.subrange(0, 1)[0] == '~');
    assert(!text::occurs_at(t, "/"@, 0));
    text::first_occurrence_is_first(t, "/"@, 1);
    assert(t.skip(2) =~= end);
}

/// With a home directory, every path that starts with `~` stands for that directory or for
/// something below it: the bytes of the home directory come first, and what is joined to them is
/// not absolute.
pub proof fn tilde_path_stays_at_home(path_str: Seq<char>, cwd: Seq<u8>, home: Seq<u8>)
    requires
        starts_with_tilde(path_str),
    ensures
        home.is_prefix_of(resolved(path_str, cwd, Some(home))),
        resolved(path_str, cwd, Some(home)) == home || exists|rest: Seq<u8>|
            !path::is_absolute(rest) && resolved(path_str, cwd, Some(home))
                == #[trigger] path::joined(home, rest),
{
    let t = text::trimmed(path_str, CharClass::Whitespace);
    match text::first_occurrence(t, "/"@) {
        Some(i) if t != "~"@ => {
            let rest = text::trimmed_start(t.skip(i + 1), CharClass::Only('/'));
            text::trimmed_start_ends(t.skip(i + 1), CharClass::Only('/'));
            path::encoding_is_relative(rest);
            let bytes = utf8::encode_utf8(rest);
            assert(resolved(path_str, cwd, Some(home)) == path::joined(home, bytes));
            assert(home.is_prefix_of(path::joined(home, bytes))) by {
                assert(path::joined(home, bytes).subrange(0, home.len() as int) =~= home);
            }
        },
        _ => {
            assert(home.subrange(0, home.len() as int) =~= home);
        },
    }
}

/// An absolute path stands for itself, and any other that does not start with `~` for itself
/// below the current directory.
pub proof fn path_without_tilde_stands_for_itself(
    path_str: Seq<char>,
    cwd: Seq<u8>,
    home: Option<Seq<u8>>,
)
    requires
        text::trimmed(path_str, CharClass::Whitespace) == path_str,
        path_str.len() > 0 ==> path_str[0] != '~',
    ensures
        path_str.len() > 0 && path_str[0] == '/' ==> resolved(path_str, cwd, home)
            == utf8::encode_utf8(path_str),
        resolved(path_str, cwd, home) == path::below(cwd, path_str),
{
    reveal_strlit("~");
    if path_str.len() > 0 && path_str[0] == '/' {
        let first = seq!['/'];
        let rest = path_str.drop_first();
        assert(path_str =~= first + rest);
        path::encoding_of_concat(first, rest);
        utf8::is_ascii_chars_encode_utf8(first);
        assert(first[0] as u8 == path::SLASH);
        assert(utf8::encode_utf8(path_str)[0] == utf8::encode_utf8(first)[0]);
    }
}

/// The view of a source and of a list of texts holds what they hold.
pub proof fn source_view_shows_the_source(
    p: SkillPath,
    u: String,
    list: Seq<String>,
    sources: Seq<Source>,
)
    ensures
        Source::Directory(p)@ == SourceView::Directory(p.bytes@),
        Source::Repository(u)@ == SourceView::Repository(u@),
        texts(list).len() == list.len(),
        forall|i: int| 0 <= i < list.len() ==> #[trigger] texts(list)[i] == list[i]@,
        source_views(sources).len() == sources.len(),
        forall|i: int| 0 <= i < sources.len() ==> #[trigger] source_views(sources)[i] == sources[i]@,
{
}

/// A configured path means the same with whitespace around it as without.
pub proof fn padded_path_means_the_same(
    a: Seq<char>,
    s: Seq<char>,
    b: Seq<char>,
    cwd: Seq<u8>,
    home: Option<Seq<u8>>,
)
    requires
        text::is_all(a, CharClass::Whitespace),
        text::is_all(b, CharClass::Whitespace),
        s.len() > 0 ==> !text::is_white_space(s[0]) && !text::is_white_space(s.last()),
    ensures
        resolved(a + s + b, cwd, home) == resolved(s, cwd, home),
{
    text::trimmed_is_the_core(a, s, b, CharClass::Whitespace);
    text::trimmed_keeps(s, CharClass::Whitespace);
}

/// With a home directory a path that starts with `~` stands for that directory, whatever user it
/// names, and what follows the separators behind that stands below it, all of it.
pub proof fn tilde_path_stands_below_home(
    user: Seq<char>,
    slashes: Seq<char>,
    rest: Seq<char>,
    cwd: Seq<u8>,
    home: Seq<u8>,
)
    requires
        forall|i: int| 0 <= i < user.len() ==> user[i] != '/',
        forall|i: int| 0 <= i < slashes.len() ==> slashes[i] == '/',
        rest.len() > 0 ==> rest[0] != '/' && !text::is_white_space(rest.last()),
    ensures
        slashes.len() > 0 ==> resolved(seq!['~'] + user + slashes + rest, cwd, Some(home))
            == path::joined(home, utf8::encode_utf8(rest)),
        user.len() == 0 || !text::is_white_space(user.last()) ==> resolved(
            seq!['~'] + user,
            cwd,
            Some(home),
        ) == home,
{
    reveal_strlit("~");
    reveal_strlit("/");
    let k = CharClass::Whitespace;
    let slash = "/"@;
    let head = seq!['~'] + user;
    let n = head.len() as int;
    if slashes.len() > 0 {
        let t = head + slashes + rest;
        assert(seq!['~'] + user + slashes + rest =~= t);
        assert(t[0] == '~');
        if rest.len() > 0 {
            assert(t.last() == rest.last());
        } else {
            assert(t.last() == slashes[slashes.len() - 1]);
        }
        text::trimmed_keeps(t, k);
        assert(t != "~"@);
        assert(t[n] == slashes[0]);
        assert(t.subrange(n, n + 1) =~= slash);
        assert forall|j: int| 0 <= j < n implies !text::occurs_at(t, slash, j) by {
            assert(t.subrange(j, j + 1)[0] == head[j]);
            if j > 0 {
                assert(head[j] == user[j - 1]);
            }
        }
        text::first_occurrence_is_first(t, slash, n);
        let more = slashes.drop_first();
        assert(t.skip(n + 1) =~= more + rest);
        text::trimmed_start_is_the_rest(more, rest, CharClass::Only('/'));
    }
    if user.len() == 0 || !text::is_white_space(user.last()) {
        assert(head[0] == '~');
        if user.len() > 0 {
            assert(head.last() == user.last());
        }
        text::trimmed_keeps(head, k);
        if user.len() == 0 {
            assert(head =~= "~"@);
        } else {
            assert(head != "~"@);
            text::first_occurrence_tells_where(head, slash);
            if text::first_occurrence(head, slash) is Some {
                let i = text::first_occurrence(head, slash)->Some_0;
                assert(head.subrange(i, i + 1)[0] == '/');
                assert(head[i] == '/');
                if i > 0 {
                    assert(head[i] == user[i - 1]);
                }
            }
        }
    }
}

/// Without a home directory `~` is the current directory, and any other path that starts with `~`
/// is taken as it is. A path that does not start with `~` stands below `cwd`, all of it, and alone
/// where it is absolute, whether there is a home directory or not.
pub proof fn path_without_home_stays(t: Seq<char>, cwd: Seq<u8>, home: Option<Seq<u8>>)
    requires
        t.len() > 0 ==> !text::is_white_space(t[0]) && !text::is_white_space(t.last()),
    ensures
        t.len() == 1 && t[0] == '~' ==> resolved(t, cwd, None) == utf8::encode_utf8("."@),
        t.len() > 1 && t[0] == '~' ==> resolved(t, cwd, None) == utf8::encode_utf8(t),
        t.len() == 0 || t[0] != '~' ==> resolved(t, cwd, home) == path::joined(
            cwd,
            utf8::encode_utf8(t),
        ),
        t.len() > 0 && t[0] == '/' ==> resolved(t, cwd, home) == utf8::encode_utf8(t),
{
    reveal_strlit("~");
    text::trimmed_keeps(t, CharClass::Whitespace);
    if t.len() == 1 && t[0] == '~' {
        assert(t =~= "~"@);
    }
    if t.len() > 0 && t[0] == '/' {
        path_without_tilde_stands_for_itself(t, cwd, home);
    }
}

/// A directory of skills has the components of the directory above, then the name, then `skills`.
pub proof fn skills_lie_below_the_name(dir: Seq<u8>, name: Seq<char>)
    requires
        path::is_plain_name(utf8::encode_utf8(name)),
    ensures
        path::components(skills_below(dir, name)) == path::components(dir).push(
            utf8::encode_utf8(name),
        ).push(utf8::encode_utf8("skills"@)),
{
    reveal_strlit("skills");
    path::encoding_without_slash("skills"@);
    path::joined_name_is_last_component(dir, utf8::encode_utf8(name));
    path::joined_name_is_last_component(path::below(dir, name), utf8::encode_utf8("skills"@));
}

/// All sources, one by one: two for `cwd` and for each directory above it, from the nearest on,
/// first `.claurst/skills` and then `.agents/skills`; then `skills` in the configuration directory;
/// then `.agents/skills` in the home directory; then each configured path; then each configured
/// repository. There are no others.
pub proof fn sources_stand_in_order(
    cwd: Seq<u8>,
    config_dir: Seq<u8>,
    home: Option<Seq<u8>>,
    paths: Seq<Seq<char>>,
    urls: Seq<Seq<char>>,
    k: int,
)
    ensures
        ({
            let all = all_sources(cwd, config_dir, home, paths, urls);
            let above = path::ancestors(cwd);
            let n: int = 2 * above.len() as int;
            let m = n + 1 + if home is Some {
                1int
            } else {
                0int
            };
            &&& above.len() == path::components(cwd).len() + 1
            &&& all.len() == m + paths.len() + urls.len()
            &&& 0 <= k < above.len() ==> all[2 * k] == SourceView::Directory(
                path::below(path::below(above[k], ".claurst"@), "skills"@),
            )
            &&& 0 <= k < above.len() ==> all[2 * k + 1] == SourceView::Directory(
                path::below(path::below(above[k], ".agents"@), "skills"@),
            )
            &&& all[n] == SourceView::Directory(path::below(config_dir, "skills"@))
            &&& home matches Some(h) ==> all[n + 1] == SourceView::Directory(
                path::below(path::below(h, ".agents"@), "skills"@),
            )
            &&& 0 <= k < paths.len() ==> all[m + k] == SourceView::Directory(
                resolved(paths[k], cwd, home),
            )
            &&& 0 <= k < urls.len() ==> all[m + paths.len() + k] == SourceView::Repository(urls[k])
        }),
{
    let above = path::ancestors(cwd);
    path::ancestors_drop_components(cwd, 0);
    project_sources_follow_ancestors(cwd, 0);
    if 0 <= k < above.len() {
        project_sources_follow_ancestors(cwd, k);
    }
}

} // verus!
