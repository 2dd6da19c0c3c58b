//! Skills and the markdown files that hold them.

use vstd::prelude::*;
use vstd::slice::slice_subrange;
use vstd::utf8;
use crate::outside;
use crate::path;
use crate::path::SkillPath;
use crate::text;
use crate::text::CharClass;

verus! {

/// A discovered skill loaded from a markdown file.
#[derive(Debug)]
pub struct DiscoveredSkill {
    /// Skill name (from the `name:` field of the frontmatter, or from the path).
    pub name: String,
    /// One-line description (from the `description:` field of the frontmatter, or a default).
    pub description: String,
    /// The prompt body behind the frontmatter.
    pub template: String,
    /// Absolute path to the source `.md` file.
    pub source_path: SkillPath,
}

/// What a skill holds.
#[verifier::ext_equal]
pub struct SkillView {
    pub name: Seq<char>,
    pub description: Seq<char>,
    pub template: Seq<char>,
    pub source_path: Seq<u8>,
}

impl Clone for DiscoveredSkill {
    fn clone(&self) -> (r: DiscoveredSkill)
        ensures
            r@ == self@,
    {
        DiscoveredSkill {
            name: self.name.clone(),
            description: self.description.clone(),
            template: self.template.clone(),
            source_path: self.source_path.clone(),
        }
    }
}

impl View for DiscoveredSkill {
    type V = SkillView;

    open spec fn view(&self) -> SkillView {
        SkillView {
            name: self.name@,
            description: self.description@,
            template: self.template@,
            source_path: self.source_path@,
        }
    }
}

/// The parts of a skill file: the fields of its frontmatter and the text behind it.
#[verifier::ext_equal]
pub struct Sections {
    pub name: Option<Seq<char>>,
    pub description: Option<Seq<char>>,
    pub template: Seq<char>,
}

/// What a field is set to by the text behind its key: the text without the whitespace around it,
/// then without the double quotes around that, then without the single quotes around that.
pub open spec fn bare_value(s: Seq<char>) -> Seq<char> {
    text::trimmed(
        text::trimmed(text::trimmed(s, CharClass::Whitespace), CharClass::Only('"')),
        CharClass::Only('\''),
    )
}

/// The value that `line` sets where it starts with `key`, whitespace around it aside.
pub open spec fn line_field(line: Seq<char>, key: Seq<char>) -> Option<Seq<char>> {
    let line = text::trimmed(line, CharClass::Whitespace);
    if key.is_prefix_of(line) {
        Some(bare_value(line.skip(key.len() as int)))
    } else {
        None
    }
}

/// The value that the last of `lines` with `key` sets.
pub open spec fn field(lines: Seq<Seq<char>>, key: Seq<char>) -> Option<Seq<char>>
    decreases lines.len(),
{
    if lines.len() == 0 {
        None
    } else {
        match line_field(lines.last(), key) {
            Some(v) => Some(v),
            None => field(lines.drop_last(), key),
        }
    }
}

/// The parts of `content`. Frontmatter stands between an opening `---` at the very start and the
/// first `---` at the start of a later line; without both, all of `content` is the template.
pub open spec fn sections(content: Seq<char>) -> Sections {
    let after_open = content.skip(3);
    let close = text::first_occurrence(after_open, "\n---"@);
    if "---"@.is_prefix_of(content) && close is Some {
        let lines = text::split_on(after_open.take(close->Some_0), '\n');
        Sections {
            name: field(lines, "name:"@),
            description: field(lines, "description:"@),
            template: text::trimmed_start(
                after_open.skip(close->Some_0 + 4),
                CharClass::LineBreak,
            ),
        }
    } else {
        Sections { name: None, description: None, template: content }
    }
}

/// The text of `name`, where there is one and it is valid UTF-8.
pub open spec fn name_text(name: Option<Seq<u8>>) -> Option<Seq<char>> {
    match name {
        Some(bytes) => path::as_text(bytes),
        None => None,
    }
}

/// The name of the directory in which `p` stands.
pub open spec fn directory_name(p: Seq<u8>) -> Option<Seq<u8>> {
    match path::parent(p) {
        Some(up) => path::file_name(up),
        None => None,
    }
}

/// The name of a skill whose file at `p` sets none: the stem of the file, or the name of its
/// directory where the stem is `skill` in any case.
pub open spec fn default_name(p: Seq<u8>) -> Seq<char> {
    let stem = match name_text(path::file_stem(p)) {
        Some(t) => t,
        None => "unnamed"@,
    };
    if text::same_ignoring_ascii_case(stem, "skill"@) {
        match name_text(directory_name(p)) {
            Some(t) => t,
            None => stem,
        }
    } else {
        stem
    }
}

/// The skill that a file at `p` with the text `content` holds.
pub open spec fn parsed_skill(content: Seq<char>, p: Seq<u8>) -> Option<SkillView> {
    let body = text::trimmed(content, CharClass::Whitespace);
    let parts = sections(body);
    let name = match parts.name {
        Some(n) => n,
        None => default_name(p),
    };
    let description = match parts.description {
        Some(d) => d,
        None => "Custom skill"@,
    };
    if body.len() == 0 || (parts.template.len() == 0 && name.len() == 0) {
        None
    } else {
        Some(SkillView { name, description, template: parts.template, source_path: p })
    }
}

/// The view of an optional string.
pub open spec fn text_view(s: Option<String>) -> Option<Seq<char>> {
    match s {
        Some(t) => Some(t@),
        None => None,
    }
}

/// The view of an optional skill.
pub open spec fn skill_view(s: Option<DiscoveredSkill>) -> Option<SkillView> {
    match s {
        Some(k) => Some(k@),
        None => None,
    }
}

/// The skills of a batch, in order.
pub open spec fn skill_views(s: Seq<DiscoveredSkill>) -> Seq<SkillView> {
    s.map_values(|k: DiscoveredSkill| k@)
}

impl SkillView {
    /// The skill with its source path taken below `base`; an absolute path stays as it is.
    pub open spec fn located(self, base: Seq<u8>) -> SkillView {
        SkillView { source_path: path::joined(base, self.source_path), ..self }
    }
}

/// The skills with their source paths taken below `base`.
pub open spec fn located_views(skills: Seq<SkillView>, base: Seq<u8>) -> Seq<SkillView> {
    skills.map_values(|s: SkillView| s.located(base))
}

/// Takes the source paths of skills below `base`.
pub(crate) fn locate(skills: Vec<DiscoveredSkill>, base: &SkillPath) -> (r: Vec<DiscoveredSkill>)
    ensures
        skill_views(r@) == located_views(skill_views(skills@), base@),
{
    let ghost items = skills@;
    let ghost all = located_views(skill_views(items), base@);
    let mut r: Vec<DiscoveredSkill> = Vec::new();
    for s in it: skills
        invariant
            it.seq() == items,
            all == located_views(skill_views(items), base@),
            skill_views(r@) =~= all.take(it.index() as int),
    {
        let ghost before = skill_views(r@);
        let ghost i = it.index() as int;
        let source_path = base.join(s.source_path.as_bytes());
        let found = DiscoveredSkill {
            name: s.name,
            description: s.description,
            template: s.template,
            source_path,
        };
        r.push(found);
        proof {
            assert(skill_views(r@) =~= before.push(found@));
            assert(found@ =~= all[i]);
            assert(all.take(i + 1) =~= all.take(i).push(all[i]));
        }
    }
    assert(all.take(all.len() as int) =~= all);
    r
}

/// Reads the value that `line` sets for `key`.
fn line_value(line: &[char], key: &str) -> (r: Option<String>)
    ensures
        text_view(r) == line_field(line@, key@),
{
    let line = text::trim(line, CharClass::Whitespace);
    let key_chars = text::chars_of(key);
    match text::strip_prefix(line, key_chars.as_slice()) {
        Some(rest) => {
            let v = text::trim(rest, CharClass::Whitespace);
            let v = text::trim(v, CharClass::Only('"'));
            let v = text::trim(v, CharClass::Only('\''));
            Some(text::string_of(v))
        },
        None => None,
    }
}

/// Reads the fields `name:` and `description:` of `front`.
fn read_fields(front: &[char]) -> (r: (Option<String>, Option<String>))
    ensures
        text_view(r.0) == field(text::split_on(front@, '\n'), "name:"@),
        text_view(r.1) == field(text::split_on(front@, '\n'), "description:"@),
{
    let mut name: Option<String> = None;
    let mut description: Option<String> = None;
    let mut start: usize = 0;
    let mut i: usize = 0;
    assert(front@.take(0) == Seq::<char>::empty());
    assert(front@.subrange(0, 0) == Seq::<char>::empty());
    loop
        invariant
            start <= i <= front.len(),
            text::split_on(front@.take(i as int), '\n').len() > 0,
            text::split_on(front@.take(i as int), '\n').last() == front@.subrange(
                start as int,
                i as int,
            ),
            text_view(name) == field(
                text::split_on(front@.take(i as int), '\n').drop_last(),
                "name:"@,
            ),
            text_view(description) == field(
                text::split_on(front@.take(i as int), '\n').drop_last(),
                "description:"@,
            ),
        decreases front.len() - i,
    {
        let ghost pieces = text::split_on(front@.take(i as int), '\n');
        if i < front.len() && front[i] != '\n' {
            proof {
                assert(front@.take(i + 1).drop_last() == front@.take(i as int));
                let next = text::split_on(front@.take(i + 1), '\n');
                assert(next.drop_last() == pieces.drop_last());
                assert(next.last() == front@.subrange(start as int, i + 1));
            }
            i += 1;
            continue;
        }
        let line = slice_subrange(front, start, i);
        match line_value(line, "name:") {
            Some(v) => {
                name = Some(v);
            },
            None => {},
        }
        match line_value(line, "description:") {
            Some(v) => {
                description = Some(v);
            },
            None => {},
        }
        assert(text_view(name) == field(pieces, "name:"@));
        assert(text_view(description) == field(pieces, "description:"@));
        if i == front.len() {
            assert(front@.take(i as int) == front@);
            return (name, description);
        }
        proof {
            assert(front@.take(i + 1).drop_last() == front@.take(i as int));
            let next = text::split_on(front@.take(i + 1), '\n');
            assert(next.drop_last() == pieces);
            assert(next.last() == front@.subrange(i + 1, i + 1));
        }
        i += 1;
        start = i;
    }
}

/// Reads the name of a skill from the path of its file.
fn name_from_path(path: &SkillPath) -> (r: String)
    ensures
        r@ == default_name(path@),
{
    let named: Option<String> = match path.file_stem() {
        Some(bytes) => outside::utf8_text(bytes),
        None => None,
    };
    let stem: String = match named {
        Some(t) => t,
        None => "unnamed".to_string(),
    };
    let stem_chars = text::chars_of(stem.as_str());
    let skill_chars = text::chars_of("skill");
    if text::eq_ignore_ascii_case(stem_chars.as_slice(), skill_chars.as_slice()) {
        let up_text: Option<String> = match path.parent() {
            Some(up) => match up.file_name() {
                Some(bytes) => outside::utf8_text(bytes),
                None => None,
            },
            None => None,
        };
        match up_text {
            Some(t) => t,
            None => stem,
        }
    } else {
        stem
    }
}

/// Parses a skill markdown file.
///
/// Expects optional frontmatter delimited by `---`. Returns `None` when the file is empty after
/// trimming, and when both its name and its template are empty.
pub fn parse_skill_file(content: &str, path: &SkillPath) -> (r: Option<DiscoveredSkill>)
    ensures
        skill_view(r) == parsed_skill(content@, path@),
{
    let all = text::chars_of(content);
    let body = text::trim(all.as_slice(), CharClass::Whitespace);
    if body.len() == 0 {
        return None;
    }
    let open = text::chars_of("---");
    let close = text::chars_of("\n---");
    proof {
        reveal_strlit("---");
        reveal_strlit("\n---");
    }
    let mut name: Option<String> = None;
    let mut description: Option<String> = None;
    let mut template = body;
    match text::strip_prefix(body, open.as_slice()) {
        Some(after_open) => match text::find(after_open, close.as_slice()) {
            Some(at) => {
                let fields = read_fields(slice_subrange(after_open, 0, at));
                name = fields.0;
                description = fields.1;
                template = text::trim_start(
                    slice_subrange(after_open, at + 4, after_open.len()),
                    CharClass::LineBreak,
                );
            },
            None => {},
        },
        None => {},
    }
    let name: String = match name {
        Some(n) => n,
        None => name_from_path(path),
    };
    let description: String = match description {
        Some(d) => d,
        None => "Custom skill".to_string(),
    };
    if template.len() == 0 && name.as_str().is_empty() {
        return None;
    }
    Some(
        DiscoveredSkill {
            name,
            description,
            template: text::string_of(template),
            source_path: path.clone(),
        },
    )
}

/// A file that is empty after trimming holds no skill.
pub proof fn blank_file_holds_no_skill(content: Seq<char>, p: Seq<u8>)
    requires
        text::trimmed(content, CharClass::Whitespace).len() == 0,
    ensures
        parsed_skill(content, p) is None,
{
}

/// A file without closed frontmatter is its own template: its name comes from the path, and its
/// description is the default one.
pub proof fn file_without_frontmatter_is_its_template(content: Seq<char>, p: Seq<u8>)
    requires
        ({
            let body = text::trimmed(content, CharClass::Whitespace);
            body.len() > 0 && (!"---"@.is_prefix_of(body) || text::first_occurrence(
                body.skip(3),
                "\n---"@,
            ) is None)
        }),
    ensures
        parsed_skill(content, p) == Some(
            SkillView {
                name: default_name(p),
                description: "Custom skill"@,
                template: text::trimmed(content, CharClass::Whitespace),
                source_path: p,
            },
        ),
{
}

proof fn bare_value_is_without(s: Seq<char>, c: char)
    requires
        text::is_without(s, c),
    ensures
        text::is_without(bare_value(s), c),
{
    let a = text::trimmed(s, CharClass::Whitespace);
    let b = text::trimmed(a, CharClass::Only('"'));
    text::trimmed_is_without(s, CharClass::Whitespace, c);
    text::trimmed_is_without(a, CharClass::Only('"'), c);
    text::trimmed_is_without(b, CharClass::Only('\''), c);
}

proof fn field_is_without(lines: Seq<Seq<char>>, key: Seq<char>, c: char)
    requires
        forall|i: int| 0 <= i < lines.len() ==> text::is_without(#[trigger] lines[i], c),
    ensures
        field(lines, key) matches Some(v) ==> text::is_without(v, c),
    decreases lines.len(),
{
    if lines.len() > 0 {
        assert(text::is_without(lines[lines.len() - 1], c));
        let line = text::trimmed(lines.last(), CharClass::Whitespace);
        text::trimmed_is_without(lines.last(), CharClass::Whitespace, c);
        if key.is_prefix_of(line) {
            bare_value_is_without(line.skip(key.len() as int), c);
        }
        field_is_without(lines.drop_last(), key, c);
    }
}

/// The description of a skill is a single line.
pub proof fn description_is_one_line(content: Seq<char>, p: Seq<u8>)
    ensures
        parsed_skill(content, p) matches Some(s) ==> text::is_without(s.description, '\n'),
{
    let body = text::trimmed(content, CharClass::Whitespace);
    let after_open = body.skip(3);
    let close = text::first_occurrence(after_open, "\n---"@);
    if close is Some {
        let front = after_open.take(close->Some_0);
        text::pieces_are_without(front, '\n');
        field_is_without(text::split_on(front, '\n'), "description:"@, '\n');
    }
    reveal_strlit("Custom skill");
}

/// A value reads the same with quotes around it, single or double.
pub proof fn quoted_value_reads_bare(v: Seq<char>, q: char)
    requires
        q == '"' || q == '\'',
        text::trimmed(v, CharClass::Only('"')) == v,
        text::trimmed(v, CharClass::Only('\'')) == v,
    ensures
        bare_value(seq![q] + v + seq![q]) == v,
{
    let s = seq![q] + v + seq![q];
    let double = CharClass::Only('"');
    let single = CharClass::Only('\'');
    text::trimmed_keeps(s, CharClass::Whitespace);
    text::trimmed_ends(v, double);
    text::trimmed_ends(v, single);
    trimmed_of_quoted(v, q);
    if q == '\'' {
        text::trimmed_keeps(s, double);
    }
}

proof fn trimmed_of_quoted(v: Seq<char>, q: char)
    requires
        text::trimmed(v, CharClass::Only(q)) == v,
    ensures
        text::trimmed(seq![q] + v + seq![q], CharClass::Only(q)) == v,
{
    let k = CharClass::Only(q);
    let s = seq![q] + v + seq![q];
    text::trimmed_ends(v, k);
    assert(s.drop_first() == v + seq![q]);
    if v.len() == 0 {
        assert(s.drop_first().drop_first().len() == 0);
        reveal_with_fuel(text::trimmed_start, 3);
        assert(text::trimmed(s, k) =~= v);
    } else {
        let t = v + seq![q];
        assert(t[0] == v[0]);
        assert(text::trimmed_start(t, k) == t);
        assert(text::trimmed_start(s, k) == t);
        assert(t.drop_last() == v);
    }
}

/// A skill file with the fields `name:` and `description:` and a template, its lines ended by
/// `eol`.
pub open spec fn written_skill(
    eol: Seq<char>,
    name: Seq<char>,
    description: Seq<char>,
    template: Seq<char>,
) -> Seq<char> {
    "---"@ + eol + "name: "@ + name + eol + "description: "@ + description + eol + "---"@ + eol
        + template
}

/// Whether `v` can stand behind the key of a field as it is: it is one line, and there is nothing
/// around it that is trimmed from a value.
pub open spec fn is_bare(v: Seq<char>) -> bool {
    text::is_without(v, '\n') && bare_value(v) == v
}

proof fn bare_value_is_trimmed(v: Seq<char>)
    requires
        bare_value(v) == v,
    ensures
        text::trimmed(v, CharClass::Whitespace) == v,
{
    let a = text::trimmed(v, CharClass::Whitespace);
    let b = text::trimmed(a, CharClass::Only('"'));
    text::trimmed_ends(v, CharClass::Whitespace);
    text::trimmed_ends(a, CharClass::Only('"'));
    text::trimmed_ends(b, CharClass::Only('\''));
}

/// A line with a key and a bare value sets the field to that value.
proof fn line_sets_field(key: Seq<char>, v: Seq<char>, cr: Seq<char>)
    requires
        key.len() > 0,
        !text::is_white_space(key[0]),
        !text::is_white_space(key.last()),
        bare_value(v) == v,
        cr == Seq::<char>::empty() || cr == seq!['\r'],
    ensures
        line_field(key + seq![' '] + v + cr, key) == Some(v),
        text::trimmed(key + seq![' '] + v + cr, CharClass::Whitespace)[0] == key[0],
        text::trimmed(key + seq![' '] + v + cr, CharClass::Whitespace).len() > 0,
{
    let k = CharClass::Whitespace;
    let line = key + seq![' '] + v + cr;
    let core = key + seq![' '] + v;
    bare_value_is_trimmed(v);
    text::trimmed_ends(v, k);
    assert(text::trimmed_start(line, k) == line);
    if cr.len() == 1 {
        assert(line.drop_last() == core);
    } else {
        assert(line == core);
    }
    assert(text::trimmed_end(line, k) == text::trimmed_end(core, k));
    if v.len() > 0 {
        assert(text::trimmed_end(core, k) == core);
        let rest = core.skip(key.len() as int);
        assert(rest == seq![' '] + v);
        assert(core.take(key.len() as int) == key);
        assert(rest.drop_first() == v);
        assert(text::trimmed_start(v, k) == v);
        assert(text::trimmed_start(rest, k) == v);
        assert(text::trimmed(rest, k) == text::trimmed(v, k));
        assert(bare_value(rest) == bare_value(v));
        assert(key.is_prefix_of(core));
    } else {
        assert(core.drop_last() == key);
        assert(text::trimmed_end(key, k) == key);
        assert(text::trimmed_end(core, k) == key);
        let rest = key.skip(key.len() as int);
        assert(rest == v);
        assert(key.is_prefix_of(key));
    }
}

/// Frontmatter of two lines that do not start with `-` ends behind the second, and has these
/// lines.
proof fn frontmatter_closes_behind(
    cr: Seq<char>,
    l1: Seq<char>,
    l2: Seq<char>,
    tail: Seq<char>,
)
    requires
        text::is_without(cr, '\n'),
        text::is_without(l1, '\n'),
        text::is_without(l2, '\n'),
        l1.len() > 0 && l1[0] != '-',
        l2.len() > 0 && l2[0] != '-',
    ensures
        ({
            let front = (cr.push('\n') + (l1 + cr)).push('\n') + (l2 + cr);
            &&& text::first_occurrence(front + "\n---"@ + tail, "\n---"@) == Some(
                front.len() as int,
            )
            &&& text::split_on(front, '\n') == seq![cr, l1 + cr, l2 + cr]
        }),
{
    reveal_strlit("\n---");
    let first = cr.push('\n') + (l1 + cr);
    let front = first.push('\n') + (l2 + cr);
    let mark = "\n---"@;
    let after = front + mark + tail;
    let n = front.len() as int;
    let p1 = cr.len() as int;
    let p2 = first.len() as int;
    assert(after.subrange(n, n + mark.len()) == mark);
    assert forall|j: int| 0 <= j < n implies !text::occurs_at(after, mark, j) by {
        if text::occurs_at(after, mark, j) {
            assert(after.subrange(j, j + mark.len())[0] == '\n');
            assert(after.subrange(j, j + mark.len())[1] == '-');
            assert(after[j] == '\n' && after[j + 1] == '-');
            assert(front[j] == '\n');
            if j < p1 {
                assert(front[j] == cr[j]);
            } else if j == p1 {
                assert(after[j + 1] == l1[0]);
            } else if j < p2 {
                assert(front[j] == (l1 + cr)[j - p1 - 1]);
                if j - p1 - 1 < l1.len() {
                    assert(front[j] == l1[j - p1 - 1]);
                } else {
                    assert(front[j] == cr[j - p1 - 1 - l1.len()]);
                }
            } else if j == p2 {
                assert(after[j + 1] == l2[0]);
            } else {
                assert(front[j] == (l2 + cr)[j - p2 - 1]);
                if j - p2 - 1 < l2.len() {
                    assert(front[j] == l2[j - p2 - 1]);
                } else {
                    assert(front[j] == cr[j - p2 - 1 - l2.len()]);
                }
            }
        }
    }
    text::first_occurrence_is_first(after, mark, n);
    text::split_of_one_piece(cr, '\n');
    text::split_behind_separator(cr, l1 + cr, '\n');
    text::split_behind_separator(first, l2 + cr, '\n');
    assert(text::split_on(front, '\n') =~= seq![cr, l1 + cr, l2 + cr]);
}

proof fn written_skill_trimmed(
    eol: Seq<char>,
    cr: Seq<char>,
    l1: Seq<char>,
    l2: Seq<char>,
    template: Seq<char>,
)
    requires
        eol == cr.push('\n'),
        cr == Seq::<char>::empty() || cr == seq!['\r'],
        text::trimmed_end(template, CharClass::Whitespace) == template,
        template.len() > 0 ==> template[0] != '\r' && template[0] != '\n',
    ensures
        ({
            let front = (cr.push('\n') + (l1 + cr)).push('\n') + (l2 + cr);
            let tail = if template.len() == 0 {
                template
            } else {
                eol + template
            };
            let content = "---"@ + eol + l1 + eol + l2 + eol + "---"@ + eol + template;
            let body = "---"@ + (front + "\n---"@ + tail);
            &&& text::trimmed(content, CharClass::Whitespace) == body
            &&& text::trimmed_start(tail, CharClass::LineBreak) == template
        }),
{
    reveal_strlit("---");
    reveal_strlit("\n---");
    let k = CharClass::Whitespace;
    let front = (cr.push('\n') + (l1 + cr)).push('\n') + (l2 + cr);
    let tail = if template.len() == 0 {
        template
    } else {
        eol + template
    };
    let content = "---"@ + eol + l1 + eol + l2 + eol + "---"@ + eol + template;
    let body = "---"@ + (front + "\n---"@ + tail);
    assert("\n---"@ =~= seq!['\n'] + "---"@);
    text::trimmed_end_ends(template, k);
    assert(body[0] == '-');
    assert(content[0] == '-');
    if template.len() > 0 {
        assert(content =~= body);
        assert(content.last() == template.last());
        text::trimmed_keeps(content, k);
        let b = CharClass::LineBreak;
        assert(text::trimmed_start(template, b) == template);
        if cr.len() == 1 {
            assert(tail.drop_first() == seq!['\n'] + template);
            assert((seq!['\n'] + template).drop_first() == template);
            assert(text::trimmed_start(seq!['\n'] + template, b) == template);
        } else {
            assert(tail.drop_first() == template);
        }
    } else {
        assert(content =~= body + eol);
        assert(text::trimmed_start(content, k) == content);
        assert(content.drop_last() == body + cr);
        assert(body.last() == '-');
        assert(text::trimmed_end(body, k) == body);
        if cr.len() == 1 {
            assert((body + cr).drop_last() == body);
            assert(text::trimmed_end(body + cr, k) == body);
        } else {
            assert(body + cr == body);
        }
    }
}

proof fn written_lines_set_fields(cr: Seq<char>, name: Seq<char>, description: Seq<char>)
    requires
        cr == Seq::<char>::empty() || cr == seq!['\r'],
        bare_value(name) == name,
        bare_value(description) == description,
    ensures
        ({
            let lines = seq![cr, "name: "@ + name + cr, "description: "@ + description + cr];
            &&& field(lines, "name:"@) == Some(name)
            &&& field(lines, "description:"@) == Some(description)
        }),
{
    reveal_strlit("name:");
    reveal_strlit("name: ");
    reveal_strlit("description:");
    reveal_strlit("description: ");
    assert("name: "@ =~= "name:"@ + seq![' ']);
    assert("description: "@ =~= "description:"@ + seq![' ']);
    let l1 = "name: "@ + name + cr;
    let l2 = "description: "@ + description + cr;
    let lines = seq![cr, l1, l2];
    line_sets_field("name:"@, name, cr);
    line_sets_field("description:"@, description, cr);
    let two = lines.drop_last();
    assert(two.last() == l1);
    assert(line_field(l2, "name:"@) is None) by {
        let line = text::trimmed(l2, CharClass::Whitespace);
        assert(line[0] == 'd');
        assert("name:"@[0] == 'n');
    }
    assert(field(two, "name:"@) == Some(name));
}

proof fn sections_of_frontmatter(body: Seq<char>, front: Seq<char>, tail: Seq<char>)
    requires
        body == "---"@ + (front + "\n---"@ + tail),
        text::first_occurrence(front + "\n---"@ + tail, "\n---"@) == Some(front.len() as int),
    ensures
        sections(body) == (Sections {
            name: field(text::split_on(front, '\n'), "name:"@),
            description: field(text::split_on(front, '\n'), "description:"@),
            template: text::trimmed_start(tail, CharClass::LineBreak),
        }),
{
    reveal_strlit("---");
    reveal_strlit("\n---");
    let after = front + "\n---"@ + tail;
    assert(body.skip(3) =~= after);
    assert("---"@.is_prefix_of(body));
    assert(after.take(front.len() as int) =~= front);
    assert(after.skip(front.len() as int + 4) =~= tail);
}

/// What a skill file says in its frontmatter and behind it is what is read from it: its name, its
/// description and its template, whether its lines end in a line feed or in a carriage return and
/// a line feed. The template is any text with no white space at its end and no line break at its
/// start: spaces and tabs at its start are kept.
pub proof fn written_skill_reads_back(
    eol: Seq<char>,
    name: Seq<char>,
    description: Seq<char>,
    template: Seq<char>,
    p: Seq<u8>,
)
    requires
        eol == "\n"@ || eol == "\r\n"@,
        is_bare(name),
        is_bare(description),
        text::trimmed_end(template, CharClass::Whitespace) == template,
        template.len() > 0 ==> template[0] != '\r' && template[0] != '\n',
        name.len() > 0 || template.len() > 0,
    ensures
        parsed_skill(written_skill(eol, name, description, template), p) == Some(
            SkillView { name, description, template, source_path: p },
        ),
{
    reveal_strlit("\n");
    reveal_strlit("\r\n");
    reveal_strlit("name: ");
    reveal_strlit("description: ");
    let cr = eol.drop_last();
    assert(eol =~= cr.push('\n'));
    assert(cr =~= Seq::<char>::empty() || cr =~= seq!['\r']);
    let l1 = "name: "@ + name;
    let l2 = "description: "@ + description;
    let tail = if template.len() == 0 {
        template
    } else {
        eol + template
    };
    let front = (cr.push('\n') + (l1 + cr)).push('\n') + (l2 + cr);
    let body = "---"@ + (front + "\n---"@ + tail);
    let content = written_skill(eol, name, description, template);
    assert(content =~= "---"@ + eol + l1 + eol + l2 + eol + "---"@ + eol + template);
    written_skill_trimmed(eol, cr, l1, l2, template);
    frontmatter_closes_behind(cr, l1, l2, tail);
    sections_of_frontmatter(body, front, tail);
    written_lines_set_fields(cr, name, description);
    assert(body.len() > 0) by {
        reveal_strlit("---");
    }
}

/// The path of a file named `stem` with the extension `ext` in `dir` has that stem.
proof fn file_stem_of_named_file(dir: Seq<u8>, stem: Seq<char>, ext: Seq<char>)
    requires
        stem.len() > 0,
        text::is_without(stem, '/'),
        ext.len() > 0,
        text::is_without(ext, '/'),
        utf8::is_ascii_chars(ext),
        text::is_without(ext, '.'),
    ensures
        ({
            let p = path::below(dir, stem + seq!['.'] + ext);
            &&& path::file_stem(p) == Some(utf8::encode_utf8(stem))
            &&& path::extension(p) == Some(utf8::encode_utf8(ext))
            &&& path::components(p) == path::components(dir).push(
                utf8::encode_utf8(stem + seq!['.'] + ext),
            )
        }),
{
    let name = stem + seq!['.'] + ext;
    let dot = seq!['.'];
    let bytes = utf8::encode_utf8(name);
    let head = utf8::encode_utf8(stem);
    let tail = utf8::encode_utf8(ext);
    path::encoding_of_concat(stem + dot, ext);
    path::encoding_of_concat(stem, dot);
    utf8::is_ascii_chars_encode_utf8(dot);
    utf8::is_ascii_chars_encode_utf8(ext);
    assert(dot[0] as u8 == path::DOT);
    assert(utf8::encode_utf8(dot) =~= seq![path::DOT]);
    assert(bytes =~= head.push(path::DOT) + tail);
    assert forall|i: int| 0 <= i < tail.len() implies tail[i] != path::DOT by {
        assert(ext[i] as u8 == tail[i]);
        assert(ext[i] != '.');
    }
    path::encoding_without_slash(stem);
    path::encoding_without_slash(name);
    path::name_has_stem_and_extension(head, tail);
    assert(bytes.len() > 2);
    path::joined_name_is_last_component(dir, bytes);
}

/// A file `<stem>.<ext>` that sets no name is named by its stem, unless that is `skill` in any
/// case.
pub proof fn file_is_named_by_its_stem(dir: Seq<u8>, stem: Seq<char>, ext: Seq<char>)
    requires
        stem.len() > 0,
        text::is_without(stem, '/'),
        !text::same_ignoring_ascii_case(stem, "skill"@),
        ext.len() > 0,
        text::is_without(ext, '/'),
        utf8::is_ascii_chars(ext),
        text::is_without(ext, '.'),
    ensures
        default_name(path::below(dir, stem + seq!['.'] + ext)) == stem,
{
    file_stem_of_named_file(dir, stem, ext);
    utf8::encode_utf8_decode_utf8(stem);
    utf8::encode_utf8_valid_utf8(stem);
}

/// A file `skill.<ext>`, in any case, that sets no name is named by the directory in which it
/// stands.
pub proof fn skill_file_is_named_by_its_directory(
    base: Seq<u8>,
    dir_name: Seq<char>,
    stem: Seq<char>,
    ext: Seq<char>,
)
    requires
        path::is_plain_name(utf8::encode_utf8(dir_name)),
        text::same_ignoring_ascii_case(stem, "skill"@),
        text::is_without(stem, '/'),
        ext.len() > 0,
        text::is_without(ext, '/'),
        utf8::is_ascii_chars(ext),
        text::is_without(ext, '.'),
    ensures
        default_name(path::below(path::below(base, dir_name), stem + seq!['.'] + ext)) == dir_name,
{
    reveal_strlit("skill");
    let dir = path::below(base, dir_name);
    let p = path::below(dir, stem + seq!['.'] + ext);
    let dir_bytes = utf8::encode_utf8(dir_name);
    file_stem_of_named_file(dir, stem, ext);
    utf8::encode_utf8_decode_utf8(stem);
    utf8::encode_utf8_valid_utf8(stem);
    utf8::encode_utf8_decode_utf8(dir_name);
    utf8::encode_utf8_valid_utf8(dir_name);
    path::joined_name_is_last_component(base, dir_bytes);
    path::parent_drops_last_component(p);
    let up = path::parent(p)->Some_0;
    assert(path::components(up) =~= path::components(dir));
    assert(path::file_name(up) == Some(dir_bytes));
}

/// The view of a skill holds what its fields hold.
pub proof fn skill_view_shows_the_fields(s: DiscoveredSkill, batch: Seq<DiscoveredSkill>)
    ensures
        s@.name == s.name@,
        s@.description == s.description@,
        s@.template == s.template@,
        s@.source_path == s.source_path@,
        s.source_path@ == s.source_path.bytes@,
        skill_views(batch).len() == batch.len(),
        forall|i: int| 0 <= i < batch.len() ==> #[trigger] skill_views(batch)[i] == batch[i]@,
{
}

/// Taking skills below a directory changes nothing but where they come from: an absolute source
/// path stays as it is, and a relative one stands below the directory.
pub proof fn located_skills_are_the_same(skills: Seq<SkillView>, base: Seq<u8>, i: int)
    requires
        0 <= i < skills.len(),
    ensures
        located_views(skills, base).len() == skills.len(),
        located_views(skills, base)[i].name == skills[i].name,
        located_views(skills, base)[i].description == skills[i].description,
        located_views(skills, base)[i].template == skills[i].template,
        located_views(skills, base)[i].source_path == path::joined(base, skills[i].source_path),
        skills[i].located(base) == located_views(skills, base)[i],
{
}

/// The value of a field is what stands between the whitespace, the double quotes and the single
/// quotes around it, each as far as they go, and all of it.
pub proof fn value_stands_between_its_quotes(
    w1: Seq<char>,
    q1: Seq<char>,
    s1: Seq<char>,
    v: Seq<char>,
    s2: Seq<char>,
    q2: Seq<char>,
    w2: Seq<char>,
)
    requires
        text::is_all(w1, CharClass::Whitespace) && text::is_all(w2, CharClass::Whitespace),
        text::is_all(q1, CharClass::Only('"')) && text::is_all(q2, CharClass::Only('"')),
        text::is_all(s1, CharClass::Only('\'')) && text::is_all(s2, CharClass::Only('\'')),
        ({
            let inner = s1 + v + s2;
            let outer = q1 + inner + q2;
            &&& outer.len() > 0 ==> !text::is_white_space(outer[0]) && !text::is_white_space(
                outer.last(),
            )
            &&& inner.len() > 0 ==> inner[0] != '"' && inner.last() != '"'
            &&& v.len() > 0 ==> v[0] != '\'' && v.last() != '\''
        }),
    ensures
        bare_value(w1 + (q1 + (s1 + v + s2) + q2) + w2) == v,
{
    let inner = s1 + v + s2;
    let outer = q1 + inner + q2;
    text::trimmed_is_the_core(w1, outer, w2, CharClass::Whitespace);
    text::trimmed_is_the_core(q1, inner, q2, CharClass::Only('"'));
    text::trimmed_is_the_core(s1, v, s2, CharClass::Only('\''));
}

/// Whether `v` is one line with neither whitespace nor a quote at its ends.
pub open spec fn is_plain_value(v: Seq<char>) -> bool {
    &&& forall|i: int| 0 <= i < v.len() ==> v[i] != '\n'
    &&& v.len() > 0 ==> {
        &&& !text::is_white_space(v[0]) && !text::is_white_space(v.last())
        &&& v[0] != '"' && v.last() != '"'
        &&& v[0] != '\'' && v.last() != '\''
    }
}

proof fn plain_value_is_bare(v: Seq<char>)
    requires
        is_plain_value(v),
    ensures
        is_bare(v),
{
    let none = Seq::<char>::empty();
    assert(none + v + none =~= v);
    value_stands_between_its_quotes(none, none, none, v, none, none, none);
}

/// A file that sets a name and a description, in lines of their own, and has a template behind its
/// frontmatter is read as it is written: every value of one line without whitespace or quotes at
/// its ends, and every template without whitespace at its end and without a line break at its
/// start, comes back whole, whatever it holds.
pub proof fn plain_values_read_back(
    eol: Seq<char>,
    name: Seq<char>,
    description: Seq<char>,
    template: Seq<char>,
    p: Seq<u8>,
)
    requires
        eol == "\n"@ || eol == "\r\n"@,
        is_plain_value(name),
        is_plain_value(description),
        template.len() > 0 ==> template[0] != '\r' && template[0] != '\n' && !text::is_white_space(
            template.last(),
        ),
        name.len() > 0 || template.len() > 0,
    ensures
        parsed_skill(
            "---"@ + eol + "name: "@ + name + eol + "description: "@ + description + eol + "---"@
                + eol + template,
            p,
        ) == Some(SkillView { name, description, template, source_path: p }),
{
    plain_value_is_bare(name);
    plain_value_is_bare(description);
    assert(text::trimmed_end(template, CharClass::Whitespace) == template);
    written_skill_reads_back(eol, name, description, template, p);
}

/// A text of whitespace alone holds no skill.
pub proof fn whitespace_holds_no_skill(content: Seq<char>, p: Seq<u8>)
    requires
        forall|i: int| 0 <= i < content.len() ==> text::is_white_space(#[trigger] content[i]),
    ensures
        parsed_skill(content, p) is None,
{
    let none = Seq::<char>::empty();
    assert(content + none + none =~= content);
    text::trimmed_is_the_core(content, none, none, CharClass::Whitespace);
}

/// A text that does not open with `---`, or that has no later line that starts with `---`, is the
/// template as it is, without the whitespace around it. Its name comes from the path, and its
/// description is the default one.
pub proof fn text_without_frontmatter_is_the_template(
    a: Seq<char>,
    t: Seq<char>,
    b: Seq<char>,
    p: Seq<u8>,
)
    requires
        text::is_all(a, CharClass::Whitespace) && text::is_all(b, CharClass::Whitespace),
        t.len() > 0 && !text::is_white_space(t[0]) && !text::is_white_space(t.last()),
        !"---"@.is_prefix_of(t) || forall|j: int|
            3 <= j <= t.len() - 4 ==> #[trigger] t.subrange(j, j + 4) != "\n---"@,
    ensures
        parsed_skill(a + t + b, p) == Some(
            SkillView {
                name: default_name(p),
                description: "Custom skill"@,
                template: t,
                source_path: p,
            },
        ),
{
    reveal_strlit("\n---");
    reveal_strlit("---");
    text::trimmed_is_the_core(a, t, b, CharClass::Whitespace);
    if "---"@.is_prefix_of(t) {
        let after = t.skip(3);
        text::first_occurrence_tells_where(after, "\n---"@);
        if text::first_occurrence(after, "\n---"@) is Some {
            let i = text::first_occurrence(after, "\n---"@)->Some_0;
            assert(after.subrange(i, i + 4) =~= t.subrange(i + 3, i + 3 + 4));
        }
    }
}

/// The lines one behind the other, with line feeds between them.
pub open spec fn with_line_feeds(lines: Seq<Seq<char>>) -> Seq<char>
    decreases lines.len(),
{
    if lines.len() == 0 {
        Seq::empty()
    } else if lines.len() == 1 {
        lines[0]
    } else {
        with_line_feeds(lines.drop_last()).push('\n') + lines.last()
    }
}

/// Whether `key` stands in `line` at `k`, behind nothing but whitespace.
pub open spec fn key_stands_at(line: Seq<char>, key: Seq<char>, k: int) -> bool {
    &&& 0 <= k <= line.len()
    &&& text::is_all(line.take(k), CharClass::Whitespace)
    &&& key.is_prefix_of(line.skip(k))
}

/// Whether `line` starts with `key`, whitespace before it aside.
pub open spec fn has_key(line: Seq<char>, key: Seq<char>) -> bool {
    exists|k: int| key_stands_at(line, key, k)
}

/// Whether `v` is what stands behind `key` in the last of `lines` that starts with it, without the
/// whitespace and the quotes around it; nothing where no line does.
pub open spec fn is_last_value(lines: Seq<Seq<char>>, key: Seq<char>, v: Option<Seq<char>>) -> bool {
    match v {
        Some(value) => exists|i: int, k: int|
            {
                &&& 0 <= i < lines.len()
                &&& #[trigger] key_stands_at(lines[i], key, k)
                &&& bare_value(lines[i].skip(k + key.len())) == value
                &&& forall|j: int| i < j < lines.len() ==> !has_key(#[trigger] lines[j], key)
            },
        None => forall|j: int| 0 <= j < lines.len() ==> !has_key(#[trigger] lines[j], key),
    }
}

/// Where whitespace ends for the first time.
proof fn first_solid(line: Seq<char>) -> (k: int)
    ensures
        0 <= k <= line.len(),
        text::is_all(line.take(k), CharClass::Whitespace),
        k < line.len() ==> !text::is_white_space(line[k]),
    decreases line.len(),
{
    if line.len() == 0 || !text::is_white_space(line[0]) {
        assert(line.take(0).len() == 0);
        0
    } else {
        let rest = line.drop_first();
        let k = first_solid(rest);
        assert forall|i: int| 0 <= i < line.take(k + 1).len() implies text::is_white_space(
            #[trigger] line.take(k + 1)[i],
        ) by {
            if i > 0 {
                assert(line.take(k + 1)[i] == rest.take(k)[i - 1]);
                assert(CharClass::Whitespace.has(rest.take(k)[i - 1]));
            }
        }
        k + 1
    }
}

/// Where whitespace starts for the last time.
proof fn last_solid(line: Seq<char>) -> (k: int)
    ensures
        0 <= k <= line.len(),
        text::is_all(line.skip(k), CharClass::Whitespace),
        k > 0 ==> !text::is_white_space(line[k - 1]),
    decreases line.len(),
{
    if line.len() == 0 || !text::is_white_space(line.last()) {
        assert(line.skip(line.len() as int).len() == 0);
        line.len() as int
    } else {
        let head = line.drop_last();
        let k = last_solid(head);
        assert forall|i: int| 0 <= i < line.skip(k).len() implies text::is_white_space(
            #[trigger] line.skip(k)[i],
        ) by {
            if i < line.skip(k).len() - 1 {
                assert(line.skip(k)[i] == head.skip(k)[i]);
                assert(CharClass::Whitespace.has(head.skip(k)[i]));
            }
        }
        k
    }
}

proof fn bare_value_ignores_whitespace_behind(s: Seq<char>, w: Seq<char>)
    requires
        text::is_all(w, CharClass::Whitespace),
    ensures
        bare_value(s + w) == bare_value(s),
{
    let k = CharClass::Whitespace;
    let a = first_solid(s);
    let e = last_solid(s);
    if a == s.len() {
        let all = s + w;
        assert(s.take(a) =~= s);
        assert forall|i: int| 0 <= i < all.len() implies k.has(#[trigger] all[i]) by {
            if i < s.len() {
                assert(all[i] == s.take(a)[i]);
            } else {
                assert(all[i] == w[i - s.len()]);
            }
        }
        let none = Seq::<char>::empty();
        assert(all + none + none =~= all);
        assert(s + none + none =~= s);
        text::trimmed_is_the_core(all, none, none, k);
        text::trimmed_is_the_core(s, none, none, k);
    } else {
        if e <= a {
            assert(s.skip(e)[a - e] == s[a]);
            assert(k.has(s.skip(e)[a - e]));
        }
        let core = s.subrange(a, e);
        let end = s.skip(e) + w;
        assert forall|i: int| 0 <= i < end.len() implies k.has(#[trigger] end[i]) by {
            if i < s.skip(e).len() {
                assert(end[i] == s.skip(e)[i]);
            } else {
                assert(end[i] == w[i - s.skip(e).len()]);
            }
        }
        assert(core[0] == s[a]);
        assert(core.last() == s[e - 1]);
        assert(s =~= s.take(a) + core + s.skip(e));
        assert(s + w =~= s.take(a) + core + end);
        text::trimmed_is_the_core(s.take(a), core, s.skip(e), k);
        text::trimmed_is_the_core(s.take(a), core, end, k);
    }
}

/// A line sets a field to what stands behind the key, and only where it starts with the key.
proof fn line_field_is_behind_key(line: Seq<char>, key: Seq<char>, k: int)
    requires
        key.len() > 0,
        !text::is_white_space(key[0]),
        !text::is_white_space(key.last()),
    ensures
        key_stands_at(line, key, k) ==> line_field(line, key) == Some(
            bare_value(line.skip(k + key.len())),
        ),
        !has_key(line, key) ==> line_field(line, key) is None,
{
    let c = CharClass::Whitespace;
    let n = key.len() as int;
    let a = first_solid(line);
    let e = last_solid(line);
    let t = text::trimmed(line, c);
    if a == line.len() {
        let none = Seq::<char>::empty();
        assert(line.take(a) =~= line);
        assert(line + none + none =~= line);
        text::trimmed_is_the_core(line, none, none, c);
        if key_stands_at(line, key, k) {
            assert(line.skip(k).subrange(0, n)[0] == line[k]);
            assert(c.has(line.take(a)[k]));
        }
    } else {
        if e <= a {
            assert(line.skip(e)[a - e] == line[a]);
            assert(c.has(line.skip(e)[a - e]));
        }
        let core = line.subrange(a, e);
        assert(core[0] == line[a]);
        assert(core.last() == line[e - 1]);
        assert(line =~= line.take(a) + core + line.skip(e));
        text::trimmed_is_the_core(line.take(a), core, line.skip(e), c);
        assert(t == core);
        if key_stands_at(line, key, k) {
            let head = line.skip(k).subrange(0, n);
            assert(head == key);
            assert(head[0] == line[k]);
            assert(head[n - 1] == line[k + n - 1]);
            if k < a {
                assert(c.has(line.take(a)[k]));
            }
            if a < k {
                assert(c.has(line.take(k)[a]));
            }
            if e < k + n {
                assert(c.has(line.skip(e)[k + n - 1 - e]));
            }
            assert(core.subrange(0, n) =~= key);
            let w = line.skip(e);
            assert(line.skip(k + n) =~= core.skip(n) + w);
            bare_value_ignores_whitespace_behind(core.skip(n), w);
        } else if key.is_prefix_of(core) && !has_key(line, key) {
            assert(line.skip(a).subrange(0, n) =~= core.subrange(0, n));
            assert(key_stands_at(line, key, a));
        }
    }
}

/// The last line with a key sets the field; without one it is not set.
pub proof fn last_line_with_a_key_counts(lines: Seq<Seq<char>>, key: Seq<char>, v: Option<Seq<char>>)
    requires
        key.len() > 0,
        !text::is_white_space(key[0]),
        !text::is_white_space(key.last()),
        is_last_value(lines, key, v),
    ensures
        field(lines, key) == v,
    decreases lines.len(),
{
    if lines.len() > 0 {
        let m = lines.len() - 1;
        let rest = lines.drop_last();
        match v {
            Some(value) => {
                let (i, k) = choose|i: int, k: int|
                    {
                        &&& 0 <= i < lines.len()
                        &&& #[trigger] key_stands_at(lines[i], key, k)
                        &&& bare_value(lines[i].skip(k + key.len())) == value
                        &&& forall|j: int| i < j < lines.len() ==> !has_key(#[trigger] lines[j], key)
                    };
                line_field_is_behind_key(lines[i], key, k);
                if i < m {
                    line_field_is_behind_key(lines[m], key, 0);
                    assert(!has_key(lines[m], key));
                    assert(key_stands_at(rest[i], key, k));
                    assert forall|j: int| i < j < rest.len() implies !has_key(
                        #[trigger] rest[j],
                        key,
                    ) by {
                        assert(rest[j] == lines[j]);
                    }
                    last_line_with_a_key_counts(rest, key, v);
                }
            },
            None => {
                line_field_is_behind_key(lines[m], key, 0);
                assert(!has_key(lines[m], key));
                assert forall|j: int| 0 <= j < rest.len() implies !has_key(
                    #[trigger] rest[j],
                    key,
                ) by {
                    assert(rest[j] == lines[j]);
                }
                last_line_with_a_key_counts(rest, key, v);
            },
        }
    }
}

proof fn split_of_lines(lines: Seq<Seq<char>>)
    requires
        lines.len() > 0,
        forall|i: int| 0 <= i < lines.len() ==> text::is_without(#[trigger] lines[i], '\n'),
    ensures
        text::split_on(with_line_feeds(lines), '\n') == lines,
    decreases lines.len(),
{
    assert(text::is_without(lines[lines.len() - 1], '\n'));
    if lines.len() == 1 {
        text::split_of_one_piece(lines[0], '\n');
        assert(lines =~= seq![lines[0]]);
    } else {
        let rest = lines.drop_last();
        assert forall|i: int| 0 <= i < rest.len() implies text::is_without(
            #[trigger] rest[i],
            '\n',
        ) by {
            assert(rest[i] == lines[i]);
        }
        split_of_lines(rest);
        text::split_behind_separator(with_line_feeds(rest), lines.last(), '\n');
        assert(rest.push(lines.last()) =~= lines);
    }
}

/// Lines of which none but the first starts with `---` close no frontmatter.
proof fn lines_close_nothing(lines: Seq<Seq<char>>, tail: Seq<char>, j: int)
    requires
        lines.len() > 0,
        forall|i: int| 0 <= i < lines.len() ==> text::is_without(#[trigger] lines[i], '\n'),
        forall|i: int| 0 < i < lines.len() ==> !"---"@.is_prefix_of(#[trigger] lines[i]),
        0 <= j < with_line_feeds(lines).len(),
        tail.len() > 0 && tail[0] == '\n',
    ensures
        !text::occurs_at(with_line_feeds(lines) + tail, "\n---"@, j),
    decreases lines.len(),
{
    reveal_strlit("---");
    reveal_strlit("\n---");
    let front = with_line_feeds(lines);
    let last = lines[lines.len() - 1];
    let s = front + tail;
    let mark = "\n---"@;
    assert(text::is_without(last, '\n'));
    if text::occurs_at(s, mark, j) {
        let found = s.subrange(j, j + 4);
        assert(found[0] == '\n' && found[1] == '-' && found[2] == '-' && found[3] == '-');
        assert(s[j] == '\n' && s[j + 1] == '-' && s[j + 2] == '-' && s[j + 3] == '-');
        if lines.len() == 1 {
            assert(s[j] == last[j]);
        } else {
            let rest = lines.drop_last();
            let head = with_line_feeds(rest);
            let n = head.len() as int;
            assert(front == head.push('\n') + last);
            if j < n {
                let more = seq!['\n'] + last + tail;
                assert(s =~= head + more);
                assert forall|i: int| 0 <= i < rest.len() implies text::is_without(
                    #[trigger] rest[i],
                    '\n',
                ) by {
                    assert(rest[i] == lines[i]);
                }
                assert forall|i: int| 0 < i < rest.len() implies !"---"@.is_prefix_of(
                    #[trigger] rest[i],
                ) by {
                    assert(rest[i] == lines[i]);
                }
                lines_close_nothing(rest, more, j);
            } else if j == n {
                assert(!"---"@.is_prefix_of(last));
                if last.len() >= 3 {
                    assert(s[j + 1] == last[0] && s[j + 2] == last[1] && s[j + 3] == last[2]);
                    assert(last.subrange(0, 3) =~= "---"@);
                } else {
                    let at = n + 1 + last.len();
                    assert(s[at] == tail[0]);
                    assert(j < at <= j + 3);
                }
            } else {
                assert(s[j] == last[j - n - 1]);
            }
        }
    }
}

/// What frontmatter sets is what is read, whatever else stands in it: the text between an opening
/// `---` and the first later line that starts with `---` is taken line by line, of each field the
/// last line counts, and what stands behind the closing `---` and the line breaks there is the
/// template. A field that is not set has its default. Whitespace around the whole does not count.
pub proof fn frontmatter_is_read(
    lead: Seq<char>,
    lines: Seq<Seq<char>>,
    breaks: Seq<char>,
    template: Seq<char>,
    trail: Seq<char>,
    name: Option<Seq<char>>,
    description: Option<Seq<char>>,
    p: Seq<u8>,
)
    requires
        text::is_all(lead, CharClass::Whitespace),
        text::is_all(trail, CharClass::Whitespace),
        lines.len() > 0,
        forall|i: int| 0 <= i < lines.len() ==> text::is_without(#[trigger] lines[i], '\n'),
        forall|i: int| 0 < i < lines.len() ==> !"---"@.is_prefix_of(#[trigger] lines[i]),
        forall|i: int| 0 <= i < breaks.len() ==> breaks[i] == '\r' || breaks[i] == '\n',
        if template.len() > 0 {
            template[0] != '\r' && template[0] != '\n' && !text::is_white_space(template.last())
        } else {
            breaks.len() == 0
        },
        is_last_value(lines, "name:"@, name),
        is_last_value(lines, "description:"@, description),
    ensures
        ({
            let content = lead + ("---"@ + with_line_feeds(lines) + "\n---"@ + breaks + template)
                + trail;
            let title = match name {
                Some(n) => n,
                None => default_name(p),
            };
            let about = match description {
                Some(d) => d,
                None => "Custom skill"@,
            };
            parsed_skill(content, p) == if title.len() == 0 && template.len() == 0 {
                None
            } else {
                Some(
                    SkillView { name: title, description: about, template, source_path: p },
                )
            }
        }),
{
    reveal_strlit("---");
    reveal_strlit("\n---");
    reveal_strlit("name:");
    reveal_strlit("description:");
    let front = with_line_feeds(lines);
    let tail = breaks + template;
    let body = "---"@ + front + "\n---"@ + breaks + template;
    let whole = "---"@ + (front + "\n---"@ + tail);
    assert(body =~= whole);
    assert(body[0] == '-');
    if template.len() > 0 {
        assert(body.last() == template.last());
    } else {
        assert(body.last() == "\n---"@[3]);
    }
    text::trimmed_is_the_core(lead, body, trail, CharClass::Whitespace);
    let after = front + "\n---"@ + tail;
    let n = front.len() as int;
    assert(after =~= front + ("\n---"@ + tail));
    assert(after.subrange(n, n + 4) =~= "\n---"@);
    assert forall|j: int| 0 <= j < n implies !text::occurs_at(after, "\n---"@, j) by {
        lines_close_nothing(lines, "\n---"@ + tail, j);
    }
    text::first_occurrence_is_first(after, "\n---"@, n);
    sections_of_frontmatter(body, front, tail);
    split_of_lines(lines);
    last_line_with_a_key_counts(lines, "name:"@, name);
    last_line_with_a_key_counts(lines, "description:"@, description);
    text::trimmed_start_is_the_rest(breaks, template, CharClass::LineBreak);
}

/// A file that sets no name is named by its stem, unless that is `skill` in any case.
pub proof fn stem_names_the_skill(p: Seq<u8>, t: Seq<char>)
    requires
        path::file_stem(p) == Some(utf8::encode_utf8(t)),
        !text::same_ignoring_ascii_case(t, "skill"@),
    ensures
        default_name(p) == t,
{
    path::text_is_read_back(t, Seq::empty());
}

/// A file whose stem is `skill` in any case is named by its directory, or by its stem where the
/// directory has no name that is text.
pub proof fn directory_names_the_skill(p: Seq<u8>, t: Seq<char>, up: Seq<u8>, dir_name: Seq<char>)
    requires
        path::file_stem(p) == Some(utf8::encode_utf8(t)),
        text::same_ignoring_ascii_case(t, "skill"@),
        path::parent(p) == Some(up),
    ensures
        path::file_name(up) == Some(utf8::encode_utf8(dir_name)) ==> default_name(p) == dir_name,
        path::file_name(up) is None ==> default_name(p) == t,
        path::file_name(up) matches Some(n) && path::as_text(n) is None ==> default_name(p) == t,
{
    path::text_is_read_back(t, Seq::empty());
    path::text_is_read_back(dir_name, Seq::empty());
}

/// A file without a stem that is text is unnamed.
pub proof fn file_without_a_stem_is_unnamed(p: Seq<u8>)
    requires
        path::file_stem(p) matches Some(n) ==> path::as_text(n) is None,
    ensures
        default_name(p) == "unnamed"@,
{
    reveal_strlit("unnamed");
    reveal_strlit("skill");
}

/// The view of a skill or a string, given or not, is the view of what is there.
pub proof fn optional_views_show_what_is_there(s: DiscoveredSkill, t: String)
    ensures
        skill_view(Some(s)) == Some(s@),
        skill_view(None) is None,
        text_view(Some(t)) == Some(t@),
        text_view(None) is None,
{
}

} // verus!
