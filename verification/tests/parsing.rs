use skill_discovery::path::SkillPath;
use skill_discovery::skill::{parse_skill_file, DiscoveredSkill};
use skill_discovery::text;
use skill_discovery::text::CharClass;

fn parse(content: &str, path: &str) -> DiscoveredSkill {
    parse_skill_file(content, &SkillPath::new(path)).unwrap()
}

#[test]
fn test_parse_with_frontmatter() {
    let content =
        "---\nname: review\ndescription: Review code changes\n---\n\nPlease review $ARGUMENTS";
    let path = SkillPath::new("review.md");
    let skill = parse_skill_file(content, &path).unwrap();
    assert_eq!(skill.name, "review");
    assert_eq!(skill.description, "Review code changes");
    assert!(skill.template.contains("$ARGUMENTS"));
}

#[test]
fn test_parse_no_frontmatter_uses_stem() {
    let content = "Do something useful.";
    let path = SkillPath::new("my-skill.md");
    let skill = parse_skill_file(content, &path).unwrap();
    assert_eq!(skill.name, "my-skill");
    assert_eq!(skill.description, "Custom skill");
    assert_eq!(skill.template, "Do something useful.");
}

#[test]
fn test_parse_missing_name_uses_stem() {
    let content = "---\ndescription: No name field\n---\n\nBody text.";
    let path = SkillPath::new("fallback.md");
    let skill = parse_skill_file(content, &path).unwrap();
    assert_eq!(skill.name, "fallback");
    assert_eq!(skill.description, "No name field");
}

#[test]
fn test_parse_empty_returns_none() {
    let skill = parse_skill_file("   ", &SkillPath::new("empty.md"));
    assert!(skill.is_none());
}

#[test]
fn test_parse_quoted_frontmatter_values() {
    let content = "---\nname: \"quoted name\"\ndescription: 'single quoted'\n---\nBody.";
    let skill = parse_skill_file(content, &SkillPath::new("x.md")).unwrap();
    assert_eq!(skill.name, "quoted name");
    assert_eq!(skill.description, "single quoted");
}

#[test]
fn test_parse_skill_md_in_subdir_uses_parent_dir_name() {
    let content = "Use clean code principles.";
    let path = SkillPath::new("/home/user/.agents/skills/clean-code/SKILL.md");
    let skill = parse_skill_file(content, &path).unwrap();
    assert_eq!(skill.name, "clean-code");
    assert_eq!(skill.description, "Custom skill");
    assert_eq!(skill.template, "Use clean code principles.");
}

#[test]
fn template_is_what_stands_behind_the_frontmatter() {
    let skill = parse("---\nname: a\n---\r\n\n\r\n  Body \n text.\n\n", "x.md");
    assert_eq!(skill.template, "  Body \n text.");
    assert_eq!(skill.source_path.as_bytes(), b"x.md");
}

#[test]
fn what_is_written_is_read_back() {
    for eol in ["\n", "\r\n"] {
        for template in ["", "Body", "  \tindented\n\n---\nmore"] {
            let head = ["---", "name: a b", "description: c: 'd' e", "---", ""].join(eol);
            let skill = parse(&format!("{}{}", head, template), "x.md");
            assert_eq!(skill.name, "a b");
            assert_eq!(skill.description, "c: 'd' e");
            assert_eq!(skill.template, template);
        }
    }
}

#[test]
fn carriage_returns_end_lines_too() {
    let skill = parse("---\r\nname: a b\r\ndescription: c\r\n---\r\nBody", "x.md");
    assert_eq!(skill.name, "a b");
    assert_eq!(skill.description, "c");
    assert_eq!(skill.template, "Body");
}

#[test]
fn unclosed_frontmatter_is_template() {
    let skill = parse("  ---\nname: a\nBody ", "dir/x.md");
    assert_eq!(skill.name, "x");
    assert_eq!(skill.description, "Custom skill");
    assert_eq!(skill.template, "---\nname: a\nBody");
}

#[test]
fn last_field_of_a_kind_counts() {
    let skill = parse(
        "---name: zero\n  name: one\nname:two\nnames: three\ndescription:\n---\nB",
        "x.md",
    );
    assert_eq!(skill.name, "two");
    assert_eq!(skill.description, "");
}

#[test]
fn description_is_a_single_line() {
    let skill = parse("---\ndescription: one\ntwo\n\nthree\n---\nB", "x.md");
    assert_eq!(skill.description, "one");
    assert!(!skill.description.contains('\n'));
}

#[test]
fn quotes_come_off_double_first() {
    let skill = parse("---\nname: \"'a'\"\ndescription: '\"b\"'\n---\nB", "x.md");
    assert_eq!(skill.name, "a");
    assert_eq!(skill.description, "\"b\"");
}

#[test]
fn nameless_file_without_template_is_no_skill() {
    let path = SkillPath::new("x.md");
    assert!(parse_skill_file("---\nname: ''\n---\n", &path).is_none());
    let skill = parse_skill_file("---\nname: ''\n---\nB", &path).unwrap();
    assert_eq!(skill.name, "");
    let skill = parse_skill_file("---\n---\n", &path).unwrap();
    assert_eq!(skill.name, "x");
    assert_eq!(skill.template, "");
}

#[test]
fn names_come_from_paths() {
    assert_eq!(parse("B", "..").name, "unnamed");
    assert_eq!(parse("B", "/").name, "unnamed");
    assert_eq!(parse("B", "").name, "unnamed");
    assert_eq!(parse("B", "a/b/archive.tar.gz").name, "archive.tar");
    assert_eq!(parse("B", ".hidden").name, ".hidden");
    assert_eq!(parse("B", "Skill.MD").name, "Skill");
    assert_eq!(parse("B", "/sKILL").name, "sKILL");
    assert_eq!(parse("B", "../skill.md").name, "skill");
    assert_eq!(parse("B", "a//./skill.md/").name, "a");
    let odd = SkillPath::from_bytes(&[b'a', b'/', 0xff, b'.', b'm', b'd']);
    assert_eq!(parse_skill_file("B", &odd).unwrap().name, "unnamed");
    let odd_dir = SkillPath::from_bytes(&[0xff, b'/', b's', b'k', b'i', b'l', b'l']);
    assert_eq!(parse_skill_file("B", &odd_dir).unwrap().name, "skill");
}

#[test]
fn clones_are_equal() {
    let skill = parse("---\nname: n\ndescription: d\n---\nB", "p.md");
    let copy = skill.clone();
    assert_eq!(copy.name, "n");
    assert_eq!(copy.description, "d");
    assert_eq!(copy.template, "B");
    assert_eq!(copy.source_path.as_bytes(), b"p.md");
}

#[test]
fn whitespace_is_that_of_unicode() {
    for n in 0u32..0x110000 {
        if let Some(c) = char::from_u32(n) {
            assert_eq!(CharClass::Whitespace.contains(c), c.is_whitespace());
        }
    }
}

#[test]
fn text_is_cut_as_in_the_standard_library() {
    let samples = [
        "", " ", "a", " a ", "\u{3000}a\u{85}", "''a'", "\r\n\na\n", "a/b", "/", "a//", "x.git",
        ".git", "x.git.git", "git", "\u{e9}t\u{e9}/\u{1f600}.git",
    ];
    for s in samples {
        let chars = text::chars_of(s);
        assert_eq!(text::string_of(&chars), s);
        let trimmed = text::trim(&chars, CharClass::Whitespace);
        assert_eq!(text::string_of(trimmed), s.trim());
        let bare = text::trim(&chars, CharClass::Only('\''));
        assert_eq!(text::string_of(bare), s.trim_matches('\''));
        let start = text::trim_start(&chars, CharClass::LineBreak);
        assert_eq!(text::string_of(start), s.trim_start_matches(['\r', '\n']));
        let piece = text::last_piece(&chars, '/');
        assert_eq!(text::string_of(piece), s.split('/').next_back().unwrap());
        let stripped = text::strip_suffix(&chars, &['.', 'g', 'i', 't']);
        assert_eq!(text::string_of(stripped), s.trim_end_matches(".git"));
        let slash = text::find(&chars, &['/']);
        assert_eq!(slash, s.chars().position(|c| c == '/'));
    }
    assert_eq!(text::find(&['a', 'b', 'a', 'b', 'c'], &['a', 'b', 'c']), Some(2));
    assert_eq!(text::find(&['a'], &['a', 'b']), None);
    assert!(text::eq_ignore_ascii_case(&['S', 'k'], &['s', 'K']));
    assert!(!text::eq_ignore_ascii_case(&['\u{e9}'], &['\u{c9}']));
    assert!(!text::eq_ignore_ascii_case(&['@'], &['`']));
}
