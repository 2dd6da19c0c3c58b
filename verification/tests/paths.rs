use skill_discovery::path::SkillPath;
use skill_discovery::plan::{list_sources, resolve_path, resolve_with_home, SkillsConfig, Source};
use std::path::Path;

const SAMPLES: [&str; 36] = [
    "", "/", "//", ".", "./", "..", "../", "a", "a/", "/a", "//a", "a/b", "a//b", "a/./b", "./a",
    "././a", "a/..", "a/../b", "/..", "/.", "/./a", "a/.", "a/b/", "/a/b/c.md", "a.md", ".md",
    "..md", "a.", "a.b.c", "a/.x.md", "..a", "/a//b//", "//a//b", "...", ".a/b", "\u{e9}/\u{1f600}.md",
];

fn text(bytes: &[u8]) -> String {
    String::from_utf8(bytes.to_vec()).unwrap()
}

#[test]
fn paths_are_read_as_in_the_standard_library() {
    for s in SAMPLES {
        let ours = SkillPath::new(s);
        let theirs = Path::new(s);
        let name = theirs.file_name().map(|n| n.to_str().unwrap().to_string());
        assert_eq!(ours.file_name().map(text), name);
        let stem = theirs.file_stem().map(|n| n.to_str().unwrap().to_string());
        assert_eq!(ours.file_stem().map(text), stem);
        let ext = theirs.extension().map(|n| n.to_str().unwrap().to_string());
        assert_eq!(ours.extension().map(text), ext);
        let up = theirs.parent().map(|n| n.to_str().unwrap().to_string());
        assert_eq!(ours.parent().map(|p| text(p.as_bytes())), up);
        assert_eq!(ours.is_absolute(), theirs.is_absolute());
        assert_eq!(ours.to_text(), Some(s.to_string()));
        for tail in SAMPLES {
            let joined = theirs.join(tail).to_str().unwrap().to_string();
            assert_eq!(text(ours.join_text(tail).as_bytes()), joined);
        }
    }
}

#[test]
fn text_of_a_path_that_is_not_utf8_is_none() {
    let p = SkillPath::from_bytes(&[b'a', 0xc3, b'/']);
    assert_eq!(p.to_text(), None);
    assert_eq!(p.file_name(), Some(&[b'a', 0xc3][..]));
    assert_eq!(p.clone().as_bytes(), p.as_bytes());
}

#[test]
fn test_resolve_path() {
    let cwd = SkillPath::new("/workspace/project");
    // Absolute path
    assert_eq!(
        resolve_path("/Users/test/.agents/skills", &cwd).as_bytes(),
        SkillPath::new("/Users/test/.agents/skills").as_bytes()
    );
    // Relative path
    assert_eq!(
        resolve_path("custom/skills", &cwd).as_bytes(),
        SkillPath::new("/workspace/project/custom/skills").as_bytes()
    );
    // Tilde path
    if let Some(home) = dirs::home_dir() {
        assert_eq!(
            resolve_path("~/.agents/skills", &cwd).as_bytes(),
            home.join(".agents/skills").as_os_str().as_encoded_bytes()
        );
        assert_eq!(
            resolve_path("~", &cwd).as_bytes(),
            home.as_os_str().as_encoded_bytes()
        );
    }
}

fn resolve(path: &str, home: Option<&str>) -> String {
    let home = home.map(SkillPath::new);
    let cwd = SkillPath::new("/w");
    text(resolve_with_home(path, &cwd, &home).as_bytes())
}

#[test]
fn tilde_is_the_home_directory() {
    assert_eq!(resolve(" ~ ", Some("/h")), "/h");
    assert_eq!(resolve("~/a b", Some("/h/")), "/h/a b");
    assert_eq!(resolve("~//etc", Some("/h")), "/h/etc");
    assert_eq!(resolve("~///", Some("/h")), "/h/");
    assert_eq!(resolve("~user//x//y", Some("/h")), "/h/x//y");
    assert_eq!(resolve("~user/x/y", Some("/h")), "/h/x/y");
    assert_eq!(resolve("~user", Some("/h")), "/h");
    assert_eq!(resolve("a/~", Some("/h")), "/w/a/~");
    assert_eq!(resolve("", Some("/h")), "/w/");
}

#[test]
fn without_a_home_tilde_paths_stay() {
    assert_eq!(resolve("~", None), ".");
    assert_eq!(resolve("\t~/a\n", None), "~/a");
    assert_eq!(resolve("~user", None), "~user");
    assert_eq!(resolve("/x", None), "/x");
    assert_eq!(resolve(" x ", None), "/w/x");
}

fn plan(cwd: &str, settings: &str, home: Option<&str>, config: &SkillsConfig) -> Vec<String> {
    let home = home.map(SkillPath::new);
    let sources = list_sources(&SkillPath::new(cwd), &SkillPath::new(settings), &home, config);
    sources
        .iter()
        .map(|s| match s {
            Source::Directory(p) => text(p.as_bytes()),
            Source::Repository(u) => format!("git {}", u),
        })
        .collect()
}

#[test]
fn sources_come_in_order() {
    let config = SkillsConfig {
        paths: vec!["x".to_string(), "~/y".to_string()],
        urls: vec!["http://u/r".to_string(), "b".to_string()],
    };
    assert_eq!(
        plan("/p/q", "/cfg", Some("/h"), &config),
        vec![
            "/p/q/.claurst/skills",
            "/p/q/.agents/skills",
            "/p/.claurst/skills",
            "/p/.agents/skills",
            "/.claurst/skills",
            "/.agents/skills",
            "/cfg/skills",
            "/h/.agents/skills",
            "/p/q/x",
            "/h/y",
            "git http://u/r",
            "git b",
        ]
    );
}

#[test]
fn directories_are_taken_as_they_are_given() {
    let config = SkillsConfig {
        paths: vec!["~".to_string(), "~/x".to_string(), "~user".to_string(), "y".to_string()],
        urls: vec![],
    };
    assert_eq!(
        plan("/w", "./settings", None, &config),
        vec![
            "/w/.claurst/skills",
            "/w/.agents/skills",
            "/.claurst/skills",
            "/.agents/skills",
            "./settings/skills",
            ".",
            "~/x",
            "~user",
            "/w/y",
        ]
    );
    assert_eq!(
        plan("a/b", "/cfg", Some("home"), &config),
        vec![
            "a/b/.claurst/skills",
            "a/b/.agents/skills",
            "a/.claurst/skills",
            "a/.agents/skills",
            ".claurst/skills",
            ".agents/skills",
            "/cfg/skills",
            "home/.agents/skills",
            "home",
            "home/x",
            "home",
            "a/b/y",
        ]
    );
}
