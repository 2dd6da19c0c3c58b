use skill_discovery::catalog::Catalog;
use skill_discovery::discovery::{discover_in, discover_skills, Discovery};
use skill_discovery::git::{fetch_below, fetch_git_skills, FetchPhase, GitFetch};
use skill_discovery::path::SkillPath;
use skill_discovery::plan::{SkillsConfig, Source};
use skill_discovery::request::{Reply, Request};
use skill_discovery::scan::scan_dir;
use skill_discovery::skill::{parse_skill_file, DiscoveredSkill};
use std::collections::BTreeMap;

/// A file tree in memory, with the repositories that can be cloned into it.
#[derive(Default)]
struct Tree {
    files: BTreeMap<String, String>,
    repos: BTreeMap<String, Vec<(String, String)>>,
    sealed: bool,
    asked: Vec<String>,
}

fn key(p: &SkillPath) -> String {
    let t = String::from_utf8_lossy(p.as_bytes()).to_string();
    t.trim_end_matches('/').to_string()
}

impl Tree {
    fn write(&mut self, dir: &str, name: &str, content: &str) {
        self.files.insert(format!("{}/{}", dir, name), content.to_string());
    }

    fn has_dir(&self, p: &SkillPath) -> bool {
        let prefix = format!("{}/", key(p));
        self.files.keys().any(|f| f.starts_with(&prefix))
    }

    fn list(&self, p: &SkillPath) -> Option<Vec<Vec<u8>>> {
        if self.sealed {
            return None;
        }
        let prefix = format!("{}/", key(p));
        let mut names: Vec<Vec<u8>> = Vec::new();
        for f in self.files.keys() {
            if let Some(rest) = f.strip_prefix(&prefix) {
                let name = rest.split('/').next().unwrap().as_bytes().to_vec();
                if !names.contains(&name) {
                    names.push(name);
                }
            }
        }
        Some(names)
    }

    fn answer(&mut self, request: Request) -> Reply {
        self.asked.push(match &request {
            Request::IsDir(p) => format!("is_dir {}", key(p)),
            Request::IsFile(p) => format!("is_file {}", key(p)),
            Request::Read(p) => format!("read {}", key(p)),
            Request::List(p) => format!("list {}", key(p)),
            Request::Exists(p) => format!("exists {}", key(p)),
            Request::CreateDirs(p) => format!("create {}", key(p)),
            Request::Git(args) => format!("git {}", args.join(" ")),
        });
        match request {
            Request::IsDir(p) => Reply::Flag(self.has_dir(&p)),
            Request::IsFile(p) => Reply::Flag(self.files.contains_key(&key(&p))),
            Request::Read(p) => Reply::Content(self.files.get(&key(&p)).cloned()),
            Request::List(p) => Reply::Names(self.list(&p)),
            Request::Exists(p) => {
                Reply::Flag(self.has_dir(&p) || self.files.contains_key(&key(&p)))
            }
            Request::CreateDirs(_) => Reply::Flag(!self.sealed),
            Request::Git(args) => match self.repos.get(&args[2]).cloned() {
                Some(files) => {
                    for (name, content) in files {
                        self.write(&args[3], &name, &content);
                    }
                    Reply::Flag(true)
                }
                None => Reply::Flag(false),
            },
        }
    }

    fn scan(&mut self, dir: &str) -> Vec<DiscoveredSkill> {
        let mut scan = scan_dir(&SkillPath::new(dir));
        while let Some(request) = scan.request() {
            let reply = self.answer(request);
            scan.resume(reply);
        }
        assert!(scan.is_done());
        scan.into_skills()
    }

    fn fetch(&mut self, mut fetch: GitFetch) -> Option<Vec<DiscoveredSkill>> {
        while let Some(request) = fetch.request() {
            let reply = self.answer(request);
            fetch.resume(reply);
        }
        fetch.into_result()
    }

    fn discover(&mut self, mut discovery: Discovery) -> Catalog {
        while let Some(request) = discovery.request() {
            let reply = self.answer(request);
            discovery.resume(reply);
        }
        discovery.finish()
    }
}

fn cache() -> Option<SkillPath> {
    Some(SkillPath::new("/cache"))
}

fn names(skills: &[DiscoveredSkill]) -> Vec<&str> {
    skills.iter().map(|s| s.name.as_str()).collect()
}

#[test]
fn test_scan_dir_finds_skills() {
    let mut tmp = Tree::default();
    tmp.write("/tmp/t", "review.md", "---\nname: review\n---\nReview $ARGUMENTS");
    tmp.write("/tmp/t", "debug.md", "Debug help.");
    tmp.write("/tmp/t", "not-md.txt", "ignored");

    let skills = tmp.scan("/tmp/t");
    assert_eq!(skills.len(), 2);
    let names: Vec<&str> = skills.iter().map(|s| s.name.as_str()).collect();
    assert!(names.contains(&"review"));
    assert!(names.contains(&"debug"));
}

#[test]
fn test_scan_dir_nonexistent_returns_empty() {
    let mut tree = Tree::default();
    let skills = tree.scan("/nonexistent/path/xyz");
    assert!(skills.is_empty());
}

#[test]
fn test_scan_dir_finds_subdirectories_with_skill_md() {
    let mut tmp = Tree::default();
    // Flat file
    tmp.write("/tmp/t", "flat.md", "---\nname: flat\n---\nFlat template.");
    // Subdirectory with SKILL.md
    tmp.write(
        "/tmp/t",
        "brainstorming/SKILL.md",
        "---\ndescription: Brainstorm ideas\n---\nBrainstorm $ARGUMENTS",
    );
    // Subdirectory with lowercase skill.md
    tmp.write(
        "/tmp/t",
        "git-master/skill.md",
        "---\nname: git-guru\ndescription: Git helpers\n---\nGit commands",
    );
    // Ignored non-skill dir
    tmp.write("/tmp/t", "other_folder/readme.txt", "not a skill");

    let skills = tmp.scan("/tmp/t");
    assert_eq!(skills.len(), 3);
    let names: Vec<&str> = skills.iter().map(|s| s.name.as_str()).collect();
    assert!(names.contains(&"flat"));
    assert!(names.contains(&"brainstorming"));
    assert!(names.contains(&"git-guru"));
}

#[test]
fn test_scan_dir_direct_skill_folder() {
    let mut tmp = Tree::default();
    let skill_dir = "/tmp/t/my-custom-skill";
    tmp.write(skill_dir, "SKILL.md", "---\ndescription: Direct folder\n---\nDo work");

    let skills = tmp.scan(skill_dir);
    assert_eq!(skills.len(), 1);
    assert_eq!(skills[0].name, "my-custom-skill");
    assert_eq!(skills[0].description, "Direct folder");
}

#[test]
fn test_discover_from_project_dir() {
    let mut tmp = Tree::default();
    tmp.write(
        "/tmp/t/.claurst/skills",
        "myskill.md",
        "---\nname: myskill\ndescription: Test\n---\nDo it.",
    );

    let config = SkillsConfig::default();
    let cwd = SkillPath::new("/tmp/t");
    let discovered = tmp.discover(discover_skills(&cwd, &cwd, &SkillPath::new("/none"), &config));
    assert!(discovered.contains_key("myskill"));
    assert_eq!(discovered.get("myskill").unwrap().description, "Test");
}

#[test]
fn test_discover_from_project_agents_skills_subdir() {
    let mut tmp = Tree::default();
    tmp.write(
        "/tmp/t/.agents/skills/sub-skill",
        "SKILL.md",
        "---\ndescription: Sub agent skill\n---\nSub agent prompt.",
    );

    let config = SkillsConfig::default();
    let cwd = SkillPath::new("/tmp/t");
    let discovered = tmp.discover(discover_skills(&cwd, &cwd, &SkillPath::new("/none"), &config));
    assert!(discovered.contains_key("sub-skill"));
    assert_eq!(discovered.get("sub-skill").unwrap().description, "Sub agent skill");
}

#[test]
fn test_discover_extra_paths() {
    let mut tree = Tree::default();
    tree.write("/tmp/e", "extra.md", "---\nname: extra\n---\nExtra skill.");

    let config = SkillsConfig {
        paths: vec!["/tmp/e".to_string()],
        urls: vec![],
    };
    let cwd = SkillPath::new("/tmp/t");
    let discovered = tree.discover(discover_skills(&cwd, &cwd, &SkillPath::new("/none"), &config));
    assert!(discovered.contains_key("extra"));
}

#[test]
fn test_discover_deduplicates_first_wins() {
    let mut tree = Tree::default();
    tree.write(
        "/tmp/t/.claurst/skills",
        "dup.md",
        "---\nname: dup\ndescription: project\n---\nProject.",
    );
    tree.write("/tmp/e", "dup.md", "---\nname: dup\ndescription: extra\n---\nExtra.");

    let config = SkillsConfig {
        paths: vec!["/tmp/e".to_string()],
        urls: vec![],
    };
    let cwd = SkillPath::new("/tmp/t");
    let discovered = tree.discover(discover_skills(&cwd, &cwd, &SkillPath::new("/none"), &config));
    // Project-level wins over extra path.
    assert_eq!(discovered.get("dup").unwrap().description, "project");
    assert_eq!(discovered.skills().len(), 1);
    assert_eq!(discovered.duplicates().len(), 1);
    assert_eq!(
        discovered.duplicates()[0].warning(),
        "Duplicate skill 'dup' found at /tmp/e/dup.md (keeping /tmp/t/.claurst/skills/dup.md)"
    );
}

#[test]
fn scan_asks_no_more_than_it_needs() {
    let mut tree = Tree::default();
    tree.write("/d", "a.md", "A");
    tree.write("/d", "b.txt", "B");
    tree.write("/d", "c/x.md", "C");
    tree.write("/d", "e/Skill.md", "E");
    tree.write("/d", ".git/SKILL.md", "hidden");
    tree.write("/d", ".x.md", "hidden");
    let skills = tree.scan("/d");
    assert_eq!(names(&skills), vec!["a", "e"]);
    assert_eq!(skills[0].source_path.as_bytes(), b"/d/a.md");
    assert_eq!(skills[1].source_path.as_bytes(), b"/d/e/Skill.md");
    assert_eq!(
        tree.asked,
        vec![
            "is_dir /d",
            "is_file /d/SKILL.md",
            "is_file /d/skill.md",
            "is_file /d/SKILL.MD",
            "is_file /d/Skill.md",
            "list /d",
            "is_file /d/a.md",
            "read /d/a.md",
            "is_file /d/b.txt",
            "is_file /d/c",
            "is_dir /d/c",
            "is_file /d/c/SKILL.md",
            "is_file /d/c/skill.md",
            "is_file /d/c/SKILL.MD",
            "is_file /d/c/Skill.md",
            "is_file /d/e",
            "is_dir /d/e",
            "is_file /d/e/SKILL.md",
            "is_file /d/e/skill.md",
            "is_file /d/e/SKILL.MD",
            "is_file /d/e/Skill.md",
            "read /d/e/Skill.md",
        ]
    );
}

#[test]
fn directory_that_is_a_skill_brings_nothing_else() {
    let mut tree = Tree::default();
    tree.write("/d", "skill.md", "own");
    tree.write("/d", "other.md", "other");
    assert_eq!(names(&tree.scan("/d")), vec!["d"]);
}

#[test]
fn empty_candidate_gives_way_to_the_next() {
    let mut tree = Tree::default();
    tree.write("/d", "SKILL.md", "  ");
    tree.write("/d", "skill.md", "own");
    assert_eq!(names(&tree.scan("/d")), vec!["d"]);
    let mut tree = Tree::default();
    tree.write("/d", "SKILL.md", "  ");
    tree.write("/d", "a.md", "A");
    assert_eq!(names(&tree.scan("/d")), vec!["a"]);
}

#[test]
fn empty_candidate_below_ends_the_search_there() {
    let mut tree = Tree::default();
    tree.write("/d", "sub/SKILL.md", "  ");
    tree.write("/d", "sub/skill.md", "own");
    tree.write("/d", "big.MD", "not markdown by its name");
    tree.write("/d", "z.md", "Z");
    assert_eq!(names(&tree.scan("/d")), vec!["z"]);
}

#[test]
fn failures_bring_nothing() {
    let mut tree = Tree::default();
    tree.write("/d", "a.md", "A");
    tree.sealed = true;
    assert!(tree.scan("/d").is_empty());

    let mut scan = scan_dir(&SkillPath::new("/d"));
    scan.resume(Reply::Flag(true));
    for _ in 0..4 {
        scan.resume(Reply::Names(None));
    }
    scan.resume(Reply::Names(Some(vec![b"a.md".to_vec(), b"b.md".to_vec()])));
    scan.resume(Reply::Flag(true));
    scan.resume(Reply::Content(None));
    scan.resume(Reply::Flag(true));
    scan.resume(Reply::Flag(true));
    assert!(scan.is_done());
    assert!(scan.into_skills().is_empty());
}

#[test]
fn file_that_holds_no_skill_changes_nothing() {
    let mut tree = Tree::default();
    tree.write("/d", "a.md", "A");
    tree.write("/d", "c.md", "C");
    let plain = tree.scan("/d");
    tree.write("/d", "b.md", " \n\t");
    assert_eq!(names(&tree.scan("/d")), names(&plain));

    // The same with a file that cannot be read.
    let mut scan = scan_dir(&SkillPath::new("/d"));
    while let Some(request) = scan.request() {
        let unreadable = matches!(&request, Request::Read(p) if key(p) == "/d/b.md");
        let reply = tree.answer(request);
        scan.resume(if unreadable { Reply::Content(None) } else { reply });
    }
    let found = scan.into_skills();
    assert_eq!(names(&found), vec!["a", "c"]);
    assert_eq!(found[1].source_path.as_bytes(), plain[1].source_path.as_bytes());
}

#[test]
fn skills_come_from_distinct_files_of_the_directory() {
    let mut tree = Tree::default();
    tree.write("/d", "a.md", "---\nname: same\n---\nA");
    tree.write("/d", "a/SKILL.md", "---\nname: same\n---\nB");
    tree.write("/d", "a/skill.md", "---\nname: same\n---\nC");
    let paths: Vec<Vec<u8>> = tree
        .scan("/d")
        .iter()
        .map(|s| s.source_path.as_bytes().to_vec())
        .collect();
    assert_eq!(paths, vec![b"/d/a.md".to_vec(), b"/d/a/SKILL.md".to_vec()]);
}

#[test]
fn repository_is_cloned_once() {
    let mut tree = Tree::default();
    tree.repos.insert(
        "https://host/team/repo.git".to_string(),
        vec![
            ("top.md".to_string(), "Top".to_string()),
            ("skills/in.md".to_string(), "In".to_string()),
        ],
    );
    let url = "https://host/team/repo.git";
    let first = tree.fetch(fetch_below(&cache(), url)).unwrap();
    assert_eq!(names(&first), vec!["top", "in"]);
    assert_eq!(first[1].source_path.as_bytes(), b"/cache/claurst/skills/repo/skills/in.md");
    assert_eq!(
        tree.asked[..4].to_vec(),
        vec![
            "exists /cache/claurst/skills/repo",
            "create /cache/claurst/skills",
            "git clone --depth=1 https://host/team/repo.git /cache/claurst/skills/repo",
            "is_dir /cache/claurst/skills/repo",
        ]
    );
    tree.asked.clear();
    let second = tree.fetch(fetch_below(&cache(), url)).unwrap();
    assert_eq!(names(&second), vec!["top", "in"]);
    assert!(!tree.asked.iter().any(|q| q.starts_with("git") || q.starts_with("create")));
}

#[test]
fn repository_that_cannot_be_had_has_no_skills() {
    let mut tree = Tree::default();
    assert!(tree.fetch(fetch_below(&cache(), "https://host/gone")).is_none());
    assert_eq!(tree.asked.len(), 3);
    tree.sealed = true;
    tree.asked.clear();
    assert!(tree.fetch(fetch_below(&cache(), "https://host/gone")).is_none());
    assert_eq!(tree.asked.len(), 2);
    tree.asked.clear();
    assert!(tree.fetch(fetch_below(&None, "https://host/gone")).is_none());
    for url in ["https://host/", "", "https://host/.git", "a/.git.git"] {
        let fetch = fetch_below(&cache(), url);
        assert_eq!(fetch.phase(), FetchPhase::Failed);
        assert!(tree.fetch(fetch).is_none());
    }
    assert!(tree.asked.is_empty());
}

#[test]
fn repository_is_not_cloned_where_its_path_is_no_text() {
    let odd = Some(SkillPath::from_bytes(&[b'/', 0xff]));
    let mut fetch = fetch_below(&odd, "u/repo");
    fetch.resume(Reply::Flag(false));
    assert_eq!(fetch.phase(), FetchPhase::CreateDirs);
    fetch.resume(Reply::Flag(true));
    assert_eq!(fetch.phase(), FetchPhase::Failed);
    assert!(fetch.request().is_none());
    assert!(fetch.into_result().is_none());
}

#[test]
fn fetch_asks_for_the_repository_below_the_system_cache() {
    let fetch = fetch_git_skills("git@host:repo.git.git");
    match dirs::cache_dir() {
        Some(dir) => {
            let repo = dir.join("claurst").join("skills").join("git@host:repo");
            match fetch.request() {
                Some(Request::Exists(p)) => {
                    assert_eq!(p.as_bytes(), repo.as_os_str().as_encoded_bytes());
                }
                _ => panic!("the fetch does not start with the repository"),
            }
        }
        None => assert!(fetch.request().is_none()),
    }
}

#[test]
fn earlier_sources_win() {
    let mut tree = Tree::default();
    tree.write("/one", "a.md", "first");
    tree.write("/two", "a.md", "second");
    tree.write("/two", "b.md", "second");
    tree.repos.insert(
        "u/r".to_string(),
        vec![
            ("b.md".to_string(), "third".to_string()),
            ("c.md".to_string(), "third".to_string()),
        ],
    );
    let sources = vec![
        Source::Repository("u/".to_string()),
        Source::Directory(SkillPath::new("/one")),
        Source::Directory(SkillPath::new("/missing")),
        Source::Directory(SkillPath::new("/two")),
        Source::Repository("u/gone".to_string()),
        Source::Repository("u/r".to_string()),
    ];
    let found = tree.discover(discover_in(sources, cache(), SkillPath::new("/")));
    assert_eq!(names(found.skills()), vec!["a", "b", "c"]);
    assert_eq!(found.get("a").unwrap().template, "first");
    assert_eq!(found.get("b").unwrap().template, "second");
    assert_eq!(found.get("c").unwrap().template, "third");
    assert!(found.get("d").is_none());
    assert_eq!(found.duplicates().len(), 2);
    assert_eq!(found.duplicates()[1].name, "b");
    assert_eq!(found.duplicates()[1].found.as_bytes(), b"/cache/claurst/skills/r/b.md");
    assert_eq!(found.duplicates()[1].kept.as_bytes(), b"/two/b.md");
}

#[test]
fn repositories_without_a_name_are_told() {
    let sources = || {
        vec![
            Source::Repository("https://host/".to_string()),
            Source::Directory(SkillPath::new("/one")),
            Source::Repository("u/repo".to_string()),
            Source::Repository("u/.git".to_string()),
        ]
    };
    let mut tree = Tree::default();
    tree.write("/one", "a.md", "first");
    let mut discovery = discover_in(sources(), cache(), SkillPath::new("/"));
    assert_eq!(discovery.nameless_urls(), &vec!["https://host/".to_string()]);
    while let Some(request) = discovery.request() {
        let reply = tree.answer(request);
        discovery.resume(reply);
    }
    assert_eq!(discovery.nameless_urls(), &vec!["https://host/", "u/.git"]);
    assert_eq!(names(discovery.finish().skills()), vec!["a"]);

    // Where there is no cache, no name is looked for.
    let mut discovery = discover_in(sources(), None, SkillPath::new("/"));
    while let Some(request) = discovery.request() {
        let reply = tree.answer(request);
        discovery.resume(reply);
    }
    assert!(discovery.nameless_urls().is_empty());
}

#[test]
fn source_paths_are_absolute() {
    let mut tree = Tree::default();
    // The tree answers for the process, so relative paths stand below its directory.
    tree.write("p/.claurst/skills", "a.md", "A");
    tree.write("settings/skills", "b.md", "B");
    tree.write("p/x", "c.md", "C");
    tree.write("/y", "d.md", "D");
    let config = SkillsConfig {
        paths: vec!["x".to_string(), "/y".to_string()],
        urls: vec![],
    };
    let discovery = discover_skills(
        &SkillPath::new("p"),
        &SkillPath::new("/home/me"),
        &SkillPath::new("settings"),
        &config,
    );
    let found = tree.discover(discovery);
    let path = |name: &str| found.get(name).unwrap().source_path.as_bytes().to_vec();
    assert_eq!(path("a"), b"/home/me/p/.claurst/skills/a.md");
    assert_eq!(path("b"), b"/home/me/settings/skills/b.md");
    assert_eq!(path("c"), b"/home/me/p/x/c.md");
    assert_eq!(path("d"), b"/y/d.md");
    // What is asked is not changed by that.
    assert_eq!(tree.asked[0], "is_dir p/.claurst/skills");
    assert!(tree.asked.contains(&"read settings/skills/b.md".to_string()));
    assert!(tree.asked.contains(&"read p/x/c.md".to_string()));
}

#[test]
fn skill_of_the_process_directory_is_named_by_its_path() {
    let mut tree = Tree::default();
    tree.write(".", "SKILL.md", "own");
    let sources = vec![Source::Directory(SkillPath::new("."))];
    let found = tree.discover(discover_in(sources, None, SkillPath::new("/p")));
    assert_eq!(names(found.skills()), vec!["SKILL"]);
    assert_eq!(found.skills()[0].source_path.as_bytes(), b"/p/./SKILL.md");
}

#[test]
fn repository_of_two_urls_is_cloned_once() {
    let mut tree = Tree::default();
    tree.repos.insert("u/r".to_string(), vec![("a.md".to_string(), "A".to_string())]);
    tree.repos.insert("v/r.git".to_string(), vec![("b.md".to_string(), "B".to_string())]);
    let sources = vec![
        Source::Repository("u/r".to_string()),
        Source::Repository("v/r.git".to_string()),
    ];
    let found = tree.discover(discover_in(sources, cache(), SkillPath::new("/")));
    assert_eq!(names(found.skills()), vec!["a"]);
    assert_eq!(found.duplicates().len(), 1);
    assert_eq!(found.duplicates()[0].found.as_bytes(), b"/cache/claurst/skills/r/a.md");
    let clones: Vec<&String> = tree.asked.iter().filter(|q| q.starts_with("git ")).collect();
    assert_eq!(clones, vec!["git clone --depth=1 u/r /cache/claurst/skills/r"]);
}

#[test]
fn sources_count_as_they_are_when_their_turn_comes() {
    let sources = vec![
        Source::Directory(SkillPath::new("/one")),
        Source::Directory(SkillPath::new("/two")),
    ];
    let mut before = Tree::default();
    before.write("/one", "a.md", "first");
    let mut after = Tree::default();
    after.write("/one", "b.md", "too late");
    after.write("/two", "a.md", "second");
    after.write("/two", "b.md", "second");
    let mut discovery = discover_in(sources, None, SkillPath::new("/"));
    let mut at_two = false;
    while let Some(request) = discovery.request() {
        if let Request::IsDir(p) = &request {
            at_two = at_two || key(p) == "/two";
        }
        let tree = if at_two { &mut after } else { &mut before };
        let reply = tree.answer(request);
        discovery.resume(reply);
    }
    let found = discovery.finish();
    assert_eq!(found.get("a").unwrap().template, "first");
    assert_eq!(found.get("b").unwrap().template, "second");
}

#[test]
fn discovery_without_sources_asks_nothing() {
    let discovery = discover_in(vec![], None, SkillPath::new("/"));
    assert!(discovery.request().is_none());
    assert!(discovery.finish().skills().is_empty());
}

#[test]
fn catalog_keeps_the_first_of_a_name() {
    let mut catalog = Catalog::new();
    let one = parse_skill_file("one", &SkillPath::new("x/s.md")).unwrap();
    let odd = SkillPath::from_bytes(&[0xff, b'/', b's', b'.', b'm', b'd']);
    let two = parse_skill_file("two", &odd).unwrap();
    catalog.add(vec![one, two]);
    assert!(catalog.contains_key("s"));
    assert!(!catalog.contains_key("S"));
    assert_eq!(catalog.get("s").unwrap().template, "one");
    assert_eq!(
        catalog.duplicates()[0].warning(),
        "Duplicate skill 's' found at \u{fffd}/s.md (keeping x/s.md)"
    );
}
