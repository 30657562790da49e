use aldebaran::index::{group_by_type, parse_index, remove_entry, render_index, upsert_entry};
use aldebaran::store::{is_memory_file, sort_slugs, FrontmatterError, join_path, parse_entry, parse_frontmatter, render_entry};
use aldebaran::{IndexEntry, MemoryIndex, MemoryStore, MemoryType};

fn entry(title: &str, file: &str, description: &str) -> IndexEntry {
    IndexEntry { title: title.to_string(), file: file.to_string(), description: description.to_string() }
}

#[test]
fn memory_type_parse_ignores_case_and_space() {
    assert_eq!(MemoryType::parse(" USER "), Some(MemoryType::User));
    assert_eq!(MemoryType::parse("Project"), Some(MemoryType::Project));
    assert_eq!(MemoryType::parse("FEEDBACK"), Some(MemoryType::Feedback));
    assert_eq!(MemoryType::parse("reference\n"), Some(MemoryType::Reference));
    assert_eq!(MemoryType::parse("users"), None);
    assert_eq!(MemoryType::parse(" Feedback "), Some(MemoryType::Feedback));
    assert_eq!(MemoryType::parse("notes"), None);
    assert_eq!(MemoryType::parse(""), None);
    assert_eq!(MemoryType::from_word("User"), None);
    assert_eq!(MemoryType::from_word("user"), Some(MemoryType::User));
}

#[test]
fn memory_type_names_and_dirs() {
    for t in [MemoryType::User, MemoryType::Project, MemoryType::Feedback, MemoryType::Reference] {
        assert_eq!(MemoryType::parse(t.as_str()), Some(t));
    }
    assert_eq!(MemoryType::User.dir_name(), "");
    assert_eq!(MemoryType::Feedback.dir_name(), "");
    assert_eq!(MemoryType::Project.dir_name(), "project");
    assert_eq!(MemoryType::Reference.dir_name(), "reference");
}

#[test]
fn parse_index_keeps_preamble_lines() {
    let content = "# Title\r\n\nplain text\n- no link here\n* [[a.md]]: first\n  - [B](b.md) - second\n";
    let index = parse_index(content);
    assert_eq!(index.preamble, vec!["# Title", "", "plain text", "- no link here"]);
    assert_eq!(index.entries.len(), 2);
    assert_eq!(index.entries[0].title, "a");
    assert_eq!(index.entries[0].file, "a.md");
    assert_eq!(index.entries[0].description, "first");
    assert_eq!(index.entries[1].title, "B");
    assert_eq!(index.entries[1].file, "b.md");
    assert_eq!(index.entries[1].description, "second");
}

#[test]
fn parse_index_heading_with_wikilink_is_not_preamble_by_heading_rule() {
    // A heading that holds a wikilink is not a list item either, so it stays preamble.
    let index = parse_index("# see [[x.md]]\n- [[y.md.md]]");
    assert_eq!(index.preamble, vec!["# see [[x.md]]"]);
    assert_eq!(index.entries.len(), 1);
    assert_eq!(index.entries[0].title, "y");
    assert_eq!(index.entries[0].file, "y.md.md");
    assert_eq!(index.entries[0].description, "");
}

#[test]
fn parse_index_counts_every_line() {
    let content = "a\n- [[b.md]] — x\n\n- c\n";
    let index = parse_index(content);
    assert_eq!(index.entries.len() + index.preamble.len(), content.lines().count());
}

#[test]
fn render_index_exact_text() {
    let index = MemoryIndex {
        entries: vec![entry("user_role", "user_role.md", "role")],
        preamble: vec!["# 记忆系统".to_string()],
    };
    assert_eq!(
        render_index(&index),
        "# 记忆系统\n\n## 快速导航\n\n- [[user_role.md]] — role\n\n完整索引 → [[index.md]]"
    );
    let empty = MemoryIndex { entries: vec![], preamble: vec!["a".to_string(), "b".to_string()] };
    assert_eq!(render_index(&empty), "a\nb");
    assert_eq!(render_index(&MemoryIndex::default()), "");
}

#[test]
fn render_then_parse_gives_entries_back() {
    let index = MemoryIndex {
        entries: vec![entry("user_role", "user_role.md", "用户角色"), entry("notes", "notes.md", "")],
        preamble: vec!["# 记忆系统".to_string(), "intro".to_string()],
    };
    let back = parse_index(&render_index(&index));
    assert_eq!(back.entries.len(), 2);
    for (a, b) in back.entries.iter().zip(index.entries.iter()) {
        assert_eq!(a.title, b.title);
        assert_eq!(a.file, b.file);
        assert_eq!(a.description, b.description);
    }
    // Any title reads back as the file without its extension.
    let index = MemoryIndex {
        entries: vec![entry("My Notes", "notes.md", "n"), entry("", "plain", "p")],
        preamble: vec![],
    };
    let back = parse_index(&render_index(&index));
    let got: Vec<(&str, &str, &str)> =
        back.entries.iter().map(|e| (e.title.as_str(), e.file.as_str(), e.description.as_str())).collect();
    assert_eq!(got, vec![("notes", "notes.md", "n"), ("plain", "plain", "p")]);
}

#[test]
fn upsert_appends_new_file_and_updates_existing() {
    let mut index = MemoryIndex::default();
    upsert_entry(&mut index, entry("a", "a.md", "1"));
    upsert_entry(&mut index, entry("b", "b.md", "2"));
    upsert_entry(&mut index, entry("A", "a.md", "3"));
    assert_eq!(index.entries.len(), 2);
    assert_eq!(index.entries[0].title, "A");
    assert_eq!(index.entries[0].description, "3");
    assert_eq!(index.entries[1].file, "b.md");
}

#[test]
fn remove_entry_removes_every_copy_and_is_idempotent() {
    let mut index = MemoryIndex::default();
    index.entries.push(entry("a", "a.md", ""));
    index.entries.push(entry("b", "b.md", ""));
    index.entries.push(entry("a2", "a.md", ""));
    index.preamble.push("keep".to_string());
    assert!(remove_entry(&mut index, "a.md"));
    assert_eq!(index.entries.len(), 1);
    assert_eq!(index.entries[0].file, "b.md");
    assert_eq!(index.preamble, vec!["keep"]);
    assert!(!remove_entry(&mut index, "a.md"));
    assert_eq!(index.entries.len(), 1);
}

#[test]
fn group_by_type_sorted_groups() {
    let entries = vec![
        entry("u", "u.md", ""),
        entry("p", "project/x/p.md", ""),
        entry("f", "feedback_testing.md", ""),
        entry("r", "reference/r.md", ""),
        entry("u2", "other.md", ""),
    ];
    let groups = group_by_type(&entries);
    let keys: Vec<&str> = groups.iter().map(|g| g.0.as_str()).collect();
    assert_eq!(keys, vec!["feedback", "project", "reference", "user"]);
    assert_eq!(groups[3].1.len(), 2);
    assert_eq!(groups[3].1[0].file, "u.md");
    assert_eq!(groups[3].1[1].file, "other.md");
    let total: usize = groups.iter().map(|g| g.1.len()).sum();
    assert_eq!(total, entries.len());
    let only_user = group_by_type(&entries[..1]);
    assert_eq!(only_user.len(), 1);
    assert_eq!(only_user[0].0, "user");
}

#[test]
fn paths_follow_memory_types() {
    let store = MemoryStore::new("/home/me/.taurus/memory".to_string());
    assert_eq!(store.root(), "/home/me/.taurus/memory");
    assert_eq!(store.path_for(MemoryType::User, "role", None), "/home/me/.taurus/memory/role.md");
    assert_eq!(store.path_for(MemoryType::Feedback, "tests", Some("x")), "/home/me/.taurus/memory/tests.md");
    assert_eq!(
        store.path_for(MemoryType::Project, "m1", Some("repo-a")),
        "/home/me/.taurus/memory/project/repo-a/m1.md"
    );
    assert_eq!(
        store.path_for(MemoryType::Project, "m1", None),
        "/home/me/.taurus/memory/project/default/m1.md"
    );
    assert_eq!(store.path_for(MemoryType::Reference, "r", None), "/home/me/.taurus/memory/reference/r.md");
    assert_eq!(store.project_dir("s"), "/home/me/.taurus/memory/project/s");
    assert_eq!(store.project_index_path("s"), "/home/me/.taurus/memory/project/s/MEMORY.md");
    assert_eq!(store.global_index_path(), "/home/me/.taurus/memory/MEMORY.md");
}

#[test]
fn join_path_like_path_join() {
    assert_eq!(join_path("/a/", "b"), "/a/b");
    assert_eq!(join_path("", "b"), "b");
    assert_eq!(join_path("/a", "/b"), "/b");
    assert_eq!(join_path("/a", ""), "/a/");
    for (base, p) in [("/a/", "b"), ("", "b"), ("/a", "/b"), ("/a", ""), ("x", "y/z")] {
        let expected = std::path::Path::new(base).join(p);
        assert_eq!(join_path(base, p), expected.to_str().unwrap());
    }
}

#[test]
fn render_entry_exact_text() {
    assert_eq!(
        render_entry(MemoryType::Feedback, "n", "d", "b"),
        "---\nname: n\ndescription: d\ntype: feedback\n---\n\nb\n"
    );
}

#[test]
fn write_then_read_gives_memory_back() {
    for t in [MemoryType::User, MemoryType::Project, MemoryType::Feedback, MemoryType::Reference] {
        let text = render_entry(t, "test", "A test: with colon", "Hello world.\n\nSecond paragraph.");
        let e = parse_entry(&text, "/m/test.md").unwrap().unwrap();
        assert_eq!(e.frontmatter.name, "test");
        assert_eq!(e.frontmatter.description, "A test: with colon");
        assert_eq!(e.frontmatter.memory_type, t);
        assert_eq!(e.body, "Hello world.\n\nSecond paragraph.");
        assert_eq!(e.file_path, "/m/test.md");
    }
    let e = parse_entry(&render_entry(MemoryType::User, "", "", ""), "p").unwrap().unwrap();
    assert_eq!(e.frontmatter.name, "");
    assert_eq!(e.body, "");
    // A body with whitespace around it is read back trimmed.
    let e = parse_entry(&render_entry(MemoryType::Project, "n", "d", "\n  body\n  more \n\n"), "p")
        .unwrap()
        .unwrap();
    assert_eq!(e.frontmatter.memory_type, MemoryType::Project);
    assert_eq!(e.body, "body\n  more");
    let e = parse_entry(&render_entry(MemoryType::Reference, "n", "d", " \t\n "), "p").unwrap().unwrap();
    assert_eq!(e.body, "");
}

#[test]
fn parse_entry_of_blank_text_is_none() {
    assert!(parse_entry("  \n\t", "p").unwrap().is_none());
}

#[test]
fn parse_frontmatter_needs_opening_delimiter() {
    let err = parse_frontmatter("name: x\n---\nbody").unwrap_err();
    assert_eq!(err, FrontmatterError::MissingOpening);
    assert_eq!(err.message(), "memory file missing frontmatter opening delimiter `---`");
    assert_eq!(parse_entry("  no frontmatter ", "p").unwrap_err(), FrontmatterError::MissingOpening);
    assert!(parse_frontmatter("").is_err());
}

#[test]
fn parse_frontmatter_last_value_wins_and_unknown_type_is_user() {
    let (fm, body) = parse_frontmatter("---\r\nname: a\r\nname: b\r\ntype: Weird\r\nother: z\r\nnot a field\r\n---\r\nx\r\ny  ").unwrap();
    assert_eq!(fm.name, "b");
    assert_eq!(fm.description, "");
    assert_eq!(fm.memory_type, MemoryType::User);
    assert_eq!(body, "x\ny");
    let (fm, body) = parse_frontmatter("---\ntype: REFERENCE\nno closing").unwrap();
    assert_eq!(fm.memory_type, MemoryType::Reference);
    assert_eq!(body, "");
}

#[test]
fn listed_files_are_markdown_memories() {
    for name in ["a.md", "MEMORY.md", ".md", "a.md.bak", "a", "x.tar.md", "..md", "a.", "md", ""] {
        let std_md = std::path::Path::new(name).extension().map_or(false, |e| e == "md");
        assert_eq!(is_memory_file(name, false), std_md, "{name}");
        assert_eq!(is_memory_file(name, true), std_md && name != "MEMORY.md", "{name}");
    }
}

#[test]
fn new_index_text() {
    assert_eq!(aldebaran::store::INITIAL_INDEX, "# 记忆系统\n\n本文件为系统入口。\n");
    let index = parse_index(aldebaran::store::INITIAL_INDEX);
    assert!(index.entries.is_empty());
    assert_eq!(index.preamble.len(), 3);
}

#[test]
fn project_slugs_sort_as_str_does() {
    let slugs: Vec<String> =
        ["zeta", "alpha", "Beta", "alpha-2", "alp", "", "é", "z", "中文", "alpha"].iter().map(|s| s.to_string()).collect();
    let mut expected = slugs.clone();
    expected.sort();
    assert_eq!(sort_slugs(slugs), expected);
    assert_eq!(sort_slugs(vec![]), Vec::<String>::new());
}
