use aldebaran::index::{parse_index, remove_entry, render_index, upsert_entry};
use aldebaran::{IndexEntry, MemoryIndex};

#[test]
fn test_parse_index_wikilinks() {
    let content = "# 记忆系统\n\n## 快速导航\n\n- [[user_role.md]] — 用户角色与偏好\n- [[feedback_testing.md]] — 测试反馈\n\n完整索引 → [[index.md]]";
    let index = parse_index(content);
    assert_eq!(index.entries.len(), 2);
    assert_eq!(index.entries[0].file, "user_role.md");
    assert_eq!(index.entries[0].description, "用户角色与偏好");
    assert_eq!(index.entries[1].file, "feedback_testing.md");
}

#[test]
fn test_parse_index_mdlinks() {
    let content = "- [User Role](user_role.md) — user preferences\n- [Feedback](feedback.md) — testing feedback";
    let index = parse_index(content);
    assert_eq!(index.entries.len(), 2);
    assert_eq!(index.entries[0].title, "User Role");
    assert_eq!(index.entries[0].file, "user_role.md");
}

#[test]
fn test_upsert_entry() {
    let mut index = MemoryIndex::default();
    upsert_entry(
        &mut index,
        IndexEntry {
            title: "test".into(),
            file: "test.md".into(),
            description: "first".into(),
        },
    );
    assert_eq!(index.entries.len(), 1);
    upsert_entry(
        &mut index,
        IndexEntry {
            title: "test".into(),
            file: "test.md".into(),
            description: "updated".into(),
        },
    );
    assert_eq!(index.entries.len(), 1);
    assert_eq!(index.entries[0].description, "updated");
}

#[test]
fn test_remove_entry() {
    let mut index = MemoryIndex::default();
    index.entries.push(IndexEntry {
        title: "a".into(),
        file: "a.md".into(),
        description: "".into(),
    });
    assert!(remove_entry(&mut index, "a.md"));
    assert!(index.entries.is_empty());
    assert!(!remove_entry(&mut index, "nonexistent.md"));
}

#[test]
fn test_render_index_roundtrip() {
    let content = "# 记忆系统\n\n## 快速导航\n\n- [[user_role.md]] — 用户角色\n";
    let index = parse_index(content);
    let rendered = render_index(&index);
    assert!(rendered.contains("[[user_role.md]]"));
}
