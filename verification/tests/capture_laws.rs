use aldebaran::capture::{extract_json, CaptureError, CAPTURE_SYSTEM_PROMPT, MAX_CAPTURE_TURNS};
use aldebaran::store::DEFAULT_MAX_TOTAL_SIZE;
use aldebaran::{MemoryCapture, MemoryEntry, MemoryFrontmatter, MemoryStore, MemoryType};

fn capture() -> MemoryCapture {
    MemoryCapture::new(MemoryStore::new("/tmp/test".to_string()))
}

fn memory(t: MemoryType, name: &str, body: &str) -> MemoryEntry {
    MemoryEntry {
        frontmatter: MemoryFrontmatter { name: name.to_string(), description: String::new(), memory_type: t },
        body: body.to_string(),
        file_path: format!("/m/{name}.md"),
    }
}

#[test]
fn long_turn_is_cut_to_its_first_characters() {
    let mut c = capture();
    c.record_turn("user", &"x".repeat(5000));
    assert_eq!(c.turns()[0].1, format!("{}…(truncated)", "x".repeat(4000)));
    c.record_turn("user", &"y".repeat(4000));
    assert_eq!(c.turns()[1].1, "y".repeat(4000));
}

#[test]
fn multibyte_turn_is_counted_in_characters() {
    let mut c = capture();
    c.record_turn("user", &"中".repeat(1500));
    assert_eq!(c.turn_count(), 1);
    assert_eq!(c.turns()[0].1, "中".repeat(1500));
    c.record_turn("user", &"中".repeat(4500));
    assert_eq!(c.turns()[1].1, format!("{}…(truncated)", "中".repeat(4000)));
}

#[test]
fn only_the_latest_turns_are_kept() {
    let mut c = capture();
    for i in 0..25 {
        c.record_turn("user", &format!("turn {i}"));
        assert!(c.turn_count() <= MAX_CAPTURE_TURNS);
    }
    assert_eq!(c.turn_count(), 20);
    assert_eq!(c.turns()[0].1, "turn 5");
    assert_eq!(c.turns()[19].1, "turn 24");
}

#[test]
fn capture_needs_three_turns() {
    let mut c = capture();
    c.record_turn("user", "a");
    c.record_turn("assistant", "b");
    assert!(!c.should_capture());
    assert!(c.build_capture_prompt().is_none());
    c.record_turn("user", "c");
    assert!(c.should_capture());
    assert_eq!(
        c.build_capture_prompt().unwrap(),
        "## Conversation to analyze\n\nBelow is a conversation between a user and an AI assistant. Identify durable memories worth saving.\n\n**user**: a\n\n**assistant**: b\n\n**user**: c\n\n## Task\n\nAnalyze the conversation above and return memories in the JSON format specified."
    );
}

#[test]
fn system_prompt_is_the_curator_prompt() {
    assert_eq!(MemoryCapture::system_prompt(), CAPTURE_SYSTEM_PROMPT);
    assert!(MemoryCapture::system_prompt().starts_with("You are a memory curator."));
}

#[test]
fn extract_json_from_fences_and_raw_text() {
    // A ```json fence closes at the next bare ```.
    assert_eq!(extract_json("```json\n{\"a\": 1}\n```").unwrap(), "{\"a\": 1}\n");
    assert_eq!(
        extract_json("```json\n{\"a\":1}\n```\nmore\n```json\n{\"b\":2}\n```").unwrap().trim(),
        "{\"a\":1}"
    );
    assert_eq!(extract_json("Here:\n```\n  [1, 2]  \n```\nthanks").unwrap(), "[1, 2]");
    assert_eq!(extract_json("  {\"memories\": []}  ").unwrap(), "{\"memories\": []}");
    assert_eq!(extract_json("```\nnot json\n```").is_err(), true);
    assert!(matches!(extract_json("Just some text, no JSON here."), Err(CaptureError::NoJsonFound)));
}

#[test]
fn capture_error_from_json_error() {
    let e = serde_json::from_str::<serde_json::Value>("{").unwrap_err();
    let c = CaptureError::from(e);
    assert!(matches!(c, CaptureError::Parse(_)));
}

#[test]
fn compose_all_blocks_groups_in_type_order() {
    let store = MemoryStore::new("/m".to_string());
    let entries = vec![
        memory(MemoryType::Feedback, "f", "F"),
        memory(MemoryType::User, "u", "U"),
        memory(MemoryType::Project, "p", "P"),
        memory(MemoryType::Reference, "r", "R"),
        memory(MemoryType::User, "u2", "U2"),
    ];
    assert_eq!(
        store.compose_all_blocks(&entries, None),
        "<user_memory>\n<!-- name: u | type: user -->\nU\n\n<!-- name: u2 | type: user -->\nU2\n</user_memory>\n\n<feedback_memory>\n<!-- name: f | type: feedback -->\nF\n</feedback_memory>\n\n<reference_memory>\n<!-- name: r | type: reference -->\nR\n</reference_memory>"
    );
    assert_eq!(store.compose_all_blocks(&vec![], None), "");
}

#[test]
fn compose_all_blocks_truncates_at_budget() {
    let store = MemoryStore::new("/m".to_string());
    let block_len = "<!-- name: u | type: user -->\nU".len();
    let entries = vec![memory(MemoryType::User, "u", "U"), memory(MemoryType::User, "v", "V")];
    assert_eq!(
        store.compose_all_blocks(&entries, Some(block_len)),
        "…(memory truncated)\n\n<user_memory>\n<!-- name: u | type: user -->\nU\n</user_memory>"
    );
    assert_eq!(store.compose_all_blocks(&entries, Some(0)), "…(memory truncated)");
    assert_eq!(DEFAULT_MAX_TOTAL_SIZE, 128 * 1024);
}

#[test]
fn compose_project_blocks_wraps_and_truncates() {
    let store = MemoryStore::new("/m".to_string());
    assert_eq!(store.compose_project_blocks("repo", &vec![], None), None);
    let entries = vec![memory(MemoryType::Project, "a", "A"), memory(MemoryType::Project, "b", "B")];
    assert_eq!(
        store.compose_project_blocks("repo", &entries, None).unwrap(),
        "<project_memory slug=\"repo\">\n<!-- name: a | type: project -->\nA\n\n<!-- name: b | type: project -->\nB\n</project_memory>"
    );
    assert_eq!(
        store.compose_project_blocks("repo", &entries, Some(0)).unwrap(),
        "<project_memory slug=\"repo\">\n…(project memory truncated)\n</project_memory>"
    );
}
