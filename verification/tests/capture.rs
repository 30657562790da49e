use aldebaran::{MemoryCapture, MemoryStore};

#[test]
fn test_empty_capture() {
    let store = MemoryStore::new("/tmp/test".to_string());
    let capture = MemoryCapture::new(store);
    assert!(!capture.should_capture());
    assert!(capture.build_capture_prompt().is_none());
}

#[test]
fn test_capture_with_turns() {
    let store = MemoryStore::new("/tmp/test".to_string());
    let mut capture = MemoryCapture::new(store);
    capture.record_turn("user", "I'm a backend engineer.");
    capture.record_turn("assistant", "Got it, I'll keep that in mind.");
    capture.record_turn("user", "Please optimize the database queries.");
    assert!(capture.should_capture());
    let prompt = capture.build_capture_prompt().unwrap();
    assert!(prompt.contains("backend engineer"));
}

#[test]
fn test_turn_truncation() {
    let store = MemoryStore::new("/tmp/test".to_string());
    let mut capture = MemoryCapture::new(store);
    let long = "x".repeat(5000);
    capture.record_turn("user", &long);
    // Should be truncated to MAX_TURN_CHARS + "(truncated)" marker
    assert!(capture.turns()[0].1.len() < 5000);
}
