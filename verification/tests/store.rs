use aldebaran::store::parse_frontmatter;
use aldebaran::MemoryType;

#[test]
fn test_parse_frontmatter() {
    let content = "---\nname: test_memory\ndescription: A test memory\ntype: user\n---\n\nBody text here.";
    let (fm, body) = parse_frontmatter(content).unwrap();
    assert_eq!(fm.name, "test_memory");
    assert_eq!(fm.description, "A test memory");
    assert_eq!(fm.memory_type, MemoryType::User);
    assert_eq!(body, "Body text here.");
}
