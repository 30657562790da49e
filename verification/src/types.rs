//! Core types of the memory system.

use vstd::prelude::*;

use crate::text::{lemma_trim_noop, ascii_lowercase, chars_of, equals_in, string_of, trim, trim_range};

verus! {

/// The four memory categories.
#[derive(Debug, Clone, Copy, PartialEq, Eq, Hash, Structural)]
pub enum MemoryType {
    User,
    Project,
    Feedback,
    Reference,
}

/// The memory type that a lower-case word names.
pub open spec fn word_type(w: Seq<char>) -> Option<MemoryType> {
    if w == "user"@ {
        Some(MemoryType::User)
    } else if w == "project"@ {
        Some(MemoryType::Project)
    } else if w == "feedback"@ {
        Some(MemoryType::Feedback)
    } else if w == "reference"@ {
        Some(MemoryType::Reference)
    } else {
        None
    }
}

/// The lower-case name of a memory type, as it is written in files.
pub open spec fn type_label(t: MemoryType) -> Seq<char> {
    match t {
        MemoryType::User => "user"@,
        MemoryType::Project => "project"@,
        MemoryType::Feedback => "feedback"@,
        MemoryType::Reference => "reference"@,
    }
}

/// The directory, under the store's root, that holds memories of a type.
pub open spec fn type_dir(t: MemoryType) -> Seq<char> {
    match t {
        MemoryType::User | MemoryType::Feedback => ""@,
        MemoryType::Project => "project"@,
        MemoryType::Reference => "reference"@,
    }
}

/// The memory type that a trimmed word names, ignoring case: by the ASCII case mapping
/// for an ASCII word, by `str::to_lowercase` otherwise.
pub open spec fn parsed_type(t: Seq<char>) -> Option<MemoryType> {
    if all_ascii(t) {
        word_type(ascii_lowercase(t))
    } else {
        word_type(lowercase(t))
    }
}

/// What `str::to_lowercase` returns for a string.
pub uninterp spec fn lowercase(s: Seq<char>) -> Seq<char>;

/// All characters are ASCII.
pub open spec fn all_ascii(s: Seq<char>) -> bool {
    forall|i: int| 0 <= i < s.len() ==> (s[i] as u32) < 128
}

/// `str::to_lowercase`. Its result is named by `lowercase`. For an ASCII string it is the
/// ASCII mapping: `A`-`Z` have the one-to-one lower-case mappings `a`-`z` and no other
/// ASCII character has a lower-case mapping, so it is kept. What it does with other
/// characters (the Unicode case tables, final sigma) is not stated.
#[verifier::external_body]
fn to_lowercase(s: &str) -> (r: String)
    ensures
        r@ == lowercase(s@),
        all_ascii(s@) ==> r@ == ascii_lowercase(s@),
{
    s.to_lowercase()
}

impl MemoryType {
    /// The memory type that `s` names: `s` trimmed and lower-cased must be one of
    /// `user`, `project`, `feedback` or `reference`.
    pub fn parse(s: &str) -> (r: Option<Self>)
        ensures
            r == word_type(lowercase(trim(s@))),
            r == parsed_type(trim(s@)),
    {
        let v = chars_of(s);
        let (a, b) = trim_range(&v, 0, v.len());
        assert(v@.subrange(0, v@.len() as int) =~= v@);
        let trimmed = string_of(&v, a, b);
        let lower = to_lowercase(trimmed.as_str());
        Self::from_word(lower.as_str())
    }

    /// The memory type that the exact word `w` names.
    pub fn from_word(w: &str) -> (r: Option<Self>)
        ensures
            r == word_type(w@),
    {
        let v = chars_of(w);
        let n = v.len();
        assert(v@.subrange(0, n as int) =~= v@);
        if equals_in(&v, 0, n, &chars_of("user")) {
            Some(MemoryType::User)
        } else if equals_in(&v, 0, n, &chars_of("project")) {
            Some(MemoryType::Project)
        } else if equals_in(&v, 0, n, &chars_of("feedback")) {
            Some(MemoryType::Feedback)
        } else if equals_in(&v, 0, n, &chars_of("reference")) {
            Some(MemoryType::Reference)
        } else {
            None
        }
    }

    /// The directory under the store's root that holds memories of this type.
    pub fn dir_name(self) -> (r: &'static str)
        ensures
            r@ == type_dir(self),
    {
        match self {
            MemoryType::User | MemoryType::Feedback => "",
            MemoryType::Project => "project",
            MemoryType::Reference => "reference",
        }
    }

    /// The lower-case name of this type (what `Display` shows).
    pub fn as_str(self) -> (r: &'static str)
        ensures
            r@ == type_label(self),
    {
        match self {
            MemoryType::User => "user",
            MemoryType::Project => "project",
            MemoryType::Feedback => "feedback",
            MemoryType::Reference => "reference",
        }
    }
}


/// A word names a memory type exactly when it is that type's name.
pub proof fn law_word_names_type(w: Seq<char>, t: MemoryType)
    ensures
        word_type(w) == Some(t) <==> w == type_label(t),
{
    reveal_strlit("user");
    reveal_strlit("project");
    reveal_strlit("feedback");
    reveal_strlit("reference");
    // The four names differ in length, so no word is two of them.
    assert("user"@.len() == 4 && "project"@.len() == 7);
    assert("feedback"@.len() == 8 && "reference"@.len() == 9);
}

/// Each type's name is read back as that type.
pub proof fn law_type_label_parses(t: MemoryType)
    ensures
        parsed_type(trim(type_label(t))) == Some(t),
        trim(type_label(t)) == type_label(t),
{
    reveal_strlit("user");
    reveal_strlit("project");
    reveal_strlit("feedback");
    reveal_strlit("reference");
    let l = type_label(t);
    lemma_trim_noop(l);
    assert(ascii_lowercase(l) =~= l);
}

/// The header of a memory file.
#[derive(Debug, Clone)]
pub struct MemoryFrontmatter {
    pub name: String,
    pub description: String,
    pub memory_type: MemoryType,
}

/// A memory file: its header, its body and where it lies.
#[derive(Debug, Clone)]
pub struct MemoryEntry {
    pub frontmatter: MemoryFrontmatter,
    pub body: String,
    pub file_path: String,
}

/// An index line: a title, the file it points to and a description.
#[derive(Debug)]
pub struct IndexEntry {
    pub title: String,
    pub file: String,
    pub description: String,
}

impl Clone for IndexEntry {
    fn clone(&self) -> (r: Self)
        ensures
            r == *self,
    {
        IndexEntry {
            title: self.title.clone(),
            file: self.file.clone(),
            description: self.description.clone(),
        }
    }
}

/// The model of an index line: `(title, file, description)`.
pub type EntryView = (Seq<char>, Seq<char>, Seq<char>);

impl View for IndexEntry {
    type V = EntryView;

    open spec fn view(&self) -> EntryView {
        (self.title@, self.file@, self.description@)
    }
}

/// The models of a sequence of index lines.
pub open spec fn entry_views(s: Seq<IndexEntry>) -> Seq<EntryView> {
    s.map_values(|e: IndexEntry| e@)
}

/// The characters of a sequence of strings.
pub open spec fn string_views(s: Seq<String>) -> Seq<Seq<char>> {
    s.map_values(|t: String| t@)
}

pub proof fn lemma_string_views_push(s: Seq<String>, t: String)
    ensures
        string_views(s.push(t)) == string_views(s).push(t@),
{
    assert(string_views(s.push(t)) =~= string_views(s).push(t@));
}

/// The parsed form of a `MEMORY.md` file: its entries and the lines that are not entries.
#[derive(Debug, Clone)]
pub struct MemoryIndex {
    pub entries: Vec<IndexEntry>,
    pub preamble: Vec<String>,
}

impl View for MemoryIndex {
    type V = (Seq<EntryView>, Seq<Seq<char>>);

    open spec fn view(&self) -> (Seq<EntryView>, Seq<Seq<char>>) {
        (entry_views(self.entries@), string_views(self.preamble@))
    }
}

impl Default for MemoryIndex {
    fn default() -> (r: Self)
        ensures
            r.entries@.len() == 0,
            r.preamble@.len() == 0,
    {
        MemoryIndex { entries: Vec::new(), preamble: Vec::new() }
    }
}

/// A block of memory text ready for a system prompt, with the number of files in it.
#[derive(Debug, Clone)]
pub struct MemoryBlock {
    pub content: String,
    pub file_count: usize,
}

/// A memory that the capture model proposes to save.
#[derive(Debug, Clone)]
pub struct CaptureSuggestion {
    pub memory_type: MemoryType,
    pub name: String,
    pub description: String,
    pub content: String,
    pub rationale: String,
}

} // verus!
