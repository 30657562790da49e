//! The memory store rooted at a directory: where each memory lives, how a memory
//! file is written and read back, and how memories are composed into prompt text.
//!
//! The file system itself is reached from outside the library; the functions here
//! compute the paths and texts and take what was read as arguments.

use vstd::prelude::*;

use crate::text::{
    is_space, lemma_find_from_first, lemma_join_cons, lemma_join_lines, lemma_line_end,
    lemma_lines_cons, lemma_lines_single, lemma_strip_end_append, lemma_strip_end_noop,
    lemma_strip_start_noop, lemma_strip_start_prepend, lemma_strip_end_prepend, lemma_strip_end_prepend_blank,
    lemma_strip_end_props, lemma_trim_strip_end, strip_end, text_lt, text_less,
    lemma_text_lt_irreflexive, lemma_text_lt_transitive, lemma_trim_noop, lemma_trimmed_ends,
    matches_at, no_crlf, strip_cr, CharClass,
    byte_length, join_strings, chars_of, equals_in, find, find_in, join, line_ranges, lines, range_texts, ranges_within,
    string_of, trim, trim_range,
};
use crate::types::{law_type_label_parses, lemma_string_views_push, string_views, parsed_type, type_label, word_type, MemoryEntry, MemoryFrontmatter, MemoryType};

verus! {

/// The prompt budget, in bytes, when the caller names none.
pub const DEFAULT_MAX_TOTAL_SIZE: usize = 128 * 1024;

/// `Path::join` on Unix: an absolute `p` replaces `base`; otherwise a `/` is put between
/// them unless `base` is empty or already ends with one.
pub open spec fn path_join(base: Seq<char>, p: Seq<char>) -> Seq<char> {
    if p.len() > 0 && p[0] == '/' {
        p
    } else if base.len() == 0 || base.last() == '/' {
        base + p
    } else {
        base + "/"@ + p
    }
}

/// The path `p` adjoined to `base`.
pub fn join_path(base: &str, p: &str) -> (r: String)
    ensures
        r@ == path_join(base@, p@),
{
    proof {
        reveal_strlit("/");
    }
    let pv = chars_of(p);
    let bv = chars_of(base);
    if pv.len() > 0 && pv[0] == '/' {
        return String::from_str(p);
    }
    let mut r = String::from_str(base);
    if !(bv.len() == 0 || bv[bv.len() - 1] == '/') {
        r.append("/");
    }
    r.append(p);
    r
}

/// The text of a new global index file.
pub const INITIAL_INDEX: &'static str = "# \u{8bb0}\u{5fc6}\u{7cfb}\u{7edf}\n\n\u{672c}\u{6587}\u{4ef6}\u{4e3a}\u{7cfb}\u{7edf}\u{5165}\u{53e3}\u{3002}\n";

/// The index of the last `.` of `s`.
pub open spec fn last_dot(s: Seq<char>) -> Option<int>
    decreases s.len(),
{
    if s.len() == 0 {
        None
    } else if s.last() == '.' {
        Some(s.len() - 1)
    } else {
        last_dot(s.drop_last())
    }
}

/// `Path::extension` of a file name is `md`: the name has a `.` that is not its first
/// character alone, and `md` follows its last `.`.
pub open spec fn has_md_extension(name: Seq<char>) -> bool {
    match last_dot(name) {
        Some(i) => i > 0 && name.subrange(i + 1, name.len() as int) == "md"@,
        None => false,
    }
}

/// Whether a directory listing keeps the file `file_name`: a Markdown file, other than the
/// index `MEMORY.md` when `skip_index` is set.
pub fn is_memory_file(file_name: &str, skip_index: bool) -> (r: bool)
    ensures
        r == (has_md_extension(file_name@) && !(skip_index && file_name@ == "MEMORY.md"@)),
{
    let s = chars_of(file_name);
    let n = s.len();
    let mut i = n;
    assert(s@.subrange(0, n as int) =~= s@);
    while i > 0 && s[i - 1] != '.'
        invariant
            i <= n == s@.len(),
            last_dot(s@) == last_dot(s@.subrange(0, i as int)),
        decreases i,
    {
        assert(s@.subrange(0, i as int).drop_last() =~= s@.subrange(0, i - 1));
        i -= 1;
    }
    assert(s@.subrange(0, n as int) =~= s@);
    if i <= 1 {
        // No `.`, or the name's only `.` leads it.
        if i == 1 {
            assert(s@.subrange(0, 1).last() == '.');
        } else {
            assert(s@.subrange(0, 0).len() == 0);
        }
        return false;
    }
    assert(last_dot(s@) == Some(i - 1));
    let md = equals_in(&s, i, n, &chars_of("md"));
    if !md {
        return false;
    }
    if skip_index && equals_in(&s, 0, n, &chars_of("MEMORY.md")) {
        return false;
    }
    true
}

/// Filesystem-backed memory store.
#[derive(Debug, Clone, PartialEq, Eq)]
pub struct MemoryStore {
    root: String,
}

/// The file name of a memory: its name with the `.md` extension.
pub open spec fn memory_file_name(name: Seq<char>) -> Seq<char> {
    name + ".md"@
}

/// The path of a memory of type `t` named `name` under `root`.
pub open spec fn memory_path(
    root: Seq<char>,
    t: MemoryType,
    name: Seq<char>,
    slug: Option<Seq<char>>,
) -> Seq<char> {
    match t {
        MemoryType::User | MemoryType::Feedback => path_join(root, memory_file_name(name)),
        MemoryType::Project => path_join(
            path_join(
                path_join(root, "project"@),
                match slug {
                    Some(s) => s,
                    None => "default"@,
                },
            ),
            memory_file_name(name),
        ),
        MemoryType::Reference => path_join(path_join(root, "reference"@), memory_file_name(name)),
    }
}

/// The directory of the project `slug` under `root`.
pub open spec fn project_path(root: Seq<char>, slug: Seq<char>) -> Seq<char> {
    path_join(path_join(root, "project"@), slug)
}

/// The characters of an optional string slice.
pub open spec fn opt_view(o: Option<&str>) -> Option<Seq<char>> {
    match o {
        Some(s) => Some(s@),
        None => None,
    }
}

impl MemoryStore {
    pub closed spec fn root_view(&self) -> Seq<char> {
        self.root@
    }

    pub fn new(root: String) -> (r: Self)
        ensures
            r.root_view() == root@,
    {
        MemoryStore { root }
    }

    pub fn root(&self) -> (r: &str)
        ensures
            r@ == self.root_view(),
    {
        self.root.as_str()
    }

    /// Where a memory of type `memory_type` named `name` is stored; project memories
    /// go under `project/<slug>/`, with the slug `default` when none is given.
    pub fn path_for(&self, memory_type: MemoryType, name: &str, project_slug: Option<&str>) -> (r:
        String)
        ensures
            r@ == memory_path(self.root_view(), memory_type, name@, opt_view(project_slug)),
    {
        let mut filename = String::from_str(name);
        filename.append(".md");
        match memory_type {
            MemoryType::User | MemoryType::Feedback => join_path(self.root.as_str(), filename.as_str()),
            MemoryType::Project => {
                let slug = match project_slug {
                    Some(s) => s,
                    None => "default",
                };
                let dir = join_path(self.root.as_str(), "project");
                let dir = join_path(dir.as_str(), slug);
                join_path(dir.as_str(), filename.as_str())
            },
            MemoryType::Reference => {
                let dir = join_path(self.root.as_str(), "reference");
                join_path(dir.as_str(), filename.as_str())
            },
        }
    }

    /// The directory of the project `slug`.
    pub fn project_dir(&self, slug: &str) -> (r: String)
        ensures
            r@ == project_path(self.root_view(), slug@),
    {
        let dir = join_path(self.root.as_str(), "project");
        join_path(dir.as_str(), slug)
    }

    /// The index file of the project `slug`.
    pub fn project_index_path(&self, slug: &str) -> (r: String)
        ensures
            r@ == path_join(project_path(self.root_view(), slug@), "MEMORY.md"@),
    {
        let dir = self.project_dir(slug);
        join_path(dir.as_str(), "MEMORY.md")
    }

    /// The path of the global index file.
    pub fn global_index_path(&self) -> (r: String)
        ensures
            r@ == path_join(self.root_view(), "MEMORY.md"@),
    {
        join_path(self.root.as_str(), "MEMORY.md")
    }
}

/// A project memory lies in its project's directory, next to the project's index.
pub proof fn law_project_memory_in_project_dir(root: Seq<char>, name: Seq<char>, slug: Seq<char>)
    ensures
        memory_path(root, MemoryType::Project, name, Some(slug)) == path_join(
            project_path(root, slug),
            memory_file_name(name),
        ),
        memory_path(root, MemoryType::Project, name, None) == path_join(
            project_path(root, "default"@),
            memory_file_name(name),
        ),
{
}

/// The texts are in the order of `str`, each no later than the next.
pub open spec fn texts_sorted(s: Seq<String>) -> bool {
    forall|i: int, j: int| 0 <= i < j < s.len() ==> !text_lt(#[trigger] s[j]@, #[trigger] s[i]@)
}

/// The project slugs in the order of `str` (what `sort` gives a `Vec<String>`).
pub fn sort_slugs(slugs: Vec<String>) -> (r: Vec<String>)
    ensures
        texts_sorted(r@),
        r@.to_multiset() == slugs@.to_multiset(),
{
    let ghost all = slugs@;
    let mut rest = slugs;
    let mut r: Vec<String> = Vec::new();
    assert(r@.to_multiset() =~= vstd::multiset::Multiset::<String>::empty()) by {
        broadcast use vstd::seq_lib::to_multiset_len;
        broadcast use vstd::multiset::group_multiset_axioms;

        assert(r@.to_multiset().len() == 0);
    }
    while rest.len() > 0
        invariant
            texts_sorted(r@),
            r@.to_multiset().add(rest@.to_multiset()) == all.to_multiset(),
        decreases rest.len(),
    {
        let ghost before = rest@;
        let x = rest.pop().unwrap();
        assert(before == rest@.push(x));
        // The first place whose text comes after `x`.
        let mut p: usize = 0;
        while p < r.len() && !text_less(x.as_str(), r[p].as_str())
            invariant
                p <= r.len(),
                forall|k: int| 0 <= k < p ==> !text_lt(x@, #[trigger] r@[k]@),
            decreases r.len() - p,
        {
            p += 1;
        }
        let ghost old_r = r@;
        r.insert(p, x);
        proof {
            let n = r@;
            assert(n == old_r.insert(p as int, x));
            assert forall|i: int, j: int| 0 <= i < j < n.len() implies !text_lt(
                #[trigger] n[j]@,
                #[trigger] n[i]@,
            ) by {
                if j < p {
                    assert(n[i] == old_r[i] && n[j] == old_r[j]);
                } else if j == p {
                    assert(n[i] == old_r[i]);
                } else if i > p {
                    assert(n[i] == old_r[i - 1] && n[j] == old_r[j - 1]);
                } else if i == p {
                    // `x` comes before `old_r[p]`, which is no later than `old_r[j - 1]`.
                    assert(n[j] == old_r[j - 1]);
                    assert(text_lt(x@, old_r[p as int]@));
                    if text_lt(n[j]@, x@) {
                        lemma_text_lt_transitive(n[j]@, x@, old_r[p as int]@);
                        if j - 1 == p {
                            lemma_text_lt_irreflexive(old_r[p as int]@);
                        } else {
                            assert(!text_lt(old_r[j - 1]@, old_r[p as int]@));
                        }
                    }
                } else {
                    assert(n[i] == old_r[i]);
                    assert(n[j] == old_r[j - 1]);
                    assert(!text_lt(old_r[j - 1]@, old_r[i]@));
                }
            }
            vstd::seq_lib::to_multiset_insert(old_r, p as int, x);
            vstd::seq_lib::to_multiset_build(rest@, x);
            assert(r@.to_multiset() == old_r.to_multiset().insert(x));
            assert(before.to_multiset() == rest@.to_multiset().insert(x));
            broadcast use vstd::multiset::group_multiset_axioms;

            assert(r@.to_multiset().add(rest@.to_multiset()) =~= old_r.to_multiset().add(
                before.to_multiset(),
            ));
        }
    }
    proof {
        broadcast use vstd::seq_lib::to_multiset_len;
        broadcast use vstd::multiset::group_multiset_axioms;

        assert(rest@.to_multiset().len() == 0);
        assert(rest@.to_multiset() =~= vstd::multiset::Multiset::<String>::empty());
        assert(r@.to_multiset().add(rest@.to_multiset()) =~= r@.to_multiset());
    }
    r
}

/// The text of a memory file: a frontmatter block with name, description and type,
/// a blank line, the body and a final newline.
pub open spec fn entry_text(t: MemoryType, name: Seq<char>, description: Seq<char>, body: Seq<char>) -> Seq<char> {
    "---\nname: "@ + name + "\ndescription: "@ + description + "\ntype: "@ + type_label(t)
        + "\n---\n\n"@ + body + "\n"@
}

/// The text that `write_entry` puts in a memory file.
pub fn render_entry(memory_type: MemoryType, name: &str, description: &str, body: &str) -> (r:
    String)
    ensures
        r@ == entry_text(memory_type, name@, description@, body@),
{
    let mut r = String::from_str("---\nname: ");
    r.append(name);
    r.append("\ndescription: ");
    r.append(description);
    r.append("\ntype: ");
    r.append(memory_type.as_str());
    r.append("\n---\n\n");
    r.append(body);
    r.append("\n");
    r
}


#[verifier::external_type_specification]
#[verifier::external_body]
pub struct ExIoError(std::io::Error);

/// Why the text of a memory file could not be read. Readers of files report it as
/// invalid data.
#[derive(Debug, Clone, Copy, PartialEq, Eq, Structural)]
pub enum FrontmatterError {
    /// The first line is not the frontmatter's opening `---`.
    MissingOpening,
}

impl FrontmatterError {
    /// The message that describes the error.
    pub fn message(&self) -> (r: &'static str)
        ensures
            r@ == "memory file missing frontmatter opening delimiter `---`"@,
    {
        match self {
            FrontmatterError::MissingOpening => "memory file missing frontmatter opening delimiter `---`",
        }
    }
}

/// The key and the value of a `key: value` header line, both trimmed.
pub open spec fn header_field(line: Seq<char>) -> Option<(Seq<char>, Seq<char>)> {
    let t = trim(line);
    match find(t, ":"@) {
        None => None,
        Some(p) => Some((trim(t.subrange(0, p)), trim(t.subrange(p + 1, t.len() as int)))),
    }
}

/// The value of the last header line of `ls` whose key is `key`, or the empty text.
pub open spec fn header_value(ls: Seq<Seq<char>>, key: Seq<char>) -> Seq<char>
    decreases ls.len(),
{
    if ls.len() == 0 {
        Seq::empty()
    } else {
        match header_field(ls.last()) {
            Some((k, v)) => if k == key {
                v
            } else {
                header_value(ls.drop_last(), key)
            },
            None => header_value(ls.drop_last(), key),
        }
    }
}

/// The first line at or after `i` that is `---` once trimmed, or the number of lines.
pub open spec fn closing_line(ls: Seq<Seq<char>>, i: int) -> int
    decreases ls.len() - i,
{
    if i >= ls.len() {
        ls.len() as int
    } else if trim(ls[i]) == "---"@ {
        i
    } else {
        closing_line(ls, i + 1)
    }
}

pub proof fn lemma_closing_line(ls: Seq<Seq<char>>, i: int)
    requires
        i <= ls.len(),
    ensures
        i <= closing_line(ls, i) <= ls.len(),
        closing_line(ls, i) < ls.len() ==> trim(ls[closing_line(ls, i)]) == "---"@,
        forall|j: int| i <= j < closing_line(ls, i) ==> trim(#[trigger] ls[j]) != "---"@,
    decreases ls.len() - i,
{
    if i < ls.len() && trim(ls[i]) != "---"@ {
        lemma_closing_line(ls, i + 1);
    }
}

/// The lines after the closing `---` at index `k`.
pub open spec fn body_lines(ls: Seq<Seq<char>>, k: int) -> Seq<Seq<char>> {
    if k < ls.len() {
        ls.subrange(k + 1, ls.len() as int)
    } else {
        Seq::empty()
    }
}

/// What a memory file's text parses to: `(name, description, type, body)`, or `None`
/// when its first line is not `---`. The header runs to the next `---` line; its last
/// `name`, `description` and `type` values count; a type that names none of the four
/// becomes `User`; the body is the rest, lines joined by `\n`, trimmed.
pub open spec fn frontmatter_of(content: Seq<char>) -> Option<(Seq<char>, Seq<char>, MemoryType, Seq<char>)> {
    let ls = lines(content);
    if ls.len() == 0 || trim(ls[0]) != "---"@ {
        None
    } else {
        let k = closing_line(ls, 1);
        let header = ls.subrange(1, k);
        let t = parsed_type(trim(header_value(header, "type"@)));
        Some(
            (
                header_value(header, "name"@),
                header_value(header, "description"@),
                if t is Some {
                    t->0
                } else {
                    MemoryType::User
                },
                trim(join(body_lines(ls, k), "\n"@)),
            ),
        )
    }
}

/// A key line `key: value` of a header gives back its key and its value.
proof fn lemma_header_line(key: Seq<char>, v: Seq<char>)
    requires
        key.len() > 0,
        forall|j: int| 0 <= j < key.len() ==> key[j] != ':',
        !is_space(key[0]),
        !is_space(key.last()),
        trim(v) == v,
    ensures
        header_field(key + ": "@ + v) == Some((key, v)),
        trim(key + ": "@ + v).len() > 0,
        trim(key + ": "@ + v)[0] == key[0],
{
    reveal_strlit(": ");
    reveal_strlit(":");
    let line = key + ": "@ + v;
    let t = key + ":"@ + (if v.len() > 0 {
        " "@ + v
    } else {
        Seq::empty()
    });
    reveal_strlit(" ");
    lemma_strip_start_noop(line, CharClass::Space);
    if v.len() > 0 {
        lemma_trimmed_ends(v);
        assert(line =~= t);
        lemma_strip_end_noop(line, CharClass::Space);
    } else {
        assert(line =~= (key + ":"@) + " "@);
        lemma_strip_end_append(key + ":"@, " "@, CharClass::Space);
        lemma_strip_end_noop(key + ":"@, CharClass::Space);
        assert(t =~= key + ":"@);
    }
    assert(trim(line) == t);
    let p = key.len() as int;
    assert(t.subrange(p, p + 1) =~= ":"@);
    assert forall|j: int| 0 <= j < p implies !matches_at(t, ":"@, j) by {
        if matches_at(t, ":"@, j) {
            assert(t.subrange(j, j + 1)[0] == t[j]);
        }
    }
    lemma_find_from_first(t, ":"@, 0, p);
    assert(t.subrange(0, p) =~= key);
    lemma_trim_noop(key);
    if v.len() > 0 {
        assert(t.subrange(p + 1, t.len() as int) =~= " "@ + v);
        lemma_strip_start_prepend(" "@, v, CharClass::Space);
    } else {
        assert(t.subrange(p + 1, t.len() as int) =~= Seq::<char>::empty());
    }
}

/// No newline in the text.
pub open spec fn no_newline(s: Seq<char>) -> bool {
    forall|j: int| 0 <= j < s.len() ==> s[j] != '\n'
}

/// The header line `key: value`.
pub open spec fn key_line(key: Seq<char>, v: Seq<char>) -> Seq<char> {
    key + ": "@ + v
}

/// The header values of the three lines that `write_entry` writes.
proof fn lemma_written_header(name: Seq<char>, description: Seq<char>, l: Seq<char>)
    requires
        trim(name) == name,
        trim(description) == description,
        trim(l) == l,
    ensures
        ({
            let h = seq![
                key_line("name"@, name),
                key_line("description"@, description),
                key_line("type"@, l),
            ];
            &&& header_value(h, "name"@) == name
            &&& header_value(h, "description"@) == description
            &&& header_value(h, "type"@) == l
        }),
{
    reveal_strlit("name");
    reveal_strlit("description");
    reveal_strlit("type");
    lemma_header_line("name"@, name);
    lemma_header_line("description"@, description);
    lemma_header_line("type"@, l);
    let h = seq![key_line("name"@, name), key_line("description"@, description), key_line("type"@, l)];
    assert(h.drop_last() =~= seq![key_line("name"@, name), key_line("description"@, description)]);
    assert(h.drop_last().drop_last() =~= seq![key_line("name"@, name)]);
    assert(h.drop_last().drop_last().drop_last() =~= Seq::<Seq<char>>::empty());
    assert("name"@ != "description"@);
    assert("name"@[0] != "type"@[0]);
    assert("description"@ != "type"@);
    let h2 = h.drop_last();
    let h1 = h2.drop_last();
    assert(h.last() == key_line("type"@, l));
    assert(h2.last() == key_line("description"@, description));
    assert(h1.last() == key_line("name"@, name));
    assert(header_value(h1, "name"@) == name);
    assert(header_value(h2, "name"@) == name);
    assert(header_value(h, "name"@) == name);
    assert(header_value(h1.drop_last(), "description"@) == Seq::<char>::empty());
    assert(header_value(h1, "description"@) == Seq::<char>::empty());
    assert(header_value(h2, "description"@) == description);
    assert(header_value(h, "description"@) == description);
    assert(header_value(h, "type"@) == l);
}

/// The text of a written memory, trimmed as it is read: the header, then, after a blank
/// line, the body without its trailing whitespace, when anything of it is left.
proof fn lemma_written_trimmed(t: MemoryType, name: Seq<char>, description: Seq<char>, body: Seq<char>)
    ensures
        trim(entry_text(t, name, description, body)) == written_header(t, name, description) + (
        if strip_end(body, CharClass::Space).len() > 0 {
            "\n\n"@ + strip_end(body, CharClass::Space)
        } else {
            Seq::empty()
        }),
{
    reveal_strlit("---\nname: ");
    reveal_strlit("\ndescription: ");
    reveal_strlit("\ntype: ");
    reveal_strlit("\n---\n\n");
    reveal_strlit("\n");
    reveal_strlit("\n\n");
    reveal_strlit("\n---");
    let k = CharClass::Space;
    let p = written_header(t, name, description);
    let nl = "\n"@;
    let e = strip_end(body, k);
    let text = entry_text(t, name, description, body);
    assert(text =~= (p + "\n\n"@ + body) + nl);
    lemma_strip_start_noop(text, k);
    lemma_strip_end_append(p + "\n\n"@ + body, nl, k);
    if e.len() > 0 {
        lemma_strip_end_prepend(p + "\n\n"@, body, k);
        assert(p + "\n\n"@ + e =~= p + ("\n\n"@ + e));
    } else {
        lemma_strip_end_prepend_blank(p + "\n\n"@, body, k);
        lemma_strip_end_append(p, "\n\n"@, k);
        lemma_strip_end_noop(p, k);
        assert(p + Seq::<char>::empty() =~= p);
    }
}

/// The header block that `write_entry` writes, up to its closing `---`.
pub open spec fn written_header(t: MemoryType, name: Seq<char>, description: Seq<char>) -> Seq<char> {
    "---\nname: "@ + name + "\ndescription: "@ + description + "\ntype: "@ + type_label(t) + "\n---"@
}

/// The lines of a written memory, as read.
proof fn lemma_written_lines(t: MemoryType, name: Seq<char>, description: Seq<char>, body: Seq<char>)
    requires
        trim(name) == name,
        no_newline(name),
        trim(description) == description,
        no_newline(description),
    ensures
        lines(written_header(t, name, description) + (if body.len() > 0 {
            "\n\n"@ + body
        } else {
            Seq::empty()
        })) == seq![
            "---"@,
            key_line("name"@, name),
            key_line("description"@, description),
            key_line("type"@, type_label(t)),
            "---"@,
        ] + (if body.len() > 0 {
            seq![Seq::<char>::empty()] + lines(body)
        } else {
            Seq::<Seq<char>>::empty()
        }),
{
    reveal_strlit("---\nname: ");
    reveal_strlit("\ndescription: ");
    reveal_strlit("\ntype: ");
    reveal_strlit("\n---");
    reveal_strlit("\n\n");
    reveal_strlit("---");
    reveal_strlit("name");
    reveal_strlit("description");
    reveal_strlit("type");
    reveal_strlit(": ");
    reveal_strlit("user");
    reveal_strlit("project");
    reveal_strlit("feedback");
    reveal_strlit("reference");
    let l = type_label(t);
    let dash = "---"@;
    let nl = seq!['\n'];
    let n_line = key_line("name"@, name);
    let d_line = key_line("description"@, description);
    let t_line = key_line("type"@, l);
    let rest = if body.len() > 0 {
        "\n\n"@ + body
    } else {
        Seq::empty()
    };
    let x = written_header(t, name, description) + rest;
    let y4 = dash + rest;
    let y3 = t_line + nl + y4;
    let y2 = d_line + nl + y3;
    let y1 = n_line + nl + y2;
    assert(x =~= dash + nl + y1);
    assert(no_newline(n_line));
    assert(no_newline(d_line));
    assert(no_newline(t_line));
    lemma_lines_cons(dash, y1);
    lemma_lines_cons(n_line, y2);
    lemma_lines_cons(d_line, y3);
    lemma_lines_cons(t_line, y4);
    if name.len() > 0 {
        lemma_trimmed_ends(name);
        assert(n_line.last() == name.last());
    }
    if description.len() > 0 {
        lemma_trimmed_ends(description);
        assert(d_line.last() == description.last());
    }
    assert(strip_cr(dash) == dash);
    assert(strip_cr(n_line) == n_line);
    assert(strip_cr(d_line) == d_line);
    assert(strip_cr(t_line) == t_line);
    let tail = if body.len() > 0 {
        seq![Seq::<char>::empty()] + lines(body)
    } else {
        Seq::<Seq<char>>::empty()
    };
    if body.len() > 0 {
        let e = Seq::<char>::empty();
        assert(y4 =~= dash + nl + (e + nl + body));
        lemma_lines_cons(dash, e + nl + body);
        lemma_lines_cons(e, body);
        assert(strip_cr(e) == e);
        assert(lines(y4) =~= seq![dash] + tail);
    } else {
        assert(y4 =~= dash);
        lemma_lines_single(dash);
        assert(lines(y4) =~= seq![dash] + tail);
    }
    assert(lines(x) =~= seq![dash, n_line, d_line, t_line, dash] + tail);
}

/// What `write_entry` writes, `read_entry` reads back: the file's text, trimmed as it
/// is read, parses to the name, description and type it was written with and to the
/// trimmed body, for a name and a description on one line each, with nothing to trim,
/// and a body with no carriage return before a newline.
pub proof fn law_write_then_read(t: MemoryType, name: Seq<char>, description: Seq<char>, body: Seq<char>)
    requires
        trim(name) == name,
        no_newline(name),
        trim(description) == description,
        no_newline(description),
        no_crlf(body),
    ensures
        trim(entry_text(t, name, description, body)).len() > 0,
        frontmatter_of(trim(entry_text(t, name, description, body))) == Some(
            (name, description, t, trim(body)),
        ),
{
    reveal_strlit("---");
    reveal_strlit("name");
    reveal_strlit("description");
    reveal_strlit("type");
    reveal_strlit("\n");
    let k = CharClass::Space;
    let e = strip_end(body, k);
    let l = type_label(t);
    law_type_label_parses(t);
    lemma_written_trimmed(t, name, description, body);
    lemma_written_lines(t, name, description, e);
    lemma_written_header(name, description, l);
    lemma_trim_strip_end(body);
    lemma_strip_end_props(body, k);
    let dash = "---"@;
    let n_line = key_line("name"@, name);
    let d_line = key_line("description"@, description);
    let t_line = key_line("type"@, l);
    lemma_header_line("name"@, name);
    lemma_header_line("description"@, description);
    lemma_header_line("type"@, l);
    let x = trim(entry_text(t, name, description, body));
    let tail = if e.len() > 0 {
        seq![Seq::<char>::empty()] + lines(e)
    } else {
        Seq::<Seq<char>>::empty()
    };
    let ls = lines(x);
    assert(ls == seq![dash, n_line, d_line, t_line, dash] + tail);
    lemma_trim_noop(dash);
    assert(trim(ls[0]) == "---"@);
    assert(trim(ls[1]) != "---"@);
    assert(trim(ls[2]) != "---"@);
    assert(trim(ls[3]) != "---"@);
    assert(trim(ls[4]) == "---"@);
    assert(closing_line(ls, 4) == 4);
    assert(closing_line(ls, 3) == 4);
    assert(closing_line(ls, 2) == 4);
    assert(closing_line(ls, 1) == 4);
    assert(ls.subrange(1, 4) =~= seq![n_line, d_line, t_line]);
    if e.len() > 0 {
        assert(body_lines(ls, 4) =~= tail);
        assert(lines(e).len() > 0) by {
            lemma_line_end(e, 0);
        }
        lemma_join_cons(Seq::<char>::empty(), lines(e), "\n"@);
        assert(no_crlf(e)) by {
            assert forall|j: int| 0 <= j < e.len() - 1 implies !(#[trigger] e[j] == '\r' && e[j + 1]
                == '\n') by {
                assert(e[j] == body[j] && e[j + 1] == body[j + 1]);
            }
        }
        lemma_join_lines(e);
        assert(join(body_lines(ls, 4), "\n"@) =~= "\n"@ + e);
        lemma_strip_start_prepend("\n"@, e, k);
        assert(trim("\n"@ + e) == trim(e));
    } else {
        assert(body_lines(ls, 4) =~= Seq::<Seq<char>>::empty());
        assert(e =~= Seq::<char>::empty());
        assert(join(Seq::<Seq<char>>::empty(), "\n"@) =~= Seq::<char>::empty());
    }
}

/// Parse the frontmatter block and the body of a memory file.
pub fn parse_frontmatter(content: &str) -> (r: Result<(MemoryFrontmatter, String), FrontmatterError>)
    ensures
        match r {
            Ok((fm, body)) => frontmatter_of(content@) == Some(
                (fm.name@, fm.description@, fm.memory_type, body@),
            ),
            Err(e) => frontmatter_of(content@) is None && e == FrontmatterError::MissingOpening,
        },
{
    let s = chars_of(content);
    let rs = line_ranges(&s);
    let ghost ls = lines(s@);
    let dashes = chars_of("---");
    let first_ok = if rs.len() > 0 {
        let (lo, hi) = rs[0];
        assert(rs@[0].0 <= rs@[0].1 <= s@.len());
        let (a, b) = trim_range(&s, lo, hi);
        equals_in(&s, a, b, &dashes)
    } else {
        false
    };
    if !first_ok {
        return Err(FrontmatterError::MissingOpening);
    }
    let name_key = chars_of("name");
    let description_key = chars_of("description");
    let type_key = chars_of("type");
    let colon = chars_of(":");
    let mut name = String::new();
    let mut description = String::new();
    let mut type_str = String::new();
    let mut i: usize = 1;
    proof {
        lemma_closing_line(ls, 1);
        assert(ls.subrange(1, 1) =~= Seq::<Seq<char>>::empty());
        reveal_strlit("name");
        reveal_strlit("description");
        reveal_strlit("type");
    }
    while i < rs.len()
        invariant
            1 <= i <= rs.len(),
            ranges_within(s@.len(), rs@),
            range_texts(s@, rs@) == ls,
            dashes@ == "---"@,
            name_key@ == "name"@,
            description_key@ == "description"@,
            type_key@ == "type"@,
            colon@ == ":"@,
            closing_line(ls, 1) == closing_line(ls, i as int),
            name@ == header_value(ls.subrange(1, i as int), "name"@),
            description@ == header_value(ls.subrange(1, i as int), "description"@),
            type_str@ == header_value(ls.subrange(1, i as int), "type"@),
        ensures
            1 <= i <= rs.len(),
            closing_line(ls, 1) == i,
            name@ == header_value(ls.subrange(1, i as int), "name"@),
            description@ == header_value(ls.subrange(1, i as int), "description"@),
            type_str@ == header_value(ls.subrange(1, i as int), "type"@),
        decreases rs.len() - i,
    {
        proof {
            reveal_strlit("name");
            reveal_strlit("description");
            reveal_strlit("type");
            assert("name"@.len() != "description"@.len());
            assert("name"@[0] != "type"@[0]);
            assert("type"@.len() != "description"@.len());
        }
        let (lo, hi) = rs[i];
        assert(rs@[i as int].0 <= rs@[i as int].1 <= s@.len());
        assert(ls[i as int] == s@.subrange(lo as int, hi as int));
        let (a, b) = trim_range(&s, lo, hi);
        if equals_in(&s, a, b, &dashes) {
            assert(closing_line(ls, i as int) == i);
            break;
        }
        assert(ls.subrange(1, i + 1).drop_last() =~= ls.subrange(1, i as int));
        assert(ls.subrange(1, i + 1).last() == ls[i as int]);
        if let Some(p) = find_in(&s, a, b, &colon) {
            proof {
                crate::text::lemma_find_from_bounds(s@.subrange(a as int, b as int), ":"@, 0);
                reveal_strlit(":");
                assert(s@.subrange(a as int, b as int).subrange(0, p as int) =~= s@.subrange(
                    a as int,
                    a + p,
                ));
                assert(s@.subrange(a as int, b as int).subrange(p + 1, b - a) =~= s@.subrange(
                    a + p + 1,
                    b as int,
                ));
            }
            let (ka, kb) = trim_range(&s, a, a + p);
            let (va, vb) = trim_range(&s, a + p + 1, b);
            if equals_in(&s, ka, kb, &name_key) {
                name = string_of(&s, va, vb);
            } else if equals_in(&s, ka, kb, &description_key) {
                description = string_of(&s, va, vb);
            } else if equals_in(&s, ka, kb, &type_key) {
                type_str = string_of(&s, va, vb);
            }
        }
        i += 1;
    }
    let k = i;
    proof {
        lemma_closing_line(ls, 1);
        reveal_strlit("\n");
    }
    let mut joined: Vec<char> = Vec::new();
    if k < rs.len() {
        let mut j = k + 1;
        assert(ls.subrange(k + 1, j as int) =~= Seq::<Seq<char>>::empty());
        while j < rs.len()
            invariant
                k < rs.len(),
                k + 1 <= j <= rs.len(),
                ranges_within(s@.len(), rs@),
                range_texts(s@, rs@) == ls,
                joined@ == join(ls.subrange(k + 1, j as int), "\n"@),
            decreases rs.len() - j,
        {
            proof {
                reveal_strlit("\n");
            }
            let (lo, hi) = rs[j];
            assert(rs@[j as int].0 <= rs@[j as int].1 <= s@.len());
            assert(ls[j as int] == s@.subrange(lo as int, hi as int));
            let ghost before = joined@;
            if j > k + 1 {
                joined.push('\n');
            }
            assert(s@.subrange(lo as int, lo as int) =~= Seq::<char>::empty());
            assert(joined@ =~= (if j > k + 1 {
                before + "\n"@
            } else {
                before
            }) + s@.subrange(lo as int, lo as int));
            let mut c = lo;
            while c < hi
                invariant
                    lo <= c <= hi <= s@.len(),
                    joined@ == (if j > k + 1 {
                        before + "\n"@
                    } else {
                        before
                    }) + s@.subrange(lo as int, c as int),
                decreases hi - c,
            {
                joined.push(s[c]);
                assert(s@.subrange(lo as int, c + 1) =~= s@.subrange(lo as int, c as int).push(s@[c as int]));
                c += 1;
            }
            proof {
                reveal_strlit("\n");
                let sub = ls.subrange(k + 1, j + 1);
                assert(sub.drop_last() =~= ls.subrange(k + 1, j as int));
                if j == k + 1 {
                    assert(sub.len() == 1);
                    assert(joined@ =~= sub[0]);
                } else {
                    assert(joined@ =~= before + "\n"@ + sub.last());
                }
            }
            j += 1;
        }
        assert(ls.subrange(k + 1, j as int) == body_lines(ls, k as int));
    } else {
        assert(joined@ =~= join(body_lines(ls, k as int), "\n"@));
    }
    let (ba, bb) = trim_range(&joined, 0, joined.len());
    assert(joined@.subrange(0, joined@.len() as int) =~= joined@);
    let body = string_of(&joined, ba, bb);
    let memory_type = match MemoryType::parse(type_str.as_str()) {
        Some(t) => t,
        None => MemoryType::User,
    };
    Ok((MemoryFrontmatter { name, description, memory_type }, body))
}


/// The memory that a file's text holds, as `read_entry` reads it: the text is trimmed;
/// an empty file holds none; otherwise its frontmatter and body are parsed.
pub fn parse_entry(content: &str, file_path: &str) -> (r: Result<Option<MemoryEntry>, FrontmatterError>)
    ensures
        match r {
            Ok(None) => trim(content@).len() == 0,
            Ok(Some(e)) => {
                &&& trim(content@).len() > 0
                &&& frontmatter_of(trim(content@)) == Some(
                    (
                        e.frontmatter.name@,
                        e.frontmatter.description@,
                        e.frontmatter.memory_type,
                        e.body@,
                    ),
                )
                &&& e.file_path@ == file_path@
            },
            Err(e) => {
                &&& trim(content@).len() > 0
                &&& frontmatter_of(trim(content@)) is None
                &&& e == FrontmatterError::MissingOpening
            },
        },
{
    let s = chars_of(content);
    assert(s@.subrange(0, s@.len() as int) =~= s@);
    let (a, b) = trim_range(&s, 0, s.len());
    if a == b {
        return Ok(None);
    }
    let trimmed = string_of(&s, a, b);
    match parse_frontmatter(trimmed.as_str()) {
        Ok((frontmatter, body)) => Ok(
            Some(MemoryEntry { frontmatter, body, file_path: String::from_str(file_path) }),
        ),
        Err(e) => Err(e),
    }
}

/// The size of a text in bytes, UTF-8 encoded.
pub open spec fn byte_len(s: Seq<char>) -> nat {
    vstd::utf8::encode_utf8(s).len()
}

/// The prompt block of one memory: a comment line with its name and type, then its body.
pub open spec fn memory_block(e: MemoryEntry) -> Seq<char> {
    "<!-- name: "@ + e.frontmatter.name@ + " | type: "@ + type_label(e.frontmatter.memory_type)
        + " -->\n"@ + e.body@
}

/// How many leading memories of `es` have blocks that fit, together, in `budget` bytes.
pub open spec fn fitting(es: Seq<MemoryEntry>, budget: int) -> nat
    decreases es.len(),
{
    if es.len() == 0 {
        0
    } else if byte_len(memory_block(es[0])) > budget {
        0
    } else {
        1 + fitting(es.drop_first(), budget - byte_len(memory_block(es[0])))
    }
}

/// The bytes of the blocks of the memories `es`, together.
pub open spec fn block_bytes(es: Seq<MemoryEntry>) -> nat
    decreases es.len(),
{
    if es.len() == 0 {
        0
    } else {
        byte_len(memory_block(es[0])) + block_bytes(es.drop_first())
    }
}

/// The memories that are kept fit the budget together, and when one is left out, taking
/// it as well would exceed the budget.
pub proof fn law_kept_blocks_fit(es: Seq<MemoryEntry>, budget: int)
    requires
        budget >= 0,
    ensures
        fitting(es, budget) <= es.len(),
        block_bytes(es.take(fitting(es, budget) as int)) <= budget,
        fitting(es, budget) < es.len() ==> block_bytes(es.take(fitting(es, budget) as int + 1)) > budget,
    decreases es.len(),
{
    let k = fitting(es, budget) as int;
    if es.len() == 0 {
        assert(es.take(0).len() == 0);
    } else {
        let first = byte_len(memory_block(es[0]));
        if first > budget {
            assert(es.take(0).len() == 0);
            assert(es.take(1).drop_first() =~= Seq::<MemoryEntry>::empty());
            assert(block_bytes(Seq::<MemoryEntry>::empty()) == 0);
        } else {
            let rest = es.drop_first();
            law_kept_blocks_fit(rest, budget - first);
            assert(k == 1 + fitting(rest, budget - first));
            assert(es.take(k).drop_first() =~= rest.take(k - 1));
            assert(es.take(k)[0] == es[0]);
            if k < es.len() {
                assert(es.take(k + 1).drop_first() =~= rest.take(k));
                assert(es.take(k + 1)[0] == es[0]);
            }
        }
    }
}

/// The blocks of the memories of type `t` in `es`, in order.
pub open spec fn blocks_of(es: Seq<MemoryEntry>, t: MemoryType) -> Seq<Seq<char>>
    decreases es.len(),
{
    if es.len() == 0 {
        Seq::empty()
    } else if es.last().frontmatter.memory_type == t {
        blocks_of(es.drop_last(), t).push(memory_block(es.last()))
    } else {
        blocks_of(es.drop_last(), t)
    }
}

/// The blocks joined by blank lines between an opening and a closing tag, or nothing
/// when there are no blocks.
pub open spec fn tagged(blocks: Seq<Seq<char>>, open: Seq<char>, close: Seq<char>) -> Seq<Seq<char>> {
    if blocks.len() == 0 {
        Seq::empty()
    } else {
        seq![open + join(blocks, "\n\n"@) + close]
    }
}

/// The system-prompt text of the global memories `es` within `max` bytes: the memories
/// whose blocks fit, in order, grouped as user, feedback and reference (project memories
/// are dropped); a truncation note comes first when some memory did not fit.
pub open spec fn global_memory_text(es: Seq<MemoryEntry>, max: nat) -> Seq<char> {
    let k = fitting(es, max as int);
    let kept = es.take(k as int);
    join(
        (if k < es.len() {
            seq!["\u{2026}(memory truncated)"@]
        } else {
            Seq::empty()
        }) + tagged(blocks_of(kept, MemoryType::User), "<user_memory>\n"@, "\n</user_memory>"@)
            + tagged(
            blocks_of(kept, MemoryType::Feedback),
            "<feedback_memory>\n"@,
            "\n</feedback_memory>"@,
        ) + tagged(
            blocks_of(kept, MemoryType::Reference),
            "<reference_memory>\n"@,
            "\n</reference_memory>"@,
        ),
        "\n\n"@,
    )
}

/// The system-prompt text of the memories `es` of the project `slug` within `max` bytes:
/// the blocks that fit, in order, then a truncation note when some memory did not fit;
/// `None` when there is nothing to show.
pub open spec fn project_memory_text(es: Seq<MemoryEntry>, slug: Seq<char>, max: nat) -> Option<Seq<char>> {
    let k = fitting(es, max as int);
    let blocks = es.take(k as int).map_values(|e: MemoryEntry| memory_block(e)) + (if k < es.len() {
        seq!["\u{2026}(project memory truncated)"@]
    } else {
        Seq::empty()
    });
    if blocks.len() == 0 {
        None
    } else {
        Some("<project_memory slug=\""@ + slug + "\">\n"@ + join(blocks, "\n\n"@) + "\n</project_memory>"@)
    }
}

/// Of the first `m` memories, as many fit as fit of all of them, at most `m`.
proof fn lemma_fitting_take(es: Seq<MemoryEntry>, budget: int, m: int)
    requires
        0 <= m <= es.len(),
    ensures
        fitting(es.take(m), budget) == if fitting(es, budget) < m {
            fitting(es, budget)
        } else {
            m as nat
        },
    decreases es.len(),
{
    let t = es.take(m);
    if m == 0 {
        assert(t.len() == 0);
    } else {
        assert(t[0] == es[0]);
        assert(t.drop_first() =~= es.drop_first().take(m - 1));
        lemma_fitting_take(es.drop_first(), budget - byte_len(memory_block(es[0])), m - 1);
    }
}

/// Truncation keeps what fits: when some project memories do not fit, the project text
/// is the text of the memories that fit, on their own, with the truncation note after
/// their blocks, or the note alone when none fits; no memories give no text.
pub proof fn law_project_truncation_keeps_fitting(es: Seq<MemoryEntry>, slug: Seq<char>, max: nat)
    ensures
        ({
            let k = fitting(es, max as int);
            let open = "<project_memory slug=\""@ + slug + "\">\n"@;
            let close = "\n</project_memory>"@;
            let note = "\u{2026}(project memory truncated)"@;
            &&& fitting(es.take(k as int), max as int) == k
            &&& es.len() == 0 ==> project_memory_text(es, slug, max) is None
            &&& k == 0 < es.len() ==> project_memory_text(es, slug, max) == Some(open + note + close)
            &&& 0 < k < es.len() ==> exists|body: Seq<char>|
                #![trigger open + body + close]
                project_memory_text(es.take(k as int), slug, max) == Some(open + body + close)
                    && project_memory_text(es, slug, max) == Some(
                    open + body + "\n\n"@ + note + close,
                )
        }),
{
    let k = fitting(es, max as int);
    law_kept_blocks_fit(es, max as int);
    lemma_fitting_take(es, max as int, k as int);
    let open = "<project_memory slug=\""@ + slug + "\">\n"@;
    let close = "\n</project_memory>"@;
    let note = "\u{2026}(project memory truncated)"@;
    let kept = es.take(k as int);
    let blocks = kept.map_values(|e: MemoryEntry| memory_block(e));
    if k == 0 && es.len() > 0 {
        assert(blocks.len() == 0);
        assert(blocks + seq![note] =~= seq![note]);
        assert(join(seq![note], "\n\n"@) == note);
    }
    if 0 < k < es.len() {
        assert(kept.take(k as int) =~= kept);
        let all = blocks + seq![note];
        assert(all.drop_last() =~= blocks);
        assert(blocks + Seq::<Seq<char>>::empty() =~= blocks);
        let body = join(blocks, "\n\n"@);
        assert(join(all, "\n\n"@) == body + "\n\n"@ + note);
        assert(project_memory_text(kept, slug, max) == Some(open + body + close));
        assert(open + join(all, "\n\n"@) + close =~= open + body + "\n\n"@ + note + close);
    }
}

/// A memory that fits after the others adds its block after theirs: the project text of
/// the memories with one more, all fitting, is their text with the new memory's block
/// before the closing tag; the text of one memory that fits holds its block alone.
pub proof fn law_project_adds_fitting_memory(es: Seq<MemoryEntry>, e: MemoryEntry, slug: Seq<char>, max: nat)
    requires
        fitting(es.push(e), max as int) == es.len() + 1,
    ensures
        ({
            let open = "<project_memory slug=\""@ + slug + "\">\n"@;
            let close = "\n</project_memory>"@;
            &&& es.len() == 0 ==> project_memory_text(es.push(e), slug, max) == Some(
                open + memory_block(e) + close,
            )
            &&& es.len() > 0 ==> exists|body: Seq<char>|
                #![trigger open + body + close]
                project_memory_text(es, slug, max) == Some(open + body + close)
                    && project_memory_text(es.push(e), slug, max) == Some(
                    open + body + "\n\n"@ + memory_block(e) + close,
                )
        }),
{
    let all = es.push(e);
    lemma_fitting_take(all, max as int, es.len() as int);
    assert(all.take(es.len() as int) =~= es);
    assert(all.take(all.len() as int) =~= all);
    assert(es.take(es.len() as int) =~= es);
    let f = |x: MemoryEntry| memory_block(x);
    let bs = es.map_values(f);
    let ball = all.map_values(f);
    assert(ball =~= bs.push(memory_block(e)));
    assert(ball + Seq::<Seq<char>>::empty() =~= ball);
    assert(bs + Seq::<Seq<char>>::empty() =~= bs);
    if es.len() == 0 {
        assert(ball =~= seq![memory_block(e)]);
    } else {
        assert(ball.drop_last() =~= bs);
        let body = join(bs, "\n\n"@);
        assert(join(ball, "\n\n"@) == body + "\n\n"@ + memory_block(e));
        let open = "<project_memory slug=\""@ + slug + "\">\n"@;
        let close = "\n</project_memory>"@;
        assert(open + join(ball, "\n\n"@) + close =~= open + body + "\n\n"@ + memory_block(e) + close);
        assert(project_memory_text(es, slug, max) == Some(open + body + close));
    }
}

/// The budget in bytes: the one given, or the default.
pub open spec fn budget(max_size: Option<usize>) -> nat {
    match max_size {
        Some(m) => m as nat,
        None => DEFAULT_MAX_TOTAL_SIZE as nat,
    }
}

/// The prompt block of one memory.
fn block_text(e: &MemoryEntry) -> (r: String)
    ensures
        r@ == memory_block(*e),
{
    let mut r = String::from_str("<!-- name: ");
    r.append(e.frontmatter.name.as_str());
    r.append(" | type: ");
    r.append(e.frontmatter.memory_type.as_str());
    r.append(" -->\n");
    r.append(e.body.as_str());
    r
}

proof fn lemma_fitting_step(es: Seq<MemoryEntry>, i: int, budget: int)
    requires
        0 <= i < es.len(),
    ensures
        fitting(es.skip(i), budget) == if byte_len(memory_block(es[i])) > budget {
            0
        } else {
            1 + fitting(es.skip(i + 1), budget - byte_len(memory_block(es[i])))
        },
{
    assert(es.skip(i).drop_first() =~= es.skip(i + 1));
    assert(es.skip(i)[0] == es[i]);
}

proof fn lemma_blocks_of_step(es: Seq<MemoryEntry>, i: int, t: MemoryType)
    requires
        0 <= i < es.len(),
    ensures
        blocks_of(es.take(i + 1), t) == if es[i].frontmatter.memory_type == t {
            blocks_of(es.take(i), t).push(memory_block(es[i]))
        } else {
            blocks_of(es.take(i), t)
        },
{
    assert(es.take(i + 1).drop_last() =~= es.take(i));
}

/// The blocks wrapped in their tags, appended to `parts` when there are any.
fn push_tagged(parts: &mut Vec<String>, blocks: &Vec<String>, open: &str, close: &str)
    ensures
        string_views(final(parts)@) == string_views(old(parts)@) + tagged(
            string_views(blocks@),
            open@,
            close@,
        ),
{
    if blocks.len() == 0 {
        assert(string_views(parts@) =~= string_views(parts@) + Seq::<Seq<char>>::empty());
        return;
    }
    let mut t = String::from_str(open);
    let inner = join_strings(blocks, "\n\n");
    t.append(inner.as_str());
    t.append(close);
    proof {
        lemma_string_views_push(parts@, t);
    }
    let ghost before = string_views(parts@);
    parts.push(t);
    assert(string_views(parts@) =~= before + tagged(string_views(blocks@), open@, close@));
}

/// Appends a string to a list of strings, with what that does to their characters.
fn push_string(v: &mut Vec<String>, t: String)
    ensures
        string_views(final(v)@) == string_views(old(v)@).push(t@),
{
    proof {
        lemma_string_views_push(v@, t);
    }
    v.push(t);
}

impl MemoryStore {
    /// The system-prompt text of the global memories `entries` (those read from the root
    /// and `reference/`, in listing order) within `max_size` bytes (128 KiB by default).
    pub fn compose_all_blocks(&self, entries: &Vec<MemoryEntry>, max_size: Option<usize>) -> (r:
        String)
        ensures
            r@ == global_memory_text(entries@, budget(max_size)),
    {
        let max = match max_size {
            Some(m) => m,
            None => DEFAULT_MAX_TOTAL_SIZE,
        };
        let ghost es = entries@;
        let mut total: usize = 0;
        let mut truncated = false;
        let mut user_blocks: Vec<String> = Vec::new();
        let mut feedback_blocks: Vec<String> = Vec::new();
        let mut reference_blocks: Vec<String> = Vec::new();
        let mut i: usize = 0;
        assert(es.skip(0) =~= es);
        while i < entries.len()
            invariant_except_break
                !truncated,
            invariant
                es == entries@,
                max == budget(max_size),
                i <= entries.len(),
                total <= max,
                fitting(es, max as int) == i + fitting(es.skip(i as int), max - total),
                string_views(user_blocks@) == blocks_of(es.take(i as int), MemoryType::User),
                string_views(feedback_blocks@) == blocks_of(es.take(i as int), MemoryType::Feedback),
                string_views(reference_blocks@) == blocks_of(es.take(i as int), MemoryType::Reference),
            ensures
                i <= entries.len(),
                fitting(es, max as int) == i,
                truncated == (i < entries.len()),
                string_views(user_blocks@) == blocks_of(es.take(i as int), MemoryType::User),
                string_views(feedback_blocks@) == blocks_of(es.take(i as int), MemoryType::Feedback),
                string_views(reference_blocks@) == blocks_of(es.take(i as int), MemoryType::Reference),
            decreases entries.len() - i,
        {
            let e = &entries[i];
            let block = block_text(e);
            let size = byte_length(block.as_str());
            assert(size == byte_len(block@));
            proof {
                lemma_fitting_step(es, i as int, max - total);
                lemma_blocks_of_step(es, i as int, MemoryType::User);
                lemma_blocks_of_step(es, i as int, MemoryType::Feedback);
                lemma_blocks_of_step(es, i as int, MemoryType::Reference);
            }
            if size > max - total {
                truncated = true;
                break;
            }
            total = total + size;
            match e.frontmatter.memory_type {
                MemoryType::User => push_string(&mut user_blocks, block),
                MemoryType::Feedback => push_string(&mut feedback_blocks, block),
                MemoryType::Reference => push_string(&mut reference_blocks, block),
                MemoryType::Project => {},
            }
            i += 1;
        }
        if !truncated {
            assert(fitting(es.skip(i as int), max - total) == 0);
        }
        let mut parts: Vec<String> = Vec::new();
        if truncated {
            push_string(&mut parts, String::from_str("\u{2026}(memory truncated)"));
        }
        assert(string_views(parts@) =~= (if fitting(es, max as int) < es.len() {
            seq!["\u{2026}(memory truncated)"@]
        } else {
            Seq::empty()
        }));
        push_tagged(&mut parts, &user_blocks, "<user_memory>\n", "\n</user_memory>");
        push_tagged(&mut parts, &feedback_blocks, "<feedback_memory>\n", "\n</feedback_memory>");
        push_tagged(&mut parts, &reference_blocks, "<reference_memory>\n", "\n</reference_memory>");
        assert(parts@.map_values(|t: String| t@) == string_views(parts@));
        join_strings(&parts, "\n\n")
    }

    /// The system-prompt text of the memories `entries` of the project `slug` (those read
    /// from its directory) within `max_size` bytes; `None` when there is nothing to show.
    pub fn compose_project_blocks(
        &self,
        slug: &str,
        entries: &Vec<MemoryEntry>,
        max_size: Option<usize>,
    ) -> (r: Option<String>)
        ensures
            match r {
                Some(t) => project_memory_text(entries@, slug@, budget(max_size)) == Some(t@),
                None => project_memory_text(entries@, slug@, budget(max_size)) is None,
            },
    {
        let max = match max_size {
            Some(m) => m,
            None => DEFAULT_MAX_TOTAL_SIZE,
        };
        let ghost es = entries@;
        let mut total: usize = 0;
        let mut blocks: Vec<String> = Vec::new();
        let mut truncated = false;
        let mut i: usize = 0;
        assert(es.skip(0) =~= es);
        while i < entries.len()
            invariant_except_break
                !truncated,
            invariant
                es == entries@,
                max == budget(max_size),
                i <= entries.len(),
                total <= max,
                fitting(es, max as int) == i + fitting(es.skip(i as int), max - total),
                string_views(blocks@) == es.take(i as int).map_values(|e: MemoryEntry| memory_block(e)),
            ensures
                i <= entries.len(),
                fitting(es, max as int) == i,
                truncated == (i < entries.len()),
                string_views(blocks@) == es.take(i as int).map_values(|e: MemoryEntry| memory_block(e)),
            decreases entries.len() - i,
        {
            let block = block_text(&entries[i]);
            let size = byte_length(block.as_str());
            assert(size == byte_len(block@));
            proof {
                lemma_fitting_step(es, i as int, max - total);
            }
            if size > max - total {
                truncated = true;
                break;
            }
            total = total + size;
            push_string(&mut blocks, block);
            assert(es.take(i + 1).map_values(|e: MemoryEntry| memory_block(e)) =~= es.take(
                i as int,
            ).map_values(|e: MemoryEntry| memory_block(e)).push(memory_block(es[i as int])));
            i += 1;
        }
        if !truncated {
            assert(fitting(es.skip(i as int), max - total) == 0);
        }
        let ghost kept = string_views(blocks@);
        if truncated {
            push_string(&mut blocks, String::from_str("\u{2026}(project memory truncated)"));
        }
        assert(string_views(blocks@) =~= kept + (if fitting(es, max as int) < es.len() {
            seq!["\u{2026}(project memory truncated)"@]
        } else {
            Seq::empty()
        }));
        if blocks.len() == 0 {
            return None;
        }
        let mut r = String::from_str("<project_memory slug=\"");
        r.append(slug);
        r.append("\">\n");
        assert(blocks@.map_values(|t: String| t@) == string_views(blocks@));
        let inner = join_strings(&blocks, "\n\n");
        r.append(inner.as_str());
        r.append("\n</project_memory>");
        Some(r)
    }
}

} // verus!
