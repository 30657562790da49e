//! The `MEMORY.md` index: parsing, rendering and editing.
//!
//! An entry line is a list item holding a wikilink, `- [[file.md]] — description`,
//! or a Markdown link, `- [title](file.md) — description`. Every other line is kept
//! as preamble.

use vstd::prelude::*;

use crate::text::{
    chars_of, contains, find, find_from, lemma_find_from_bounds, line_ranges, matches_at, range_texts,
    ranges_within, skip_start, starts_with, strip_start, strip_suffixes, strip_suffixes_in,
    string_of, trim, trim_range, lines, CharClass, in_class, lemma_find_from_absent,
    lemma_find_from_first, lemma_strip_end_append, lemma_lines_join, lemma_lines_single, lemma_strip_end_noop,
    lemma_strip_start_noop, lemma_strip_start_prepend, lemma_trim_noop, lemma_trimmed_ends, find_in, starts_with_in, contains_in, join,
    join_strings,
};
use crate::types::{lemma_string_views_push, entry_views, string_views, EntryView, IndexEntry, MemoryIndex};

verus! {

/// The part of a list item after its markers, trimmed.
pub open spec fn item_body(line: Seq<char>) -> Seq<char> {
    trim(strip_start(line, CharClass::Bullet))
}

/// A description: what follows a link, without its leading separators, trimmed.
pub open spec fn description_of(after: Seq<char>) -> Seq<char> {
    trim(strip_start(trim(after), CharClass::Separator))
}

/// The entry of a `- [[file.md]] — description` line.
pub open spec fn wikilink_entry(line: Seq<char>) -> Option<EntryView> {
    let inner = item_body(line);
    match find(inner, "[["@) {
        None => None,
        Some(st) => match find(inner.subrange(st, inner.len() as int), "]]"@) {
            None => None,
            Some(en) => {
                let file = inner.subrange(st + 2, st + en);
                Some(
                    (
                        strip_suffixes(file, ".md"@),
                        file,
                        description_of(inner.subrange(st + en + 2, inner.len() as int)),
                    ),
                )
            },
        },
    }
}

/// The entry of a `- [title](file.md) — description` line.
pub open spec fn mdlink_entry(line: Seq<char>) -> Option<EntryView> {
    let inner = item_body(line);
    match find(inner, "["@) {
        None => None,
        Some(ts) => match find(inner.subrange(ts, inner.len() as int), "]"@) {
            None => None,
            Some(te) => match find(inner.subrange(ts + te, inner.len() as int), "("@) {
                None => None,
                Some(ps) => match find(inner.subrange(ts + te + ps, inner.len() as int), ")"@) {
                    None => None,
                    Some(pe) => Some(
                        (
                            inner.subrange(ts + 1, ts + te),
                            inner.subrange(ts + te + ps + 1, ts + te + ps + pe),
                            description_of(inner.subrange(ts + te + ps + pe + 1, inner.len() as int)),
                        ),
                    ),
                },
            },
        },
    }
}

/// The entry that an index line holds, or `None` for a preamble line.
pub open spec fn line_entry(line: Seq<char>) -> Option<EntryView> {
    let t = trim(line);
    if t.len() == 0 || (starts_with(t, "#"@) && !contains(t, "[["@)) {
        None
    } else if !(starts_with(t, "- "@) || starts_with(t, "* "@)) {
        None
    } else if wikilink_entry(t) is Some {
        wikilink_entry(t)
    } else {
        mdlink_entry(t)
    }
}

/// The index that a sequence of lines parses to.
pub open spec fn parse_lines(ls: Seq<Seq<char>>) -> (Seq<EntryView>, Seq<Seq<char>>)
    decreases ls.len(),
{
    if ls.len() == 0 {
        (Seq::empty(), Seq::empty())
    } else {
        let prev = parse_lines(ls.drop_last());
        match line_entry(ls.last()) {
            Some(e) => (prev.0.push(e), prev.1),
            None => (prev.0, prev.1.push(ls.last())),
        }
    }
}

proof fn lemma_sub_sub(s: Seq<char>, a: int, b: int, c: int, d: int)
    requires
        0 <= a <= b <= s.len(),
        0 <= c <= d <= b - a,
    ensures
        s.subrange(a, b).subrange(c, d) == s.subrange(a + c, a + d),
{
    assert(s.subrange(a, b).subrange(c, d) =~= s.subrange(a + c, a + d));
}

/// The bounds of the trimmed body of the list item `s[lo..hi]`.
fn item_body_range(s: &Vec<char>, lo: usize, hi: usize) -> (r: (usize, usize))
    requires
        lo <= hi <= s.len(),
    ensures
        lo <= r.0 <= r.1 <= hi,
        s@.subrange(r.0 as int, r.1 as int) == item_body(s@.subrange(lo as int, hi as int)),
{
    let a0 = skip_start(s, lo, hi, &CharClass::Bullet);
    trim_range(s, a0, hi)
}

/// The description that follows a link, `s[lo..hi]`, as a string.
fn description_in(s: &Vec<char>, lo: usize, hi: usize) -> (r: String)
    requires
        lo <= hi <= s.len(),
    ensures
        r@ == description_of(s@.subrange(lo as int, hi as int)),
{
    let (a, b) = trim_range(s, lo, hi);
    let a2 = skip_start(s, a, b, &CharClass::Separator);
    let (c, d) = trim_range(s, a2, b);
    string_of(s, c, d)
}

proof fn lemma_find_some(s: Seq<char>, pat: Seq<char>)
    ensures
        find(s, pat) matches Some(k) ==> 0 <= k && matches_at(s, pat, k),
{
    lemma_find_from_bounds(s, pat, 0);
}

/// Parse `- [[file.md]] — description` or `- [[file.md]]: description`.
fn parse_wikilink_line(s: &Vec<char>, lo: usize, hi: usize) -> (r: Option<IndexEntry>)
    requires
        lo <= hi <= s.len(),
    ensures
        match r {
            Some(e) => wikilink_entry(s@.subrange(lo as int, hi as int)) == Some(e@),
            None => wikilink_entry(s@.subrange(lo as int, hi as int)) is None,
        },
{
    let ghost line = s@.subrange(lo as int, hi as int);
    let (a, b) = item_body_range(s, lo, hi);
    let ghost inner = s@.subrange(a as int, b as int);
    let open_pat = chars_of("[[");
    let close_pat = chars_of("]]");
    let st = match find_in(s, a, b, &open_pat) {
        Some(st) => st,
        None => return None,
    };
    proof {
        lemma_find_some(inner, "[["@);
        lemma_sub_sub(s@, a as int, b as int, st as int, inner.len() as int);
    }
    let ghost rest = inner.subrange(st as int, inner.len() as int);
    let en = match find_in(s, a + st, b, &close_pat) {
        Some(en) => en,
        None => return None,
    };
    proof {
        lemma_find_some(rest, "]]"@);
        reveal_strlit("[[");
        reveal_strlit("]]");
        assert(inner.subrange(st as int, st + 2)[0] == '[');
        assert(inner.subrange(st as int, st + 2)[1] == '[');
        if en < 2 {
            assert(rest.subrange(en as int, en + 2)[0] == ']');
            assert(rest[en as int] == ']');
            assert(false);
        }
        lemma_sub_sub(s@, a as int, b as int, st + 2, st + en);
        lemma_sub_sub(s@, a as int, b as int, st + en + 2, inner.len() as int);
    }
    let f_lo = a + st + 2;
    let f_hi = a + st + en;
    let file = string_of(s, f_lo, f_hi);
    let t_hi = strip_suffixes_in(s, f_lo, f_hi, &chars_of(".md"));
    let title = string_of(s, f_lo, t_hi);
    let description = description_in(s, a + st + en + 2, b);
    Some(IndexEntry { title, file, description })
}

/// Parse `- [title](file.md) — description`.
fn parse_mdlink_line(s: &Vec<char>, lo: usize, hi: usize) -> (r: Option<IndexEntry>)
    requires
        lo <= hi <= s.len(),
    ensures
        match r {
            Some(e) => mdlink_entry(s@.subrange(lo as int, hi as int)) == Some(e@),
            None => mdlink_entry(s@.subrange(lo as int, hi as int)) is None,
        },
{
    let (a, b) = item_body_range(s, lo, hi);
    let ghost inner = s@.subrange(a as int, b as int);
    let ts = match find_in(s, a, b, &chars_of("[")) {
        Some(k) => k,
        None => return None,
    };
    proof {
        lemma_find_some(inner, "["@);
        lemma_sub_sub(s@, a as int, b as int, ts as int, inner.len() as int);
    }
    let ghost r1 = inner.subrange(ts as int, inner.len() as int);
    let te = match find_in(s, a + ts, b, &chars_of("]")) {
        Some(k) => k,
        None => return None,
    };
    proof {
        lemma_find_some(r1, "]"@);
        reveal_strlit("[");
        reveal_strlit("]");
        assert(inner.subrange(ts as int, ts + 1)[0] == '[');
        if te == 0 {
            assert(r1.subrange(0, 1)[0] == ']');
            assert(false);
        }
        lemma_sub_sub(s@, a as int, b as int, ts + te, inner.len() as int);
    }
    let ghost r2 = inner.subrange(ts + te, inner.len() as int);
    let ps = match find_in(s, a + ts + te, b, &chars_of("(")) {
        Some(k) => k,
        None => return None,
    };
    proof {
        lemma_find_some(r2, "("@);
        reveal_strlit("(");
        assert(r1.subrange(te as int, te + 1)[0] == ']');
        assert(r2[0] == ']');
        if ps == 0 {
            assert(r2.subrange(0, 1)[0] == '(');
            assert(false);
        }
        lemma_sub_sub(s@, a as int, b as int, ts + te + ps, inner.len() as int);
    }
    let ghost r3 = inner.subrange(ts + te + ps, inner.len() as int);
    let pe = match find_in(s, a + ts + te + ps, b, &chars_of(")")) {
        Some(k) => k,
        None => return None,
    };
    proof {
        lemma_find_some(r3, ")"@);
        reveal_strlit(")");
        assert(r2.subrange(ps as int, ps + 1)[0] == '(');
        assert(r3[0] == '(');
        if pe == 0 {
            assert(r3.subrange(0, 1)[0] == ')');
            assert(false);
        }
        lemma_sub_sub(s@, a as int, b as int, ts + 1, ts + te);
        lemma_sub_sub(s@, a as int, b as int, ts + te + ps + 1, ts + te + ps + pe);
        lemma_sub_sub(s@, a as int, b as int, ts + te + ps + pe + 1, inner.len() as int);
    }
    let title = string_of(s, a + ts + 1, a + ts + te);
    let file = string_of(s, a + ts + te + ps + 1, a + ts + te + ps + pe);
    let description = description_in(s, a + ts + te + ps + pe + 1, b);
    Some(IndexEntry { title, file, description })
}


/// The entry that the line `s[lo..hi]` holds, or `None` for a preamble line.
fn parse_line(s: &Vec<char>, lo: usize, hi: usize) -> (r: Option<IndexEntry>)
    requires
        lo <= hi <= s.len(),
    ensures
        match r {
            Some(e) => line_entry(s@.subrange(lo as int, hi as int)) == Some(e@),
            None => line_entry(s@.subrange(lo as int, hi as int)) is None,
        },
{
    let (a, b) = trim_range(s, lo, hi);
    if a == b || (starts_with_in(s, a, b, &chars_of("#")) && !contains_in(
        s,
        a,
        b,
        &chars_of("[["),
    )) {
        return None;
    }
    if !(starts_with_in(s, a, b, &chars_of("- ")) || starts_with_in(s, a, b, &chars_of("* "))) {
        return None;
    }
    if let Some(e) = parse_wikilink_line(s, a, b) {
        return Some(e);
    }
    parse_mdlink_line(s, a, b)
}

/// Parse a `MEMORY.md` string into a structured `MemoryIndex`.
///
/// Recognises both wikilink (`[[file.md]]`) and standard Markdown link
/// (`[title](file.md)`) formats. Lines without a recognised link pattern
/// are treated as preamble.
pub fn parse_index(content: &str) -> (r: MemoryIndex)
    ensures
        r@ == parse_lines(lines(content@)),
{
    let s = chars_of(content);
    let ranges = line_ranges(&s);
    let ghost ls = lines(s@);
    let mut entries: Vec<IndexEntry> = Vec::new();
    let mut preamble: Vec<String> = Vec::new();
    let mut k: usize = 0;
    while k < ranges.len()
        invariant
            k <= ranges.len(),
            ranges_within(s@.len(), ranges@),
            range_texts(s@, ranges@) == ls,
            (entry_views(entries@), string_views(preamble@)) == parse_lines(ls.take(k as int)),
        decreases ranges.len() - k,
    {
        let (lo, hi) = ranges[k];
        assert(ranges@[k as int].0 <= ranges@[k as int].1 <= s@.len());
        assert(ls[k as int] == s@.subrange(lo as int, hi as int));
        assert(ls.take(k + 1).drop_last() =~= ls.take(k as int));
        match parse_line(&s, lo, hi) {
            Some(e) => {
                entries.push(e);
                assert(entry_views(entries@) =~= parse_lines(ls.take(k as int)).0.push(e@));
            },
            None => {
                preamble.push(string_of(&s, lo, hi));
                assert(string_views(preamble@) =~= parse_lines(ls.take(k as int)).1.push(
                    ls[k as int],
                ));
            },
        }
        k += 1;
    }
    assert(ls.take(k as int) =~= ls);
    MemoryIndex { entries, preamble }
}


/// The line that renders an entry: `- [[file]] — description`.
pub open spec fn entry_line(e: EntryView) -> Seq<char> {
    "- [["@ + e.1 + "]] \u{2014} "@ + e.2
}

/// The lines of a rendered index: the preamble, then, when there are entries, a blank
/// line if the preamble is not empty, the navigation heading, a blank line, one line
/// per entry, a blank line and the link to the full index.
pub open spec fn rendered_lines(idx: (Seq<EntryView>, Seq<Seq<char>>)) -> Seq<Seq<char>> {
    if idx.0.len() == 0 {
        idx.1
    } else {
        let head = if idx.1.len() == 0 {
            idx.1
        } else {
            idx.1.push(""@)
        };
        head + seq!["## \u{5feb}\u{901f}\u{5bfc}\u{822a}"@, ""@] + idx.0.map_values(
            |e: EntryView| entry_line(e),
        ) + seq![""@, "\u{5b8c}\u{6574}\u{7d22}\u{5f15} \u{2192} [[index.md]]"@]
    }
}

/// Appends a line, with what that does to the lines' characters.
fn push_line(lines: &mut Vec<String>, t: String)
    ensures
        string_views(final(lines)@) == string_views(old(lines)@).push(t@),
{
    proof {
        lemma_string_views_push(lines@, t);
    }
    lines.push(t);
}

/// Render a `MemoryIndex` back to a `MEMORY.md` string.
pub fn render_index(index: &MemoryIndex) -> (r: String)
    ensures
        r@ == join(rendered_lines(index@), "\n"@),
{
    let ghost pre = string_views(index.preamble@);
    let ghost ents = entry_views(index.entries@);
    proof {
        reveal_strlit("");
    }
    assert(""@ =~= Seq::<char>::empty());
    let mut lines: Vec<String> = Vec::new();
    assert(string_views(lines@) =~= pre.take(0));
    let mut i: usize = 0;
    while i < index.preamble.len()
        invariant
            i <= index.preamble.len(),
            pre == string_views(index.preamble@),
            string_views(lines@) == pre.take(i as int),
        decreases index.preamble.len() - i,
    {
        let t = index.preamble[i].clone();
        push_line(&mut lines, t);
        assert(string_views(lines@) =~= pre.take(i + 1));
        i += 1;
    }
    assert(pre.take(i as int) =~= pre);
    if index.entries.len() != 0 {
        if lines.len() != 0 {
            push_line(&mut lines, String::new());
        }
        let ghost head = string_views(lines@);
        let heading = String::from_str("## \u{5feb}\u{901f}\u{5bfc}\u{822a}");
        push_line(&mut lines, heading);
        push_line(&mut lines, String::new());
        assert(string_views(lines@) == head.push(heading@).push(""@));
        assert(string_views(lines@) =~= head + seq!["## \u{5feb}\u{901f}\u{5bfc}\u{822a}"@, ""@]);
        let ghost top = string_views(lines@);
        let mut j: usize = 0;
        while j < index.entries.len()
            invariant
                j <= index.entries.len(),
                ents == entry_views(index.entries@),
                string_views(lines@) == top + ents.take(j as int).map_values(
                    |e: EntryView| entry_line(e),
                ),
            decreases index.entries.len() - j,
        {
            let e = &index.entries[j];
            let mut line = String::from_str("- [[");
            line.append(e.file.as_str());
            line.append("]] \u{2014} ");
            line.append(e.description.as_str());
            assert(line@ == entry_line(ents[j as int]));
            push_line(&mut lines, line);
            assert(ents.take(j + 1).map_values(|e: EntryView| entry_line(e)) =~= ents.take(
                j as int,
            ).map_values(|e: EntryView| entry_line(e)).push(entry_line(ents[j as int])));
            assert(string_views(lines@) =~= top + ents.take(j + 1).map_values(
                |e: EntryView| entry_line(e),
            ));
            j += 1;
        }
        assert(ents.take(j as int) =~= ents);
        let ghost mid = string_views(lines@);
        push_line(&mut lines, String::new());
        push_line(&mut lines, String::from_str("\u{5b8c}\u{6574}\u{7d22}\u{5f15} \u{2192} [[index.md]]"));
        assert(string_views(lines@) =~= mid + seq![
            ""@,
            "\u{5b8c}\u{6574}\u{7d22}\u{5f15} \u{2192} [[index.md]]"@,
        ]);
    }
    assert(lines@.map_values(|t: String| t@) == string_views(lines@));
    join_strings(&lines, "\n")
}

/// The position of the first entry of `es` at or after `i` whose file is `f`.
pub open spec fn file_position_from(es: Seq<EntryView>, f: Seq<char>, i: int) -> Option<int>
    decreases es.len() - i,
{
    if i < 0 || i >= es.len() {
        None
    } else if es[i].1 == f {
        Some(i)
    } else {
        file_position_from(es, f, i + 1)
    }
}

/// The position of the first entry of `es` whose file is `f`.
pub open spec fn file_position(es: Seq<EntryView>, f: Seq<char>) -> Option<int> {
    file_position_from(es, f, 0)
}

/// The entries after an upsert of `e`: the first entry with the same file takes the new
/// title and description; with no such entry, `e` is appended.
pub open spec fn upserted(es: Seq<EntryView>, e: EntryView) -> Seq<EntryView> {
    match file_position(es, e.1) {
        Some(i) => es.update(i, e),
        None => es.push(e),
    }
}

/// Add an entry to the index, or update it if one with the same file already exists.
pub fn upsert_entry(index: &mut MemoryIndex, entry: IndexEntry)
    ensures
        final(index)@.0 == upserted(old(index)@.0, entry@),
        final(index)@.1 == old(index)@.1,
{
    let ghost es = old(index)@.0;
    let mut i: usize = 0;
    while i < index.entries.len()
        invariant
            i <= index.entries.len(),
            index@ == old(index)@,
            es == old(index)@.0,
            file_position(es, entry@.1) == file_position_from(es, entry@.1, i as int),
        decreases index.entries.len() - i,
    {
        if index.entries[i].file == entry.file {
            let ghost old_entries = index.entries@;
            index.entries.set(i, entry);
            assert(entry_views(index.entries@) =~= es.update(i as int, entry@));
            return;
        }
        i += 1;
    }
    index.entries.push(entry);
    assert(entry_views(index.entries@) =~= es.push(entry@));
}

/// The entries of `es` whose file is not `f`, in order.
pub open spec fn without_file(es: Seq<EntryView>, f: Seq<char>) -> Seq<EntryView>
    decreases es.len(),
{
    if es.len() == 0 {
        es
    } else if es.last().1 == f {
        without_file(es.drop_last(), f)
    } else {
        without_file(es.drop_last(), f).push(es.last())
    }
}

/// Some entry of `es` has the file `f`.
pub open spec fn has_file(es: Seq<EntryView>, f: Seq<char>) -> bool {
    exists|i: int| 0 <= i < es.len() && #[trigger] es[i].1 == f
}

/// Remove an entry from the index by filename.
pub fn remove_entry(index: &mut MemoryIndex, file: &str) -> (r: bool)
    ensures
        final(index)@.0 == without_file(old(index)@.0, file@),
        final(index)@.1 == old(index)@.1,
        r == has_file(old(index)@.0, file@),
{
    let ghost es = old(index)@.0;
    let target = file.to_owned();
    let mut kept: Vec<IndexEntry> = Vec::new();
    let mut found = false;
    let mut old_entries: Vec<IndexEntry> = Vec::new();
    std::mem::swap(&mut old_entries, &mut index.entries);
    let mut i: usize = 0;
    while i < old_entries.len()
        invariant
            i <= old_entries.len(),
            es == entry_views(old_entries@),
            target@ == file@,
            entry_views(kept@) == without_file(es.take(i as int), file@),
            found == has_file(es.take(i as int), file@),
        decreases old_entries.len() - i,
    {
        assert(es.take(i + 1).drop_last() =~= es.take(i as int));
        let e = &old_entries[i];
        if e.file == target {
            found = true;
            assert(es.take(i + 1)[i as int].1 == file@);
        } else {
            kept.push(e.clone());
            assert(entry_views(kept@) =~= without_file(es.take(i as int), file@).push(es[i as int]));
        }
        proof {
            let t = es.take(i + 1);
            if has_file(t, file@) && !has_file(es.take(i as int), file@) {
                let w = choose|w: int| 0 <= w < t.len() && #[trigger] t[w].1 == file@;
                if w < i {
                    assert(es.take(i as int)[w].1 == file@);
                }
            }
            if has_file(es.take(i as int), file@) {
                let w = choose|w: int| 0 <= w < i && #[trigger] es.take(i as int)[w].1 == file@;
                assert(t[w].1 == file@);
            }
        }
        i += 1;
    }
    assert(es.take(i as int) =~= es);
    index.entries = kept;
    found
}


/// The memory category of an index file, inferred from its path.
pub open spec fn category(file: Seq<char>) -> Seq<char> {
    if starts_with(file, "project/"@) {
        "project"@
    } else if starts_with(file, "reference/"@) {
        "reference"@
    } else if contains(file, "feedback"@) {
        "feedback"@
    } else {
        "user"@
    }
}

fn categorize_file(file: &str) -> (r: String)
    ensures
        r@ == category(file@),
{
    let s = chars_of(file);
    let n = s.len();
    assert(s@.subrange(0, n as int) =~= s@);
    if starts_with_in(&s, 0, n, &chars_of("project/")) {
        String::from_str("project")
    } else if starts_with_in(&s, 0, n, &chars_of("reference/")) {
        String::from_str("reference")
    } else if contains_in(&s, 0, n, &chars_of("feedback")) {
        String::from_str("feedback")
    } else {
        String::from_str("user")
    }
}

/// The entries of `es` in category `key`, in order.
pub open spec fn in_category(es: Seq<EntryView>, key: Seq<char>) -> Seq<EntryView>
    decreases es.len(),
{
    if es.len() == 0 {
        es
    } else if category(es.last().1) == key {
        in_category(es.drop_last(), key).push(es.last())
    } else {
        in_category(es.drop_last(), key)
    }
}

/// `groups` with the group of `key` appended when it is not empty.
pub open spec fn add_group(
    groups: Seq<(Seq<char>, Seq<EntryView>)>,
    es: Seq<EntryView>,
    key: Seq<char>,
) -> Seq<(Seq<char>, Seq<EntryView>)> {
    if in_category(es, key).len() > 0 {
        groups.push((key, in_category(es, key)))
    } else {
        groups
    }
}

/// The non-empty categories of `es` in key order, each with its entries in order.
pub open spec fn grouped(es: Seq<EntryView>) -> Seq<(Seq<char>, Seq<EntryView>)> {
    add_group(
        add_group(add_group(add_group(Seq::empty(), es, "feedback"@), es, "project"@), es, "reference"@),
        es,
        "user"@,
    )
}

/// The model of the groups that `group_by_type` returns.
pub open spec fn groups_view(g: Seq<(String, Vec<&IndexEntry>)>) -> Seq<(Seq<char>, Seq<EntryView>)> {
    g.map_values(
        |p: (String, Vec<&IndexEntry>)| (p.0@, p.1@.map_values(|e: &IndexEntry| e@)),
    )
}

/// Appends to `groups` the entries whose category is `key`, when there are any.
fn collect_group<'a>(
    groups: &mut Vec<(String, Vec<&'a IndexEntry>)>,
    entries: &'a [IndexEntry],
    cats: &Vec<String>,
    key: &str,
)
    requires
        cats@.len() == entries@.len(),
        forall|i: int| 0 <= i < cats@.len() ==> #[trigger] cats@[i]@ == category(entries@[i]@.1),
    ensures
        groups_view(final(groups)@) == add_group(groups_view(old(groups)@), entry_views(entries@), key@),
{
    let ghost es = entry_views(entries@);
    let k = key.to_owned();
    let mut members: Vec<&'a IndexEntry> = Vec::new();
    let mut i: usize = 0;
    while i < entries.len()
        invariant
            i <= entries.len(),
            cats@.len() == entries@.len(),
            forall|i: int| 0 <= i < cats@.len() ==> #[trigger] cats@[i]@ == category(entries@[i]@.1),
            es == entry_views(entries@),
            k@ == key@,
            members@.map_values(|e: &IndexEntry| e@) == in_category(es.take(i as int), key@),
        decreases entries.len() - i,
    {
        assert(es.take(i + 1).drop_last() =~= es.take(i as int));
        if cats[i] == k {
            let ghost before = members@;
            members.push(&entries[i]);
            assert(members@.map_values(|e: &IndexEntry| e@) =~= before.map_values(
                |e: &IndexEntry| e@,
            ).push(es[i as int]));
        }
        i += 1;
    }
    assert(es.take(i as int) =~= es);
    if members.len() > 0 {
        let ghost before = groups@;
        groups.push((k, members));
        assert(groups_view(groups@) =~= groups_view(before).push((key@, in_category(es, key@))));
    } else {
        assert(members@.map_values(|e: &IndexEntry| e@).len() == 0);
    }
}

/// Group entries by memory type inferred from the file path.
///
/// - Files in `project/<slug>/` → Project
/// - Files in `reference/` → Reference
/// - Files with `feedback` in the name → Feedback
/// - Everything else → User
///
/// The groups come in the order of their keys, as a sorted map would give them.
pub fn group_by_type(entries: &[IndexEntry]) -> (r: Vec<(String, Vec<&IndexEntry>)>)
    ensures
        groups_view(r@) == grouped(entry_views(entries@)),
{
    let mut cats: Vec<String> = Vec::new();
    let mut i: usize = 0;
    while i < entries.len()
        invariant
            i <= entries.len(),
            cats@.len() == i,
            forall|j: int| 0 <= j < i ==> #[trigger] cats@[j]@ == category(entries@[j]@.1),
        decreases entries.len() - i,
    {
        cats.push(categorize_file(entries[i].file.as_str()));
        i += 1;
    }
    let mut groups: Vec<(String, Vec<&IndexEntry>)> = Vec::new();
    assert(groups_view(groups@) =~= Seq::empty());
    collect_group(&mut groups, entries, &cats, "feedback");
    collect_group(&mut groups, entries, &cats, "project");
    collect_group(&mut groups, entries, &cats, "reference");
    collect_group(&mut groups, entries, &cats, "user");
    groups
}


proof fn lemma_file_position_from(es: Seq<EntryView>, f: Seq<char>, i: int)
    requires
        0 <= i,
    ensures
        match file_position_from(es, f, i) {
            Some(k) => i <= k < es.len() && es[k].1 == f && forall|j: int| i <= j < k ==> es[j].1 != f,
            None => forall|j: int| i <= j < es.len() ==> es[j].1 != f,
        },
    decreases es.len() - i,
{
    if i < es.len() && es[i].1 != f {
        lemma_file_position_from(es, f, i + 1);
    }
}

/// After an upsert, the first entry for the upserted file is the upserted entry.
pub proof fn law_upsert_then_lookup(es: Seq<EntryView>, e: EntryView)
    ensures
        file_position(upserted(es, e), e.1) matches Some(k) && upserted(es, e)[k] == e,
{
    lemma_file_position_from(es, e.1, 0);
    lemma_file_position_from(upserted(es, e), e.1, 0);
    match file_position(es, e.1) {
        Some(i) => {
            assert(upserted(es, e)[i] == e);
            assert(forall|j: int| 0 <= j < i ==> upserted(es, e)[j] == es[j]);
        },
        None => {
            assert(upserted(es, e)[es.len() as int] == e);
            assert(forall|j: int| 0 <= j < es.len() ==> upserted(es, e)[j] == es[j]);
        },
    }
}

/// An upsert adds an entry exactly when no entry has the file yet; otherwise the number
/// of entries stays the same and the other entries are untouched.
pub proof fn law_upsert_size(es: Seq<EntryView>, e: EntryView)
    ensures
        has_file(es, e.1) ==> upserted(es, e).len() == es.len(),
        !has_file(es, e.1) ==> upserted(es, e).len() == es.len() + 1,
        forall|j: int| 0 <= j < es.len() && es[j].1 != e.1 ==> #[trigger] upserted(es, e)[j] == es[j],
{
    lemma_file_position_from(es, e.1, 0);
    if has_file(es, e.1) {
        let w = choose|w: int| 0 <= w < es.len() && #[trigger] es[w].1 == e.1;
        assert(file_position(es, e.1) is Some);
    }
}

proof fn lemma_without_file(es: Seq<EntryView>, f: Seq<char>)
    ensures
        !has_file(without_file(es, f), f),
        without_file(es, f).len() <= es.len(),
        has_file(es, f) ==> without_file(es, f).len() < es.len(),
        !has_file(es, f) ==> without_file(es, f) == es,
    decreases es.len(),
{
    if es.len() > 0 {
        let rest = es.drop_last();
        lemma_without_file(rest, f);
        let w = without_file(es, f);
        if has_file(w, f) {
            let j = choose|j: int| 0 <= j < w.len() && #[trigger] w[j].1 == f;
            if es.last().1 != f && j == w.len() - 1 {
            } else {
                assert(without_file(rest, f)[j].1 == f);
            }
        }
        if has_file(es, f) && es.last().1 != f {
            let j = choose|j: int| 0 <= j < es.len() && #[trigger] es[j].1 == f;
            assert(rest[j].1 == f);
        }
        if !has_file(es, f) {
            assert(!has_file(rest, f)) by {
                if has_file(rest, f) {
                    let j = choose|j: int| 0 <= j < rest.len() && #[trigger] rest[j].1 == f;
                    assert(es[j].1 == f);
                }
            }
            assert(es.last().1 != f);
            assert(without_file(es, f) =~= rest.push(es.last()));
            assert(rest.push(es.last()) =~= es);
        }
    }
}

/// After removing a file, no entry has that file; the removal shrinks the index exactly
/// when the file was there, and removing it again changes nothing.
pub proof fn law_remove(es: Seq<EntryView>, f: Seq<char>)
    ensures
        !has_file(without_file(es, f), f),
        has_file(es, f) <==> without_file(es, f).len() < es.len(),
        without_file(without_file(es, f), f) == without_file(es, f),
{
    lemma_without_file(es, f);
    lemma_without_file(without_file(es, f), f);
}

/// Removing a file undoes the upsert of an entry for a file that was not there.
pub proof fn law_remove_undoes_new_upsert(es: Seq<EntryView>, e: EntryView)
    requires
        !has_file(es, e.1),
    ensures
        without_file(upserted(es, e), e.1) == es,
{
    lemma_file_position_from(es, e.1, 0);
    lemma_without_file(es, e.1);
    assert(file_position(es, e.1) is None) by {
        if file_position(es, e.1) is Some {
            let k = file_position(es, e.1)->0;
            assert(es[k].1 == e.1);
        }
    }
    assert(upserted(es, e).drop_last() =~= es);
}

/// Every line of the text lands in exactly one place: among the entries or the preamble.
pub proof fn law_parse_keeps_every_line(ls: Seq<Seq<char>>)
    ensures
        parse_lines(ls).0.len() + parse_lines(ls).1.len() == ls.len(),
    decreases ls.len(),
{
    if ls.len() > 0 {
        law_parse_keeps_every_line(ls.drop_last());
    }
}

proof fn lemma_parse_lines_append(a: Seq<Seq<char>>, b: Seq<Seq<char>>)
    ensures
        parse_lines(a + b) == (parse_lines(a).0 + parse_lines(b).0, parse_lines(a).1 + parse_lines(
            b,
        ).1),
    decreases b.len(),
{
    if b.len() == 0 {
        assert(a + b =~= a);
        assert(parse_lines(a).0 + parse_lines(b).0 =~= parse_lines(a).0);
        assert(parse_lines(a).1 + parse_lines(b).1 =~= parse_lines(a).1);
    } else {
        assert((a + b).drop_last() =~= a + b.drop_last());
        assert((a + b).last() == b.last());
        lemma_parse_lines_append(a, b.drop_last());
        let pa = parse_lines(a);
        let pb = parse_lines(b.drop_last());
        match line_entry(b.last()) {
            Some(e) => {
                assert(pa.0 + pb.0.push(e) =~= (pa.0 + pb.0).push(e));
            },
            None => {
                assert(pa.1 + pb.1.push(b.last()) =~= (pa.1 + pb.1).push(b.last()));
            },
        }
    }
}

proof fn lemma_parse_preamble_only(ls: Seq<Seq<char>>)
    requires
        forall|i: int| 0 <= i < ls.len() ==> line_entry(#[trigger] ls[i]) is None,
    ensures
        parse_lines(ls) == (Seq::<EntryView>::empty(), ls),
    decreases ls.len(),
{
    if ls.len() > 0 {
        lemma_parse_preamble_only(ls.drop_last());
        assert(line_entry(ls[ls.len() - 1]) is None);
        assert(ls.drop_last().push(ls.last()) =~= ls);
    }
}

/// An entry whose line reads back as its file and its description: its file holds no
/// `]` and no newline, and its description has nothing to trim, no newline and does not
/// start with a separator.
pub open spec fn line_safe(e: EntryView) -> bool {
    &&& forall|j: int| 0 <= j < e.1.len() ==> e.1[j] != ']' && e.1[j] != '\n'
    &&& trim(e.2) == e.2
    &&& forall|j: int| 0 <= j < e.2.len() ==> e.2[j] != '\n'
    &&& (e.2.len() == 0 || !in_class(CharClass::Separator, e.2[0]))
}

/// An entry as its line is read back: its title is its file without the `.md` extension.
pub open spec fn read_back(e: EntryView) -> EntryView {
    (strip_suffixes(e.1, ".md"@), e.1, e.2)
}

/// An entry that its own line renders back to: a line-safe entry whose title is its
/// file without the `.md` extension.
pub open spec fn renders_back(e: EntryView) -> bool {
    &&& line_safe(e)
    &&& e.0 == strip_suffixes(e.1, ".md"@)
}

proof fn lemma_entry_line_parses(e: EntryView)
    requires
        renders_back(e),
    ensures
        line_entry(entry_line(e)) == Some(e),
        trim(entry_line(e)) == entry_line(e) || e.2.len() == 0,
{
    reveal_strlit("- [[");
    reveal_strlit("]] \u{2014} ");
    reveal_strlit("]] \u{2014}");
    reveal_strlit("[[");
    reveal_strlit("]]");
    reveal_strlit("#");
    reveal_strlit("- ");
    reveal_strlit(" ");
    reveal_strlit("\u{2014} ");
    let f = e.1;
    let d = e.2;
    let line = entry_line(e);
    let tail = if d.len() > 0 {
        " "@ + d
    } else {
        Seq::<char>::empty()
    };
    let v = "[["@ + f + "]] \u{2014}"@ + tail;
    let u = "- "@ + v;
    lemma_strip_start_noop(line, CharClass::Space);
    if d.len() > 0 {
        lemma_trimmed_ends(d);
        assert(line =~= u);
        lemma_strip_end_noop(line, CharClass::Space);
    } else {
        assert(line =~= ("- [["@ + f + "]] \u{2014}"@) + " "@);
        lemma_strip_end_append("- [["@ + f + "]] \u{2014}"@, " "@, CharClass::Space);
        lemma_strip_end_noop("- [["@ + f + "]] \u{2014}"@, CharClass::Space);
        assert(u =~= "- [["@ + f + "]] \u{2014}"@);
    }
    assert(trim(line) == u);
    // The list item's body.
    assert(u[0] == '-');
    assert(!starts_with(u, "#"@)) by {
        assert(u.subrange(0, 1)[0] == '-');
    }
    assert(u.subrange(0, 2) =~= "- "@);
    lemma_strip_start_prepend("- "@, v, CharClass::Bullet);
    lemma_strip_start_noop(v, CharClass::Bullet);
    lemma_strip_start_noop(v, CharClass::Space);
    if d.len() > 0 {
        assert(v.last() == d.last());
    }
    lemma_strip_end_noop(v, CharClass::Space);
    assert(item_body(u) == v);
    // The link.
    assert(v.subrange(0, 2) =~= "[["@);
    lemma_find_from_first(v, "[["@, 0, 0);
    assert(v.subrange(0, v.len() as int) =~= v);
    let p: int = 2 + f.len() as int;
    assert(v.subrange(p, p + 2) =~= "]]"@);
    assert forall|j: int| 0 <= j < p implies !matches_at(v, "]]"@, j) by {
        if matches_at(v, "]]"@, j) {
            assert(v.subrange(j, j + 2)[0] == v[j]);
            if j >= 2 {
                assert(v[j] == f[j - 2]);
            }
        }
    }
    lemma_find_from_first(v, "]]"@, 0, p);
    assert(v.subrange(2, p) =~= f);
    // The description.
    let after = v.subrange(p + 2, v.len() as int);
    let w = "\u{2014}"@ + tail;
    reveal_strlit("\u{2014}");
    assert(after =~= " "@ + w);
    lemma_strip_start_prepend(" "@, w, CharClass::Space);
    lemma_strip_start_noop(w, CharClass::Space);
    if d.len() > 0 {
        assert(w.last() == d.last());
    }
    lemma_strip_end_noop(w, CharClass::Space);
    assert(trim(after) == w);
    if d.len() > 0 {
        assert(w =~= "\u{2014} "@ + d);
        lemma_strip_start_prepend("\u{2014} "@, d, CharClass::Separator);
    } else {
        assert(strip_start(w.drop_first(), CharClass::Separator) == w.drop_first());
    }
    lemma_strip_start_noop(d, CharClass::Separator);
    assert(description_of(after) == d);
    assert(wikilink_entry(u) == Some(e));
}

proof fn lemma_find_from_none(s: Seq<char>, pat: Seq<char>, i: int)
    requires
        forall|j: int| i <= j ==> !matches_at(s, pat, j),
    ensures
        find_from(s, pat, i) is None,
    decreases s.len() + 1 - i,
{
    if !(i < 0 || i + pat.len() > s.len()) {
        lemma_find_from_none(s, pat, i + 1);
    }
}

/// The character `c` does not occur in `s`.
pub open spec fn lacks(s: Seq<char>, c: char) -> bool {
    forall|j: int| 0 <= j < s.len() ==> s[j] != c
}

/// The index line of a Markdown link: `- [title](file) — description`.
pub open spec fn mdlink_line(title: Seq<char>, file: Seq<char>, description: Seq<char>) -> Seq<char> {
    "- ["@ + title + "]("@ + file + ") \u{2014} "@ + description
}

/// What follows the list marker of a Markdown-link line, trimmed.
spec fn mdlink_body(t: Seq<char>, f: Seq<char>, d: Seq<char>) -> Seq<char> {
    "["@ + t + "]("@ + f + ") \u{2014}"@ + (if d.len() > 0 {
        " "@ + d
    } else {
        Seq::<char>::empty()
    })
}

/// The shape of a Markdown-link line: one line, a list item whose body is `mdlink_body`.
proof fn lemma_mdlink_line_shape(t: Seq<char>, f: Seq<char>, d: Seq<char>)
    requires
        lacks(t, '\n') && lacks(f, '\n') && lacks(d, '\n'),
        trim(d) == d,
    ensures
        lines(mdlink_line(t, f, d)) == seq![mdlink_line(t, f, d)],
        trim(mdlink_line(t, f, d)) == "- "@ + mdlink_body(t, f, d),
        starts_with("- "@ + mdlink_body(t, f, d), "- "@),
        !starts_with("- "@ + mdlink_body(t, f, d), "#"@),
        item_body("- "@ + mdlink_body(t, f, d)) == mdlink_body(t, f, d),
{
    reveal_strlit("- [");
    reveal_strlit("](");
    reveal_strlit(") \u{2014} ");
    reveal_strlit(") \u{2014}");
    reveal_strlit("[");
    reveal_strlit("#");
    reveal_strlit("- ");
    reveal_strlit(" ");
    let line = mdlink_line(t, f, d);
    let v = mdlink_body(t, f, d);
    let u = "- "@ + v;
    assert forall|j: int| 0 <= j < line.len() implies line[j] != '\n' by {
        let a = 3 + t.len();
        let b = a + 2 + f.len();
        if 3 <= j < a {
            assert(line[j] == t[j - 3]);
        } else if a + 2 <= j < b {
            assert(line[j] == f[j - a - 2]);
        } else if j >= b + 4 {
            assert(line[j] == d[j - b - 4]);
        }
    }
    lemma_lines_single(line);
    lemma_strip_start_noop(line, CharClass::Space);
    if d.len() > 0 {
        lemma_trimmed_ends(d);
        assert(line =~= u);
        lemma_strip_end_noop(line, CharClass::Space);
    } else {
        assert(line =~= ("- ["@ + t + "]("@ + f + ") \u{2014}"@) + " "@);
        lemma_strip_end_append("- ["@ + t + "]("@ + f + ") \u{2014}"@, " "@, CharClass::Space);
        lemma_strip_end_noop("- ["@ + t + "]("@ + f + ") \u{2014}"@, CharClass::Space);
        assert(u =~= "- ["@ + t + "]("@ + f + ") \u{2014}"@);
    }
    assert(!starts_with(u, "#"@)) by {
        assert(u.subrange(0, 1)[0] == '-');
    }
    assert(u.subrange(0, 2) =~= "- "@);
    lemma_strip_start_prepend("- "@, v, CharClass::Bullet);
    lemma_strip_start_noop(v, CharClass::Bullet);
    lemma_strip_start_noop(v, CharClass::Space);
    if d.len() > 0 {
        assert(v.last() == d.last());
    }
    lemma_strip_end_noop(v, CharClass::Space);
}

/// The link of a Markdown-link body: no `[[`, then `[` at 0, `]` at the title's end, `(`
/// right after it and `)` at the file's end.
proof fn lemma_mdlink_link(t: Seq<char>, f: Seq<char>, d: Seq<char>)
    requires
        lacks(t, '[') && lacks(t, ']'),
        lacks(f, '[') && lacks(f, ']') && lacks(f, ')'),
        lacks(d, '['),
    ensures
        ({
            let v = mdlink_body(t, f, d);
            let a: int = 1 + t.len() as int;
            &&& find(v, "[["@) is None
            &&& find(v, "["@) == Some(0int)
            &&& find(v.subrange(0, v.len() as int), "]"@) == Some(a)
            &&& find(v.subrange(a, v.len() as int), "("@) == Some(1int)
            &&& find(v.subrange(a + 1, v.len() as int), ")"@) == Some(1 + f.len() as int)
            &&& v.subrange(1, a) == t
            &&& v.subrange(a + 2, a + 2 + f.len() as int) == f
            &&& v.len() >= a + 3 + f.len()
        }),
{
    reveal_strlit("](");
    reveal_strlit(") \u{2014}");
    reveal_strlit("[[");
    reveal_strlit("[");
    reveal_strlit("]");
    reveal_strlit("(");
    reveal_strlit(")");
    reveal_strlit(" ");
    let v = mdlink_body(t, f, d);
    let a: int = 1 + t.len() as int;
    let c: int = a + 2 + f.len() as int;
    assert(v[0] == '[');
    assert(v[a] == ']');
    assert(v[a + 1] == '(');
    assert(v[c] == ')');
    assert forall|j: int| 0 <= j implies !matches_at(v, "[["@, j) by {
        if matches_at(v, "[["@, j) {
            assert(v.subrange(j, j + 2)[1] == v[j + 1]);
            if j + 1 < a {
                assert(v[j + 1] == t[j]);
            } else if a + 2 <= j + 1 < c {
                assert(v[j + 1] == f[j - a - 1]);
            } else if j + 1 >= c + 4 {
                assert(v[j + 1] == d[j + 1 - c - 4]);
            }
        }
    }
    lemma_find_from_none(v, "[["@, 0);
    assert(v.subrange(0, 1) =~= "["@);
    lemma_find_from_first(v, "["@, 0, 0);
    let v0 = v.subrange(0, v.len() as int);
    assert(v0 =~= v);
    assert forall|j: int| 0 <= j < a implies !matches_at(v0, "]"@, j) by {
        if matches_at(v0, "]"@, j) {
            assert(v0.subrange(j, j + 1)[0] == v[j]);
            if j >= 1 {
                assert(v[j] == t[j - 1]);
            }
        }
    }
    assert(v0.subrange(a, a + 1) =~= "]"@);
    lemma_find_from_first(v0, "]"@, 0, a);
    let v1 = v.subrange(a, v.len() as int);
    assert(!matches_at(v1, "("@, 0)) by {
        assert(v1.subrange(0, 1)[0] == ']');
    }
    assert(v1.subrange(1, 2) =~= "("@);
    lemma_find_from_first(v1, "("@, 0, 1);
    let v2 = v.subrange(a + 1, v.len() as int);
    let pe: int = 1 + f.len() as int;
    assert forall|j: int| 0 <= j < pe implies !matches_at(v2, ")"@, j) by {
        if matches_at(v2, ")"@, j) {
            assert(v2.subrange(j, j + 1)[0] == v[a + 1 + j]);
            if j >= 1 {
                assert(v[a + 1 + j] == f[j - 1]);
            }
        }
    }
    assert(v2.subrange(pe, pe + 1) =~= ")"@);
    lemma_find_from_first(v2, ")"@, 0, pe);
    assert(v.subrange(1, a) =~= t);
    assert(v.subrange(a + 2, a + 2 + f.len() as int) =~= f);
}

/// The description of a Markdown-link body: what follows `)`, without the separator.
proof fn lemma_mdlink_description(t: Seq<char>, f: Seq<char>, d: Seq<char>)
    requires
        trim(d) == d,
        d.len() == 0 || !in_class(CharClass::Separator, d[0]),
    ensures
        description_of(mdlink_body(t, f, d).subrange(
            4 + t.len() as int + f.len() as int,
            mdlink_body(t, f, d).len() as int,
        )) == d,
{
    reveal_strlit("](");
    reveal_strlit(") \u{2014}");
    reveal_strlit("[");
    reveal_strlit(" ");
    reveal_strlit("\u{2014} ");
    reveal_strlit("\u{2014}");
    let v = mdlink_body(t, f, d);
    let tail = if d.len() > 0 {
        " "@ + d
    } else {
        Seq::<char>::empty()
    };
    let after = v.subrange(4 + t.len() as int + f.len() as int, v.len() as int);
    let w = "\u{2014}"@ + tail;
    assert(after =~= " "@ + w);
    lemma_strip_start_prepend(" "@, w, CharClass::Space);
    lemma_strip_start_noop(w, CharClass::Space);
    if d.len() > 0 {
        lemma_trimmed_ends(d);
        assert(w.last() == d.last());
    }
    lemma_strip_end_noop(w, CharClass::Space);
    assert(trim(after) == w);
    if d.len() > 0 {
        assert(w =~= "\u{2014} "@ + d);
        lemma_strip_start_prepend("\u{2014} "@, d, CharClass::Separator);
    } else {
        assert(strip_start(w.drop_first(), CharClass::Separator) == w.drop_first());
    }
    lemma_strip_start_noop(d, CharClass::Separator);
}

/// A Markdown-link line `- [title](file) — description` is read as one entry with that
/// title, that file and that description (the separator dropped), and no preamble line,
/// for a title without brackets, a file without brackets or `)`, and a description with
/// nothing to trim that does not start with a separator, none holding `[` or a newline.
pub proof fn law_mdlink_line_parses(title: Seq<char>, file: Seq<char>, description: Seq<char>)
    requires
        lacks(title, '[') && lacks(title, ']') && lacks(title, '\n'),
        lacks(file, '[') && lacks(file, ']') && lacks(file, ')') && lacks(file, '\n'),
        lacks(description, '[') && lacks(description, '\n'),
        trim(description) == description,
        description.len() == 0 || !in_class(CharClass::Separator, description[0]),
    ensures
        parse_lines(lines(mdlink_line(title, file, description))) == (
            seq![(title, file, description)],
            Seq::<Seq<char>>::empty(),
        ),
{
    let (t, f, d) = (title, file, description);
    let line = mdlink_line(t, f, d);
    let v = mdlink_body(t, f, d);
    let u = "- "@ + v;
    lemma_mdlink_line_shape(t, f, d);
    lemma_mdlink_link(t, f, d);
    lemma_mdlink_description(t, f, d);
    let a: int = 1 + t.len() as int;
    assert(a + 1 + (1 + f.len()) + 1 == 4 + t.len() + f.len());
    assert(wikilink_entry(u) is None);
    assert(mdlink_entry(u) == Some((t, f, d)));
    assert(line_entry(line) == Some((t, f, d)));
    let ls = seq![line];
    assert(ls.drop_last() =~= Seq::<Seq<char>>::empty());
    assert(parse_lines(ls.drop_last()) == (Seq::<EntryView>::empty(), Seq::<Seq<char>>::empty()));
    assert(parse_lines(ls).0 =~= seq![(t, f, d)]);
}

/// The fixed lines that rendering adds are not entries.
proof fn lemma_rendered_fixed_lines()
    ensures
        line_entry(""@) is None,
        line_entry("## \u{5feb}\u{901f}\u{5bfc}\u{822a}"@) is None,
        line_entry("\u{5b8c}\u{6574}\u{7d22}\u{5f15} \u{2192} [[index.md]]"@) is None,
{
    reveal_strlit("");
    reveal_strlit("#");
    reveal_strlit("[[");
    reveal_strlit("- ");
    reveal_strlit("* ");
    reveal_strlit("## \u{5feb}\u{901f}\u{5bfc}\u{822a}");
    reveal_strlit("\u{5b8c}\u{6574}\u{7d22}\u{5f15} \u{2192} [[index.md]]");
    lemma_strip_start_noop(Seq::<char>::empty(), CharClass::Space);
    lemma_strip_end_noop(Seq::<char>::empty(), CharClass::Space);
    let h = "## \u{5feb}\u{901f}\u{5bfc}\u{822a}"@;
    lemma_trim_noop(h);
    assert(h.subrange(0, 1) =~= "#"@);
    lemma_find_from_absent(h, "[["@, 0);
    let f = "\u{5b8c}\u{6574}\u{7d22}\u{5f15} \u{2192} [[index.md]]"@;
    lemma_trim_noop(f);
    assert(!starts_with(f, "#"@)) by {
        assert(f.subrange(0, 1)[0] == f[0]);
    }
    assert(!starts_with(f, "- "@)) by {
        assert(f.subrange(0, 2)[0] == f[0]);
    }
    assert(!starts_with(f, "* "@)) by {
        assert(f.subrange(0, 2)[0] == f[0]);
    }
}

proof fn lemma_parse_entry_lines(es: Seq<EntryView>)
    requires
        forall|i: int| 0 <= i < es.len() ==> renders_back(#[trigger] es[i]),
    ensures
        parse_lines(es.map_values(|e: EntryView| entry_line(e))) == (es, Seq::<Seq<char>>::empty()),
    decreases es.len(),
{
    let ls = es.map_values(|e: EntryView| entry_line(e));
    if es.len() > 0 {
        assert(ls.drop_last() =~= es.drop_last().map_values(|e: EntryView| entry_line(e)));
        assert(forall|i: int| 0 <= i < es.drop_last().len() ==> es.drop_last()[i] == es[i]);
        lemma_parse_entry_lines(es.drop_last());
        assert(renders_back(es[es.len() - 1]));
        lemma_entry_line_parses(es.last());
        assert(es.drop_last().push(es.last()) =~= es);
    } else {
        assert(ls.len() == 0);
    }
}

/// A preamble line that survives rendering: one line, no final carriage return, and
/// not itself an entry line.
pub open spec fn preamble_line(p: Seq<char>) -> bool {
    &&& forall|j: int| 0 <= j < p.len() ==> p[j] != '\n'
    &&& (p.len() == 0 || p.last() != '\r')
    &&& line_entry(p) is None
}

proof fn lemma_entry_line_shape(e: EntryView)
    requires
        renders_back(e),
    ensures
        forall|j: int| 0 <= j < entry_line(e).len() ==> entry_line(e)[j] != '\n',
        entry_line(e).len() > 0 && entry_line(e).last() != '\r',
{
    reveal_strlit("- [[");
    reveal_strlit("]] \u{2014} ");
    let l = entry_line(e);
    assert forall|j: int| 0 <= j < l.len() implies l[j] != '\n' by {
        let a = 4 + e.1.len();
        if 4 <= j < a {
            assert(l[j] == e.1[j - 4]);
        } else if j >= a + 5 {
            assert(l[j] == e.2[j - a - 5]);
        }
    }
    if e.2.len() > 0 {
        lemma_trimmed_ends(e.2);
        assert(l.last() == e.2.last());
    }
}

/// Rendering an index and parsing the text back gives back its entries, for entries
/// that render back and preamble lines that survive rendering.
proof fn lemma_render_then_parse_exact(idx: (Seq<EntryView>, Seq<Seq<char>>))
    requires
        forall|i: int| 0 <= i < idx.0.len() ==> renders_back(#[trigger] idx.0[i]),
        forall|i: int| 0 <= i < idx.1.len() ==> preamble_line(#[trigger] idx.1[i]),
    ensures
        parse_lines(lines(join(rendered_lines(idx), "\n"@))).0 == idx.0,
{
    reveal_strlit("");
    reveal_strlit("## \u{5feb}\u{901f}\u{5bfc}\u{822a}");
    reveal_strlit("\u{5b8c}\u{6574}\u{7d22}\u{5f15} \u{2192} [[index.md]]");
    lemma_rendered_fixed_lines();
    let es = idx.0;
    let ps = idx.1;
    let r = rendered_lines(idx);
    if es.len() == 0 {
        lemma_lines_join(ps);
        let got = lines(join(ps, "\n"@));
        assert(forall|i: int| 0 <= i < got.len() ==> got[i] == ps[i]);
        lemma_parse_preamble_only(got);
    } else {
        let head = if ps.len() == 0 {
            ps
        } else {
            ps.push(""@)
        };
        let mid = seq!["## \u{5feb}\u{901f}\u{5bfc}\u{822a}"@, ""@];
        let el = es.map_values(|e: EntryView| entry_line(e));
        let foot = seq![""@, "\u{5b8c}\u{6574}\u{7d22}\u{5f15} \u{2192} [[index.md]]"@];
        assert(r == head + mid + el + foot);
        assert forall|i: int| 0 <= i < head.len() implies #[trigger] line_entry(head[i]) is None by {
            if i < ps.len() {
                assert(preamble_line(ps[i]));
            }
        }
        assert forall|i: int| 0 <= i < mid.len() implies #[trigger] line_entry(mid[i]) is None by {}
        assert forall|i: int| 0 <= i < foot.len() implies #[trigger] line_entry(foot[i]) is None by {}
        lemma_parse_preamble_only(head);
        lemma_parse_preamble_only(mid);
        lemma_parse_preamble_only(foot);
        lemma_parse_entry_lines(es);
        lemma_parse_lines_append(head, mid);
        lemma_parse_lines_append(head + mid, el);
        lemma_parse_lines_append(head + mid + el, foot);
        assert forall|i: int, j: int| 0 <= i < r.len() && 0 <= j < r[i].len() implies r[i][j] != '\n' by {
            if i < head.len() {
                if i < ps.len() {
                    assert(preamble_line(ps[i]));
                }
            } else if i < head.len() + 2 {
            } else if i < head.len() + 2 + el.len() {
                let k = i - head.len() - 2;
                assert(renders_back(es[k]));
                lemma_entry_line_shape(es[k]);
            }
        }
        assert forall|i: int| 0 <= i < r.len() - 1 && r[i].len() > 0 implies r[i].last() != '\r' by {
            if i < head.len() {
                if i < ps.len() {
                    assert(preamble_line(ps[i]));
                }
            } else if i < head.len() + 2 {
            } else if i < head.len() + 2 + el.len() {
                let k = i - head.len() - 2;
                assert(renders_back(es[k]));
                lemma_entry_line_shape(es[k]);
            }
        }
        lemma_lines_join(r);
        assert(r.last().len() > 0);
        assert(Seq::<EntryView>::empty() + Seq::<EntryView>::empty() + es + Seq::<EntryView>::empty()
            =~= es);
    }
}

/// Rendering an index and parsing the text back gives back each entry's file and
/// description, in order, with the file without its `.md` extension as the title, for
/// line-safe entries and preamble lines that survive rendering.
pub proof fn law_render_then_parse(idx: (Seq<EntryView>, Seq<Seq<char>>))
    requires
        forall|i: int| 0 <= i < idx.0.len() ==> line_safe(#[trigger] idx.0[i]),
        forall|i: int| 0 <= i < idx.1.len() ==> preamble_line(#[trigger] idx.1[i]),
    ensures
        parse_lines(lines(join(rendered_lines(idx), "\n"@))).0 == idx.0.map_values(
            |e: EntryView| read_back(e),
        ),
{
    let es = idx.0;
    let back = es.map_values(|e: EntryView| read_back(e));
    let idx2 = (back, idx.1);
    assert forall|i: int| 0 <= i < back.len() implies renders_back(#[trigger] back[i]) by {
        assert(line_safe(es[i]));
    }
    assert(back.map_values(|e: EntryView| entry_line(e)) =~= es.map_values(
        |e: EntryView| entry_line(e),
    ));
    assert(rendered_lines(idx2) == rendered_lines(idx));
    lemma_render_then_parse_exact(idx2);
}

/// The size of each group.
pub open spec fn group_sizes(g: Seq<(Seq<char>, Seq<EntryView>)>) -> nat
    decreases g.len(),
{
    if g.len() == 0 {
        0
    } else {
        group_sizes(g.drop_last()) + g.last().1.len()
    }
}

proof fn lemma_add_group_size(g: Seq<(Seq<char>, Seq<EntryView>)>, es: Seq<EntryView>, key: Seq<char>)
    ensures
        group_sizes(add_group(g, es, key)) == group_sizes(g) + in_category(es, key).len(),
{
    if in_category(es, key).len() > 0 {
        assert(add_group(g, es, key).drop_last() =~= g);
    }
}

proof fn lemma_categories_cover(es: Seq<EntryView>)
    ensures
        in_category(es, "feedback"@).len() + in_category(es, "project"@).len() + in_category(
            es,
            "reference"@,
        ).len() + in_category(es, "user"@).len() == es.len(),
    decreases es.len(),
{
    reveal_strlit("feedback");
    reveal_strlit("project");
    reveal_strlit("reference");
    reveal_strlit("user");
    if es.len() > 0 {
        lemma_categories_cover(es.drop_last());
        assert("feedback"@[0] != "project"@[0]);
        assert("feedback"@[0] != "reference"@[0]);
        assert("feedback"@[0] != "user"@[0]);
        assert("project"@[0] != "reference"@[0]);
        assert("project"@[0] != "user"@[0]);
        assert("reference"@[0] != "user"@[0]);
    }
}

proof fn lemma_find_from_reaches(s: Seq<char>, pat: Seq<char>, i: int, p: int)
    requires
        0 <= i <= p,
        matches_at(s, pat, p),
    ensures
        find_from(s, pat, i) is Some,
    decreases p - i,
{
    if i < p && !matches_at(s, pat, i) {
        lemma_find_from_reaches(s, pat, i + 1, p);
    }
}

/// An index file outside `project/` and `reference/` whose path holds `feedback`
/// anywhere, not only at its start, is a feedback memory: an index of such an entry
/// groups into the `feedback` group alone.
pub proof fn law_feedback_anywhere(e: EntryView, j: int)
    requires
        !(e.1.len() >= 8 && e.1.subrange(0, 8) == "project/"@),
        !(e.1.len() >= 10 && e.1.subrange(0, 10) == "reference/"@),
        0 <= j && j + 8 <= e.1.len(),
        e.1.subrange(j, j + 8) == "feedback"@,
    ensures
        category(e.1) == "feedback"@,
        grouped(seq![e]) == seq![("feedback"@, seq![e])],
{
    reveal_strlit("project/");
    reveal_strlit("reference/");
    reveal_strlit("feedback");
    reveal_strlit("project");
    reveal_strlit("reference");
    reveal_strlit("user");
    let f = e.1;
    assert(!starts_with(f, "project/"@));
    assert(!starts_with(f, "reference/"@));
    lemma_find_from_reaches(f, "feedback"@, 0, j);
    assert(category(f) == "feedback"@);
    let es = seq![e];
    assert(es.drop_last() =~= Seq::<EntryView>::empty());
    assert(es.last() == e);
    assert("feedback"@.len() == 8 && "project"@.len() == 7);
    assert("reference"@.len() == 9 && "user"@.len() == 4);
    let none = Seq::<EntryView>::empty();
    assert(in_category(none, "feedback"@) == none);
    assert(in_category(none, "project"@) == none);
    assert(in_category(none, "reference"@) == none);
    assert(in_category(none, "user"@) == none);
    assert(category(es.last().1) != "project"@);
    assert(category(es.last().1) != "reference"@);
    assert(category(es.last().1) != "user"@);
    assert(in_category(es, "feedback"@) =~= seq![e]);
    assert(in_category(es, "project"@).len() == 0);
    assert(in_category(es, "reference"@).len() == 0);
    assert(in_category(es, "user"@).len() == 0);
    let g0 = Seq::<(Seq<char>, Seq<EntryView>)>::empty();
    assert(add_group(g0, es, "feedback"@) =~= seq![("feedback"@, seq![e])]);
}

/// Grouping by type places every entry in exactly one group.
pub proof fn law_groups_partition(es: Seq<EntryView>)
    ensures
        group_sizes(grouped(es)) == es.len(),
{
    let g0 = Seq::<(Seq<char>, Seq<EntryView>)>::empty();
    let g1 = add_group(g0, es, "feedback"@);
    let g2 = add_group(g1, es, "project"@);
    let g3 = add_group(g2, es, "reference"@);
    lemma_add_group_size(g0, es, "feedback"@);
    lemma_add_group_size(g1, es, "project"@);
    lemma_add_group_size(g2, es, "reference"@);
    lemma_add_group_size(g3, es, "user"@);
    lemma_categories_cover(es);
}

/// Errors specific to index operations.
#[derive(Debug)]
pub enum IndexError {
    /// Index file not found at the given path.
    NotFound(String),
    /// Duplicate entry for the same file.
    DuplicateFile(String),
    /// I/O error during index read/write.
    Io(std::io::Error),
}

impl From<std::io::Error> for IndexError {
    fn from(value: std::io::Error) -> (r: Self) {
        IndexError::Io(value)
    }
}

impl vstd::std_specs::convert::FromSpecImpl<std::io::Error> for IndexError {
    open spec fn obeys_from_spec() -> bool {
        true
    }

    open spec fn from_spec(v: std::io::Error) -> IndexError {
        IndexError::Io(v)
    }
}

} // verus!
