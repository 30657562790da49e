//! Auto-capture of memories from conversation.
//!
//! During a session the recent conversation turns are kept; at its end a prompt is
//! built that asks a model for durable memories, and the model's reply, which may
//! wrap its JSON in a Markdown fence, is framed here before it is decoded.

use vstd::prelude::*;

use crate::store::MemoryStore;
use crate::text::{
    chars_of, find, find_in, starts_with, starts_with_in, string_of, trim, trim_range,
};

verus! {

/// Maximum number of conversation turns to include in the capture prompt.
pub const MAX_CAPTURE_TURNS: usize = 20;

/// Maximum characters per turn included in the capture prompt.
pub const MAX_TURN_CHARS: usize = 4000;

/// The system prompt sent to the model for memory capture.
pub const CAPTURE_SYSTEM_PROMPT: &'static str = r#"You are a memory curator. Analyze the conversation and identify durable information worth preserving across sessions.

## What to capture

You have four memory types available:

- **user**: Information about the user's role, goals, responsibilities, and knowledge.
  Example: "user is a data scientist focused on observability"

- **project**: Facts about ongoing work, goals, initiatives, bugs, or incidents within a project.
  Example: "merge freeze begins 2026-03-05 for mobile release cut"

- **feedback**: Guidance the user has given about how to approach work — what to avoid and what to keep doing.
  Example: "integration tests must hit a real database, not mocks"

- **reference**: Pointers to where information can be found in external systems.
  Example: "pipeline bugs are tracked in Linear project INGEST"

## What NOT to capture

- Code patterns, conventions, or file paths (these are visible in the repo)
- Git history or recent changes (git log is authoritative)
- Debugging solutions or fix recipes (the fix is in the code)
- Anything already in the project's instruction files
- Ephemeral task details or in-progress work

## Instructions

1. Review the conversation below.
2. Identify 0-3 durable memories worth saving. Return an empty array if nothing is worth keeping.
3. For each memory, provide a concise name, description, type, content, and rationale.

Return your response as a JSON object with a single key "memories" containing an array:

```json
{
  "memories": [
    {
      "memory_type": "user",
      "name": "user_role",
      "description": "User is a backend engineer working on API performance",
      "content": "The user is a backend engineer focused on API performance optimization. They prefer Rust and have deep knowledge of database internals.",
      "rationale": "Knowing the user's role helps tailor future responses"
    }
  ]
}
```

Keep each memory body under 500 characters. Be selective — only capture what would genuinely help in future conversations."#;

/// The opening of the capture prompt.
pub const PROMPT_HEADER: &'static str = "## Conversation to analyze\n\nBelow is a conversation between a user and an AI assistant. Identify durable memories worth saving.\n\n";

/// The closing of the capture prompt.
pub const PROMPT_FOOTER: &'static str = "## Task\n\nAnalyze the conversation above and return memories in the JSON format specified.";

/// The text of a turn as it is kept: a turn over `MAX_TURN_CHARS` characters is cut to
/// its first `MAX_TURN_CHARS` characters and marked as truncated.
pub open spec fn kept_text(content: &str) -> Seq<char> {
    if content@.len() > MAX_TURN_CHARS {
        content@.take(MAX_TURN_CHARS as int) + "\u{2026}(truncated)"@
    } else {
        content@
    }
}

/// The last `MAX_CAPTURE_TURNS` turns of `ts`.
pub open spec fn recent(ts: Seq<(Seq<char>, Seq<char>)>) -> Seq<(Seq<char>, Seq<char>)> {
    if ts.len() > MAX_CAPTURE_TURNS {
        ts.skip(ts.len() - MAX_CAPTURE_TURNS)
    } else {
        ts
    }
}

/// The model of a list of turns: `(role, content)` pairs of characters.
pub open spec fn turn_views(v: Seq<(String, String)>) -> Seq<(Seq<char>, Seq<char>)> {
    v.map_values(|p: (String, String)| (p.0@, p.1@))
}

/// How one turn appears in the capture prompt.
pub open spec fn turn_line(t: (Seq<char>, Seq<char>)) -> Seq<char> {
    "**"@ + t.0 + "**: "@ + t.1 + "\n\n"@
}

/// The turns as they appear in the capture prompt, one after another.
pub open spec fn turn_lines(ts: Seq<(Seq<char>, Seq<char>)>) -> Seq<char>
    decreases ts.len(),
{
    if ts.len() == 0 {
        Seq::empty()
    } else {
        turn_lines(ts.drop_last()) + turn_line(ts.last())
    }
}

/// The capture prompt for the turns `ts`.
pub open spec fn capture_prompt(ts: Seq<(Seq<char>, Seq<char>)>) -> Seq<char> {
    PROMPT_HEADER@ + turn_lines(ts) + PROMPT_FOOTER@
}

/// Recording a turn keeps at most `MAX_CAPTURE_TURNS` turns, the new one last, the others
/// in their order.
pub proof fn law_record_keeps_latest(ts: Seq<(Seq<char>, Seq<char>)>, t: (Seq<char>, Seq<char>))
    requires
        ts.len() <= MAX_CAPTURE_TURNS,
    ensures
        recent(ts.push(t)).len() <= MAX_CAPTURE_TURNS,
        recent(ts.push(t)).last() == t,
        recent(ts.push(t)) == ts.push(t).skip(ts.push(t).len() - recent(ts.push(t)).len()),
{
    let all = ts.push(t);
    if all.len() <= MAX_CAPTURE_TURNS {
        assert(all.skip(0) =~= all);
    }
}

/// The turn recorded last keeps its role and the start of its content: a content over
/// `MAX_TURN_CHARS` characters is kept as its first `MAX_TURN_CHARS` characters followed
/// by the truncation mark, a shorter one whole.
pub proof fn law_turn_keeps_its_start(ts: Seq<(Seq<char>, Seq<char>)>, role: Seq<char>, content: &str)
    ensures
        ({
            let t = recent(ts.push((role, kept_text(content)))).last();
            &&& t.0 == role
            &&& content@.len() > MAX_TURN_CHARS ==> {
                &&& t.1.len() == MAX_TURN_CHARS + "\u{2026}(truncated)"@.len()
                &&& forall|j: int| 0 <= j < MAX_TURN_CHARS ==> #[trigger] t.1[j] == content@[j]
                &&& t.1.subrange(MAX_TURN_CHARS as int, t.1.len() as int) == "\u{2026}(truncated)"@
            }
            &&& content@.len() <= MAX_TURN_CHARS ==> t.1 == content@
        }),
{
    let all = ts.push((role, kept_text(content)));
    if all.len() > MAX_CAPTURE_TURNS {
        let r = recent(all);
        assert(r == all.skip(all.len() - MAX_CAPTURE_TURNS));
        assert(r.len() == MAX_CAPTURE_TURNS);
        assert(r[r.len() - 1] == all[all.len() - 1]);
    }
    let k = kept_text(content);
    if content@.len() > MAX_TURN_CHARS {
        assert(k.subrange(MAX_TURN_CHARS as int, k.len() as int) =~= "\u{2026}(truncated)"@);
    }
}

proof fn lemma_turn_lines_prefix(ts: Seq<(Seq<char>, Seq<char>)>, j: int)
    requires
        0 <= j <= ts.len(),
    ensures
        turn_lines(ts.take(j)).len() <= turn_lines(ts).len(),
        turn_lines(ts).subrange(0, turn_lines(ts.take(j)).len() as int) == turn_lines(ts.take(j)),
    decreases ts.len(),
{
    if j == ts.len() {
        assert(ts.take(j) =~= ts);
        assert(turn_lines(ts).subrange(0, turn_lines(ts).len() as int) =~= turn_lines(ts));
    } else {
        let rest = ts.drop_last();
        assert(rest.take(j) =~= ts.take(j));
        lemma_turn_lines_prefix(rest, j);
        let a = turn_lines(ts.take(j));
        assert(turn_lines(ts).subrange(0, a.len() as int) =~= turn_lines(rest).subrange(
            0,
            a.len() as int,
        ));
    }
}

/// The capture prompt holds the line of every turn, after the lines of the turns before
/// it.
pub proof fn law_prompt_holds_turns(ts: Seq<(Seq<char>, Seq<char>)>, i: int)
    requires
        0 <= i < ts.len(),
    ensures
        ({
            let o: int = PROMPT_HEADER@.len() as int + turn_lines(ts.take(i)).len() as int;
            &&& o + turn_line(ts[i]).len() <= capture_prompt(ts).len()
            &&& capture_prompt(ts).subrange(o, o + turn_line(ts[i]).len()) == turn_line(ts[i])
        }),
{
    let h = PROMPT_HEADER@;
    lemma_turn_lines_prefix(ts, i + 1);
    assert(ts.take(i + 1).drop_last() =~= ts.take(i));
    let a = turn_lines(ts.take(i));
    let b = turn_lines(ts.take(i + 1));
    let l = turn_line(ts[i]);
    assert(b == a + l);
    let p = capture_prompt(ts);
    let o: int = h.len() as int + a.len() as int;
    assert(p.subrange(o, o + l.len()) =~= b.subrange(a.len() as int, b.len() as int));
}

/// Stateful memory capture session.
///
/// Accumulates conversation turns during a session, then at session end
/// constructs a prompt and frames the model's response.
#[derive(Debug)]
pub struct MemoryCapture {
    /// Accumulated conversation turns as (role, content) pairs.
    turns: Vec<(String, String)>,
    /// The memory store to write captured memories into.
    #[allow(dead_code)]
    store: MemoryStore,
}

impl MemoryCapture {
    /// The recorded turns.
    pub closed spec fn turns_view(&self) -> Seq<(Seq<char>, Seq<char>)> {
        turn_views(self.turns@)
    }

    /// The store that captured memories go to.
    pub closed spec fn store(&self) -> MemoryStore {
        self.store
    }

    /// Create a new capture session backed by the given store.
    pub fn new(store: MemoryStore) -> (r: Self)
        ensures
            r.turns_view() == Seq::<(Seq<char>, Seq<char>)>::empty(),
            r.store() == store,
    {
        let r = MemoryCapture { turns: Vec::new(), store };
        assert(r.turns_view() =~= Seq::<(Seq<char>, Seq<char>)>::empty());
        r
    }

    /// Record a conversation turn; only the most recent `MAX_CAPTURE_TURNS` are kept.
    pub fn record_turn(&mut self, role: &str, content: &str)
        ensures
            final(self).turns_view() == recent(old(self).turns_view().push((role@, kept_text(content)))),
            final(self).store() == old(self).store(),
            old(self).turns_view().len() <= MAX_CAPTURE_TURNS ==> final(self).turns_view().len()
                <= MAX_CAPTURE_TURNS,
    {
        // Truncate very long messages to keep the capture prompt manageable.
        let cs = chars_of(content);
        let truncated = if cs.len() > MAX_TURN_CHARS {
            let mut t = string_of(&cs, 0, MAX_TURN_CHARS);
            t.append("\u{2026}(truncated)");
            t
        } else {
            String::from_str(content)
        };
        let ghost all = self.turns_view().push((role@, truncated@));
        self.turns.push((String::from_str(role), truncated));
        assert(self.turns_view() =~= all);
        if self.turns.len() > MAX_CAPTURE_TURNS {
            let excess = self.turns.len() - MAX_CAPTURE_TURNS;
            let mut k: usize = 0;
            assert(all.skip(0) =~= all);
            while k < excess
                invariant
                    k <= excess,
                    excess == all.len() - MAX_CAPTURE_TURNS,
                    all.len() > MAX_CAPTURE_TURNS,
                    self.store == old(self).store,
                    self.turns@.len() == all.len() - k,
                    turn_views(self.turns@) == all.skip(k as int),
                decreases excess - k,
            {
                let ghost before = self.turns@;
                self.turns.remove(0);
                assert(turn_views(self.turns@) =~= all.skip(k + 1)) by {
                    assert(self.turns@ =~= before.subrange(1, before.len() as int));
                    assert(turn_views(before)[0] == all.skip(k as int)[0]);
                    assert forall|j: int| 0 <= j < self.turns@.len() implies turn_views(
                        self.turns@,
                    )[j] == all.skip(k + 1)[j] by {
                        assert(turn_views(before)[j + 1] == all.skip(k as int)[j + 1]);
                    }
                }
                k += 1;
            }
        }
    }

    /// Number of recorded turns.
    pub fn turn_count(&self) -> (r: usize)
        ensures
            r == self.turns_view().len(),
    {
        self.turns.len()
    }

    /// The recorded turns, oldest first.
    pub fn turns(&self) -> (r: &Vec<(String, String)>)
        ensures
            turn_views(r@) == self.turns_view(),
    {
        &self.turns
    }

    /// Whether there are enough turns to warrant a capture attempt.
    pub fn should_capture(&self) -> (r: bool)
        ensures
            r == (self.turns_view().len() >= 3),
    {
        self.turns.len() >= 3
    }

    /// Build the user prompt for the memory capture call.
    ///
    /// Returns `None` if there aren't enough turns to justify capture.
    pub fn build_capture_prompt(&self) -> (r: Option<String>)
        ensures
            match r {
                Some(p) => self.turns_view().len() >= 3 && p@ == capture_prompt(self.turns_view()),
                None => self.turns_view().len() < 3,
            },
    {
        if !self.should_capture() {
            return None;
        }
        let ghost ts = self.turns_view();
        let mut prompt = String::from_str(PROMPT_HEADER);
        let mut i: usize = 0;
        while i < self.turns.len()
            invariant
                i <= self.turns.len(),
                ts == turn_views(self.turns@),
                prompt@ == PROMPT_HEADER@ + turn_lines(ts.take(i as int)),
            decreases self.turns.len() - i,
        {
            let (role, content) = &self.turns[i];
            prompt.append("**");
            prompt.append(role.as_str());
            prompt.append("**: ");
            prompt.append(content.as_str());
            prompt.append("\n\n");
            assert(ts.take(i + 1).drop_last() =~= ts.take(i as int));
            i += 1;
        }
        assert(ts.take(i as int) =~= ts);
        prompt.append(PROMPT_FOOTER);
        Some(prompt)
    }

    /// Return the system prompt for the capture model.
    pub fn system_prompt() -> (r: &'static str)
        ensures
            r@ == CAPTURE_SYSTEM_PROMPT@,
    {
        CAPTURE_SYSTEM_PROMPT
    }
}


/// The text of a Markdown fence opened by the first `fence` in `text`: the opening line
/// runs to the first newline after it, and the fence closes at the next bare ```` ``` ````.
pub open spec fn fenced(text: Seq<char>, fence: Seq<char>) -> Option<Seq<char>> {
    match find(text, fence) {
        None => None,
        Some(st) => match find(text.subrange(st + fence.len(), text.len() as int), "\n"@) {
            None => None,
            Some(nl) => {
                let bs = st + fence.len() + nl + 1;
                match find(text.subrange(bs, text.len() as int), "```"@) {
                    None => None,
                    Some(cl) => Some(text.subrange(bs, bs + cl)),
                }
            },
        },
    }
}

/// Text that looks like JSON: it starts with `{` or `[`.
pub open spec fn json_like(t: Seq<char>) -> bool {
    starts_with(t, "{"@) || starts_with(t, "["@)
}

/// The JSON text in a model reply: the body of a ```` ```json ```` fence; else the trimmed
/// body of a plain ```` ``` ```` fence when it looks like JSON; else the trimmed reply
/// when it looks like JSON; else none.
pub open spec fn json_text(raw: Seq<char>) -> Option<Seq<char>> {
    let t = trim(raw);
    match fenced(t, "```json"@) {
        Some(inner) => Some(inner),
        None => match fenced(t, "```"@) {
            Some(inner) if json_like(trim(inner)) => Some(trim(inner)),
            _ => if json_like(t) {
                Some(t)
            } else {
                None
            },
        },
    }
}

#[verifier::external_type_specification]
#[verifier::external_body]
pub struct ExJsonError(serde_json::Error);

/// Why a capture reply could not be read.
#[derive(Debug)]
pub enum CaptureError {
    /// The reply holds no JSON.
    NoJsonFound,
    /// The JSON does not decode.
    Parse(serde_json::Error),
}

impl From<serde_json::Error> for CaptureError {
    fn from(value: serde_json::Error) -> (r: Self) {
        CaptureError::Parse(value)
    }
}

impl vstd::std_specs::convert::FromSpecImpl<serde_json::Error> for CaptureError {
    open spec fn obeys_from_spec() -> bool {
        true
    }

    open spec fn from_spec(v: serde_json::Error) -> CaptureError {
        CaptureError::Parse(v)
    }
}

proof fn lemma_find_matches(s: Seq<char>, pat: Seq<char>)
    ensures
        find(s, pat) matches Some(k) ==> 0 <= k && k + pat.len() <= s.len(),
{
    crate::text::lemma_find_from_bounds(s, pat, 0);
}

/// The bounds of `fenced(s[lo..hi], fence)`.
fn fenced_in(s: &Vec<char>, lo: usize, hi: usize, fence: &Vec<char>) -> (r: Option<(usize, usize)>)
    requires
        lo <= hi <= s.len(),
    ensures
        match r {
            Some((a, b)) => lo <= a <= b <= hi && fenced(s@.subrange(lo as int, hi as int), fence@)
                == Some(s@.subrange(a as int, b as int)),
            None => fenced(s@.subrange(lo as int, hi as int), fence@) is None,
        },
{
    let ghost text = s@.subrange(lo as int, hi as int);
    let st = match find_in(s, lo, hi, fence) {
        Some(k) => k,
        None => return None,
    };
    proof {
        lemma_find_matches(text, fence@);
        assert(text.subrange(st + fence.len(), text.len() as int) =~= s@.subrange(
            lo + st + fence.len(),
            hi as int,
        ));
    }
    let nl = match find_in(s, lo + st + fence.len(), hi, &chars_of("\n")) {
        Some(k) => k,
        None => return None,
    };
    proof {
        lemma_find_matches(s@.subrange(lo + st + fence.len(), hi as int), "\n"@);
        reveal_strlit("\n");
    }
    let bs = lo + st + fence.len() + nl + 1;
    proof {
        assert(text.subrange(bs - lo, text.len() as int) =~= s@.subrange(bs as int, hi as int));
    }
    let cl = match find_in(s, bs, hi, &chars_of("```")) {
        Some(k) => k,
        None => return None,
    };
    proof {
        lemma_find_matches(s@.subrange(bs as int, hi as int), "```"@);
        assert(text.subrange(bs - lo, bs - lo + cl) =~= s@.subrange(bs as int, bs + cl));
    }
    Some((bs, bs + cl))
}

/// Extract the text inside a fence that opens with `fence`.
fn extract_fenced(text: &str, fence: &str) -> (r: Option<String>)
    ensures
        match r {
            Some(t) => fenced(text@, fence@) == Some(t@),
            None => fenced(text@, fence@) is None,
        },
{
    let s = chars_of(text);
    assert(s@.subrange(0, s@.len() as int) =~= s@);
    match fenced_in(&s, 0, s.len(), &chars_of(fence)) {
        Some((a, b)) => Some(string_of(&s, a, b)),
        None => None,
    }
}

/// Whether `s[lo..hi]` starts with `{` or `[`.
fn json_like_in(s: &Vec<char>, lo: usize, hi: usize) -> (r: bool)
    requires
        lo <= hi <= s.len(),
    ensures
        r == json_like(s@.subrange(lo as int, hi as int)),
{
    starts_with_in(s, lo, hi, &chars_of("{")) || starts_with_in(s, lo, hi, &chars_of("["))
}

/// Extract the JSON text from a model reply that may wrap it in a Markdown fence.
pub fn extract_json(raw: &str) -> (r: Result<String, CaptureError>)
    ensures
        match r {
            Ok(t) => json_text(raw@) == Some(t@),
            Err(e) => json_text(raw@) is None && e is NoJsonFound,
        },
{
    let s = chars_of(raw);
    assert(s@.subrange(0, s@.len() as int) =~= s@);
    let (a, b) = trim_range(&s, 0, s.len());
    // A ```json fence.
    if let Some((x, y)) = fenced_in(&s, a, b, &chars_of("```json")) {
        return Ok(string_of(&s, x, y));
    }
    // A plain ``` fence, when what it holds looks like JSON.
    if let Some((x, y)) = fenced_in(&s, a, b, &chars_of("```")) {
        let (c, d) = trim_range(&s, x, y);
        if json_like_in(&s, c, d) {
            return Ok(string_of(&s, c, d));
        }
    }
    // The reply itself.
    if json_like_in(&s, a, b) {
        return Ok(string_of(&s, a, b));
    }
    Err(CaptureError::NoJsonFound)
}

} // verus!
