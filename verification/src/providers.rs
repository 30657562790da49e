//! The model registry of the DeepSeek provider: model aliases, provider metadata,
//! token limits and the context-window check made before a request is sent.

use vstd::prelude::*;

use crate::text::{
    after_last_slash, after_last_slash_in, ascii_lowercase, ascii_lowercase_in, chars_of, contains,
    contains_in, equals_in, starts_with, starts_with_in, string_of, trim, trim_range, find, find_in,
    lines, line_ranges, range_texts, ranges_within, strip_both, strip_both_range, CharClass,
    lemma_find_from_bounds,
};

verus! {

/// The API providers. DeepSeek is the only one for now.
#[derive(Debug, Clone, Copy, PartialEq, Eq, Structural)]
pub enum ProviderKind {
    Deepseek,
}

/// Where a provider's credentials and endpoint come from.
#[derive(Debug, Clone, Copy, PartialEq, Eq)]
pub struct ProviderMetadata {
    pub provider: ProviderKind,
    pub auth_env: &'static str,
    pub base_url_env: &'static str,
    pub default_base_url: &'static str,
}

/// The token limits of a model.
#[derive(Debug, Clone, Copy, PartialEq, Eq, Structural)]
pub struct ModelTokenLimit {
    pub max_output_tokens: u32,
    pub context_window_tokens: u32,
}

/// The endpoint used when `DEEPSEEK_BASE_URL` is not set.
pub const DEFAULT_DEEPSEEK_BASE_URL: &'static str = "https://api.deepseek.com";

/// The canonical DeepSeek model id of `model`: `pro` names `deepseek-v4-pro`; `flash`,
/// `deepseek` and `auto` name `deepseek-v4-flash` (matched after trimming, ignoring ASCII
/// case); any other name stands for itself, trimmed.
pub open spec fn canonical_model(model: Seq<char>) -> Seq<char> {
    let t = trim(model);
    let l = ascii_lowercase(t);
    if l == "pro"@ {
        "deepseek-v4-pro"@
    } else if l == "flash"@ || l == "deepseek"@ || l == "auto"@ {
        "deepseek-v4-flash"@
    } else {
        t
    }
}

/// The model id without any `vendor/` prefix.
pub open spec fn base_model(model: Seq<char>) -> Seq<char> {
    after_last_slash(canonical_model(model))
}

/// The model names a DeepSeek model.
pub open spec fn is_deepseek_model(model: Seq<char>) -> bool {
    starts_with(base_model(model), "deepseek"@)
}

/// The token limits of `model`: V4 models (and any model that is not DeepSeek's) have
/// 128K output and a 1M context; older DeepSeek models 32K output and a 128K context.
pub open spec fn token_limit(model: Seq<char>) -> ModelTokenLimit {
    if is_deepseek_model(model) && !contains(base_model(model), "v4"@) {
        ModelTokenLimit { max_output_tokens: 32_000, context_window_tokens: 128_000 }
    } else {
        ModelTokenLimit { max_output_tokens: 128_000, context_window_tokens: 1_000_000 }
    }
}

/// Resolve short aliases to canonical DeepSeek model IDs.
pub fn resolve_model_alias(model: &str) -> (r: String)
    ensures
        r@ == canonical_model(model@),
{
    let s = chars_of(model);
    assert(s@.subrange(0, s@.len() as int) =~= s@);
    let (a, b) = trim_range(&s, 0, s.len());
    let lower = ascii_lowercase_in(&s, a, b);
    let n = lower.len();
    assert(lower@.subrange(0, n as int) =~= lower@);
    if equals_in(&lower, 0, n, &chars_of("pro")) {
        String::from_str("deepseek-v4-pro")
    } else if equals_in(&lower, 0, n, &chars_of("flash")) || equals_in(
        &lower,
        0,
        n,
        &chars_of("deepseek"),
    ) || equals_in(&lower, 0, n, &chars_of("auto")) {
        String::from_str("deepseek-v4-flash")
    } else {
        string_of(&s, a, b)
    }
}

/// The bounds, in the characters of the canonical id `c`, of the model id without its
/// vendor prefix.
fn base_model_of(model: &str) -> (r: (Vec<char>, usize))
    ensures
        r.1 <= r.0@.len(),
        r.0@.subrange(r.1 as int, r.0@.len() as int) == base_model(model@),
{
    let canonical = resolve_model_alias(model);
    let c = chars_of(canonical.as_str());
    let n = c.len();
    let a = after_last_slash_in(&c, 0, n);
    assert(c@.subrange(0, n as int) =~= c@);
    (c, a)
}

/// The metadata of the DeepSeek provider.
fn deepseek_metadata() -> (r: ProviderMetadata)
    ensures
        r.provider == ProviderKind::Deepseek,
        r.auth_env@ == "DEEPSEEK_API_KEY"@,
        r.base_url_env@ == "DEEPSEEK_BASE_URL"@,
        r.default_base_url@ == DEFAULT_DEEPSEEK_BASE_URL@,
{
    ProviderMetadata {
        provider: ProviderKind::Deepseek,
        auth_env: "DEEPSEEK_API_KEY",
        base_url_env: "DEEPSEEK_BASE_URL",
        default_base_url: DEFAULT_DEEPSEEK_BASE_URL,
    }
}

/// The provider metadata of a model: DeepSeek's for a DeepSeek model, and for any other
/// model when DeepSeek credentials or an endpoint are configured (`deepseek_configured`,
/// whether `DEEPSEEK_API_KEY` or `DEEPSEEK_BASE_URL` is set); otherwise none.
pub fn metadata_for_model(model: &str, deepseek_configured: bool) -> (r: Option<ProviderMetadata>)
    ensures
        r is Some <==> (is_deepseek_model(model@) || deepseek_configured),
        r matches Some(m) ==> m.provider == ProviderKind::Deepseek && m.auth_env@
            == "DEEPSEEK_API_KEY"@ && m.base_url_env@ == "DEEPSEEK_BASE_URL"@ && m.default_base_url@
            == DEFAULT_DEEPSEEK_BASE_URL@,
{
    let (c, a) = base_model_of(model);
    if starts_with_in(&c, a, c.len(), &chars_of("deepseek")) {
        return Some(deepseek_metadata());
    }
    if deepseek_configured {
        return Some(deepseek_metadata());
    }
    None
}

/// Detect the provider for a given model name. Always DeepSeek: a DeepSeek model or
/// configured DeepSeek credentials select it, and it is the fallback as well.
pub fn detect_provider_kind(model: &str) -> (r: ProviderKind)
    ensures
        r == ProviderKind::Deepseek,
{
    match metadata_for_model(model, false) {
        Some(metadata) => metadata.provider,
        None => ProviderKind::Deepseek,
    }
}

/// Hard-coded token limits for known DeepSeek models.
pub fn model_token_limit(model: &str) -> (r: Option<ModelTokenLimit>)
    ensures
        r == Some(token_limit(model@)),
{
    let (c, a) = base_model_of(model);
    if starts_with_in(&c, a, c.len(), &chars_of("deepseek")) {
        let (output, context) = if contains_in(&c, a, c.len(), &chars_of("v4")) {
            (128_000u32, 1_000_000u32)
        } else {
            (32_000u32, 128_000u32)
        };
        return Some(ModelTokenLimit { max_output_tokens: output, context_window_tokens: context });
    }
    // Unrecognized model: still assume DeepSeek V4 limits.
    Some(ModelTokenLimit { max_output_tokens: 128_000, context_window_tokens: 1_000_000 })
}

/// Max output tokens for a model. Defaults to 128K for V4.
pub fn max_tokens_for_model(model: &str) -> (r: u32)
    ensures
        r == token_limit(model@).max_output_tokens,
{
    match model_token_limit(model) {
        Some(limit) => limit.max_output_tokens,
        None => 128_000,
    }
}

/// Returns the effective max output tokens, preferring a plugin override.
pub fn max_tokens_for_model_with_override(model: &str, plugin_override: Option<u32>) -> (r: u32)
    ensures
        r == match plugin_override {
            Some(o) => o,
            None => token_limit(model@).max_output_tokens,
        },
{
    match plugin_override {
        Some(o) => o,
        None => max_tokens_for_model(model),
    }
}


/// Resolving an alias is idempotent: a canonical id resolves to itself.
pub proof fn law_resolve_idempotent(model: Seq<char>)
    ensures
        canonical_model(canonical_model(model)) == canonical_model(model),
{
    reveal_strlit("pro");
    reveal_strlit("flash");
    reveal_strlit("deepseek");
    reveal_strlit("auto");
    reveal_strlit("deepseek-v4-pro");
    reveal_strlit("deepseek-v4-flash");
    let t = trim(model);
    crate::text::lemma_trim_idempotent(model);
    let c = canonical_model(model);
    if ascii_lowercase(t) == "pro"@ || ascii_lowercase(t) == "flash"@ || ascii_lowercase(t)
        == "deepseek"@ || ascii_lowercase(t) == "auto"@ {
        crate::text::lemma_strip_start_noop(c, CharClass::Space);
        crate::text::lemma_strip_end_noop(c, CharClass::Space);
        assert(trim(c) == c);
        assert(ascii_lowercase(c) =~= c);
        assert(c.len() > 8);
    }
}

/// A block of a tool result, as far as the context check reads it: text, or JSON held
/// as its serialized text.
pub enum ToolResultContentBlock {
    Text { text: String },
    Json { value: String },
}

/// A block of an input message, as far as the context check reads it; JSON input is
/// held as its serialized text.
pub enum InputContentBlock {
    Text { text: String },
    Thinking { thinking: String },
    ToolUse { input: String },
    ToolResult { tool_use_id: String, content: Vec<ToolResultContentBlock> },
}

/// An input message: its content blocks.
pub struct InputMessage {
    pub content: Vec<InputContentBlock>,
}

/// A message request, as far as the context check reads it.
pub struct MessageRequest {
    pub model: String,
    pub max_tokens: u32,
    pub system: Option<String>,
    pub messages: Vec<InputMessage>,
}

/// Errors of a request.
#[derive(Debug)]
pub enum ApiError {
    /// The estimated input and the requested output do not fit the model's context.
    ContextWindowExceeded {
        model: String,
        estimated_input_tokens: u32,
        requested_output_tokens: u32,
        estimated_total_tokens: u32,
        context_window_tokens: u32,
    },
}

pub open spec fn result_block_chars(b: ToolResultContentBlock) -> nat {
    match b {
        ToolResultContentBlock::Text { text } => text@.len(),
        ToolResultContentBlock::Json { value } => value@.len(),
    }
}

/// The characters of the blocks of a tool result.
pub open spec fn result_chars(bs: Seq<ToolResultContentBlock>) -> nat
    decreases bs.len(),
{
    if bs.len() == 0 {
        0
    } else {
        result_chars(bs.drop_last()) + result_block_chars(bs.last())
    }
}

pub open spec fn block_chars(b: InputContentBlock) -> nat {
    match b {
        InputContentBlock::Text { text } => text@.len(),
        InputContentBlock::Thinking { thinking } => thinking@.len(),
        InputContentBlock::ToolUse { input } => input@.len(),
        InputContentBlock::ToolResult { tool_use_id, content } => tool_use_id@.len() + result_chars(
            content@,
        ),
    }
}

/// The characters of the blocks of a message.
pub open spec fn blocks_chars(bs: Seq<InputContentBlock>) -> nat
    decreases bs.len(),
{
    if bs.len() == 0 {
        0
    } else {
        blocks_chars(bs.drop_last()) + block_chars(bs.last())
    }
}

/// The characters of the blocks of all messages.
pub open spec fn messages_chars(ms: Seq<InputMessage>) -> nat
    decreases ms.len(),
{
    if ms.len() == 0 {
        0
    } else {
        messages_chars(ms.drop_last()) + blocks_chars(ms.last().content@)
    }
}

/// The characters of a request: its system prompt and every message block.
pub open spec fn request_chars(r: MessageRequest) -> nat {
    (match r.system {
        Some(s) => s@.len(),
        None => 0,
    }) + messages_chars(r.messages@)
}

/// The estimated input tokens of a request: four characters to a token.
pub open spec fn estimated_tokens(r: MessageRequest) -> nat {
    request_chars(r) / 4
}

/// The estimated input tokens plus the requested output tokens, saturated at `u32::MAX`.
pub open spec fn estimated_total(r: MessageRequest) -> nat {
    if estimated_tokens(r) + (r.max_tokens as nat) > u32::MAX {
        u32::MAX as nat
    } else {
        estimated_tokens(r) + (r.max_tokens as nat)
    }
}

proof fn lemma_result_chars_prefix(bs: Seq<ToolResultContentBlock>, j: int)
    requires
        0 <= j <= bs.len(),
    ensures
        result_chars(bs.take(j)) <= result_chars(bs),
    decreases bs.len(),
{
    if j < bs.len() {
        assert(bs.drop_last().take(j) =~= bs.take(j));
        lemma_result_chars_prefix(bs.drop_last(), j);
    } else {
        assert(bs.take(j) =~= bs);
    }
}

proof fn lemma_blocks_chars_prefix(bs: Seq<InputContentBlock>, j: int)
    requires
        0 <= j <= bs.len(),
    ensures
        blocks_chars(bs.take(j)) <= blocks_chars(bs),
    decreases bs.len(),
{
    if j < bs.len() {
        assert(bs.drop_last().take(j) =~= bs.take(j));
        lemma_blocks_chars_prefix(bs.drop_last(), j);
    } else {
        assert(bs.take(j) =~= bs);
    }
}

proof fn lemma_messages_chars_prefix(ms: Seq<InputMessage>, j: int)
    requires
        0 <= j <= ms.len(),
    ensures
        messages_chars(ms.take(j)) <= messages_chars(ms),
    decreases ms.len(),
{
    if j < ms.len() {
        assert(ms.drop_last().take(j) =~= ms.take(j));
        lemma_messages_chars_prefix(ms.drop_last(), j);
    } else {
        assert(ms.take(j) =~= ms);
    }
}

/// Changing one block of a message changes its characters by that block's change.
proof fn lemma_blocks_chars_update(a: Seq<InputContentBlock>, b: Seq<InputContentBlock>, k: int)
    requires
        a.len() == b.len(),
        0 <= k < a.len(),
        forall|j: int| 0 <= j < a.len() && j != k ==> a[j] == b[j],
    ensures
        blocks_chars(b) + block_chars(a[k]) == blocks_chars(a) + block_chars(b[k]),
    decreases a.len(),
{
    if k < a.len() - 1 {
        lemma_blocks_chars_update(a.drop_last(), b.drop_last(), k);
    } else {
        assert(a.drop_last() =~= b.drop_last());
    }
}

/// Changing one message changes the characters of all messages by that message's change.
proof fn lemma_messages_chars_update(a: Seq<InputMessage>, b: Seq<InputMessage>, k: int)
    requires
        a.len() == b.len(),
        0 <= k < a.len(),
        forall|j: int| 0 <= j < a.len() && j != k ==> a[j] == b[j],
    ensures
        messages_chars(b) + blocks_chars(a[k].content@) == messages_chars(a) + blocks_chars(
            b[k].content@,
        ),
    decreases a.len(),
{
    if k < a.len() - 1 {
        lemma_messages_chars_update(a.drop_last(), b.drop_last(), k);
    } else {
        assert(a.drop_last() =~= b.drop_last());
    }
}

/// Every text in a tool result counts toward the estimate: a request whose only
/// difference from another is one more text block, of `n` characters, at the end of one
/// of its tool results has `n` characters more.
pub proof fn law_tool_result_text_counts(
    r1: MessageRequest,
    r2: MessageRequest,
    i: int,
    k: int,
    text: String,
)
    requires
        r2.system == r1.system,
        r2.messages@.len() == r1.messages@.len(),
        0 <= i < r1.messages@.len(),
        forall|j: int| 0 <= j < r1.messages@.len() && j != i ==> r2.messages@[j] == r1.messages@[j],
        r2.messages@[i].content@.len() == r1.messages@[i].content@.len(),
        0 <= k < r1.messages@[i].content@.len(),
        forall|j: int|
            0 <= j < r1.messages@[i].content@.len() && j != k ==> r2.messages@[i].content@[j]
                == r1.messages@[i].content@[j],
        r1.messages@[i].content@[k] is ToolResult,
        r2.messages@[i].content@[k] is ToolResult,
        r2.messages@[i].content@[k]->tool_use_id@ == r1.messages@[i].content@[k]->tool_use_id@,
        r2.messages@[i].content@[k]->content@ == r1.messages@[i].content@[k]->content@.push(
            ToolResultContentBlock::Text { text },
        ),
    ensures
        request_chars(r2) == request_chars(r1) + text@.len(),
        estimated_tokens(r2) == (request_chars(r1) + text@.len()) / 4,
{
    let a = r1.messages@[i].content@;
    let b = r2.messages@[i].content@;
    let c2 = b[k]->content@;
    assert(c2.drop_last() =~= a[k]->content@);
    assert(result_chars(c2) == result_chars(a[k]->content@) + text@.len());
    lemma_blocks_chars_update(a, b, k);
    lemma_messages_chars_update(r1.messages@, r2.messages@, i);
}

/// The characters of a string, when they fit a `u32`.
fn char_count(s: &String, bound: Ghost<nat>) -> (n: u32)
    requires
        s@.len() <= bound@ <= u32::MAX,
    ensures
        n == s@.len(),
{
    s.as_str().unicode_len() as u32
}

fn result_block_count(bs: &Vec<ToolResultContentBlock>, bound: Ghost<nat>) -> (n: u32)
    requires
        result_chars(bs@) <= bound@ <= u32::MAX,
    ensures
        n == result_chars(bs@),
{
    let mut n: u32 = 0;
    let mut j: usize = 0;
    while j < bs.len()
        invariant
            j <= bs.len(),
            result_chars(bs@) <= bound@ <= u32::MAX,
            n == result_chars(bs@.take(j as int)),
        decreases bs.len() - j,
    {
        assert(bs@.take(j + 1).drop_last() =~= bs@.take(j as int));
        proof {
            lemma_result_chars_prefix(bs@, j + 1);
        }
        let c = match &bs[j] {
            ToolResultContentBlock::Text { text } => char_count(text, bound),
            ToolResultContentBlock::Json { value } => char_count(value, bound),
        };
        n = n + c;
        j += 1;
    }
    assert(bs@.take(j as int) =~= bs@);
    n
}

fn blocks_count(bs: &Vec<InputContentBlock>, bound: Ghost<nat>) -> (n: u32)
    requires
        blocks_chars(bs@) <= bound@ <= u32::MAX,
    ensures
        n == blocks_chars(bs@),
{
    let mut n: u32 = 0;
    let mut j: usize = 0;
    while j < bs.len()
        invariant
            j <= bs.len(),
            blocks_chars(bs@) <= bound@ <= u32::MAX,
            n == blocks_chars(bs@.take(j as int)),
        decreases bs.len() - j,
    {
        assert(bs@.take(j + 1).drop_last() =~= bs@.take(j as int));
        proof {
            lemma_blocks_chars_prefix(bs@, j + 1);
        }
        let c = match &bs[j] {
            InputContentBlock::Text { text } => char_count(text, bound),
            InputContentBlock::Thinking { thinking } => char_count(thinking, bound),
            InputContentBlock::ToolUse { input } => char_count(input, bound),
            InputContentBlock::ToolResult { tool_use_id, content } => {
                let t = char_count(tool_use_id, bound);
                let r = result_block_count(content, bound);
                t + r
            },
        };
        n = n + c;
        j += 1;
    }
    assert(bs@.take(j as int) =~= bs@);
    n
}

/// Rough input-token estimate of a request: four characters to a token.
fn estimate_message_request_input_tokens(request: &MessageRequest) -> (n: u32)
    requires
        request_chars(*request) <= u32::MAX,
    ensures
        n == estimated_tokens(*request),
{
    let ghost bound = request_chars(*request);
    let system_chars: u32 = match &request.system {
        Some(s) => char_count(s, Ghost(bound)),
        None => 0,
    };
    let ms = &request.messages;
    let mut message_chars: u32 = 0;
    let mut j: usize = 0;
    while j < ms.len()
        invariant
            j <= ms.len(),
            bound == request_chars(*request),
            bound <= u32::MAX,
            messages_chars(ms@) <= bound,
            message_chars == messages_chars(ms@.take(j as int)),
        decreases ms.len() - j,
    {
        assert(ms@.take(j + 1).drop_last() =~= ms@.take(j as int));
        proof {
            lemma_messages_chars_prefix(ms@, j + 1);
        }
        let c = blocks_count(&ms[j].content, Ghost(bound));
        message_chars = message_chars + c;
        j += 1;
    }
    assert(ms@.take(j as int) =~= ms@);
    (system_chars + message_chars) / 4
}

/// Check that a request's estimated input plus its requested output fits the model's
/// context window.
pub fn preflight_message_request(request: &MessageRequest) -> (r: Result<(), ApiError>)
    requires
        request_chars(*request) <= u32::MAX,
    ensures
        match r {
            Ok(()) => estimated_total(*request) <= token_limit(request.model@).context_window_tokens,
            Err(ApiError::ContextWindowExceeded {
                model,
                estimated_input_tokens,
                requested_output_tokens,
                estimated_total_tokens,
                context_window_tokens,
            }) => {
                &&& model@ == canonical_model(request.model@)
                &&& estimated_input_tokens == estimated_tokens(*request)
                &&& requested_output_tokens == request.max_tokens
                &&& estimated_total_tokens == estimated_total(*request)
                &&& context_window_tokens == token_limit(request.model@).context_window_tokens
                &&& estimated_total(*request) > token_limit(request.model@).context_window_tokens
            },
        },
{
    let limit = match model_token_limit(request.model.as_str()) {
        Some(limit) => limit,
        None => return Ok(()),
    };
    let estimated_input_tokens = estimate_message_request_input_tokens(request);
    let estimated_total_tokens = estimated_input_tokens.saturating_add(request.max_tokens);
    if estimated_total_tokens > limit.context_window_tokens {
        return Err(
            ApiError::ContextWindowExceeded {
                model: resolve_model_alias(request.model.as_str()),
                estimated_input_tokens,
                requested_output_tokens: request.max_tokens,
                estimated_total_tokens,
                context_window_tokens: limit.context_window_tokens,
            },
        );
    }
    Ok(())
}

/// The key and the value of a `.env` line: comments and blank lines hold none; the value
/// is trimmed and loses surrounding double, then single, quotes.
pub open spec fn dotenv_pair(line: Seq<char>) -> Option<(Seq<char>, Seq<char>)> {
    let t = trim(line);
    if t.len() == 0 || starts_with(t, "#"@) {
        None
    } else {
        match find(t, "="@) {
            None => None,
            Some(p) => Some(
                (
                    trim(t.subrange(0, p)),
                    strip_both(
                        strip_both(trim(t.subrange(p + 1, t.len() as int)), CharClass::DoubleQuote),
                        CharClass::SingleQuote,
                    ),
                ),
            ),
        }
    }
}

/// The first non-empty value for `key` among the lines `ls[i..]`.
pub open spec fn dotenv_lookup_from(ls: Seq<Seq<char>>, key: Seq<char>, i: int) -> Option<Seq<char>>
    decreases ls.len() - i,
{
    if i < 0 || i >= ls.len() {
        None
    } else {
        match dotenv_pair(ls[i]) {
            Some((k, v)) => if k == key && v.len() > 0 {
                Some(v)
            } else {
                dotenv_lookup_from(ls, key, i + 1)
            },
            None => dotenv_lookup_from(ls, key, i + 1),
        }
    }
}

/// The value of `key` in the text of a `.env` file: that of the first line that sets it
/// to a non-empty value.
pub fn dotenv_value_in(contents: &str, key: &str) -> (r: Option<String>)
    ensures
        match r {
            Some(v) => dotenv_lookup_from(lines(contents@), key@, 0) == Some(v@),
            None => dotenv_lookup_from(lines(contents@), key@, 0) is None,
        },
{
    let s = chars_of(contents);
    let rs = line_ranges(&s);
    let ghost ls = lines(s@);
    let k = chars_of(key);
    let eq = chars_of("=");
    let hash = chars_of("#");
    let mut i: usize = 0;
    while i < rs.len()
        invariant
            i <= rs.len(),
            ranges_within(s@.len(), rs@),
            range_texts(s@, rs@) == ls,
            k@ == key@,
            s@ == contents@,
            ls == lines(s@),
            eq@ == "="@,
            hash@ == "#"@,
            dotenv_lookup_from(ls, key@, 0) == dotenv_lookup_from(ls, key@, i as int),
        decreases rs.len() - i,
    {
        let (lo, hi) = rs[i];
        assert(rs@[i as int].0 <= rs@[i as int].1 <= s@.len());
        assert(ls[i as int] == s@.subrange(lo as int, hi as int));
        let (a, b) = trim_range(&s, lo, hi);
        if a < b && !starts_with_in(&s, a, b, &hash) {
            if let Some(p) = find_in(&s, a, b, &eq) {
                proof {
                    lemma_find_from_bounds(s@.subrange(a as int, b as int), "="@, 0);
                    reveal_strlit("=");
                    assert(s@.subrange(a as int, b as int).subrange(0, p as int) =~= s@.subrange(
                        a as int,
                        a + p,
                    ));
                    assert(s@.subrange(a as int, b as int).subrange(p + 1, b - a) =~= s@.subrange(
                        a + p + 1,
                        b as int,
                    ));
                }
                let (ka, kb) = trim_range(&s, a, a + p);
                let (va, vb) = trim_range(&s, a + p + 1, b);
                let (va, vb) = strip_both_range(&s, va, vb, &CharClass::DoubleQuote);
                let (va, vb) = strip_both_range(&s, va, vb, &CharClass::SingleQuote);
                if equals_in(&s, ka, kb, &k) && va < vb {
                    let v = string_of(&s, va, vb);
                    assert(trim(ls[i as int]) == s@.subrange(a as int, b as int));
                    assert(find(s@.subrange(a as int, b as int), "="@) == Some(p as int));
                    assert(dotenv_pair(ls[i as int]) == Some((key@, v@)));
                    assert(dotenv_lookup_from(ls, key@, i as int) == Some(v@));
                    return Some(v);
                }
            }
        }
        i += 1;
    }
    None
}

} // verus!
