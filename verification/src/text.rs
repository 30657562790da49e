//! Character-level text primitives: whitespace, trimming, searching and
//! line splitting, each stated over `Seq<char>` and computed over `Vec<char>`.

use vstd::prelude::*;
use vstd::string::StringSliceAdditionalSpecFns;

verus! {

broadcast use vstd::string::group_string_axioms;

/// Unicode `White_Space`, the property that `char::is_whitespace` and `str::trim` use.
pub open spec fn is_space(c: char) -> bool {
    let u = c as u32;
    ||| 0x09 <= u <= 0x0d
    ||| u == 0x20
    ||| u == 0x85
    ||| u == 0xa0
    ||| u == 0x1680
    ||| 0x2000 <= u <= 0x200a
    ||| u == 0x2028
    ||| u == 0x2029
    ||| u == 0x202f
    ||| u == 0x205f
    ||| u == 0x3000
}

pub fn is_whitespace(c: char) -> (b: bool)
    ensures
        b == is_space(c),
{
    let u = c as u32;
    (0x09 <= u && u <= 0x0d) || u == 0x20 || u == 0x85 || u == 0xa0 || u == 0x1680 || (0x2000
        <= u && u <= 0x200a) || u == 0x2028 || u == 0x2029 || u == 0x202f || u == 0x205f || u
        == 0x3000
}

/// The size of `s` in bytes, UTF-8 encoded (`str::len`).
pub fn byte_length(s: &str) -> (n: usize)
    ensures
        n == s.spec_bytes().len(),
{
    s.as_bytes().len()
}

/// The characters of a string slice, in order.
pub fn chars_of(s: &str) -> (v: Vec<char>)
    ensures
        v@ == s@,
{
    let mut v: Vec<char> = Vec::new();
    for c in it: s.chars()
        invariant
            v@ == it.seq().take(it.index()),
    {
        v.push(c);
    }
    v
}


/// `String::push`: appends one character to the end of the string.
#[verifier::external_body]
fn push_char(s: &mut String, c: char)
    ensures
        final(s)@ == old(s)@.push(c),
{
    s.push(c);
}

/// The characters `s[lo..hi]` as a new `String`.
pub fn string_of(s: &Vec<char>, lo: usize, hi: usize) -> (r: String)
    requires
        lo <= hi <= s.len(),
    ensures
        r@ == s@.subrange(lo as int, hi as int),
{
    let mut r = String::new();
    let mut i = lo;
    while i < hi
        invariant
            lo <= i <= hi <= s.len(),
            r@ == s@.subrange(lo as int, i as int),
        decreases hi - i,
    {
        push_char(&mut r, s[i]);
        assert(s@.subrange(lo as int, i + 1) =~= s@.subrange(lo as int, i as int).push(s@[i as int]));
        i += 1;
    }
    r
}

/// The character classes that the parsers strip from the ends of a line.
pub enum CharClass {
    /// Unicode whitespace.
    Space,
    /// List markers: `-`, `*` and the space.
    Bullet,
    /// Separators before a description: em dash, `:`, `-` and the space.
    Separator,
    /// The double quote.
    DoubleQuote,
    /// The single quote.
    SingleQuote,
}

pub open spec fn in_class(k: CharClass, c: char) -> bool {
    match k {
        CharClass::Space => is_space(c),
        CharClass::Bullet => c == '-' || c == '*' || c == ' ',
        CharClass::Separator => c == '\u{2014}' || c == ':' || c == '-' || c == ' ',
        CharClass::DoubleQuote => c == '"',
        CharClass::SingleQuote => c == '\'',
    }
}

pub fn class_contains(k: &CharClass, c: char) -> (b: bool)
    ensures
        b == in_class(*k, c),
{
    match k {
        CharClass::Space => is_whitespace(c),
        CharClass::Bullet => c == '-' || c == '*' || c == ' ',
        CharClass::Separator => c == '\u{2014}' || c == ':' || c == '-' || c == ' ',
        CharClass::DoubleQuote => c == '"',
        CharClass::SingleQuote => c == '\'',
    }
}

/// `s` without its leading characters of class `k` (`trim_start_matches`).
pub open spec fn strip_start(s: Seq<char>, k: CharClass) -> Seq<char>
    decreases s.len(),
{
    if s.len() > 0 && in_class(k, s[0]) {
        strip_start(s.drop_first(), k)
    } else {
        s
    }
}

/// `s` without its trailing characters of class `k` (`trim_end_matches`).
pub open spec fn strip_end(s: Seq<char>, k: CharClass) -> Seq<char>
    decreases s.len(),
{
    if s.len() > 0 && in_class(k, s.last()) {
        strip_end(s.drop_last(), k)
    } else {
        s
    }
}

/// `str::trim_matches` with a character class: leading and trailing characters of class
/// `k` removed.
pub open spec fn strip_both(s: Seq<char>, k: CharClass) -> Seq<char> {
    strip_end(strip_start(s, k), k)
}

/// `str::trim`: leading and trailing whitespace removed.
pub open spec fn trim(s: Seq<char>) -> Seq<char> {
    strip_end(strip_start(s, CharClass::Space), CharClass::Space)
}

pub proof fn lemma_strip_start_props(s: Seq<char>, k: CharClass)
    ensures
        strip_start(s, k).len() <= s.len(),
        strip_start(s, k).len() == 0 || !in_class(k, strip_start(s, k)[0]),
        strip_start(s, k) == s.subrange(s.len() - strip_start(s, k).len(), s.len() as int),
    decreases s.len(),
{
    if s.len() > 0 && in_class(k, s[0]) {
        lemma_strip_start_props(s.drop_first(), k);
        let r = strip_start(s.drop_first(), k);
        assert(s.drop_first().subrange(s.len() - 1 - r.len(), s.len() - 1) =~= s.subrange(
            s.len() - r.len(),
            s.len() as int,
        ));
    } else {
        assert(s.subrange(0, s.len() as int) =~= s);
    }
}

pub proof fn lemma_strip_end_props(s: Seq<char>, k: CharClass)
    ensures
        strip_end(s, k).len() <= s.len(),
        strip_end(s, k).len() == 0 || !in_class(k, strip_end(s, k).last()),
        strip_end(s, k) == s.subrange(0, strip_end(s, k).len() as int),
    decreases s.len(),
{
    if s.len() > 0 && in_class(k, s.last()) {
        lemma_strip_end_props(s.drop_last(), k);
        let r = strip_end(s.drop_last(), k);
        assert(s.drop_last().subrange(0, r.len() as int) =~= s.subrange(0, r.len() as int));
    } else {
        assert(s.subrange(0, s.len() as int) =~= s);
    }
}

/// Stripping leaves a text unchanged when its first character is outside the class.
pub proof fn lemma_strip_start_noop(s: Seq<char>, k: CharClass)
    requires
        s.len() == 0 || !in_class(k, s[0]),
    ensures
        strip_start(s, k) == s,
{
}

/// Stripping leaves a text unchanged when its last character is outside the class.
pub proof fn lemma_strip_end_noop(s: Seq<char>, k: CharClass)
    requires
        s.len() == 0 || !in_class(k, s.last()),
    ensures
        strip_end(s, k) == s,
{
}

/// Trailing characters of the class vanish in `strip_end`.
pub proof fn lemma_strip_end_append(x: Seq<char>, w: Seq<char>, k: CharClass)
    requires
        forall|j: int| 0 <= j < w.len() ==> in_class(k, w[j]),
    ensures
        strip_end(x + w, k) == strip_end(x, k),
    decreases w.len(),
{
    if w.len() > 0 {
        assert((x + w).drop_last() =~= x + w.drop_last());
        lemma_strip_end_append(x, w.drop_last(), k);
    } else {
        assert(x + w =~= x);
    }
}

/// Leading characters of the class vanish in `strip_start`.
pub proof fn lemma_strip_start_prepend(w: Seq<char>, x: Seq<char>, k: CharClass)
    requires
        forall|j: int| 0 <= j < w.len() ==> in_class(k, w[j]),
    ensures
        strip_start(w + x, k) == strip_start(x, k),
    decreases w.len(),
{
    if w.len() > 0 {
        assert((w + x).drop_first() =~= w.drop_first() + x);
        lemma_strip_start_prepend(w.drop_first(), x, k);
    } else {
        assert(w + x =~= x);
    }
}

/// Text after a part that keeps something once stripped survives `strip_start`.
pub proof fn lemma_strip_start_append(x: Seq<char>, y: Seq<char>, k: CharClass)
    requires
        strip_start(x, k).len() > 0,
    ensures
        strip_start(x + y, k) == strip_start(x, k) + y,
    decreases x.len(),
{
    if x.len() > 0 && in_class(k, x[0]) {
        assert((x + y).drop_first() =~= x.drop_first() + y);
        lemma_strip_start_append(x.drop_first(), y, k);
    } else {
        assert(x.len() > 0);
        assert((x + y)[0] == x[0]);
    }
}

/// A part that strips away entirely vanishes from the start.
pub proof fn lemma_strip_start_append_blank(x: Seq<char>, y: Seq<char>, k: CharClass)
    requires
        strip_start(x, k).len() == 0,
    ensures
        strip_start(x + y, k) == strip_start(y, k),
    decreases x.len(),
{
    if x.len() > 0 {
        assert(in_class(k, x[0]));
        assert((x + y).drop_first() =~= x.drop_first() + y);
        lemma_strip_start_append_blank(x.drop_first(), y, k);
    } else {
        assert(x + y =~= y);
    }
}

/// Text before a part that keeps something once stripped survives `strip_end`.
pub proof fn lemma_strip_end_prepend(x: Seq<char>, y: Seq<char>, k: CharClass)
    requires
        strip_end(y, k).len() > 0,
    ensures
        strip_end(x + y, k) == x + strip_end(y, k),
    decreases y.len(),
{
    if y.len() > 0 && in_class(k, y.last()) {
        assert((x + y).drop_last() =~= x + y.drop_last());
        lemma_strip_end_prepend(x, y.drop_last(), k);
    } else {
        assert(y.len() > 0);
        assert((x + y).last() == y.last());
    }
}

/// A part that strips away entirely vanishes from the end.
pub proof fn lemma_strip_end_prepend_blank(x: Seq<char>, y: Seq<char>, k: CharClass)
    requires
        strip_end(y, k).len() == 0,
    ensures
        strip_end(x + y, k) == strip_end(x, k),
    decreases y.len(),
{
    if y.len() > 0 {
        assert(in_class(k, y.last()));
        assert((x + y).drop_last() =~= x + y.drop_last());
        lemma_strip_end_prepend_blank(x, y.drop_last(), k);
    } else {
        assert(x + y =~= x);
    }
}

/// Stripping the start and stripping the end can be done in either order.
pub proof fn lemma_strip_commute(s: Seq<char>, k: CharClass)
    ensures
        strip_start(strip_end(s, k), k) == strip_end(strip_start(s, k), k),
    decreases s.len(),
{
    if s.len() == 0 {
    } else if in_class(k, s.last()) {
        let x = s.drop_last();
        let c = seq![s.last()];
        assert(s =~= x + c);
        lemma_strip_commute(x, k);
        if strip_start(x, k).len() > 0 {
            lemma_strip_start_append(x, c, k);
            lemma_strip_end_append(strip_start(x, k), c, k);
        } else {
            lemma_strip_start_append_blank(x, c, k);
            assert(c.drop_first() =~= Seq::<char>::empty());
            assert(in_class(k, c[0]));
            assert(strip_start(c.drop_first(), k) =~= Seq::<char>::empty());
            assert(strip_start(c, k) =~= Seq::<char>::empty());
        }
    } else {
        lemma_strip_start_props(s, k);
        let a = strip_start(s, k);
        if a.len() > 0 {
            assert(a.last() == s.last());
        }
        lemma_strip_end_noop(a, k);
    }
}

/// Trimming does not see trailing whitespace that was stripped first.
pub proof fn lemma_trim_strip_end(s: Seq<char>)
    ensures
        trim(strip_end(s, CharClass::Space)) == trim(s),
{
    let k = CharClass::Space;
    lemma_strip_commute(s, k);
    let b = strip_end(strip_start(s, k), k);
    lemma_strip_end_props(strip_start(s, k), k);
    lemma_strip_end_noop(b, k);
}

/// `a` comes before `b` in the order of `str`: character by character by code point
/// (which is the order of their UTF-8 bytes), a proper prefix first.
pub open spec fn text_lt(a: Seq<char>, b: Seq<char>) -> bool
    decreases a.len(),
{
    if b.len() == 0 {
        false
    } else if a.len() == 0 {
        true
    } else if a[0] != b[0] {
        (a[0] as u32) < (b[0] as u32)
    } else {
        text_lt(a.drop_first(), b.drop_first())
    }
}

/// No text comes before itself.
pub proof fn lemma_text_lt_irreflexive(a: Seq<char>)
    ensures
        !text_lt(a, a),
    decreases a.len(),
{
    if a.len() > 0 {
        lemma_text_lt_irreflexive(a.drop_first());
    }
}

/// The order of texts is transitive.
pub proof fn lemma_text_lt_transitive(a: Seq<char>, b: Seq<char>, c: Seq<char>)
    requires
        text_lt(a, b),
        text_lt(b, c),
    ensures
        text_lt(a, c),
    decreases a.len(),
{
    if a.len() > 0 && b.len() > 0 && c.len() > 0 && a[0] == b[0] && b[0] == c[0] {
        lemma_text_lt_transitive(a.drop_first(), b.drop_first(), c.drop_first());
    }
}

/// Whether `a` comes before `b` in the order of `str`.
pub fn text_less(a: &str, b: &str) -> (r: bool)
    ensures
        r == text_lt(a@, b@),
{
    let x = chars_of(a);
    let y = chars_of(b);
    let mut i: usize = 0;
    assert(x@.skip(0) =~= x@ && y@.skip(0) =~= y@);
    while i < x.len() && i < y.len() && x[i] == y[i]
        invariant
            i <= x.len(),
            i <= y.len(),
            text_lt(x@, y@) == text_lt(x@.skip(i as int), y@.skip(i as int)),
        decreases x.len() - i,
    {
        assert(x@.skip(i as int).drop_first() =~= x@.skip(i + 1));
        assert(y@.skip(i as int).drop_first() =~= y@.skip(i + 1));
        i += 1;
    }
    if i == y.len() {
        false
    } else if i == x.len() {
        true
    } else {
        assert(x@.skip(i as int)[0] == x@[i as int] && y@.skip(i as int)[0] == y@[i as int]);
        (x[i] as u32) < (y[i] as u32)
    }
}

/// A text with no whitespace at either end is its own trim.
pub proof fn lemma_trim_noop(s: Seq<char>)
    requires
        s.len() == 0 || (!is_space(s[0]) && !is_space(s.last())),
    ensures
        trim(s) == s,
{
    lemma_strip_start_noop(s, CharClass::Space);
    lemma_strip_end_noop(s, CharClass::Space);
}

/// A trimmed text has no whitespace at either end.
pub proof fn lemma_trimmed_ends(s: Seq<char>)
    requires
        trim(s) == s,
        s.len() > 0,
    ensures
        !is_space(s[0]),
        !is_space(s.last()),
{
    let a = strip_start(s, CharClass::Space);
    lemma_strip_start_props(s, CharClass::Space);
    lemma_strip_end_props(a, CharClass::Space);
    assert(s[0] == a[0]);
}

/// Trimming twice is trimming once.
pub proof fn lemma_trim_idempotent(s: Seq<char>)
    ensures
        trim(trim(s)) == trim(s),
{
    let a = strip_start(s, CharClass::Space);
    lemma_strip_start_props(s, CharClass::Space);
    lemma_strip_end_props(a, CharClass::Space);
    let b = strip_end(a, CharClass::Space);
    if b.len() > 0 {
        assert(b[0] == a[0]);
    }
    lemma_strip_start_noop(b, CharClass::Space);
    lemma_strip_end_noop(b, CharClass::Space);
}

/// The start of `s[lo..hi]` once its leading characters of class `k` are skipped.
pub fn skip_start(s: &Vec<char>, lo: usize, hi: usize, k: &CharClass) -> (a: usize)
    requires
        lo <= hi <= s.len(),
    ensures
        lo <= a <= hi,
        s@.subrange(a as int, hi as int) == strip_start(s@.subrange(lo as int, hi as int), *k),
{
    let mut a = lo;
    while a < hi && class_contains(k, s[a])
        invariant
            lo <= a <= hi <= s.len(),
            strip_start(s@.subrange(lo as int, hi as int), *k) == strip_start(
                s@.subrange(a as int, hi as int),
                *k,
            ),
        decreases hi - a,
    {
        assert(s@.subrange(a as int, hi as int).drop_first() =~= s@.subrange(a + 1, hi as int));
        a += 1;
    }
    a
}

/// The end of `s[lo..hi]` once its trailing characters of class `k` are dropped.
pub fn skip_end(s: &Vec<char>, lo: usize, hi: usize, k: &CharClass) -> (b: usize)
    requires
        lo <= hi <= s.len(),
    ensures
        lo <= b <= hi,
        s@.subrange(lo as int, b as int) == strip_end(s@.subrange(lo as int, hi as int), *k),
{
    let mut b = hi;
    while b > lo && class_contains(k, s[b - 1])
        invariant
            lo <= b <= hi <= s.len(),
            strip_end(s@.subrange(lo as int, hi as int), *k) == strip_end(
                s@.subrange(lo as int, b as int),
                *k,
            ),
        decreases b - lo,
    {
        assert(s@.subrange(lo as int, b as int).drop_last() =~= s@.subrange(lo as int, b - 1));
        b -= 1;
    }
    b
}

/// The bounds of `strip_both(s[lo..hi], k)`.
pub fn strip_both_range(s: &Vec<char>, lo: usize, hi: usize, k: &CharClass) -> (r: (usize, usize))
    requires
        lo <= hi <= s.len(),
    ensures
        lo <= r.0 <= r.1 <= hi,
        s@.subrange(r.0 as int, r.1 as int) == strip_both(s@.subrange(lo as int, hi as int), *k),
{
    let a = skip_start(s, lo, hi, k);
    let b = skip_end(s, a, hi, k);
    (a, b)
}

/// The bounds of `trim(s[lo..hi])`.
pub fn trim_range(s: &Vec<char>, lo: usize, hi: usize) -> (r: (usize, usize))
    requires
        lo <= hi <= s.len(),
    ensures
        lo <= r.0 <= r.1 <= hi,
        s@.subrange(r.0 as int, r.1 as int) == trim(s@.subrange(lo as int, hi as int)),
{
    let a = skip_start(s, lo, hi, &CharClass::Space);
    let b = skip_end(s, a, hi, &CharClass::Space);
    (a, b)
}


/// `pat` occurs in `s` at index `i`.
pub open spec fn matches_at(s: Seq<char>, pat: Seq<char>, i: int) -> bool {
    0 <= i && i + pat.len() <= s.len() && s.subrange(i, i + pat.len()) == pat
}

/// The first index at or after `i` where `pat` occurs in `s`.
pub open spec fn find_from(s: Seq<char>, pat: Seq<char>, i: int) -> Option<int>
    decreases s.len() + 1 - i,
{
    if i < 0 || i + pat.len() > s.len() {
        None
    } else if matches_at(s, pat, i) {
        Some(i)
    } else {
        find_from(s, pat, i + 1)
    }
}

/// `str::find`: the first index where `pat` occurs in `s`.
pub open spec fn find(s: Seq<char>, pat: Seq<char>) -> Option<int> {
    find_from(s, pat, 0)
}

/// `str::contains`.
pub open spec fn contains(s: Seq<char>, pat: Seq<char>) -> bool {
    find(s, pat) is Some
}

/// `str::starts_with`.
pub open spec fn starts_with(s: Seq<char>, pat: Seq<char>) -> bool {
    matches_at(s, pat, 0)
}

/// `str::ends_with`.
pub open spec fn ends_with(s: Seq<char>, pat: Seq<char>) -> bool {
    matches_at(s, pat, s.len() - pat.len())
}

/// `str::trim_end_matches` with a string pattern: every trailing copy of `suffix` removed.
pub open spec fn strip_suffixes(s: Seq<char>, suffix: Seq<char>) -> Seq<char>
    decreases s.len(),
{
    if suffix.len() > 0 && ends_with(s, suffix) {
        strip_suffixes(s.subrange(0, s.len() - suffix.len()), suffix)
    } else {
        s
    }
}

pub proof fn lemma_find_from_bounds(s: Seq<char>, pat: Seq<char>, i: int)
    ensures
        find_from(s, pat, i) matches Some(k) ==> i <= k && matches_at(s, pat, k) && forall|j: int|
            i <= j < k ==> !matches_at(s, pat, j),
    decreases s.len() + 1 - i,
{
    if !(i < 0 || i + pat.len() > s.len()) && !matches_at(s, pat, i) {
        lemma_find_from_bounds(s, pat, i + 1);
    }
}

/// The first occurrence found from `i` is at `p` when `pat` occurs at `p` and not before.
pub proof fn lemma_find_from_first(s: Seq<char>, pat: Seq<char>, i: int, p: int)
    requires
        0 <= i <= p,
        matches_at(s, pat, p),
        forall|j: int| i <= j < p ==> !matches_at(s, pat, j),
    ensures
        find_from(s, pat, i) == Some(p),
    decreases p - i,
{
    if i < p {
        lemma_find_from_first(s, pat, i + 1, p);
    }
}

/// A pattern whose first character does not occur is not found.
pub proof fn lemma_find_from_absent(s: Seq<char>, pat: Seq<char>, i: int)
    requires
        pat.len() > 0,
        forall|j: int| 0 <= j < s.len() ==> s[j] != pat[0],
    ensures
        find_from(s, pat, i) is None,
    decreases s.len() + 1 - i,
{
    if !(i < 0 || i + pat.len() > s.len()) {
        assert(s.subrange(i, i + pat.len())[0] == s[i]);
        lemma_find_from_absent(s, pat, i + 1);
    }
}

/// Whether `pat` occurs in `s[lo..hi]` at offset `i`.
pub fn matches_at_in(s: &Vec<char>, lo: usize, hi: usize, pat: &Vec<char>, i: usize) -> (b: bool)
    requires
        lo <= hi <= s.len(),
        i <= hi - lo,
    ensures
        b == matches_at(s@.subrange(lo as int, hi as int), pat@, i as int),
{
    let ghost sub = s@.subrange(lo as int, hi as int);
    if pat.len() > hi - lo - i {
        return false;
    }
    let mut j: usize = 0;
    while j < pat.len()
        invariant
            lo <= hi <= s.len(),
            i + pat.len() <= hi - lo,
            sub == s@.subrange(lo as int, hi as int),
            j <= pat.len(),
            forall|k: int| 0 <= k < j ==> sub[i + k] == pat@[k],
        decreases pat.len() - j,
    {
        if s[lo + i + j] != pat[j] {
            assert(sub.subrange(i as int, i + pat.len())[j as int] != pat@[j as int]);
            return false;
        }
        j += 1;
    }
    assert(sub.subrange(i as int, i + pat.len()) =~= pat@);
    true
}

/// `str::find` on `s[lo..hi]`: the offset from `lo` of the first occurrence of `pat`.
pub fn find_in(s: &Vec<char>, lo: usize, hi: usize, pat: &Vec<char>) -> (r: Option<usize>)
    requires
        lo <= hi <= s.len(),
    ensures
        match r {
            Some(k) => find(s@.subrange(lo as int, hi as int), pat@) == Some(k as int),
            None => find(s@.subrange(lo as int, hi as int), pat@) is None,
        },
{
    let ghost sub = s@.subrange(lo as int, hi as int);
    if pat.len() > hi - lo {
        return None;
    }
    let limit = hi - lo - pat.len();
    let mut i: usize = 0;
    loop
        invariant
            lo <= hi <= s.len(),
            limit == hi - lo - pat.len(),
            i <= limit,
            sub == s@.subrange(lo as int, hi as int),
            find(sub, pat@) == find_from(sub, pat@, i as int),
        decreases limit - i,
    {
        if matches_at_in(s, lo, hi, pat, i) {
            return Some(i);
        }
        if i == limit {
            assert(find_from(sub, pat@, i + 1) is None);
            return None;
        }
        i += 1;
    }
}

/// Whether `s[lo..hi]` is exactly `pat`.
pub fn equals_in(s: &Vec<char>, lo: usize, hi: usize, pat: &Vec<char>) -> (b: bool)
    requires
        lo <= hi <= s.len(),
    ensures
        b == (s@.subrange(lo as int, hi as int) == pat@),
{
    if pat.len() != hi - lo {
        proof {
            if s@.subrange(lo as int, hi as int) == pat@ {
                assert(s@.subrange(lo as int, hi as int).len() == pat@.len());
            }
        }
        false
    } else {
        let b = matches_at_in(s, lo, hi, pat, 0);
        assert(s@.subrange(lo as int, hi as int).subrange(0, pat@.len() as int) =~= s@.subrange(
            lo as int,
            hi as int,
        ));
        b
    }
}

/// Whether `s[lo..hi]` starts with `pat`.
pub fn starts_with_in(s: &Vec<char>, lo: usize, hi: usize, pat: &Vec<char>) -> (b: bool)
    requires
        lo <= hi <= s.len(),
    ensures
        b == starts_with(s@.subrange(lo as int, hi as int), pat@),
{
    matches_at_in(s, lo, hi, pat, 0)
}

/// Whether `s[lo..hi]` ends with `pat`.
pub fn ends_with_in(s: &Vec<char>, lo: usize, hi: usize, pat: &Vec<char>) -> (b: bool)
    requires
        lo <= hi <= s.len(),
    ensures
        b == ends_with(s@.subrange(lo as int, hi as int), pat@),
{
    if pat.len() > hi - lo {
        false
    } else {
        matches_at_in(s, lo, hi, pat, hi - lo - pat.len())
    }
}

/// Whether `pat` occurs in `s[lo..hi]`.
pub fn contains_in(s: &Vec<char>, lo: usize, hi: usize, pat: &Vec<char>) -> (b: bool)
    requires
        lo <= hi <= s.len(),
    ensures
        b == contains(s@.subrange(lo as int, hi as int), pat@),
{
    find_in(s, lo, hi, pat).is_some()
}

/// The end of `s[lo..hi]` once every trailing copy of `suffix` is removed.
pub fn strip_suffixes_in(s: &Vec<char>, lo: usize, hi: usize, suffix: &Vec<char>) -> (b: usize)
    requires
        lo <= hi <= s.len(),
    ensures
        lo <= b <= hi,
        s@.subrange(lo as int, b as int) == strip_suffixes(s@.subrange(lo as int, hi as int), suffix@),
{
    if suffix.len() == 0 {
        return hi;
    }
    let mut b = hi;
    while ends_with_in(s, lo, b, suffix)
        invariant
            lo <= b <= hi <= s.len(),
            suffix.len() > 0,
            strip_suffixes(s@.subrange(lo as int, hi as int), suffix@) == strip_suffixes(
                s@.subrange(lo as int, b as int),
                suffix@,
            ),
        decreases b - lo,
    {
        assert(s@.subrange(lo as int, b as int).subrange(0, b - lo - suffix.len()) =~= s@.subrange(
            lo as int,
            b - suffix.len(),
        ));
        b = b - suffix.len();
    }
    b
}


/// The index of the first `'\n'` at or after `i`, or `s.len()`.
pub open spec fn line_end(s: Seq<char>, i: int) -> int
    decreases s.len() - i,
{
    if i >= s.len() {
        s.len() as int
    } else if s[i] == '\n' {
        i
    } else {
        line_end(s, i + 1)
    }
}

pub proof fn lemma_line_end(s: Seq<char>, i: int)
    requires
        i <= s.len(),
    ensures
        i <= line_end(s, i) <= s.len(),
        line_end(s, i) < s.len() ==> s[line_end(s, i)] == '\n',
        forall|j: int| i <= j < line_end(s, i) ==> s[j] != '\n',
    decreases s.len() - i,
{
    if i < s.len() && s[i] != '\n' {
        lemma_line_end(s, i + 1);
    }
}

/// A line ended by `'\n'` loses one carriage return before it.
pub open spec fn strip_cr(l: Seq<char>) -> Seq<char> {
    if l.len() > 0 && l.last() == '\r' {
        l.drop_last()
    } else {
        l
    }
}

/// The lines of `s[i..]`, as `str::lines` yields them.
pub open spec fn lines_from(s: Seq<char>, i: int) -> Seq<Seq<char>>
    decreases s.len() - i,
{
    if i >= s.len() {
        Seq::empty()
    } else {
        let e = line_end(s, i);
        proof {
            lemma_line_end(s, i);
        }
        if e >= s.len() {
            seq![s.subrange(i, s.len() as int)]
        } else {
            seq![strip_cr(s.subrange(i, e))] + lines_from(s, e + 1)
        }
    }
}

/// `str::lines`: `s` split at each `'\n'`, a `'\r'` before the `'\n'` dropped; a final
/// line ending yields no empty last line.
pub open spec fn lines(s: Seq<char>) -> Seq<Seq<char>> {
    lines_from(s, 0)
}

pub proof fn lemma_line_end_at(s: Seq<char>, i: int, p: int)
    requires
        0 <= i <= p <= s.len(),
        p == s.len() || s[p] == '\n',
        forall|j: int| i <= j < p ==> s[j] != '\n',
    ensures
        line_end(s, i) == p,
    decreases p - i,
{
    if i < p {
        lemma_line_end_at(s, i + 1, p);
    }
}

pub proof fn lemma_line_end_shift(s: Seq<char>, i: int)
    requires
        0 <= i <= s.len(),
    ensures
        line_end(s, i) == i + line_end(s.skip(i), 0),
{
    lemma_line_end(s, i);
    let p = line_end(s, i);
    lemma_line_end_at(s.skip(i), 0, p - i);
}

/// The lines from index `i` on are the lines of the text from `i` on.
pub proof fn lemma_lines_shift(s: Seq<char>, i: int)
    requires
        0 <= i <= s.len(),
    ensures
        lines_from(s, i) == lines(s.skip(i)),
    decreases s.len() - i,
{
    let t = s.skip(i);
    if i < s.len() {
        lemma_line_end(s, i);
        lemma_line_end_shift(s, i);
        let e = line_end(s, i);
        let e2 = line_end(t, 0);
        lemma_line_end(t, 0);
        if e < s.len() {
            lemma_lines_shift(s, e + 1);
            lemma_lines_shift(t, e2 + 1);
            assert(t.skip(e2 + 1) =~= s.skip(e + 1));
            assert(t.subrange(0, e2) =~= s.subrange(i, e));
        } else {
            assert(t.subrange(0, t.len() as int) =~= s.subrange(i, s.len() as int));
        }
    } else {
        assert(t.len() == 0);
    }
}

/// A line ended by a newline, then the rest.
pub proof fn lemma_lines_cons(x: Seq<char>, y: Seq<char>)
    requires
        forall|j: int| 0 <= j < x.len() ==> x[j] != '\n',
    ensures
        lines(x + seq!['\n'] + y) == seq![strip_cr(x)] + lines(y),
{
    let s = x + seq!['\n'] + y;
    lemma_line_end_at(s, 0, x.len() as int);
    lemma_lines_shift(s, x.len() as int + 1);
    assert(s.skip(x.len() as int + 1) =~= y);
    assert(s.subrange(0, x.len() as int) =~= x);
}

/// A text without a newline is one line, or none when it is empty.
pub proof fn lemma_lines_single(x: Seq<char>)
    requires
        forall|j: int| 0 <= j < x.len() ==> x[j] != '\n',
    ensures
        lines(x) == if x.len() == 0 {
            Seq::<Seq<char>>::empty()
        } else {
            seq![x]
        },
{
    if x.len() > 0 {
        lemma_line_end_at(x, 0, x.len() as int);
        assert(x.subrange(0, x.len() as int) =~= x);
    }
}

/// The characters that each range of `r` selects from `s`.
pub open spec fn range_texts(s: Seq<char>, r: Seq<(usize, usize)>) -> Seq<Seq<char>> {
    r.map_values(|p: (usize, usize)| s.subrange(p.0 as int, p.1 as int))
}

/// Every range of `r` lies within `s`.
pub open spec fn ranges_within(n: nat, r: Seq<(usize, usize)>) -> bool {
    forall|k: int| 0 <= k < r.len() ==> #[trigger] r[k].0 <= r[k].1 <= n
}

/// The ranges of the lines of `s`.
pub fn line_ranges(s: &Vec<char>) -> (r: Vec<(usize, usize)>)
    ensures
        ranges_within(s@.len(), r@),
        range_texts(s@, r@) == lines(s@),
{
    let n = s.len();
    let mut r: Vec<(usize, usize)> = Vec::new();
    let mut i: usize = 0;
    while i < n
        invariant
            n == s.len(),
            i <= n,
            ranges_within(s@.len(), r@),
            range_texts(s@, r@) + lines_from(s@, i as int) == lines(s@),
        decreases n - i,
    {
        let mut j = i;
        while j < n && s[j] != '\n'
            invariant
                n == s.len(),
                i <= j <= n,
                line_end(s@, i as int) == line_end(s@, j as int),
            decreases n - j,
        {
            j += 1;
        }
        let ghost old_r = r@;
        proof {
            lemma_line_end(s@, i as int);
        }
        if j == n {
            r.push((i, n));
            assert(range_texts(s@, r@) =~= range_texts(s@, old_r).push(s@.subrange(i as int, n as int)));
            assert(lines_from(s@, i as int) == seq![s@.subrange(i as int, n as int)]);
            assert(lines_from(s@, n as int) =~= Seq::<Seq<char>>::empty());
            assert(range_texts(s@, r@) + lines_from(s@, n as int) =~= range_texts(s@, old_r)
                + lines_from(s@, i as int));
            i = n;
        } else {
            let mut end = j;
            if end > i && s[end - 1] == '\r' {
                end = end - 1;
            }
            assert(s@.subrange(i as int, end as int) == strip_cr(s@.subrange(i as int, j as int))) by {
                if j > i && s@[j - 1] == '\r' {
                    assert(s@.subrange(i as int, j as int).drop_last() =~= s@.subrange(i as int, j - 1));
                }
            }
            r.push((i, end));
            assert(range_texts(s@, r@) =~= range_texts(s@, old_r).push(s@.subrange(i as int, end as int)));
            assert(range_texts(s@, r@) + lines_from(s@, j + 1) =~= range_texts(s@, old_r)
                + lines_from(s@, i as int));
            i = j + 1;
        }
    }
    assert(lines_from(s@, i as int) =~= Seq::<Seq<char>>::empty());
    assert(range_texts(s@, r@) + lines_from(s@, i as int) =~= range_texts(s@, r@));
    r
}


/// The pieces of `ls` with `sep` between each two (`[&str]::join`).
pub open spec fn join(ls: Seq<Seq<char>>, sep: Seq<char>) -> Seq<char>
    decreases ls.len(),
{
    if ls.len() == 0 {
        Seq::empty()
    } else if ls.len() == 1 {
        ls[0]
    } else {
        join(ls.drop_last(), sep) + sep + ls.last()
    }
}

/// Joining a first piece before others.
pub proof fn lemma_join_cons(x: Seq<char>, ls: Seq<Seq<char>>, sep: Seq<char>)
    requires
        ls.len() > 0,
    ensures
        join(seq![x] + ls, sep) == x + sep + join(ls, sep),
    decreases ls.len(),
{
    let all = seq![x] + ls;
    if ls.len() == 1 {
        assert(all.drop_last() =~= seq![x]);
        assert(join(seq![x], sep) == x);
        assert(join(ls, sep) == ls[0]);
        assert(all.last() == ls[0]);
        assert(join(all, sep) == join(all.drop_last(), sep) + sep + all.last());
    } else {
        assert(all.drop_last() =~= seq![x] + ls.drop_last());
        lemma_join_cons(x, ls.drop_last(), sep);
        assert(all.last() == ls.last());
        assert(join(all, sep) == join(all.drop_last(), sep) + sep + all.last());
        assert(join(ls, sep) == join(ls.drop_last(), sep) + sep + ls.last());
        assert(join(all, sep) =~= x + sep + join(ls, sep));
    }
}

/// The lines of texts joined by newlines are those texts; a last empty text yields no
/// line of its own. No text may hold a newline, and none but the last may end with a
/// carriage return.
pub proof fn lemma_lines_join(ls: Seq<Seq<char>>)
    requires
        forall|i: int, j: int| 0 <= i < ls.len() && 0 <= j < ls[i].len() ==> ls[i][j] != '\n',
        forall|i: int| 0 <= i < ls.len() - 1 && ls[i].len() > 0 ==> ls[i].last() != '\r',
    ensures
        lines(join(ls, "\n"@)) == if ls.len() > 0 && ls.last().len() == 0 {
            ls.drop_last()
        } else {
            ls
        },
    decreases ls.len(),
{
    reveal_strlit("\n");
    if ls.len() == 0 {
        assert(join(ls, "\n"@) =~= Seq::<char>::empty());
        lemma_lines_single(Seq::<char>::empty());
    } else if ls.len() == 1 {
        assert(forall|j: int| 0 <= j < ls[0].len() ==> ls[0][j] != '\n');
        lemma_lines_single(ls[0]);
        if ls[0].len() == 0 {
            assert(ls.drop_last() =~= Seq::<Seq<char>>::empty());
        } else {
            assert(seq![ls[0]] =~= ls);
        }
    } else {
        let x = ls[0];
        let r = ls.drop_first();
        assert(ls =~= seq![x] + r);
        lemma_join_cons(x, r, "\n"@);
        assert(forall|j: int| 0 <= j < x.len() ==> x[j] != '\n');
        lemma_lines_cons(x, join(r, "\n"@));
        assert(x + "\n"@ + join(r, "\n"@) =~= x + seq!['\n'] + join(r, "\n"@));
        assert forall|i: int, j: int| 0 <= i < r.len() && 0 <= j < r[i].len() implies r[i][j] != '\n' by {
            assert(r[i] == ls[i + 1]);
        }
        assert forall|i: int| 0 <= i < r.len() - 1 && r[i].len() > 0 implies r[i].last() != '\r' by {
            assert(r[i] == ls[i + 1]);
        }
        lemma_lines_join(r);
        assert(strip_cr(x) == x);
        if r.last().len() == 0 {
            assert(seq![x] + r.drop_last() =~= ls.drop_last());
        }
    }
}

/// No carriage return stands right before a newline.
pub open spec fn no_crlf(s: Seq<char>) -> bool {
    forall|j: int| 0 <= j < s.len() - 1 ==> !(#[trigger] s[j] == '\r' && s[j + 1] == '\n')
}

/// A text with no carriage return before a newline and no final newline is its lines
/// joined by newlines.
pub proof fn lemma_join_lines(b: Seq<char>)
    requires
        no_crlf(b),
        b.len() == 0 || b.last() != '\n',
    ensures
        join(lines(b), "\n"@) == b,
    decreases b.len(),
{
    reveal_strlit("\n");
    lemma_line_end(b, 0);
    let p = line_end(b, 0);
    if p == b.len() {
        lemma_lines_single(b);
    } else {
        let x = b.subrange(0, p);
        let y = b.subrange(p + 1, b.len() as int);
        assert(b =~= x + seq!['\n'] + y);
        lemma_lines_cons(x, y);
        if x.len() > 0 {
            assert(x.last() != '\r');
        }
        assert(strip_cr(x) == x);
        assert(y.len() > 0);
        assert(no_crlf(y)) by {
            assert forall|j: int| 0 <= j < y.len() - 1 implies !(#[trigger] y[j] == '\r' && y[j + 1] == '\n') by {
                assert(y[j] == b[p + 1 + j]);
                assert(y[j + 1] == b[p + 2 + j]);
            }
        }
        assert(y.last() == b.last());
        lemma_join_lines(y);
        assert(lines(y).len() > 0) by {
            lemma_line_end(y, 0);
        }
        lemma_join_cons(x, lines(y), "\n"@);
        assert(x + "\n"@ + y =~= b);
    }
}

/// `[String]::join`: the strings of `v` with `sep` between each two.
pub fn join_strings(v: &Vec<String>, sep: &str) -> (r: String)
    ensures
        r@ == join(v@.map_values(|t: String| t@), sep@),
{
    let ghost views = v@.map_values(|t: String| t@);
    let mut r = String::new();
    let mut i: usize = 0;
    while i < v.len()
        invariant
            i <= v.len(),
            views == v@.map_values(|t: String| t@),
            r@ == join(views.take(i as int), sep@),
        decreases v.len() - i,
    {
        assert(views.take(i + 1).drop_last() =~= views.take(i as int));
        if i != 0 {
            r.append(sep);
        } else {
            assert(r@ =~= Seq::<char>::empty());
        }
        r.append(v[i].as_str());
        if i == 0 {
            assert(r@ =~= views.take(1)[0]);
        }
        i += 1;
    }
    assert(views.take(i as int) =~= views);
    r
}


/// A character with ASCII upper case mapped to lower case (`char::to_ascii_lowercase`).
pub open spec fn ascii_lower(c: char) -> char {
    if 'A' <= c <= 'Z' {
        ((c as u32) + 32) as char
    } else {
        c
    }
}

/// `str::to_ascii_lowercase`: ASCII letters `A`-`Z` mapped to `a`-`z`, all else unchanged.
pub open spec fn ascii_lowercase(s: Seq<char>) -> Seq<char> {
    s.map_values(|c: char| ascii_lower(c))
}

/// The characters of `s[lo..hi]` in ASCII lower case.
pub fn ascii_lowercase_in(s: &Vec<char>, lo: usize, hi: usize) -> (r: Vec<char>)
    requires
        lo <= hi <= s.len(),
    ensures
        r@ == ascii_lowercase(s@.subrange(lo as int, hi as int)),
{
    let mut r: Vec<char> = Vec::new();
    let mut i = lo;
    while i < hi
        invariant
            lo <= i <= hi <= s.len(),
            r@ == ascii_lowercase(s@.subrange(lo as int, i as int)),
        decreases hi - i,
    {
        let c = s[i];
        let l = if 'A' <= c && c <= 'Z' {
            ((c as u8) + 32) as char
        } else {
            c
        };
        r.push(l);
        assert(ascii_lowercase(s@.subrange(lo as int, i + 1)) =~= ascii_lowercase(
            s@.subrange(lo as int, i as int),
        ).push(ascii_lower(c)));
        i += 1;
    }
    r
}

/// What follows the last `/` of `s`, or all of `s` (the first item of `rsplit('/')`).
pub open spec fn after_last_slash(s: Seq<char>) -> Seq<char>
    decreases s.len(),
{
    if s.len() == 0 {
        s
    } else if s.last() == '/' {
        Seq::empty()
    } else {
        after_last_slash(s.drop_last()).push(s.last())
    }
}

/// The start of what follows the last `/` of `s[lo..hi]`.
pub fn after_last_slash_in(s: &Vec<char>, lo: usize, hi: usize) -> (a: usize)
    requires
        lo <= hi <= s.len(),
    ensures
        lo <= a <= hi,
        s@.subrange(a as int, hi as int) == after_last_slash(s@.subrange(lo as int, hi as int)),
{
    let mut a = hi;
    while a > lo && s[a - 1] != '/'
        invariant
            lo <= a <= hi <= s.len(),
            after_last_slash(s@.subrange(lo as int, hi as int)) == after_last_slash(
                s@.subrange(lo as int, a as int),
            ) + s@.subrange(a as int, hi as int),
        decreases a - lo,
    {
        assert(s@.subrange(lo as int, a as int).drop_last() =~= s@.subrange(lo as int, a - 1));
        assert(s@.subrange(a - 1, hi as int) =~= seq![s@[a - 1]] + s@.subrange(a as int, hi as int));
        assert(after_last_slash(s@.subrange(lo as int, a as int)) =~= after_last_slash(
            s@.subrange(lo as int, a - 1),
        ).push(s@[a - 1]));
        assert(after_last_slash(s@.subrange(lo as int, a - 1)).push(s@[a - 1]) + s@.subrange(
            a as int,
            hi as int,
        ) =~= after_last_slash(s@.subrange(lo as int, a - 1)) + s@.subrange(a - 1, hi as int));
        a -= 1;
    }
    assert(after_last_slash(s@.subrange(lo as int, a as int)) =~= Seq::<char>::empty());
    assert(Seq::<char>::empty() + s@.subrange(a as int, hi as int) =~= s@.subrange(a as int, hi as int));
    a
}

} // verus!
