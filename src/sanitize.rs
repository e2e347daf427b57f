//! Normalisation of definition text before it is stored.

use vstd::prelude::*;

verus! {

/// True of the two quote characters, both of which end up escaped.
pub open spec fn is_quote(c: char) -> bool {
    c == '\'' || c == '"'
}

/// What one character becomes under quote escaping: each quote turns into
/// a backslash followed by a double quote; everything else is kept.
pub open spec fn escape_char(c: char) -> Seq<char> {
    if is_quote(c) {
        seq!['\\', '"']
    } else {
        seq![c]
    }
}

/// Quote escaping of a whole text, character by character.
pub open spec fn escaped(s: Seq<char>) -> Seq<char>
    decreases s.len(),
{
    if s.len() == 0 {
        Seq::empty()
    } else {
        escaped(s.drop_last()) + escape_char(s.last())
    }
}

/// Relies on String::push: appends one character at the end.
#[verifier::external_body]
fn push_char(s: &mut String, c: char)
    ensures
        final(s)@ == old(s)@.push(c),
{
    s.push(c);
}

/// Replaces every single quote by a double quote, then escapes every double
/// quote with a backslash.
pub fn escape_quotes(raw: &str) -> (r: String)
    ensures
        r@ == escaped(raw@),
{
    let mut out = String::new();
    let ghost chars = raw@;
    for c in it: raw.chars()
        invariant
            it.seq() == chars,
            out@ == escaped(chars.take(it.index() as int)),
    {
        proof {
            let k = it.index() as int;
            assert(chars.take(k + 1).drop_last() =~= chars.take(k));
        }
        if c == '\'' || c == '"' {
            push_char(&mut out, '\\');
            push_char(&mut out, '"');
        } else {
            push_char(&mut out, c);
        }
    }
    proof {
        assert(chars.take(chars.len() as int) =~= chars);
    }
    out
}

/// The Unicode `White_Space` property: the 25 code points that
/// `char::is_whitespace` accepts.
pub open spec fn is_white(c: char) -> bool {
    let u = c as u32;
    (0x09 <= u <= 0x0D) || u == 0x20 || u == 0x85 || u == 0xA0 || u == 0x1680 || (0x2000 <= u
        <= 0x200A) || u == 0x2028 || u == 0x2029 || u == 0x202F || u == 0x205F || u == 0x3000
}

/// Whether `c` has the `White_Space` property.
pub fn is_whitespace(c: char) -> (r: bool)
    ensures
        r == is_white(c),
{
    let u = c as u32;
    (0x09 <= u && u <= 0x0D) || u == 0x20 || u == 0x85 || u == 0xA0 || u == 0x1680 || (0x2000
        <= u && u <= 0x200A) || u == 0x2028 || u == 0x2029 || u == 0x202F || u == 0x205F || u
        == 0x3000
}

/// Index of the first non-whitespace character at or after `i`, or the
/// length of `s` if there is none.
pub open spec fn skip_white(s: Seq<char>, i: int) -> int
    recommends
        0 <= i <= s.len(),
    decreases s.len() - i,
{
    if 0 <= i < s.len() && is_white(s[i]) {
        skip_white(s, i + 1)
    } else {
        i
    }
}

/// Index just past the last non-whitespace character of `s` in `[lo, j)`,
/// or `lo` if there is none.
pub open spec fn back_white(s: Seq<char>, lo: int, j: int) -> int
    recommends
        0 <= lo <= j <= s.len(),
    decreases j - lo,
{
    if lo < j && is_white(s[j - 1]) {
        back_white(s, lo, j - 1)
    } else {
        j
    }
}

/// `s` without its leading and trailing whitespace.
pub open spec fn trimmed(s: Seq<char>) -> Seq<char> {
    let lo = skip_white(s, 0);
    s.subrange(lo, back_white(s, lo, s.len() as int))
}

proof fn lemma_skip_white_bounds(s: Seq<char>, i: int)
    requires
        0 <= i <= s.len(),
    ensures
        i <= skip_white(s, i) <= s.len(),
        skip_white(s, i) < s.len() ==> !is_white(s[skip_white(s, i)]),
        forall|k: int| i <= k < skip_white(s, i) ==> is_white(#[trigger] s[k]),
    decreases s.len() - i,
{
    if i < s.len() && is_white(s[i]) {
        lemma_skip_white_bounds(s, i + 1);
    }
}

proof fn lemma_back_white_bounds(s: Seq<char>, lo: int, j: int)
    requires
        0 <= lo <= j <= s.len(),
    ensures
        lo <= back_white(s, lo, j) <= j,
        lo < back_white(s, lo, j) ==> !is_white(s[back_white(s, lo, j) - 1]),
        forall|k: int| back_white(s, lo, j) <= k < j ==> is_white(#[trigger] s[k]),
    decreases j - lo,
{
    if lo < j && is_white(s[j - 1]) {
        lemma_back_white_bounds(s, lo, j - 1);
    }
}

/// Trimmed text neither starts nor ends with whitespace, and only
/// whitespace was cut from either end.
pub proof fn lemma_trimmed_has_no_outer_white(s: Seq<char>)
    ensures
        trimmed(s).len() > 0 ==> !is_white(trimmed(s)[0]) && !is_white(trimmed(s).last()),
        forall|k: int| 0 <= k < skip_white(s, 0) ==> is_white(#[trigger] s[k]),
        forall|k: int|
            back_white(s, skip_white(s, 0), s.len() as int) <= k < s.len() ==> is_white(
                #[trigger] s[k],
            ),
{
    lemma_skip_white_bounds(s, 0);
    lemma_back_white_bounds(s, skip_white(s, 0), s.len() as int);
}

/// Removes leading and trailing whitespace.
pub fn trim_white(raw: &str) -> (r: String)
    ensures
        r@ == trimmed(raw@),
{
    let ghost s = raw@;
    let mut chars: Vec<char> = Vec::new();
    for c in it: raw.chars()
        invariant
            it.seq() == s,
            chars@ == s.take(it.index() as int),
    {
        chars.push(c);
    }
    proof {
        assert(s.take(s.len() as int) =~= s);
    }
    let n = chars.len();
    let mut lo: usize = 0;
    while lo < n && is_whitespace(chars[lo])
        invariant
            chars@ == s,
            n == s.len(),
            lo <= n,
            skip_white(s, lo as int) == skip_white(s, 0),
        decreases n - lo,
    {
        lo = lo + 1;
    }
    let mut hi: usize = n;
    while hi > lo && is_whitespace(chars[hi - 1])
        invariant
            chars@ == s,
            n == s.len(),
            lo == skip_white(s, 0),
            lo <= hi <= n,
            back_white(s, lo as int, hi as int) == back_white(s, lo as int, n as int),
        decreases hi - lo,
    {
        hi = hi - 1;
    }
    let mut out = String::new();
    let mut k: usize = lo;
    while k < hi
        invariant
            chars@ == s,
            lo <= k <= hi <= n,
            n == s.len(),
            out@ == s.subrange(lo as int, k as int),
        decreases hi - k,
    {
        push_char(&mut out, chars[k]);
        proof {
            assert(s.subrange(lo as int, k + 1) =~= s.subrange(lo as int, k as int).push(s[k as int]));
        }
        k = k + 1;
    }
    out
}

/// Number of quote characters in `s`.
pub open spec fn quote_count(s: Seq<char>) -> nat
    decreases s.len(),
{
    if s.len() == 0 {
        0
    } else {
        quote_count(s.drop_last()) + if is_quote(s.last()) {
            1nat
        } else {
            0nat
        }
    }
}

/// Whether `s` holds a quote character.
pub open spec fn has_quote(s: Seq<char>) -> bool {
    exists|i: int| 0 <= i < s.len() && is_quote(#[trigger] s[i])
}

/// Escaping adds exactly one character per quote.
pub proof fn lemma_escaped_len(s: Seq<char>)
    ensures
        escaped(s).len() == s.len() + quote_count(s),
    decreases s.len(),
{
    if s.len() > 0 {
        lemma_escaped_len(s.drop_last());
    }
}

/// A quote count is zero exactly when there is no quote.
pub proof fn lemma_quote_count_zero(s: Seq<char>)
    ensures
        quote_count(s) == 0 <==> !has_quote(s),
    decreases s.len(),
{
    if s.len() > 0 {
        let p = s.drop_last();
        lemma_quote_count_zero(p);
        if has_quote(p) {
            let i = choose|i: int| 0 <= i < p.len() && is_quote(#[trigger] p[i]);
            assert(s[i] == p[i]);
        }
        if has_quote(s) && !is_quote(s.last()) {
            let i = choose|i: int| 0 <= i < s.len() && is_quote(#[trigger] s[i]);
            assert(p[i] == s[i]);
        }
        if is_quote(s.last()) {
            assert(is_quote(s[s.len() - 1]));
        }
    }
}

/// Text without quotes is left as it is by escaping.
pub proof fn lemma_escaped_without_quotes(s: Seq<char>)
    requires
        !has_quote(s),
    ensures
        escaped(s) == s,
    decreases s.len(),
{
    if s.len() > 0 {
        let p = s.drop_last();
        assert(!has_quote(p)) by {
            if has_quote(p) {
                let i = choose|i: int| 0 <= i < p.len() && is_quote(#[trigger] p[i]);
                assert(s[i] == p[i]);
            }
        }
        lemma_escaped_without_quotes(p);
        assert(!is_quote(s[s.len() - 1]));
        assert(s =~= p.push(s.last()));
    }
}

/// Escaped text keeps a quote whenever the input had one.
pub proof fn lemma_escaped_keeps_quote(s: Seq<char>)
    requires
        has_quote(s),
    ensures
        has_quote(escaped(s)),
    decreases s.len(),
{
    let p = s.drop_last();
    let e = escaped(s);
    if is_quote(s.last()) {
        assert(is_quote(e[e.len() - 1]));
    } else {
        let i = choose|i: int| 0 <= i < s.len() && is_quote(#[trigger] s[i]);
        assert(p[i] == s[i]);
        lemma_escaped_keeps_quote(p);
        let j = choose|j: int| 0 <= j < escaped(p).len() && is_quote(#[trigger] escaped(p)[j]);
        assert(e[j] == escaped(p)[j]);
    }
}

/// Escaping is not idempotent: on text with a quote, escaping the escaped
/// text again adds further escapes; on text without one, both passes leave
/// the text unchanged.
pub proof fn lemma_escaping_twice(s: Seq<char>)
    ensures
        has_quote(s) ==> escaped(escaped(s)) != escaped(s),
        !has_quote(s) ==> escaped(escaped(s)) == escaped(s) && escaped(s) == s,
{
    if has_quote(s) {
        lemma_escaped_keeps_quote(s);
        lemma_quote_count_zero(escaped(s));
        lemma_escaped_len(escaped(s));
    } else {
        lemma_escaped_without_quotes(s);
    }
}

#[verifier::external_type_specification]
#[verifier::external_body]
pub struct ExRegex(regex::Regex);

#[verifier::external_type_specification]
#[verifier::external_body]
pub struct ExRegexError(regex::Error);

/// Inline image and anchor tags, opening and closing forms.
pub const MARKUP_PATTERN: &'static str = "<img\\b[^>]*>|</img>|<a\\b[^>]*>|</a>";

/// Text with every match of the markup pattern removed, matches taken
/// leftmost first and without overlap.
pub uninterp spec fn markup_removed(s: Seq<char>) -> Seq<char>;

/// Whether a pattern is accepted by the regex compiler.
pub uninterp spec fn pattern_compiles(p: Seq<char>) -> bool;

/// Relies on regex::Regex::new: compiles `pattern`, or reports why it cannot;
/// which of the two depends on the pattern alone.
#[verifier::external_body]
fn compile_pattern(pattern: &str) -> (r: Result<regex::Regex, regex::Error>)
    ensures
        r is Ok <==> pattern_compiles(pattern@),
{
    regex::Regex::new(pattern)
}

/// The markup pattern failed to compile.
#[derive(Debug, Clone, Copy, PartialEq, Eq)]
pub struct PatternError;

/// What a stored definition becomes: quotes escaped, then, when stripping,
/// surrounding whitespace trimmed and markup tags removed.
pub open spec fn sanitized(raw: Seq<char>, strip: bool) -> Seq<char> {
    if strip {
        markup_removed(trimmed(escaped(raw)))
    } else {
        escaped(raw)
    }
}

/// Normaliser for definition text; holds the markup pattern compiled once.
pub struct Sanitizer {
    markup: regex::Regex,
    strip: bool,
}

impl Sanitizer {
    /// Whether markup is stripped.
    pub closed spec fn strips(&self) -> bool {
        self.strip
    }

    /// Whether markup is stripped.
    pub fn strip(&self) -> (r: bool)
        ensures
            r == self.strips(),
    {
        self.strip
    }

    /// Compiles the markup pattern; `strip` says whether markup is removed.
    pub fn new(strip: bool) -> (r: Result<Sanitizer, PatternError>)
        ensures
            r is Ok <==> pattern_compiles(MARKUP_PATTERN@),
            r matches Ok(z) ==> z.strips() == strip,
    {
        match compile_pattern(MARKUP_PATTERN) {
            Ok(markup) => Ok(Sanitizer { markup, strip }),
            Err(_) => Err(PatternError),
        }
    }

    /// Relies on regex::Regex::replace_all with an empty replacement, on the
    /// markup pattern that `new` compiled: every non-overlapping match is
    /// removed, and a text with no `<` holds no match.
    #[verifier::external_body]
    fn remove_markup(&self, s: &str) -> (r: String)
        ensures
            r@ == markup_removed(s@),
            (forall|i: int| 0 <= i < s@.len() ==> s@[i] != '<') ==> r@ == s@,
    {
        self.markup.replace_all(s, "").into_owned()
    }

    /// Normalises one definition for storage.
    pub fn sanitize(&self, raw: &str) -> (r: String)
        ensures
            r@ == sanitized(raw@, self.strips()),
    {
        let quoted = escape_quotes(raw);
        if self.strip {
            let trimmed_text = trim_white(quoted.as_str());
            self.remove_markup(trimmed_text.as_str())
        } else {
            quoted
        }
    }
}

} // verus!
