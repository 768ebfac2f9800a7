//! Splitting text into search terms, and the character-level helpers that the
//! index builds on: trigrams, detection of Chinese characters and pinyin.
use vstd::prelude::*;
use pinyin::ToPinyin;

verus! {

broadcast use vstd::string::axiom_spec_iter;

/// A term found in a text, with the half-open range `[start, end)` of
/// character positions it was taken from.
#[derive(Debug, Clone, PartialEq, Eq)]
pub struct Token {
    pub term: String,
    pub start: usize,
    pub end: usize,
}

/// The abstract form of a token.
pub struct TokenSpec {
    pub term: Seq<char>,
    pub start: int,
    pub end: int,
}

impl View for Token {
    type V = TokenSpec;

    open spec fn view(&self) -> TokenSpec {
        TokenSpec { term: self.term@, start: self.start as int, end: self.end as int }
    }
}

pub open spec fn token_views(ts: Seq<Token>) -> Seq<TokenSpec> {
    ts.map_values(|t: Token| t@)
}

// ---------------------------------------------------------------------------
// Character classes

/// A character of the CJK Unified Ideographs block.
pub open spec fn is_cjk(c: char) -> bool {
    0x4e00 <= (c as u32) && (c as u32) <= 0x9fff
}

pub open spec fn is_ascii_alnum(c: char) -> bool {
    ||| 0x61 <= (c as u32) && (c as u32) <= 0x7a
    ||| 0x41 <= (c as u32) && (c as u32) <= 0x5a
    ||| 0x30 <= (c as u32) && (c as u32) <= 0x39
}

pub open spec fn is_ascii_alpha(c: char) -> bool {
    ||| 0x61 <= (c as u32) && (c as u32) <= 0x7a
    ||| 0x41 <= (c as u32) && (c as u32) <= 0x5a
}

/// What `char::is_alphanumeric` of the standard library answers for `c`.
pub uninterp spec fn unicode_alphanumeric(c: char) -> bool;

/// `char::is_alphanumeric` of the standard library (Unicode `Alphabetic` or
/// `Numeric`).  The contract only names its answer.
#[verifier::external_body]
fn char_is_alphanumeric(c: char) -> (r: bool)
    ensures
        r == unicode_alphanumeric(c),
{
    c.is_alphanumeric()
}

/// A character that belongs to a word: an ASCII letter or digit, or a
/// non-ASCII alphanumeric character outside the CJK ideographs.
pub open spec fn is_word_char(c: char) -> bool {
    !is_cjk(c) && (is_ascii_alnum(c) || ((c as u32) >= 0x80 && unicode_alphanumeric(c)))
}

pub fn cjk_char(c: char) -> (r: bool)
    ensures
        r == is_cjk(c),
{
    let v = c as u32;
    0x4e00 <= v && v <= 0x9fff
}

pub fn ascii_alpha_char(c: char) -> (r: bool)
    ensures
        r == is_ascii_alpha(c),
{
    let v = c as u32;
    (0x61 <= v && v <= 0x7a) || (0x41 <= v && v <= 0x5a)
}

fn word_char(c: char) -> (r: bool)
    ensures
        r == is_word_char(c),
{
    let v = c as u32;
    if 0x4e00 <= v && v <= 0x9fff {
        false
    } else if (0x61 <= v && v <= 0x7a) || (0x41 <= v && v <= 0x5a) || (0x30 <= v && v <= 0x39) {
        true
    } else if v >= 0x80 {
        char_is_alphanumeric(c)
    } else {
        false
    }
}

/// ASCII upper-case letters become lower case; every other character stays.
pub open spec fn lower_char(c: char) -> char {
    if 0x41 <= (c as u32) && (c as u32) <= 0x5a {
        ((c as u32) + 32) as char
    } else {
        c
    }
}

pub open spec fn lower_seq(s: Seq<char>) -> Seq<char> {
    s.map_values(|c: char| lower_char(c))
}

fn lower(c: char) -> (r: char)
    ensures
        r == lower_char(c),
{
    let v = c as u32;
    if 0x41 <= v && v <= 0x5a {
        let b: u8 = (v + 32) as u8;
        proof {
            assert(b as u32 == v + 32);
        }
        b as char
    } else {
        c
    }
}

// ---------------------------------------------------------------------------
// Strings

/// `String::push` of the standard library: appends one character.
#[verifier::external_body]
fn push_char(s: &mut String, c: char)
    ensures
        final(s)@ == old(s)@.push(c),
{
    s.push(c);
}

/// The characters of `s`, in order.
pub fn chars_of(s: &str) -> (r: Vec<char>)
    ensures
        r@ == s@,
{
    let mut out: Vec<char> = Vec::new();
    for c in iter: s.chars()
        invariant
            out@ == iter.seq().take(iter.index() as int),
    {
        out.push(c);
    }
    out
}

/// The string made of `cs[from..to]`.
pub fn string_of(cs: &Vec<char>, from: usize, to: usize) -> (r: String)
    requires
        from <= to <= cs@.len(),
    ensures
        r@ == cs@.subrange(from as int, to as int),
{
    let mut s = String::new();
    let mut j = from;
    while j < to
        invariant
            from <= j <= to <= cs@.len(),
            s@ == cs@.subrange(from as int, j as int),
        decreases to - j,
    {
        push_char(&mut s, cs[j]);
        assert(cs@.subrange(from as int, j + 1) =~= cs@.subrange(from as int, j as int).push(cs@[j as int]));
        j = j + 1;
    }
    s
}

// ---------------------------------------------------------------------------
// Tokenizing

/// The end of the run of word characters that starts at `i`.
pub open spec fn word_run_end(cs: Seq<char>, i: int) -> int
    decreases cs.len() - i,
{
    if 0 <= i < cs.len() && is_word_char(cs[i]) {
        word_run_end(cs, i + 1)
    } else {
        i
    }
}

/// The tokens that begin at position `i`:
/// - at the first character of a run of word characters, the whole run,
///   with ASCII letters in lower case;
/// - at a Chinese character followed by another, the pair of them;
/// - at a Chinese character that stands alone, that character.
pub open spec fn tokens_at(cs: Seq<char>, i: int) -> Seq<TokenSpec> {
    let word: Seq<TokenSpec> = if is_word_char(cs[i]) && (i == 0 || !is_word_char(cs[i - 1])) {
        let e = word_run_end(cs, i);
        seq![TokenSpec { term: lower_seq(cs.subrange(i, e)), start: i, end: e }]
    } else {
        seq![]
    };
    let cjk: Seq<TokenSpec> = if is_cjk(cs[i]) {
        if i + 1 < cs.len() && is_cjk(cs[i + 1]) {
            seq![TokenSpec { term: cs.subrange(i, i + 2), start: i, end: i + 2 }]
        } else if i == 0 || !is_cjk(cs[i - 1]) {
            seq![TokenSpec { term: cs.subrange(i, i + 1), start: i, end: i + 1 }]
        } else {
            seq![]
        }
    } else {
        seq![]
    };
    word + cjk
}

/// The tokens that begin before position `n`, in order of position.
pub open spec fn tokens_upto(cs: Seq<char>, n: int) -> Seq<TokenSpec>
    decreases n,
{
    if n <= 0 {
        seq![]
    } else {
        tokens_upto(cs, n - 1) + tokens_at(cs, n - 1)
    }
}

/// The tokens of a text.
pub open spec fn spec_tokenize(text: Seq<char>) -> Seq<TokenSpec> {
    tokens_upto(text, text.len() as int)
}

proof fn lemma_tokens_upto_len(cs: Seq<char>, n: int)
    requires
        0 <= n <= cs.len(),
    ensures
        tokens_upto(cs, n).len() <= n,
    decreases n,
{
    if n > 0 {
        lemma_tokens_upto_len(cs, n - 1);
        assert(tokens_at(cs, n - 1).len() <= 1);
    }
}

/// A text has no more tokens than characters, so a text shorter than
/// `u32::MAX` characters meets the bound that `add_doc` asks of its tokens.
pub proof fn lemma_token_count_le_len(text: Seq<char>)
    ensures
        spec_tokenize(text).len() <= text.len(),
{
    lemma_tokens_upto_len(text, text.len() as int);
}

proof fn lemma_word_run_end(cs: Seq<char>, i: int, j: int)
    requires
        0 <= i <= j <= cs.len(),
        forall|k: int| i <= k < j ==> is_word_char(#[trigger] cs[k]),
        j == cs.len() || !is_word_char(cs[j]),
    ensures
        word_run_end(cs, i) == j,
    decreases j - i,
{
    if i < j {
        lemma_word_run_end(cs, i + 1, j);
    }
}

/// Splits `text` into terms; see `tokens_at` for the rules.
pub fn tokenize(text: &str) -> (r: Vec<Token>)
    ensures
        token_views(r@) == spec_tokenize(text@),
{
    let cs = chars_of(text);
    let n = cs.len();
    let mut out: Vec<Token> = Vec::new();
    let mut i: usize = 0;
    while i < n
        invariant
            i <= n == cs@.len(),
            cs@ == text@,
            token_views(out@) == tokens_upto(cs@, i as int),
        decreases n - i,
    {
        let ghost before = out@;
        let c = cs[i];
        let is_word = word_char(c);
        if is_word && (i == 0 || !word_char(cs[i - 1])) {
            let mut term = String::new();
            let mut j = i;
            loop
                invariant
                    i <= j <= n == cs@.len(),
                    forall|k: int| i <= k < j ==> is_word_char(#[trigger] cs@[k]),
                    term@ == lower_seq(cs@.subrange(i as int, j as int)),
                ensures
                    i <= j <= n,
                    forall|k: int| i <= k < j ==> is_word_char(#[trigger] cs@[k]),
                    j == n || !is_word_char(cs@[j as int]),
                    term@ == lower_seq(cs@.subrange(i as int, j as int)),
                decreases n - j,
            {
                if j >= n {
                    break;
                }
                let d = cs[j];
                if !word_char(d) {
                    break;
                }
                push_char(&mut term, lower(d));
                assert(lower_seq(cs@.subrange(i as int, j + 1)) =~= lower_seq(
                    cs@.subrange(i as int, j as int),
                ).push(lower_char(d)));
                j = j + 1;
            }
            proof {
                lemma_word_run_end(cs@, i as int, j as int);
            }
            out.push(Token { term, start: i, end: j });
        }
        let ghost after_word = out@;
        if cjk_char(c) {
            if i + 1 < n && cjk_char(cs[i + 1]) {
                let term = string_of(&cs, i, i + 2);
                out.push(Token { term, start: i, end: i + 2 });
            } else if i == 0 || !cjk_char(cs[i - 1]) {
                let term = string_of(&cs, i, i + 1);
                out.push(Token { term, start: i, end: i + 1 });
            }
        }
        assert(token_views(out@) =~= token_views(before) + tokens_at(cs@, i as int));
        i = i + 1;
    }
    out
}


// ---------------------------------------------------------------------------
// Trigrams

/// The character trigrams of a term, in order of position; none for a term of
/// fewer than three characters.
pub open spec fn trigrams(term: Seq<char>) -> Seq<Seq<char>> {
    if term.len() < 3 {
        Seq::empty()
    } else {
        Seq::new((term.len() - 2) as nat, |i: int| term.subrange(i, i + 3))
    }
}

pub fn generate_trigrams(term: &str) -> (r: Vec<String>)
    ensures
        r@.map_values(|s: String| s@) == trigrams(term@),
        r@.len() == if term@.len() >= 3 { term@.len() - 2 } else { 0 },
        forall|i: int| 0 <= i < r@.len() ==> #[trigger] r@[i]@ == term@.subrange(i, i + 3),
{
    let cs = chars_of(term);
    let mut out: Vec<String> = Vec::new();
    if cs.len() < 3 {
        assert(out@.map_values(|s: String| s@) =~= trigrams(term@));
        return out;
    }
    let mut i: usize = 0;
    while i < cs.len() - 2
        invariant
            3 <= cs@.len(),
            cs@ == term@,
            i <= cs@.len() - 2,
            out@.len() == i,
            forall|k: int| 0 <= k < i ==> #[trigger] out@[k]@ == cs@.subrange(k, k + 3),
        decreases cs@.len() - i,
    {
        out.push(string_of(&cs, i, i + 3));
        i = i + 1;
    }
    assert(out@.map_values(|s: String| s@) =~= trigrams(term@));
    out
}

// ---------------------------------------------------------------------------
// Chinese characters and pinyin

pub open spec fn has_cjk(s: Seq<char>) -> bool {
    exists|i: int| 0 <= i < s.len() && is_cjk(#[trigger] s[i])
}

/// Whether the term holds a Chinese character.
pub fn contains_chinese_chars(term: &str) -> (r: bool)
    ensures
        r == has_cjk(term@),
{
    let cs = chars_of(term);
    let mut i: usize = 0;
    while i < cs.len()
        invariant
            cs@ == term@,
            i <= cs@.len(),
            forall|k: int| 0 <= k < i ==> !is_cjk(#[trigger] cs@[k]),
        decreases cs@.len() - i,
    {
        if cjk_char(cs[i]) {
            return true;
        }
        i = i + 1;
    }
    false
}

/// The plain (toneless) pinyin reading that the `pinyin` crate gives for a
/// character, if it has one.
pub uninterp spec fn pinyin_reading(c: char) -> Option<Seq<char>>;

/// `ToPinyin::to_pinyin` for a `char` followed by `Pinyin::plain`, from the
/// `pinyin` crate: the toneless reading of the character, or `None` where the
/// crate's table holds none.  The contract only names the answer.
#[verifier::external_body]
fn char_pinyin(c: char) -> (r: Option<String>)
    ensures
        match r {
            Some(s) => pinyin_reading(c) == Some(s@),
            None => pinyin_reading(c) is None,
        },
{
    match c.to_pinyin() {
        Some(p) => Some(p.plain().to_string()),
        None => None,
    }
}

/// The reading of a character, or nothing.
pub open spec fn reading_of(c: char) -> Seq<char> {
    match pinyin_reading(c) {
        Some(r) => r,
        None => Seq::empty(),
    }
}

/// The first letter of the reading of a character, or nothing.
pub open spec fn initial_of(c: char) -> Seq<char> {
    let r = reading_of(c);
    if r.len() == 0 {
        Seq::empty()
    } else {
        seq![r[0]]
    }
}

/// The readings of the characters of `s`, joined.
pub open spec fn full_pinyin(s: Seq<char>) -> Seq<char>
    decreases s.len(),
{
    if s.len() == 0 {
        Seq::empty()
    } else {
        full_pinyin(s.drop_last()) + reading_of(s.last())
    }
}

/// The first letters of the readings of the characters of `s`, joined.
pub open spec fn pinyin_initials(s: Seq<char>) -> Seq<char>
    decreases s.len(),
{
    if s.len() == 0 {
        Seq::empty()
    } else {
        pinyin_initials(s.drop_last()) + initial_of(s.last())
    }
}

/// The full pinyin and the initials of a term; none where no character of
/// the term has a reading.
pub open spec fn pinyin_variants(s: Seq<char>) -> Option<(Seq<char>, Seq<char>)> {
    if full_pinyin(s).len() == 0 {
        None
    } else {
        Some((full_pinyin(s), pinyin_initials(s)))
    }
}

pub fn build_pinyin_variants(term: &str) -> (r: Option<(String, String)>)
    ensures
        match r {
            Some((f, i)) => pinyin_variants(term@) == Some((f@, i@)),
            None => pinyin_variants(term@) is None,
        },
{
    let cs = chars_of(term);
    let mut full = String::new();
    let mut initials = String::new();
    let mut k: usize = 0;
    while k < cs.len()
        invariant
            cs@ == term@,
            k <= cs@.len(),
            full@ == full_pinyin(cs@.subrange(0, k as int)),
            initials@ == pinyin_initials(cs@.subrange(0, k as int)),
        decreases cs@.len() - k,
    {
        let c = cs[k];
        let ghost pre = cs@.subrange(0, k as int);
        assert(cs@.subrange(0, k + 1).drop_last() =~= pre);
        match char_pinyin(c) {
            Some(reading) => {
                let rc = chars_of(reading.as_str());
                let mut j: usize = 0;
                while j < rc.len()
                    invariant
                        j <= rc@.len(),
                        full@ == full_pinyin(pre) + rc@.subrange(0, j as int),
                    decreases rc@.len() - j,
                {
                    push_char(&mut full, rc[j]);
                    assert(rc@.subrange(0, j + 1) =~= rc@.subrange(0, j as int).push(rc@[j as int]));
                    j = j + 1;
                }
                assert(rc@.subrange(0, rc@.len() as int) =~= rc@);
                if rc.len() > 0 {
                    push_char(&mut initials, rc[0]);
                    assert(initials@ =~= pinyin_initials(pre) + initial_of(c));
                } else {
                    assert(initials@ =~= pinyin_initials(pre) + initial_of(c));
                }
            },
            None => {
                assert(full@ =~= full_pinyin(pre) + reading_of(c));
                assert(initials@ =~= pinyin_initials(pre) + initial_of(c));
            },
        }
        k = k + 1;
    }
    assert(cs@.subrange(0, cs@.len() as int) =~= cs@);
    if full.as_str().is_empty() {
        None
    } else {
        Some((full, initials))
    }
}

} // verus!
