//! The token grammar of the editor's scripting language.
//!
//! A script is read as a sequence of characters and cut, left to right, into
//! lexemes by longest match.  Keywords win over plain words of the same
//! length.  A string literal that is never closed, or that meets a character
//! a literal may not hold, is one error lexeme from its opening quote up to
//! (not including) that character or the end; any other position where no
//! token starts yields an error lexeme one character long.  Lexing goes on
//! after an error.
use vstd::prelude::*;

verus! {

/// The two logical connectives of the language.
#[derive(Clone, Copy, PartialEq, Eq, Structural, Debug)]
pub enum LogicOperator {
    And,
    Or,
}

/// What a lexeme is.  `Str` and `Text` carry their characters in the
/// lexeme's span; `Error` marks characters where no token starts.
#[derive(Clone, Copy, PartialEq, Eq, Structural, Debug)]
pub enum TokenKind {
    Bool(bool),
    BraceOpen,
    BraceClose,
    BracketOpen,
    BracketClose,
    AssignEqual,
    ParenOpen,
    ParenClose,
    Comma,
    Semicolon,
    Colon,
    Period,
    Null,
    Arrow,
    FatArrow,
    KeywordIf,
    LogicOp(LogicOperator),
    Str,
    Text,
    Whitespace,
    Error,
}

/// A lexeme: its kind and its span `[start, end)` counted in characters.
#[derive(Clone, Copy, PartialEq, Eq, Structural, Debug)]
pub struct Lexeme {
    pub kind: TokenKind,
    pub start: usize,
    pub end: usize,
}

impl View for Lexeme {
    type V = (TokenKind, int, int);

    open spec fn view(&self) -> (TokenKind, int, int) {
        (self.kind, self.start as int, self.end as int)
    }
}

/// The lexemes of a vector, each taken by its view.
pub open spec fn lexemes_view(v: Seq<Lexeme>) -> Seq<(TokenKind, int, int)> {
    v.map_values(|l: Lexeme| l@)
}

/// White space in Unicode's sense (the characters for which Rust's
/// `char::is_whitespace` holds).
pub open spec fn is_space(c: char) -> bool {
    let u = c as u32;
    ||| 9 <= u <= 13
    ||| u == 32
    ||| u == 0x85
    ||| u == 0xA0
    ||| u == 0x1680
    ||| 0x2000 <= u <= 0x200A
    ||| u == 0x2028
    ||| u == 0x2029
    ||| u == 0x202F
    ||| u == 0x205F
    ||| u == 0x3000
}

/// An ASCII letter.
pub open spec fn is_letter(c: char) -> bool {
    let u = c as u32;
    ||| ('a' as u32) <= u <= ('z' as u32)
    ||| ('A' as u32) <= u <= ('Z' as u32)
}

/// A character that may stand between the quotes of a string literal.
pub open spec fn is_string_body(c: char) -> bool {
    ||| is_letter(c)
    ||| c == ','
    ||| c == '.'
    ||| c == ':'
    ||| c == ';'
    ||| c == '!'
    ||| c == '['
    ||| c == ']'
    ||| c == '{'
    ||| c == '}'
    ||| c == ' '
}

/// The character classes whose runs make up whole tokens.
#[derive(Clone, Copy, PartialEq, Eq, Structural, Debug)]
pub enum CharClass {
    Space,
    Letter,
    StringBody,
}

pub open spec fn in_class(cls: CharClass, c: char) -> bool {
    match cls {
        CharClass::Space => is_space(c),
        CharClass::Letter => is_letter(c),
        CharClass::StringBody => is_string_body(c),
    }
}

/// The length of the longest run of characters of class `cls` starting at `pos`.
pub open spec fn class_run(s: Seq<char>, pos: int, cls: CharClass) -> int
    decreases s.len() - pos,
{
    if 0 <= pos < s.len() && in_class(cls, s[pos]) {
        1 + class_run(s, pos + 1, cls)
    } else {
        0
    }
}

/// Whether `s` holds the character `c` at `pos`.
pub open spec fn peek_is(s: Seq<char>, pos: int, c: char) -> bool {
    0 <= pos < s.len() && s[pos] == c
}

/// The kind of a word: a keyword, or plain text.
pub open spec fn keyword_kind(w: Seq<char>) -> TokenKind {
    if w == seq!['t', 'r', 'u', 'e'] {
        TokenKind::Bool(true)
    } else if w == seq!['f', 'a', 'l', 's', 'e'] {
        TokenKind::Bool(false)
    } else if w == seq!['n', 'u', 'l', 'l'] {
        TokenKind::Null
    } else if w == seq!['i', 'f'] {
        TokenKind::KeywordIf
    } else {
        TokenKind::Text
    }
}

/// The kind of a one-character punctuation token (`Error` for any other character).
pub open spec fn punctuation_kind(c: char) -> TokenKind {
    if c == '{' {
        TokenKind::BraceOpen
    } else if c == '}' {
        TokenKind::BraceClose
    } else if c == '[' {
        TokenKind::BracketOpen
    } else if c == ']' {
        TokenKind::BracketClose
    } else if c == '(' {
        TokenKind::ParenOpen
    } else if c == ')' {
        TokenKind::ParenClose
    } else if c == ',' {
        TokenKind::Comma
    } else if c == ';' {
        TokenKind::Semicolon
    } else if c == ':' {
        TokenKind::Colon
    } else if c == '.' {
        TokenKind::Period
    } else {
        TokenKind::Error
    }
}

/// The longest token that starts at `pos`, with its length.
pub open spec fn next_token(s: Seq<char>, pos: int) -> (TokenKind, int) {
    let c = s[pos];
    if is_space(c) {
        (TokenKind::Whitespace, class_run(s, pos, CharClass::Space))
    } else if is_letter(c) {
        let n = class_run(s, pos, CharClass::Letter);
        (keyword_kind(s.subrange(pos, pos + n)), n)
    } else if c == '"' {
        let n = class_run(s, pos + 1, CharClass::StringBody);
        if peek_is(s, pos + 1 + n, '"') {
            (TokenKind::Str, n + 2)
        } else {
            (TokenKind::Error, n + 1)
        }
    } else if c == '=' {
        if peek_is(s, pos + 1, '>') {
            (TokenKind::FatArrow, 2)
        } else {
            (TokenKind::AssignEqual, 1)
        }
    } else if c == '-' {
        if peek_is(s, pos + 1, '>') {
            (TokenKind::Arrow, 2)
        } else {
            (TokenKind::Error, 1)
        }
    } else if c == '&' {
        if peek_is(s, pos + 1, '&') {
            (TokenKind::LogicOp(LogicOperator::And), 2)
        } else {
            (TokenKind::Error, 1)
        }
    } else if c == '|' {
        if peek_is(s, pos + 1, '|') {
            (TokenKind::LogicOp(LogicOperator::Or), 2)
        } else {
            (TokenKind::Error, 1)
        }
    } else {
        (punctuation_kind(c), 1)
    }
}

/// The lexemes of `s` from `pos` on, as (kind, start, end).
pub open spec fn tokenize_from(s: Seq<char>, pos: int) -> Seq<(TokenKind, int, int)>
    decreases s.len() - pos,
{
    if 0 <= pos < s.len() {
        let (k, n) = next_token(s, pos);
        if 0 < n && pos + n <= s.len() {
            seq![(k, pos, pos + n)] + tokenize_from(s, pos + n)
        } else {
            seq![]
        }
    } else {
        seq![]
    }
}

/// The lexemes of the whole of `s`.
pub open spec fn tokenize(s: Seq<char>) -> Seq<(TokenKind, int, int)> {
    tokenize_from(s, 0)
}

/// `toks` cuts `[from, to)` into nonempty adjacent spans, in order.
pub open spec fn tiles(toks: Seq<(TokenKind, int, int)>, from: int, to: int) -> bool {
    &&& from <= to
    &&& (toks.len() == 0 <==> from == to)
    &&& toks.len() > 0 ==> toks[0].1 == from && toks[toks.len() - 1].2 == to
    &&& forall|j: int| 0 <= j < toks.len() ==> #[trigger] toks[j].1 < toks[j].2
    &&& forall|j: int| 0 <= j < toks.len() - 1 ==> #[trigger] toks[j].2 == toks[j + 1].1
}

/// The characters of the lexemes `toks[lo..hi]`, concatenated; with
/// `drop_and`, the `&&` lexemes are left out.
pub open spec fn join_slices(
    s: Seq<char>,
    toks: Seq<(TokenKind, int, int)>,
    lo: int,
    hi: int,
    drop_and: bool,
) -> Seq<char>
    decreases hi - lo,
{
    if hi <= lo {
        seq![]
    } else {
        let t = toks[hi - 1];
        let prefix = join_slices(s, toks, lo, hi - 1, drop_and);
        if drop_and && t.0 == TokenKind::LogicOp(LogicOperator::And) {
            prefix
        } else {
            prefix + s.subrange(t.1, t.2)
        }
    }
}

pub proof fn lemma_class_run_bounds(s: Seq<char>, pos: int, cls: CharClass)
    requires
        0 <= pos <= s.len(),
    ensures
        0 <= class_run(s, pos, cls) <= s.len() - pos,
        pos < s.len() && in_class(cls, s[pos]) ==> class_run(s, pos, cls) >= 1,
        forall|k: int| pos <= k < pos + class_run(s, pos, cls) ==> in_class(cls, #[trigger] s[k]),
    decreases s.len() - pos,
{
    if pos < s.len() && in_class(cls, s[pos]) {
        lemma_class_run_bounds(s, pos + 1, cls);
    }
}

pub proof fn lemma_next_token_len(s: Seq<char>, pos: int)
    requires
        0 <= pos < s.len(),
    ensures
        1 <= next_token(s, pos).1 <= s.len() - pos,
{
    lemma_class_run_bounds(s, pos, CharClass::Space);
    lemma_class_run_bounds(s, pos, CharClass::Letter);
    lemma_class_run_bounds(s, pos + 1, CharClass::StringBody);
}

pub proof fn lemma_tokenize_from_tiles(s: Seq<char>, pos: int)
    requires
        0 <= pos <= s.len(),
    ensures
        tiles(tokenize_from(s, pos), pos, s.len() as int),
    decreases s.len() - pos,
{
    if pos < s.len() {
        lemma_next_token_len(s, pos);
        let (k, n) = next_token(s, pos);
        lemma_tokenize_from_tiles(s, pos + n);
        let rest = tokenize_from(s, pos + n);
        let all = tokenize_from(s, pos);
        assert(all == seq![(k, pos, pos + n)] + rest);
        assert forall|j: int| 0 <= j < all.len() implies #[trigger] all[j].1 < all[j].2 by {
            if j > 0 {
                assert(all[j] == rest[j - 1]);
            }
        }
        assert forall|j: int| 0 <= j < all.len() - 1 implies #[trigger] all[j].2 == all[j + 1].1 by {
            if j > 0 {
                assert(all[j] == rest[j - 1]);
                assert(all[j + 1] == rest[j]);
            } else {
                assert(all[1] == rest[0]);
            }
        }
        if rest.len() > 0 {
            assert(all[all.len() - 1] == rest[rest.len() - 1]);
        }
    }
}

/// The lexemes of a script cut it into nonempty, adjacent spans that cover
/// it from its first character to its last.
pub proof fn lemma_tokenize_tiles(s: Seq<char>)
    ensures
        tiles(tokenize(s), 0, s.len() as int),
{
    lemma_tokenize_from_tiles(s, 0);
}

/// Over adjacent lexemes, the joined characters are exactly the characters
/// their spans cover; leaving out `&&` lexemes only shortens the result.
pub proof fn lemma_join_slices_span(
    s: Seq<char>,
    toks: Seq<(TokenKind, int, int)>,
    lo: int,
    hi: int,
)
    requires
        tiles(toks, 0, s.len() as int),
        0 <= lo < hi <= toks.len(),
    ensures
        join_slices(s, toks, lo, hi, false) == s.subrange(toks[lo].1, toks[hi - 1].2),
        join_slices(s, toks, lo, hi, true).len() <= toks[hi - 1].2 - toks[lo].1,
        0 <= toks[lo].1 <= toks[hi - 1].2 <= s.len(),
    decreases hi - lo,
{
    lemma_tiles_in_bounds(toks, 0, s.len() as int);
    if hi - 1 > lo {
        lemma_join_slices_span(s, toks, lo, hi - 1);
        assert(toks[hi - 2].2 == toks[hi - 1].1);
        assert(s.subrange(toks[lo].1, toks[hi - 2].2) + s.subrange(toks[hi - 1].1, toks[hi - 1].2)
            =~= s.subrange(toks[lo].1, toks[hi - 1].2));
    } else {
        assert(join_slices(s, toks, lo, lo, false) =~= Seq::<char>::empty());
        assert(join_slices(s, toks, lo, lo, true) =~= Seq::<char>::empty());
    }
}

/// Every span of a tiling lies inside the tiled range, and spans are ordered.
pub proof fn lemma_tiles_in_bounds(toks: Seq<(TokenKind, int, int)>, from: int, to: int)
    requires
        tiles(toks, from, to),
    ensures
        forall|j: int| 0 <= j < toks.len() ==> from <= #[trigger] toks[j].1 && toks[j].2 <= to,
        forall|i: int, j: int| 0 <= i < j < toks.len() ==> #[trigger] toks[i].2 <= #[trigger] toks[j].1,
{
    assert forall|i: int, j: int| 0 <= i < j < toks.len() implies #[trigger] toks[i].2
        <= #[trigger] toks[j].1 by {
        lemma_tiles_ordered(toks, from, to, i, j);
    }
    assert forall|j: int| 0 <= j < toks.len() implies from <= #[trigger] toks[j].1 && toks[j].2
        <= to by {
        if j > 0 {
            lemma_tiles_ordered(toks, from, to, 0, j);
        }
        if j < toks.len() - 1 {
            lemma_tiles_ordered(toks, from, to, j, toks.len() - 1);
        }
    }
}

proof fn lemma_tiles_ordered(toks: Seq<(TokenKind, int, int)>, from: int, to: int, i: int, j: int)
    requires
        tiles(toks, from, to),
        0 <= i < j < toks.len(),
    ensures
        toks[i].2 <= toks[j].1,
    decreases j - i,
{
    if j - i > 1 {
        lemma_tiles_ordered(toks, from, to, i, j - 1);
        assert(toks[j - 1].1 < toks[j - 1].2);
        assert(toks[j - 1].2 == toks[j].1);
    } else {
        assert(toks[i].2 == toks[i + 1].1);
    }
}

/// Lexing loses nothing: the characters of all lexemes, in order, are the script.
pub proof fn lemma_lexemes_rebuild_script(s: Seq<char>)
    ensures
        join_slices(s, tokenize(s), 0, tokenize(s).len() as int, false) == s,
{
    lemma_tokenize_tiles(s);
    let toks = tokenize(s);
    if toks.len() > 0 {
        lemma_join_slices_span(s, toks, 0, toks.len() as int);
        assert(s.subrange(0, s.len() as int) =~= s);
    } else {
        assert(s =~= Seq::<char>::empty());
    }
}

/// Lexemes moved right by `off` characters.
pub open spec fn shift_lexemes(toks: Seq<(TokenKind, int, int)>, off: int) -> Seq<(TokenKind, int, int)> {
    toks.map_values(|t: (TokenKind, int, int)| (t.0, t.1 + off, t.2 + off))
}

proof fn lemma_class_run_shift(x: Seq<char>, t: Seq<char>, k: int, cls: CharClass)
    requires
        0 <= k <= t.len(),
    ensures
        class_run(x + t, x.len() + k, cls) == class_run(t, k, cls),
    decreases t.len() - k,
{
    if k < t.len() {
        assert((x + t)[x.len() + k] == t[k]);
        lemma_class_run_shift(x, t, k + 1, cls);
    }
}

proof fn lemma_next_token_shift(x: Seq<char>, t: Seq<char>, k: int)
    requires
        0 <= k < t.len(),
    ensures
        next_token(x + t, x.len() + k) == next_token(t, k),
{
    let s = x + t;
    let p = x.len() + k;
    assert(s[p] == t[k]);
    assert forall|j: int, c: char| #![trigger peek_is(t, j, c)] 0 <= j implies peek_is(s, x.len() + j, c)
        == peek_is(t, j, c) by {
        if j < t.len() {
            assert(s[x.len() + j] == t[j]);
        }
    }
    assert(peek_is(s, p + 1, '>') == peek_is(t, k + 1, '>'));
    assert(peek_is(s, p + 1, '&') == peek_is(t, k + 1, '&'));
    assert(peek_is(s, p + 1, '|') == peek_is(t, k + 1, '|'));
    lemma_class_run_shift(x, t, k, CharClass::Space);
    lemma_class_run_shift(x, t, k, CharClass::Letter);
    lemma_class_run_shift(x, t, k + 1, CharClass::StringBody);
    lemma_class_run_bounds(t, k, CharClass::Letter);
    lemma_class_run_bounds(t, k + 1, CharClass::StringBody);
    let n = class_run(t, k, CharClass::Letter);
    assert(s.subrange(p, p + n) =~= t.subrange(k, k + n));
    let m = class_run(t, k + 1, CharClass::StringBody);
    assert(peek_is(s, p + 1 + m, '"') == peek_is(t, k + 1 + m, '"'));
}

/// Lexing does not look back: after any prefix, the lexemes of a text are
/// its own lexemes, moved by the prefix's length.
pub proof fn lemma_tokenize_from_shift(x: Seq<char>, t: Seq<char>, k: int)
    requires
        0 <= k <= t.len(),
    ensures
        tokenize_from(x + t, x.len() + k) == shift_lexemes(tokenize_from(t, k), x.len() as int),
    decreases t.len() - k,
{
    let s = x + t;
    if k < t.len() {
        lemma_next_token_shift(x, t, k);
        lemma_next_token_len(t, k);
        let (kind, n) = next_token(t, k);
        lemma_tokenize_from_shift(x, t, k + n);
        let rest = tokenize_from(t, k + n);
        assert(tokenize_from(t, k) == seq![(kind, k, k + n)] + rest);
        assert(tokenize_from(s, x.len() + k) == seq![(kind, x.len() + k, x.len() + k + n)]
            + tokenize_from(s, x.len() + k + n));
        assert(shift_lexemes(seq![(kind, k, k + n)] + rest, x.len() as int) =~= seq![
            (kind, x.len() + k, x.len() + k + n),
        ] + shift_lexemes(rest, x.len() as int));
    } else {
        assert(tokenize_from(t, k) =~= Seq::<(TokenKind, int, int)>::empty());
        assert(shift_lexemes(tokenize_from(t, k), x.len() as int) =~= Seq::<
            (TokenKind, int, int),
        >::empty());
    }
}

proof fn lemma_class_run_exact(s: Seq<char>, pos: int, end: int, cls: CharClass)
    requires
        0 <= pos <= end <= s.len(),
        forall|k: int| pos <= k < end ==> in_class(cls, #[trigger] s[k]),
        end == s.len() || !in_class(cls, s[end]),
    ensures
        class_run(s, pos, cls) == end - pos,
    decreases end - pos,
{
    if pos < end {
        lemma_class_run_exact(s, pos + 1, end, cls);
    }
}

/// A double quote, then any ASCII letters, spaces and `, . : ; ! [ ] { }`,
/// then a double quote, is one string-literal lexeme.
pub proof fn lemma_string_literal_is_one_lexeme(w: Seq<char>)
    requires
        forall|k: int|
            0 <= k < w.len() ==> {
                let c = #[trigger] w[k];
                ||| ('a' as u32) <= (c as u32) <= ('z' as u32)
                ||| ('A' as u32) <= (c as u32) <= ('Z' as u32)
                ||| c == ' '
                ||| c == ','
                ||| c == '.'
                ||| c == ':'
                ||| c == ';'
                ||| c == '!'
                ||| c == '['
                ||| c == ']'
                ||| c == '{'
                ||| c == '}'
            },
    ensures
        tokenize(seq!['"'] + w + seq!['"']) == seq![(TokenKind::Str, 0int, (w.len() + 2) as int)],
{
    let s = seq!['"'] + w + seq!['"'];
    assert(s.len() == (w.len() + 2) as int);
    assert(s[0] == '"');
    assert(s[(w.len() + 1) as int] == '"');
    assert forall|k: int| 1 <= k < (w.len() + 1) as int implies in_class(CharClass::StringBody, #[trigger] s[k]) by {
        assert(s[k] == w[k - 1]);
    }
    lemma_class_run_exact(s, 1, (w.len() + 1) as int, CharClass::StringBody);
    assert(next_token(s, 0) == (TokenKind::Str, (w.len() + 2) as int));
    assert(tokenize_from(s, (w.len() + 2) as int) =~= Seq::<(TokenKind, int, int)>::empty());
    assert(tokenize(s) =~= seq![(TokenKind::Str, 0int, (w.len() + 2) as int)]);
}

fn is_space_char(c: char) -> (r: bool)
    ensures
        r == is_space(c),
{
    let u = c as u32;
    (9 <= u && u <= 13) || u == 32 || u == 0x85 || u == 0xA0 || u == 0x1680 || (0x2000 <= u && u
        <= 0x200A) || u == 0x2028 || u == 0x2029 || u == 0x202F || u == 0x205F || u == 0x3000
}

fn is_letter_char(c: char) -> (r: bool)
    ensures
        r == is_letter(c),
{
    let u = c as u32;
    (('a' as u32) <= u && u <= ('z' as u32)) || (('A' as u32) <= u && u <= ('Z' as u32))
}

fn is_string_body_char(c: char) -> (r: bool)
    ensures
        r == is_string_body(c),
{
    is_letter_char(c) || c == ',' || c == '.' || c == ':' || c == ';' || c == '!' || c == '['
        || c == ']' || c == '{' || c == '}' || c == ' '
}

fn char_in_class(cls: CharClass, c: char) -> (r: bool)
    ensures
        r == in_class(cls, c),
{
    match cls {
        CharClass::Space => is_space_char(c),
        CharClass::Letter => is_letter_char(c),
        CharClass::StringBody => is_string_body_char(c),
    }
}

fn scan_class(cs: &Vec<char>, pos: usize, cls: CharClass) -> (n: usize)
    requires
        pos <= cs.len(),
    ensures
        n == class_run(cs@, pos as int, cls),
        pos + n <= cs.len(),
{
    let mut j = pos;
    while j < cs.len() && char_in_class(cls, cs[j])
        invariant
            pos <= j <= cs.len(),
            class_run(cs@, pos as int, cls) == (j - pos) + class_run(cs@, j as int, cls),
        decreases cs.len() - j,
    {
        j = j + 1;
    }
    j - pos
}

fn peek_char(cs: &Vec<char>, pos: usize, c: char) -> (r: bool)
    ensures
        r == peek_is(cs@, pos as int, c),
{
    pos < cs.len() && cs[pos] == c
}

fn word_kind(cs: &Vec<char>, pos: usize, n: usize) -> (k: TokenKind)
    requires
        pos + n <= cs.len(),
    ensures
        k == keyword_kind(cs@.subrange(pos as int, (pos + n) as int)),
{
    let ghost w = cs@.subrange(pos as int, (pos + n) as int);
    assert(w.len() == n);
    assert(forall|i: int| 0 <= i < n ==> w[i] == cs@[pos + i]);
    if n == 4 && cs[pos] == 't' && cs[pos + 1] == 'r' && cs[pos + 2] == 'u' && cs[pos + 3] == 'e' {
        assert(w =~= seq!['t', 'r', 'u', 'e']);
        TokenKind::Bool(true)
    } else if n == 5 && cs[pos] == 'f' && cs[pos + 1] == 'a' && cs[pos + 2] == 'l' && cs[pos + 3]
        == 's' && cs[pos + 4] == 'e' {
        assert(w != seq!['t', 'r', 'u', 'e']);
        assert(w =~= seq!['f', 'a', 'l', 's', 'e']);
        TokenKind::Bool(false)
    } else if n == 4 && cs[pos] == 'n' && cs[pos + 1] == 'u' && cs[pos + 2] == 'l' && cs[pos + 3]
        == 'l' {
        assert(w[0] != seq!['t', 'r', 'u', 'e'][0]);
        assert(w =~= seq!['n', 'u', 'l', 'l']);
        TokenKind::Null
    } else if n == 2 && cs[pos] == 'i' && cs[pos + 1] == 'f' {
        assert(w =~= seq!['i', 'f']);
        TokenKind::KeywordIf
    } else {
        assert(w != seq!['t', 'r', 'u', 'e']) by {
            if w == seq!['t', 'r', 'u', 'e'] {
                assert(w[0] == 't' && w[1] == 'r' && w[2] == 'u' && w[3] == 'e');
                assert(w[0] == cs@[pos as int] && w[1] == cs@[pos + 1] && w[2] == cs@[pos + 2]
                    && w[3] == cs@[pos + 3]);
            }
        }
        assert(w != seq!['f', 'a', 'l', 's', 'e']) by {
            if w == seq!['f', 'a', 'l', 's', 'e'] {
                assert(w[0] == 'f' && w[1] == 'a' && w[2] == 'l' && w[3] == 's' && w[4] == 'e');
                assert(w[0] == cs@[pos as int] && w[1] == cs@[pos + 1] && w[2] == cs@[pos + 2]
                    && w[3] == cs@[pos + 3] && w[4] == cs@[pos + 4]);
            }
        }
        assert(w != seq!['n', 'u', 'l', 'l']) by {
            if w == seq!['n', 'u', 'l', 'l'] {
                assert(w[0] == 'n' && w[1] == 'u' && w[2] == 'l' && w[3] == 'l');
            }
        }
        assert(w != seq!['i', 'f']) by {
            if w == seq!['i', 'f'] {
                assert(w[0] == 'i' && w[1] == 'f');
            }
        }
        TokenKind::Text
    }
}

fn punctuation_token(c: char) -> (k: TokenKind)
    ensures
        k == punctuation_kind(c),
{
    if c == '{' {
        TokenKind::BraceOpen
    } else if c == '}' {
        TokenKind::BraceClose
    } else if c == '[' {
        TokenKind::BracketOpen
    } else if c == ']' {
        TokenKind::BracketClose
    } else if c == '(' {
        TokenKind::ParenOpen
    } else if c == ')' {
        TokenKind::ParenClose
    } else if c == ',' {
        TokenKind::Comma
    } else if c == ';' {
        TokenKind::Semicolon
    } else if c == ':' {
        TokenKind::Colon
    } else if c == '.' {
        TokenKind::Period
    } else {
        TokenKind::Error
    }
}

/// The longest token starting at `pos`, and its length.
fn scan_token(cs: &Vec<char>, pos: usize) -> (r: (TokenKind, usize))
    requires
        pos < cs.len(),
    ensures
        (r.0, r.1 as int) == next_token(cs@, pos as int),
        1 <= r.1 <= cs.len() - pos,
{
    proof {
        lemma_next_token_len(cs@, pos as int);
    }
    let c = cs[pos];
    if is_space_char(c) {
        let n = scan_class(cs, pos, CharClass::Space);
        (TokenKind::Whitespace, n)
    } else if is_letter_char(c) {
        let n = scan_class(cs, pos, CharClass::Letter);
        (word_kind(cs, pos, n), n)
    } else if c == '"' {
        let n = scan_class(cs, pos + 1, CharClass::StringBody);
        if peek_char(cs, pos + 1 + n, '"') {
            (TokenKind::Str, n + 2)
        } else {
            (TokenKind::Error, n + 1)
        }
    } else if c == '=' {
        if peek_char(cs, pos + 1, '>') {
            (TokenKind::FatArrow, 2)
        } else {
            (TokenKind::AssignEqual, 1)
        }
    } else if c == '-' {
        if peek_char(cs, pos + 1, '>') {
            (TokenKind::Arrow, 2)
        } else {
            (TokenKind::Error, 1)
        }
    } else if c == '&' {
        if peek_char(cs, pos + 1, '&') {
            (TokenKind::LogicOp(LogicOperator::And), 2)
        } else {
            (TokenKind::Error, 1)
        }
    } else if c == '|' {
        if peek_char(cs, pos + 1, '|') {
            (TokenKind::LogicOp(LogicOperator::Or), 2)
        } else {
            (TokenKind::Error, 1)
        }
    } else {
        (punctuation_token(c), 1)
    }
}

/// The characters of a script, in order.
pub fn script_chars(code: &str) -> (cs: Vec<char>)
    ensures
        cs@ == code@,
{
    broadcast use vstd::string::group_string_axioms;

    let mut cs: Vec<char> = Vec::new();
    for c in it: code.chars()
        invariant
            it.seq() == code@,
            cs@ == code@.take(it.index() as int),
    {
        cs.push(c);
    }
    assert(cs@ =~= code@);
    cs
}

/// Cuts characters into lexemes.
pub fn lex_chars(cs: &Vec<char>) -> (lexemes: Vec<Lexeme>)
    ensures
        lexemes_view(lexemes@) == tokenize(cs@),
{
    let mut out: Vec<Lexeme> = Vec::new();
    let mut pos: usize = 0;
    while pos < cs.len()
        invariant
            pos <= cs.len(),
            lexemes_view(out@) + tokenize_from(cs@, pos as int) == tokenize(cs@),
        decreases cs.len() - pos,
    {
        let (kind, n) = scan_token(cs, pos);
        let ghost before = out@;
        out.push(Lexeme { kind, start: pos, end: pos + n });
        proof {
            assert(lexemes_view(out@) =~= lexemes_view(before) + seq![(kind, pos as int, (pos + n) as int)]);
            assert(tokenize_from(cs@, pos as int) == seq![(kind, pos as int, (pos + n) as int)]
                + tokenize_from(cs@, (pos + n) as int));
            assert(lexemes_view(out@) + tokenize_from(cs@, (pos + n) as int) =~= lexemes_view(before)
                + tokenize_from(cs@, pos as int));
        }
        pos = pos + n;
    }
    proof {
        assert(tokenize_from(cs@, pos as int) =~= Seq::<(TokenKind, int, int)>::empty());
        assert(lexemes_view(out@) + Seq::<(TokenKind, int, int)>::empty() =~= lexemes_view(out@));
    }
    out
}

/// Cuts a script into lexemes, by longest match from left to right.
pub fn lex(code: &str) -> (lexemes: Vec<Lexeme>)
    ensures
        lexemes_view(lexemes@) == tokenize(code@),
{
    let cs = script_chars(code);
    lex_chars(&cs)
}

} // verus!
