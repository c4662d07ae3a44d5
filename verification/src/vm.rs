//! The interpreter of the editor's scripting language.
//!
//! A script is run token by token.  Any word calls the printing builtin:
//! the string literals between the next `(` and `)` are joined, quotes
//! trimmed from both ends, and the result is printed as one line.  `true`
//! ends the run with the value true.  `if` takes the text between the lexeme
//! after the run's iteration count and the next `{` (without `&&`) as a
//! condition, runs it, and when it yields true runs the text between that
//! `{` and the next `}`.  A condition that yields anything but true, or an
//! `if` with no `{` after it, is a fault: the run stops there.
use vstd::prelude::*;
use vstd::string::*;
use crate::lexer;
use crate::lexer::{Lexeme, LogicOperator, TokenKind, lex, script_chars};
use crate::scene;
use crate::scene::GameObject;

verus! {

/// The text of an `if` condition.
pub struct Condition {
    pub tokens: String,
}

/// A branch of a condition (reserved: conditions have no branches yet).
pub struct ConditionBranch {}

/// How a run of a script ends.
#[derive(Clone, Copy, PartialEq, Eq, Structural, Debug)]
pub enum Ending {
    /// The run met `true` and returned the value true.
    ReturnedTrue,
    /// The run reached the end of the script.
    Finished,
    /// The run stopped on a fault.
    Fault,
}

/// The value a completed run returns.
#[derive(Clone, Copy, PartialEq, Eq, Structural, Debug)]
pub enum BranchValue {
    True,
    Done,
}

/// The lines a completed run printed, in order, and its value.
pub struct BranchOutput {
    pub printed: Vec<String>,
    pub value: BranchValue,
}

/// The lines a run printed, in order, up to its end, and how it ended.
pub struct BranchTrace {
    pub printed: Vec<String>,
    pub ending: Ending,
}

/// The lines of a vector of strings, each taken by its view.
pub open spec fn lines_view(v: Seq<String>) -> Seq<Seq<char>> {
    v.map_values(|s: String| s@)
}

/// The index of the first lexeme of kind `kind` at or after `from`
/// (`toks.len()` when there is none).
pub open spec fn first_of_kind(toks: Seq<(TokenKind, int, int)>, from: int, kind: TokenKind) -> int
    decreases toks.len() - from,
{
    if from >= toks.len() {
        toks.len() as int
    } else if toks[from].0 == kind {
        from
    } else {
        first_of_kind(toks, from + 1, kind)
    }
}

/// The arguments of a call whose lexemes start at `j`: the characters of the
/// string literals met once a `(` has been seen, up to the first `)`; with
/// the index of the lexeme after that `)` (or the end).
pub open spec fn gather(s: Seq<char>, toks: Seq<(TokenKind, int, int)>, j: int, gathering: bool) -> (
    Seq<char>,
    int,
)
    decreases toks.len() - j,
{
    if j < 0 || j >= toks.len() {
        (seq![], j)
    } else {
        let t = toks[j];
        let g = gathering || t.0 == TokenKind::ParenOpen;
        let piece = if g && t.0 == TokenKind::Str {
            s.subrange(t.1, t.2)
        } else {
            seq![]
        };
        if t.0 == TokenKind::ParenClose {
            (piece, j + 1)
        } else {
            let rest = gather(s, toks, j + 1, g);
            (piece + rest.0, rest.1)
        }
    }
}

/// The number of `"` at the front of `s` from `i` on.
pub open spec fn leading_quotes(s: Seq<char>, i: int) -> int
    decreases s.len() - i,
{
    if 0 <= i < s.len() && s[i] == '"' {
        1 + leading_quotes(s, i + 1)
    } else {
        0
    }
}

/// The number of `"` at the back of `s.take(j)`.
pub open spec fn trailing_quotes(s: Seq<char>, j: int) -> int
    decreases j,
{
    if 0 < j <= s.len() && s[j - 1] == '"' {
        1 + trailing_quotes(s, j - 1)
    } else {
        0
    }
}

/// `s` without the `"` characters at either end.
pub open spec fn trim_quotes(s: Seq<char>) -> Seq<char> {
    let a = leading_quotes(s, 0);
    if a == s.len() {
        seq![]
    } else {
        s.subrange(a, s.len() - trailing_quotes(s, s.len() as int))
    }
}

pub proof fn lemma_first_of_kind_bounds(toks: Seq<(TokenKind, int, int)>, from: int, kind: TokenKind)
    requires
        0 <= from <= toks.len(),
    ensures
        from <= first_of_kind(toks, from, kind) <= toks.len(),
        first_of_kind(toks, from, kind) < toks.len() ==> toks[first_of_kind(toks, from, kind)].0
            == kind,
        forall|k: int| from <= k < first_of_kind(toks, from, kind) ==> #[trigger] toks[k].0 != kind,
    decreases toks.len() - from,
{
    if from < toks.len() && toks[from].0 != kind {
        lemma_first_of_kind_bounds(toks, from + 1, kind);
    }
}

pub proof fn lemma_gather_bounds(s: Seq<char>, toks: Seq<(TokenKind, int, int)>, j: int, g: bool)
    requires
        0 <= j <= toks.len(),
    ensures
        j <= gather(s, toks, j, g).1 <= toks.len(),
        j < toks.len() ==> j < gather(s, toks, j, g).1,
    decreases toks.len() - j,
{
    if j < toks.len() && toks[j].0 != TokenKind::ParenClose {
        lemma_gather_bounds(s, toks, j + 1, g || toks[j].0 == TokenKind::ParenOpen);
    }
}

/// Joined lexemes that leave out at least the first or the last lexeme of
/// a script are shorter than the script.
pub proof fn lemma_join_shorter(s: Seq<char>, lo: int, hi: int, drop_and: bool)
    requires
        0 <= lo <= hi <= lexer::tokenize(s).len(),
        hi < lexer::tokenize(s).len() || 0 < lo,
    ensures
        lexer::join_slices(s, lexer::tokenize(s), lo, hi, drop_and).len() < s.len(),
{
    let toks = lexer::tokenize(s);
    lexer::lemma_tokenize_tiles(s);
    lexer::lemma_tiles_in_bounds(toks, 0, s.len() as int);
    if lo < hi {
        lexer::lemma_join_slices_span(s, toks, lo, hi);
        if hi < toks.len() {
            assert(toks[hi - 1].2 <= toks[hi].1);
        } else {
            assert(toks[lo - 1].2 <= toks[lo].1);
        }
    } else {
        assert(lexer::join_slices(s, toks, lo, hi, drop_and) =~= Seq::<char>::empty());
    }
}

/// The lines a script prints from lexeme `i` on, at iteration `idx`, and
/// how the run ends.
pub open spec fn run_from(code: Seq<char>, i: int, idx: int) -> (Seq<Seq<char>>, Ending)
    decreases code.len(), lexer::tokenize(code).len() - i,
{
    let toks = lexer::tokenize(code);
    if i < 0 || idx < 0 || idx > i || i >= toks.len() {
        (seq![], Ending::Finished)
    } else {
        let kind = toks[i].0;
        if kind == TokenKind::KeywordIf {
            let brace = first_of_kind(toks, idx + 1, TokenKind::BraceOpen);
            proof {
                lemma_first_of_kind_bounds(toks, idx + 1, TokenKind::BraceOpen);
            }
            if brace >= toks.len() {
                (seq![], Ending::Fault)
            } else {
                let cond = lexer::join_slices(code, toks, idx + 1, brace, true);
                proof {
                    lemma_join_shorter(code, idx + 1, brace, true);
                }
                let (out1, e1) = run_from(cond, 0, 0);
                if e1 != Ending::ReturnedTrue {
                    (out1, Ending::Fault)
                } else {
                    let close = first_of_kind(toks, brace + 1, TokenKind::BraceClose);
                    proof {
                        lemma_first_of_kind_bounds(toks, brace + 1, TokenKind::BraceClose);
                    }
                    let body = lexer::join_slices(code, toks, brace + 1, close, false);
                    proof {
                        lemma_join_shorter(code, brace + 1, close, false);
                    }
                    let (out2, e2) = run_from(body, 0, 0);
                    if e2 == Ending::Fault {
                        (out1 + out2, Ending::Fault)
                    } else {
                        let (out3, e3) = run_from(code, i + 1, idx + 1);
                        (out1 + out2 + out3, e3)
                    }
                }
            }
        } else if kind == TokenKind::Bool(true) {
            (seq![], Ending::ReturnedTrue)
        } else if kind == TokenKind::Text {
            let (args, next) = gather(code, toks, i + 1, false);
            proof {
                lemma_gather_bounds(code, toks, i + 1, false);
            }
            let (rest, e) = run_from(code, next, idx + 1);
            (seq![trim_quotes(args)] + rest, e)
        } else {
            run_from(code, i + 1, idx + 1)
        }
    }
}

/// The lines a script prints and how its run ends.
pub open spec fn run(code: Seq<char>) -> (Seq<Seq<char>>, Ending) {
    run_from(code, 0, 0)
}

/// The lines the scripts of `objs[0..n]` print, one script after the other.
pub open spec fn vm_lines(objs: Seq<scene::GameObjectModel>, n: int) -> Seq<Seq<char>>
    decreases n,
{
    if n <= 0 {
        seq![]
    } else {
        vm_lines(objs, n - 1) + run(objs[n - 1].code).0
    }
}

fn find_kind(toks: &Vec<Lexeme>, from: usize, kind: TokenKind) -> (r: usize)
    requires
        from <= toks.len(),
    ensures
        r == first_of_kind(lexer::lexemes_view(toks@), from as int, kind),
{
    let ghost tv = lexer::lexemes_view(toks@);
    let mut j = from;
    while j < toks.len()
        invariant
            from <= j <= toks.len(),
            tv == lexer::lexemes_view(toks@),
            first_of_kind(tv, from as int, kind) == first_of_kind(tv, j as int, kind),
        decreases toks.len() - j,
    {
        if toks[j].kind == kind {
            return j;
        }
        j = j + 1;
    }
    j
}

/// The lexemes of a script lie inside it.
proof fn lemma_lexemes_in_script(code: Seq<char>, toks: Seq<Lexeme>)
    requires
        lexer::lexemes_view(toks) == lexer::tokenize(code),
    ensures
        forall|j: int| 0 <= j < toks.len() ==> #[trigger] toks[j].start <= toks[j].end <= code.len(),
{
    let tv = lexer::tokenize(code);
    lexer::lemma_tokenize_tiles(code);
    lexer::lemma_tiles_in_bounds(tv, 0, code.len() as int);
    assert forall|j: int| 0 <= j < toks.len() implies #[trigger] toks[j].start <= toks[j].end
        <= code.len() by {
        assert(lexer::lexemes_view(toks)[j] == toks[j]@);
        assert(tv[j] == toks[j]@);
        assert(tv[j].1 < tv[j].2);
        assert(0 <= tv[j].1 && tv[j].2 <= code.len());
    }
}

fn join_range(code: &str, toks: &Vec<Lexeme>, lo: usize, hi: usize, drop_and: bool) -> (r: String)
    requires
        lexer::lexemes_view(toks@) == lexer::tokenize(code@),
        lo <= hi <= toks.len(),
    ensures
        r@ == lexer::join_slices(code@, lexer::lexemes_view(toks@), lo as int, hi as int, drop_and),
{
    proof {
        lemma_lexemes_in_script(code@, toks@);
    }
    let ghost tv = lexer::lexemes_view(toks@);
    let mut r = String::new();
    let mut j = lo;
    while j < hi
        invariant
            lo <= j <= hi <= toks.len(),
            tv == lexer::lexemes_view(toks@),
            forall|k: int| 0 <= k < toks.len() ==> #[trigger] toks@[k].start <= toks@[k].end
                <= code@.len(),
            r@ == lexer::join_slices(code@, tv, lo as int, j as int, drop_and),
        decreases hi - j,
    {
        let t = toks[j];
        assert(tv[j as int] == t@);
        if !(drop_and && t.kind == TokenKind::LogicOp(LogicOperator::And)) {
            r.append(code.substring_char(t.start, t.end));
        }
        j = j + 1;
    }
    r
}

fn gather_args(code: &str, toks: &Vec<Lexeme>, from: usize) -> (r: (String, usize))
    requires
        lexer::lexemes_view(toks@) == lexer::tokenize(code@),
        from <= toks.len(),
    ensures
        (r.0@, r.1 as int) == gather(code@, lexer::lexemes_view(toks@), from as int, false),
{
    proof {
        lemma_lexemes_in_script(code@, toks@);
    }
    let ghost tv = lexer::lexemes_view(toks@);
    let ghost full = gather(code@, tv, from as int, false);
    let mut acc = String::new();
    let mut j = from;
    let mut gathering = false;
    while j < toks.len()
        invariant
            from <= j <= toks.len(),
            tv == lexer::lexemes_view(toks@),
            forall|k: int| 0 <= k < toks.len() ==> #[trigger] toks@[k].start <= toks@[k].end
                <= code@.len(),
            full == gather(code@, tv, from as int, false),
            acc@ + gather(code@, tv, j as int, gathering).0 == full.0,
            gather(code@, tv, j as int, gathering).1 == full.1,
        decreases toks.len() - j,
    {
        let t = toks[j];
        assert(tv[j as int] == t@);
        let ghost before = acc@;
        let ghost g0 = gathering;
        if t.kind == TokenKind::ParenOpen {
            gathering = true;
        }
        if gathering && t.kind == TokenKind::Str {
            acc.append(code.substring_char(t.start, t.end));
        }
        let ghost step = gather(code@, tv, j as int, g0);
        if t.kind == TokenKind::ParenClose {
            assert(step.1 == j + 1);
            assert(acc@ =~= before + step.0);
            assert(acc@ == full.0);
            return (acc, j + 1);
        }
        proof {
            let rest = gather(code@, tv, j + 1, gathering);
            assert(step.0 == acc@.subrange(before.len() as int, acc@.len() as int) + rest.0);
            assert(acc@ + rest.0 =~= before + step.0);
        }
        j = j + 1;
    }
    assert(acc@ + Seq::<char>::empty() =~= acc@);
    (acc, j)
}

/// `s` without the `"` characters at either end.
pub fn trim_quotes_of(s: &str) -> (r: String)
    ensures
        r@ == trim_quotes(s@),
{
    let cs = script_chars(s);
    let n = cs.len();
    let mut a: usize = 0;
    while a < n && cs[a] == '"'
        invariant
            a <= n == cs@.len(),
            cs@ == s@,
            leading_quotes(s@, 0) == a + leading_quotes(s@, a as int),
            forall|k: int| 0 <= k < a ==> #[trigger] cs@[k] == '"',
        decreases n - a,
    {
        a = a + 1;
    }
    if a == n {
        return String::new();
    }
    let mut b: usize = n;
    while b > a && cs[b - 1] == '"'
        invariant
            a < b <= n == cs@.len(),
            a < n,
            cs@[a as int] != '"',
            cs@ == s@,
            trailing_quotes(s@, n as int) == (n - b) + trailing_quotes(s@, b as int),
        decreases b,
    {
        b = b - 1;
    }
    String::from_str(s.substring_char(a, b))
}

/// Runs a script, appending what it prints to `out`.
fn trace_into(code: &str, out: &mut Vec<String>) -> (e: Ending)
    ensures
        lines_view(final(out)@) == lines_view(old(out)@) + run(code@).0,
        e == run(code@).1,
    decreases code@.len(),
{
    let toks = lex(code);
    let ghost tv = lexer::lexemes_view(toks@);
    let ghost start = lines_view(out@);
    let mut i: usize = 0;
    let mut idx: usize = 0;
    assert(lines_view(out@) + run(code@).0 =~= start + run(code@).0);
    while i < toks.len()
        invariant
            idx <= i <= toks.len(),
            tv == lexer::lexemes_view(toks@),
            tv == lexer::tokenize(code@),
            start == lines_view(old(out)@),
            start + run(code@).0 == lines_view(out@) + run_from(code@, i as int, idx as int).0,
            run(code@).1 == run_from(code@, i as int, idx as int).1,
        decreases toks.len() - i,
    {
        let t = toks[i];
        assert(tv[i as int] == t@);
        let ghost here = run_from(code@, i as int, idx as int);
        let ghost before = lines_view(out@);
        if t.kind == TokenKind::KeywordIf {
            let brace = find_kind(&toks, idx + 1, TokenKind::BraceOpen);
            proof {
                lemma_first_of_kind_bounds(tv, idx + 1, TokenKind::BraceOpen);
            }
            if brace >= toks.len() {
                assert(here.1 == Ending::Fault);
                assert(here.0 == Seq::<Seq<char>>::empty());
                assert(lines_view(out@) + here.0 =~= lines_view(out@));
                return Ending::Fault;
            }
            let cond = Condition { tokens: join_range(code, &toks, idx + 1, brace, true) };
            proof {
                lemma_join_shorter(code@, idx + 1, brace as int, true);
            }
            let e1 = trace_into(cond.tokens.as_str(), out);
            let ghost after1 = lines_view(out@);
            if e1 != Ending::ReturnedTrue {
                assert(before + here.0 =~= after1);
                return Ending::Fault;
            }
            let close = find_kind(&toks, brace + 1, TokenKind::BraceClose);
            proof {
                lemma_first_of_kind_bounds(tv, brace + 1, TokenKind::BraceClose);
                lemma_join_shorter(code@, brace + 1, close as int, false);
            }
            let body = join_range(code, &toks, brace + 1, close, false);
            let e2 = trace_into(body.as_str(), out);
            if e2 == Ending::Fault {
                assert(before + here.0 =~= lines_view(out@));
                return Ending::Fault;
            }
            proof {
                let next = run_from(code@, i + 1, idx + 1);
                assert(here.0 == run(cond.tokens@).0 + run(body@).0 + next.0);
                assert(before + here.0 =~= lines_view(out@) + next.0);
            }
            i = i + 1;
            idx = idx + 1;
        } else if t.kind == TokenKind::Bool(true) {
            assert(here.1 == Ending::ReturnedTrue);
            assert(here.0 == Seq::<Seq<char>>::empty());
            assert(lines_view(out@) + here.0 =~= lines_view(out@));
            return Ending::ReturnedTrue;
        } else if t.kind == TokenKind::Text {
            let (args, next) = gather_args(code, &toks, i + 1);
            proof {
                lemma_gather_bounds(code@, tv, i + 1, false);
            }
            let line = trim_quotes_of(args.as_str());
            out.push(line);
            proof {
                let rest = run_from(code@, next as int, idx + 1);
                assert(lines_view(out@) =~= before + seq![line@]);
                assert(here.0 == seq![trim_quotes(args@)] + rest.0);
                assert(before + here.0 =~= lines_view(out@) + rest.0);
            }
            i = next;
            idx = idx + 1;
        } else {
            i = i + 1;
            idx = idx + 1;
        }
    }
    assert(lines_view(out@) + run_from(code@, i as int, idx as int).0 =~= lines_view(out@));
    Ending::Finished
}

/// Runs a script to its end or its first fault, and says what it printed
/// and how it ended.
pub fn trace_branch(code: &str) -> (r: BranchTrace)
    ensures
        lines_view(r.printed@) == run(code@).0,
        r.ending == run(code@).1,
{
    let mut printed: Vec<String> = Vec::new();
    assert(lines_view(printed@) =~= Seq::<Seq<char>>::empty());
    let ending = trace_into(code, &mut printed);
    assert(lines_view(printed@) =~= run(code@).0);
    BranchTrace { printed, ending }
}

/// Runs a script that does not fault: the lines it prints, in order, and
/// the value it returns (true when it met `true`).
pub fn run_branch(code: String) -> (r: BranchOutput)
    requires
        run(code@).1 != Ending::Fault,
    ensures
        lines_view(r.printed@) == run(code@).0,
        r.value == BranchValue::True <==> run(code@).1 == Ending::ReturnedTrue,
{
    let t = trace_branch(code.as_str());
    let value = if t.ending == Ending::ReturnedTrue {
        BranchValue::True
    } else {
        BranchValue::Done
    };
    BranchOutput { printed: t.printed, value }
}

/// Runs the script of every object, in order: the lines they print, one
/// script after the other.
pub fn run_vm(objects: &Vec<GameObject>) -> (printed: Vec<String>)
    requires
        forall|k: int| 0 <= k < objects.len() ==> run(#[trigger] objects@[k].code@).1 != Ending::Fault,
    ensures
        lines_view(printed@) == vm_lines(scene::objects_view(objects@), objects.len() as int),
{
    let ghost ov = scene::objects_view(objects@);
    let mut printed: Vec<String> = Vec::new();
    let mut k: usize = 0;
    assert(lines_view(printed@) =~= Seq::<Seq<char>>::empty());
    while k < objects.len()
        invariant
            k <= objects.len(),
            ov == scene::objects_view(objects@),
            lines_view(printed@) == vm_lines(ov, k as int),
        decreases objects.len() - k,
    {
        assert(ov[k as int] == objects@[k as int]@);
        let _ending = trace_into(objects[k].code.as_str(), &mut printed);
        k = k + 1;
    }
    printed
}

/// A lexeme kind that neither prints, nor branches, nor returns.
pub open spec fn quiet_kind(k: TokenKind) -> bool {
    k != TokenKind::Text && k != TokenKind::KeywordIf && k != TokenKind::Bool(true)
}

proof fn lemma_quiet_from(code: Seq<char>, i: int, idx: int)
    requires
        0 <= idx <= i <= lexer::tokenize(code).len(),
        forall|j: int| 0 <= j < lexer::tokenize(code).len() ==> quiet_kind(#[trigger] lexer::tokenize(code)[j].0),
    ensures
        run_from(code, i, idx) == (Seq::<Seq<char>>::empty(), Ending::Finished),
    decreases lexer::tokenize(code).len() - i,
{
    if i < lexer::tokenize(code).len() {
        assert(quiet_kind(lexer::tokenize(code)[i].0));
        lemma_quiet_from(code, i + 1, idx + 1);
    }
}

/// A script with no word, no `if` and no `true` prints nothing and runs to
/// its end.
pub proof fn lemma_quiet_script(code: Seq<char>)
    requires
        forall|j: int| 0 <= j < lexer::tokenize(code).len() ==> quiet_kind(#[trigger] lexer::tokenize(code)[j].0),
    ensures
        run(code) == (Seq::<Seq<char>>::empty(), Ending::Finished),
{
    lemma_quiet_from(code, 0, 0);
}

proof fn lemma_leading_quotes(s: Seq<char>, i: int)
    requires
        0 <= i <= s.len(),
    ensures
        0 <= leading_quotes(s, i) <= s.len() - i,
        forall|k: int| i <= k < i + leading_quotes(s, i) ==> #[trigger] s[k] == '"',
        i + leading_quotes(s, i) < s.len() ==> s[i + leading_quotes(s, i)] != '"',
    decreases s.len() - i,
{
    if i < s.len() && s[i] == '"' {
        lemma_leading_quotes(s, i + 1);
    }
}

proof fn lemma_trailing_quotes(s: Seq<char>, j: int)
    requires
        0 <= j <= s.len(),
    ensures
        0 <= trailing_quotes(s, j) <= j,
        forall|k: int| j - trailing_quotes(s, j) <= k < j ==> #[trigger] s[k] == '"',
        j - trailing_quotes(s, j) > 0 ==> s[j - trailing_quotes(s, j) - 1] != '"',
    decreases j,
{
    if 0 < j && s[j - 1] == '"' {
        lemma_trailing_quotes(s, j - 1);
    }
}

/// Trimming takes off only `"` characters, from the two ends, and leaves
/// none at either end of what remains.
pub proof fn lemma_trim_quotes_strips(s: Seq<char>)
    ensures
        ({
            let t = trim_quotes(s);
            &&& t.len() > 0 ==> t[0] != '"' && t[t.len() - 1] != '"'
            &&& exists|a: int, b: int|
                0 <= a <= b <= s.len() && t == s.subrange(a, b) && (forall|k: int|
                    0 <= k < a ==> #[trigger] s[k] == '"') && (forall|k: int|
                    b <= k < s.len() ==> #[trigger] s[k] == '"')
        }),
{
    let n = s.len() as int;
    let a = leading_quotes(s, 0);
    lemma_leading_quotes(s, 0);
    lemma_trailing_quotes(s, n);
    let b = n - trailing_quotes(s, n);
    if a == n {
        assert(trim_quotes(s) =~= s.subrange(n, n));
        assert(forall|k: int| n <= k < s.len() ==> #[trigger] s[k] == '"');
    } else {
        assert(s[a] != '"');
        assert(a < b) by {
            if b <= a {
                assert(s[a] == '"');
            }
        }
        let t = trim_quotes(s);
        assert(t == s.subrange(a, b));
        assert(t[0] == s[a]);
        assert(t[t.len() - 1] == s[b - 1]);
    }
}

/// The lines the scripts of `objs[0..n]` print, one script after the other,
/// up to and including the first script that faults; and whether one did.
pub open spec fn vm_trace(objs: Seq<scene::GameObjectModel>, n: int) -> (Seq<Seq<char>>, bool)
    decreases n,
{
    if n <= 0 {
        (seq![], false)
    } else {
        let prev = vm_trace(objs, n - 1);
        if prev.1 {
            prev
        } else {
            let r = run(objs[n - 1].code);
            (prev.0 + r.0, r.1 == Ending::Fault)
        }
    }
}

/// What the scripts of all objects printed, up to the first fault, and
/// whether a script faulted.
pub struct VmTrace {
    pub printed: Vec<String>,
    pub faulted: bool,
}

proof fn lemma_vm_trace_stays(objs: Seq<scene::GameObjectModel>, n: int, m: int)
    requires
        n <= m,
        vm_trace(objs, n).1,
    ensures
        vm_trace(objs, m) == vm_trace(objs, n),
    decreases m - n,
{
    if n < m {
        lemma_vm_trace_stays(objs, n, m - 1);
    }
}

/// Runs the script of every object, in order, until one faults: the lines
/// printed up to and including the faulting script's, and whether one faulted.
pub fn trace_vm(objects: &Vec<GameObject>) -> (r: VmTrace)
    ensures
        lines_view(r.printed@) == vm_trace(scene::objects_view(objects@), objects.len() as int).0,
        r.faulted == vm_trace(scene::objects_view(objects@), objects.len() as int).1,
{
    let ghost ov = scene::objects_view(objects@);
    let mut printed: Vec<String> = Vec::new();
    let mut k: usize = 0;
    assert(lines_view(printed@) =~= Seq::<Seq<char>>::empty());
    while k < objects.len()
        invariant
            k <= objects.len(),
            ov == scene::objects_view(objects@),
            lines_view(printed@) == vm_trace(ov, k as int).0,
            !vm_trace(ov, k as int).1,
        decreases objects.len() - k,
    {
        assert(ov[k as int] == objects@[k as int]@);
        let ending = trace_into(objects[k].code.as_str(), &mut printed);
        k = k + 1;
        if ending == Ending::Fault {
            proof {
                lemma_vm_trace_stays(ov, k as int, objects.len() as int);
            }
            return VmTrace { printed, faulted: true };
        }
    }
    VmTrace { printed, faulted: false }
}

/// When no script of `objs[0..n]` faults, the trace is every script's lines,
/// in order, with no fault.
pub proof fn lemma_vm_trace_without_fault(objs: Seq<scene::GameObjectModel>, n: int)
    requires
        n <= objs.len(),
        forall|k: int| 0 <= k < n ==> run(#[trigger] objs[k].code).1 != Ending::Fault,
    ensures
        vm_trace(objs, n) == (vm_lines(objs, n), false),
    decreases n,
{
    if n > 0 {
        lemma_vm_trace_without_fault(objs, n - 1);
        assert(run(objs[n - 1].code).1 != Ending::Fault);
    }
}

/// When script `f` is the first of `objs[0..n]` to fault, the trace is the
/// lines of the scripts before it, then the lines it printed before its
/// fault, and it reports the fault.
pub proof fn lemma_vm_trace_first_fault(objs: Seq<scene::GameObjectModel>, n: int, f: int)
    requires
        0 <= f < n <= objs.len(),
        run(objs[f].code).1 == Ending::Fault,
        forall|k: int| 0 <= k < f ==> run(#[trigger] objs[k].code).1 != Ending::Fault,
    ensures
        vm_trace(objs, n) == (vm_lines(objs, f) + run(objs[f].code).0, true),
{
    lemma_vm_trace_without_fault(objs, f);
    assert(vm_trace(objs, f + 1) == (vm_lines(objs, f) + run(objs[f].code).0, true));
    lemma_vm_trace_stays(objs, f + 1, n);
}

/// The text `if true {`.
pub open spec fn if_true_open() -> Seq<char> {
    seq!['i', 'f', ' ', 't', 'r', 'u', 'e', ' ', '{']
}

proof fn lemma_brace_lexemes_are_braces(s: Seq<char>, pos: int)
    requires
        0 <= pos <= s.len(),
    ensures
        forall|j: int|
            0 <= j < lexer::tokenize_from(s, pos).len() ==> {
                let t = #[trigger] lexer::tokenize_from(s, pos)[j];
                &&& 0 <= t.1 < s.len()
                &&& t.0 == TokenKind::BraceClose ==> s[t.1] == '}'
                &&& t.0 == TokenKind::BraceOpen ==> s[t.1] == '{'
            },
    decreases s.len() - pos,
{
    if pos < s.len() {
        lexer::lemma_next_token_len(s, pos);
        let (k, n) = lexer::next_token(s, pos);
        lemma_brace_lexemes_are_braces(s, pos + n);
        let all = lexer::tokenize_from(s, pos);
        let rest = lexer::tokenize_from(s, pos + n);
        assert(all == seq![(k, pos, pos + n)] + rest);
        assert forall|j: int| 0 <= j < all.len() implies {
            let t = #[trigger] all[j];
            &&& 0 <= t.1 < s.len()
            &&& t.0 == TokenKind::BraceClose ==> s[t.1] == '}'
            &&& t.0 == TokenKind::BraceOpen ==> s[t.1] == '{'
        } by {
            if j > 0 {
                assert(all[j] == rest[j - 1]);
            }
        }
    }
}

proof fn lemma_run_true_condition()
    ensures
        run(seq![' ', 't', 'r', 'u', 'e', ' ']) == (Seq::<Seq<char>>::empty(), Ending::ReturnedTrue),
{
    let c = seq![' ', 't', 'r', 'u', 'e', ' '];
    assert(lexer::class_run(c, 6, lexer::CharClass::Space) == 0);
    assert(lexer::class_run(c, 5, lexer::CharClass::Space) == 1);
    assert(lexer::class_run(c, 1, lexer::CharClass::Space) == 0);
    assert(lexer::class_run(c, 0, lexer::CharClass::Space) == 1);
    assert(lexer::class_run(c, 5, lexer::CharClass::Letter) == 0);
    assert(lexer::class_run(c, 4, lexer::CharClass::Letter) == 1);
    assert(lexer::class_run(c, 3, lexer::CharClass::Letter) == 2);
    assert(lexer::class_run(c, 2, lexer::CharClass::Letter) == 3);
    assert(lexer::class_run(c, 1, lexer::CharClass::Letter) == 4);
    assert(c.subrange(1, 5) =~= seq!['t', 'r', 'u', 'e']);
    assert(lexer::tokenize_from(c, 6) =~= Seq::<(TokenKind, int, int)>::empty());
    assert(lexer::tokenize_from(c, 5) =~= seq![(TokenKind::Whitespace, 5int, 6int)]);
    assert(lexer::tokenize_from(c, 1) =~= seq![
        (TokenKind::Bool(true), 1int, 5int),
        (TokenKind::Whitespace, 5int, 6int),
    ]);
    let toks = lexer::tokenize(c);
    assert(toks =~= seq![
        (TokenKind::Whitespace, 0int, 1int),
        (TokenKind::Bool(true), 1int, 5int),
        (TokenKind::Whitespace, 5int, 6int),
    ]);
    assert(run_from(c, 1, 1) == (Seq::<Seq<char>>::empty(), Ending::ReturnedTrue));
}

/// `if true { B }`, for a body `B` that holds no brace and whose lexemes are
/// not changed by the closing brace after it, prints exactly what `B` prints
/// (the body runs up to the first `}`, whatever `)` it holds); the run then
/// meets the condition's `true` and returns true, unless `B` faults.
pub proof fn lemma_if_true_runs_body(b: Seq<char>)
    requires
        forall|k: int| 0 <= k < b.len() ==> #[trigger] b[k] != '{' && b[k] != '}',
        lexer::tokenize(b + seq!['}']) == lexer::tokenize(b) + seq![
            (TokenKind::BraceClose, b.len() as int, (b.len() + 1) as int),
        ],
    ensures
        run(if_true_open() + b + seq!['}']) == (run(b).0, if run(b).1 == Ending::Fault {
            Ending::Fault
        } else {
            Ending::ReturnedTrue
        }),
{
    let p = if_true_open();
    let t = b + seq!['}'];
    let code = p + b + seq!['}'];
    assert(code =~= p + t);
    let bt = lexer::tokenize(b);
    let m = bt.len() as int;
    let tail = lexer::tokenize(t);
    lexer::lemma_tokenize_from_shift(p, t, 0);
    assert(lexer::tokenize_from(code, 9) == lexer::shift_lexemes(tail, 9));
    // the lexemes of `if true {`
    assert forall|k: int| 0 <= k < 9 implies #[trigger] code[k] == p[k] by {}
    assert(code[9 + b.len() as int] == '}');
    assert(lexer::class_run(code, 2, lexer::CharClass::Letter) == 0);
    assert(lexer::class_run(code, 1, lexer::CharClass::Letter) == 1);
    assert(lexer::class_run(code, 0, lexer::CharClass::Letter) == 2);
    assert(code.subrange(0, 2) =~= seq!['i', 'f']);
    assert(lexer::class_run(code, 3, lexer::CharClass::Space) == 0);
    assert(lexer::class_run(code, 2, lexer::CharClass::Space) == 1);
    assert(lexer::class_run(code, 7, lexer::CharClass::Letter) == 0);
    assert(lexer::class_run(code, 6, lexer::CharClass::Letter) == 1);
    assert(lexer::class_run(code, 5, lexer::CharClass::Letter) == 2);
    assert(lexer::class_run(code, 4, lexer::CharClass::Letter) == 3);
    assert(lexer::class_run(code, 3, lexer::CharClass::Letter) == 4);
    assert(code.subrange(3, 7) =~= seq!['t', 'r', 'u', 'e']);
    assert(lexer::class_run(code, 8, lexer::CharClass::Space) == 0);
    assert(lexer::class_run(code, 7, lexer::CharClass::Space) == 1);
    let head = seq![
        (TokenKind::KeywordIf, 0int, 2int),
        (TokenKind::Whitespace, 2int, 3int),
        (TokenKind::Bool(true), 3int, 7int),
        (TokenKind::Whitespace, 7int, 8int),
        (TokenKind::BraceOpen, 8int, 9int),
    ];
    let rest9 = lexer::tokenize_from(code, 9);
    assert(lexer::tokenize_from(code, 8) == seq![(TokenKind::BraceOpen, 8int, 9int)] + rest9);
    assert(lexer::tokenize_from(code, 7) == seq![(TokenKind::Whitespace, 7int, 8int)]
        + lexer::tokenize_from(code, 8));
    assert(lexer::tokenize_from(code, 3) == seq![(TokenKind::Bool(true), 3int, 7int)]
        + lexer::tokenize_from(code, 7));
    assert(lexer::tokenize_from(code, 2) == seq![(TokenKind::Whitespace, 2int, 3int)]
        + lexer::tokenize_from(code, 3));
    assert(lexer::tokenize_from(code, 0) == seq![(TokenKind::KeywordIf, 0int, 2int)]
        + lexer::tokenize_from(code, 2));
    let toks = lexer::tokenize(code);
    assert(toks =~= head + rest9);
    assert(tail == bt + seq![(TokenKind::BraceClose, b.len() as int, (b.len() + 1) as int)]);
    assert(toks.len() == 5 + m + 1);
    assert forall|j: int| 0 <= j < m implies #[trigger] toks[5 + j] == (bt[j].0, bt[j].1 + 9, bt[j].2
        + 9) by {
        assert(toks[5 + j] == rest9[j]);
        assert(tail[j] == bt[j]);
    }
    assert(toks[5 + m] == (TokenKind::BraceClose, 9 + b.len() as int, 10 + b.len() as int)) by {
        assert(toks[5 + m] == rest9[m]);
        assert(tail[m] == (TokenKind::BraceClose, b.len() as int, (b.len() + 1) as int));
    }
    // no lexeme of the body is a brace
    lemma_brace_lexemes_are_braces(b, 0);
    lexer::lemma_tokenize_tiles(b);
    lexer::lemma_tiles_in_bounds(bt, 0, b.len() as int);
    assert forall|j: int| 5 <= j < 5 + m implies #[trigger] toks[j].0 != TokenKind::BraceClose
        && toks[j].0 != TokenKind::BraceOpen by {
        assert(toks[j] == (bt[j - 5].0, bt[j - 5].1 + 9, bt[j - 5].2 + 9));
        assert(0 <= bt[j - 5].1 < b.len());
    }
    // the brace and the closing brace
    lemma_first_of_kind_bounds(toks, 1, TokenKind::BraceOpen);
    let brace = first_of_kind(toks, 1, TokenKind::BraceOpen);
    assert(toks[1].0 != TokenKind::BraceOpen && toks[2].0 != TokenKind::BraceOpen && toks[3].0
        != TokenKind::BraceOpen);
    assert(toks[4] == head[4]);
    assert(brace == 4) by {
        if brace < 4 {
            assert(toks[brace] == head[brace]);
        }
        if brace > 4 {
            assert(toks[4].0 != TokenKind::BraceOpen);
        }
    }
    lemma_first_of_kind_bounds(toks, 5, TokenKind::BraceClose);
    let close = first_of_kind(toks, 5, TokenKind::BraceClose);
    assert(close == 5 + m) by {
        if close < 5 + m {
            assert(toks[close].0 != TokenKind::BraceClose);
        }
        if close > 5 + m {
            assert(toks[5 + m].0 != TokenKind::BraceClose);
        }
    }
    // the condition is ` true `
    let cond = join_slices_of(code, toks, 1, 4, true);
    assert(lexer::join_slices(code, toks, 1, 1, true) =~= Seq::<char>::empty());
    assert(lexer::join_slices(code, toks, 1, 2, true) =~= code.subrange(2, 3));
    assert(lexer::join_slices(code, toks, 1, 3, true) =~= code.subrange(2, 3) + code.subrange(3, 7));
    assert(lexer::join_slices(code, toks, 1, 4, true) =~= seq![' ', 't', 'r', 'u', 'e', ' ']);
    lemma_run_true_condition();
    // the body is `B`
    lexer::lemma_tokenize_tiles(code);
    if m > 0 {
        lexer::lemma_join_slices_span(code, toks, 5, 5 + m);
        assert(toks[5] == (bt[0].0, bt[0].1 + 9, bt[0].2 + 9));
        assert(toks[4 + m] == (bt[m - 1].0, bt[m - 1].1 + 9, bt[m - 1].2 + 9));
        assert(code.subrange(9, 9 + b.len() as int) =~= b);
    } else {
        assert(b.len() == 0);
        assert(lexer::join_slices(code, toks, 5, 5, false) =~= b);
    }
    assert(lexer::join_slices(code, toks, 5, 5 + m, false) == b);
    // after the body the run meets ` true`
    assert(run_from(code, 2, 2) == (Seq::<Seq<char>>::empty(), Ending::ReturnedTrue));
    assert(run_from(code, 1, 1) == (Seq::<Seq<char>>::empty(), Ending::ReturnedTrue));
    let r = run_from(code, 0, 0);
    if run(b).1 == Ending::Fault {
        assert(r.0 =~= Seq::<Seq<char>>::empty() + run(b).0);
    } else {
        assert(r.0 =~= Seq::<Seq<char>>::empty() + run(b).0 + Seq::<Seq<char>>::empty());
    }
}

spec fn join_slices_of(
    code: Seq<char>,
    toks: Seq<(TokenKind, int, int)>,
    lo: int,
    hi: int,
    drop_and: bool,
) -> Seq<char> {
    lexer::join_slices(code, toks, lo, hi, drop_and)
}

} // verus!
