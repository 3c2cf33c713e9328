//! Splitting source text into tokens.
use crate::text::push_char;
use std::num::ParseIntError;
use vstd::prelude::*;

verus! {

#[verifier::external_type_specification]
#[verifier::external_body]
pub struct ExParseIntError(ParseIntError);

/// What can go wrong while reading tokens.
#[derive(Debug)]
pub enum TokenizerError {
    BadIdentifier(String),
    Unknown,
    ParseNumberError(ParseIntError),
}

/// A token of the source text.
#[derive(Debug)]
pub enum Token {
    LBrace,
    RBrace,
    Number(isize),
    Atomic(String),
    Error,
}

/// The mathematical value of a token.
pub enum TokenView {
    LBrace,
    RBrace,
    Number(isize),
    Atomic(Seq<char>),
    Error,
}

impl View for Token {
    type V = TokenView;

    open spec fn view(&self) -> TokenView {
        match self {
            Token::LBrace => TokenView::LBrace,
            Token::RBrace => TokenView::RBrace,
            Token::Number(n) => TokenView::Number(*n),
            Token::Atomic(s) => TokenView::Atomic(s@),
            Token::Error => TokenView::Error,
        }
    }
}

/// What `char::is_whitespace` answers for a character: whether it has the
/// Unicode `White_Space` property. Those are U+0009 to U+000D, U+0020,
/// U+0085, U+00A0, U+1680, U+2000 to U+200A, U+2028, U+2029, U+202F, U+205F
/// and U+3000.
pub open spec fn whitespace(c: char) -> bool {
    let x = c as u32;
    ||| 0x9 <= x <= 0xD
    ||| x == 0x20
    ||| x == 0x85
    ||| x == 0xA0
    ||| x == 0x1680
    ||| 0x2000 <= x <= 0x200A
    ||| x == 0x2028
    ||| x == 0x2029
    ||| x == 0x202F
    ||| x == 0x205F
    ||| x == 0x3000
}

/// Whether a character beyond ASCII is in one of the Unicode general
/// categories for numbers (`Nd`, `Nl`, `No`).
pub uninterp spec fn unicode_numeric(c: char) -> bool;

/// What `char::is_numeric` answers for a character: among ASCII characters
/// only the digits `0`-`9`; no white-space character; beyond ASCII, the
/// Unicode general categories for numbers.
pub open spec fn numeric(c: char) -> bool {
    if (c as u32) < 0x80 {
        ascii_digit(c)
    } else if whitespace(c) {
        false
    } else {
        unicode_numeric(c)
    }
}

/// Wraps `char::is_whitespace`.
#[verifier::external_body]
fn char_is_whitespace(c: char) -> (r: bool)
    ensures
        r == whitespace(c),
{
    c.is_whitespace()
}

/// Wraps `char::is_numeric`: the digits among ASCII characters, none of the
/// white-space characters, and beyond those the Unicode number categories.
#[verifier::external_body]
fn char_is_numeric(c: char) -> (r: bool)
    ensures
        r == numeric(c),
        (c as u32) >= 0x80 && !whitespace(c) ==> r == unicode_numeric(c),
{
    c.is_numeric()
}

/// Wraps `str::chars`, collected: the characters of the text, in order.
#[verifier::external_body]
fn str_chars(s: &str) -> (v: Vec<char>)
    ensures
        v@ == s@,
{
    s.chars().collect()
}

/// Whether a character is an ASCII digit `0`-`9`.
pub open spec fn ascii_digit(c: char) -> bool {
    48 <= (c as u32) <= 57
}

/// The value of a sequence of ASCII digits, read in decimal.
pub open spec fn digits_value(s: Seq<char>) -> int
    decreases s.len(),
{
    if s.len() == 0 {
        0
    } else {
        digits_value(s.drop_last()) * 10 + ((s.last() as u32) - 48)
    }
}

/// What `str::parse::<isize>` gives back: an optional `+` or `-`, then one
/// or more ASCII digits, read in decimal; `None` for anything else and for a
/// value outside `isize`.
pub open spec fn parse_isize(s: Seq<char>) -> Option<isize> {
    let neg = s.len() > 0 && s[0] == '-';
    let body = if s.len() > 0 && (s[0] == '-' || s[0] == '+') {
        s.drop_first()
    } else {
        s
    };
    if body.len() == 0 || !(forall|i: int| 0 <= i < body.len() ==> ascii_digit(#[trigger] body[i])) {
        None
    } else {
        let v = if neg {
            -digits_value(body)
        } else {
            digits_value(body)
        };
        if isize::MIN <= v <= isize::MAX {
            Some(v as isize)
        } else {
            None
        }
    }
}

/// Wraps `str::parse::<isize>` (`isize::from_str`): succeeds exactly on the
/// texts that `parse_isize` reads, with that value.
#[verifier::external_body]
fn parse_isize_str(s: &str) -> (r: Result<isize, ParseIntError>)
    ensures
        r is Ok <==> parse_isize(s@) is Some,
        r is Ok ==> r.unwrap() == parse_isize(s@).unwrap(),
{
    s.parse::<isize>()
}

/// A character that can be part of an atom: not white space, not a bracket.
pub open spec fn atomic_char(c: char) -> bool {
    !(whitespace(c) || c == '(' || c == ')')
}

/// The first position at or after `i` that is not white space.
pub open spec fn skip_ws(s: Seq<char>, i: int) -> int
    decreases s.len() - i,
{
    if 0 <= i < s.len() && whitespace(s[i]) {
        skip_ws(s, i + 1)
    } else {
        i
    }
}

/// The end of the run of numeric characters that starts at `i`.
pub open spec fn numeric_end(s: Seq<char>, i: int) -> int
    decreases s.len() - i,
{
    if 0 <= i < s.len() && numeric(s[i]) {
        numeric_end(s, i + 1)
    } else {
        i
    }
}

/// The end of the run of atom characters that starts at `i`.
pub open spec fn atomic_end(s: Seq<char>, i: int) -> int
    decreases s.len() - i,
{
    if 0 <= i < s.len() && atomic_char(s[i]) {
        atomic_end(s, i + 1)
    } else {
        i
    }
}

/// The token for a run of digits: its number, or `Error` when it does not
/// read as an `isize`.
pub open spec fn number_token(cache: Seq<char>) -> TokenView {
    match parse_isize(cache) {
        Some(n) => TokenView::Number(n),
        None => TokenView::Error,
    }
}

/// The token that starts at or after position `i` of `s`, and the position
/// after it; `None` when only white space is left.
///
/// A token that starts with an ASCII digit takes the numeric characters that
/// follow; when an atom character comes next, the whole run of atom
/// characters is one `Error` token. A bracket is a token of its own.
/// Anything else is an atom: a run of atom characters.
pub open spec fn next_token(s: Seq<char>, i: int) -> Option<(TokenView, int)> {
    let j = skip_ws(s, i);
    if j < 0 || j >= s.len() {
        None
    } else if ascii_digit(s[j]) {
        let e = numeric_end(s, j);
        if e < s.len() && atomic_char(s[e]) {
            Some((TokenView::Error, atomic_end(s, e)))
        } else {
            Some((number_token(s.subrange(j, e)), e))
        }
    } else if s[j] == '(' {
        Some((TokenView::LBrace, j + 1))
    } else if s[j] == ')' {
        Some((TokenView::RBrace, j + 1))
    } else {
        Some((TokenView::Atomic(s.subrange(j, atomic_end(s, j))), atomic_end(s, j)))
    }
}

proof fn lemma_skip_ws(s: Seq<char>, i: int)
    requires
        0 <= i,
    ensures
        i <= skip_ws(s, i),
        skip_ws(s, i) < s.len() ==> !whitespace(s[skip_ws(s, i)]),
        i <= s.len() ==> skip_ws(s, i) <= s.len(),
    decreases s.len() - i,
{
    if 0 <= i < s.len() && whitespace(s[i]) {
        lemma_skip_ws(s, i + 1);
    }
}

proof fn lemma_numeric_end(s: Seq<char>, i: int)
    requires
        0 <= i <= s.len(),
    ensures
        i <= numeric_end(s, i) <= s.len(),
    decreases s.len() - i,
{
    if 0 <= i < s.len() && numeric(s[i]) {
        lemma_numeric_end(s, i + 1);
    }
}

proof fn lemma_atomic_end(s: Seq<char>, i: int)
    requires
        0 <= i <= s.len(),
    ensures
        i <= atomic_end(s, i) <= s.len(),
        i < s.len() && atomic_char(s[i]) ==> i < atomic_end(s, i),
    decreases s.len() - i,
{
    if 0 <= i < s.len() && atomic_char(s[i]) {
        lemma_atomic_end(s, i + 1);
    }
}

/// Every token takes at least one character, and ends within the text.
pub proof fn lemma_next_token_advances(s: Seq<char>, i: int)
    requires
        0 <= i <= s.len(),
    ensures
        next_token(s, i) matches Some((t, j)) ==> i < j <= s.len(),
        next_token(s, i) is None ==> skip_ws(s, i) == s.len(),
{
    lemma_skip_ws(s, i);
    let j = skip_ws(s, i);
    if j < s.len() {
        lemma_numeric_end(s, j);
        lemma_atomic_end(s, j);
        let e = numeric_end(s, j);
        if e < s.len() {
            lemma_atomic_end(s, e);
        }
    }
}

/// All the tokens from position `i` to the end of the text.
pub open spec fn tokens_from(s: Seq<char>, i: int) -> Seq<TokenView>
    decreases s.len() - i,
    when 0 <= i <= s.len()
{
    match next_token(s, i) {
        None => Seq::empty(),
        Some((t, j)) => {
            proof {
                lemma_next_token_advances(s, i);
            }
            seq![t] + tokens_from(s, j)
        },
    }
}

/// The end of the run of characters that satisfy `f`, from position `i`.
pub open spec fn run_end(s: Seq<char>, i: int, f: spec_fn(char) -> bool) -> int
    decreases s.len() - i,
{
    if 0 <= i < s.len() && f(s[i]) {
        run_end(s, i + 1, f)
    } else {
        i
    }
}

spec fn ws_pred() -> spec_fn(char) -> bool {
    |c: char| whitespace(c)
}

spec fn num_pred() -> spec_fn(char) -> bool {
    |c: char| numeric(c)
}

spec fn atom_pred() -> spec_fn(char) -> bool {
    |c: char| atomic_char(c)
}

proof fn lemma_runs_agree(s: Seq<char>, i: int)
    ensures
        skip_ws(s, i) == run_end(s, i, ws_pred()),
        numeric_end(s, i) == run_end(s, i, num_pred()),
        atomic_end(s, i) == run_end(s, i, atom_pred()),
    decreases s.len() - i,
{
    if 0 <= i < s.len() {
        lemma_runs_agree(s, i + 1);
    }
}

proof fn lemma_run_end_bounds(s: Seq<char>, i: int, f: spec_fn(char) -> bool)
    requires
        0 <= i <= s.len(),
    ensures
        i <= run_end(s, i, f) <= s.len(),
        forall|k: int| i <= k < run_end(s, i, f) ==> f(#[trigger] s[k]),
        run_end(s, i, f) < s.len() ==> !f(s[run_end(s, i, f)]),
    decreases s.len() - i,
{
    if i < s.len() && f(s[i]) {
        lemma_run_end_bounds(s, i + 1, f);
    }
}

proof fn lemma_run_end_shift(p: Seq<char>, r: Seq<char>, k: int, f: spec_fn(char) -> bool)
    requires
        0 <= k <= r.len(),
    ensures
        run_end(p + r, p.len() + k, f) == p.len() + run_end(r, k, f),
    decreases r.len() - k,
{
    if k < r.len() {
        assert((p + r)[p.len() + k] == r[k]);
        lemma_run_end_shift(p, r, k + 1, f);
    }
}

proof fn lemma_run_end_prefix(p: Seq<char>, r: Seq<char>, k: int, f: spec_fn(char) -> bool)
    requires
        0 <= k <= p.len(),
    ensures
        run_end(p, k, f) < p.len() ==> run_end(p + r, k, f) == run_end(p, k, f),
        run_end(p, k, f) == p.len() ==> run_end(p + r, k, f) == run_end(p + r, p.len() as int, f),
    decreases p.len() - k,
{
    if k < p.len() {
        assert((p + r)[k] == p[k]);
        lemma_run_end_prefix(p, r, k + 1, f);
    }
}

/// Whether white space must stand between `p` and `q` for a token of one
/// not to run into the other: it need not when either is empty or a
/// character at the seam cannot be part of an atom.
pub open spec fn separated(p: Seq<char>, q: Seq<char>) -> bool {
    p.len() == 0 || q.len() == 0 || !atomic_char(p.last()) || !atomic_char(q[0])
}

proof fn lemma_numeric_is_atomic()
    ensures
        forall|c: char| #[trigger] num_pred()(c) ==> atomic_char(c),
        forall|c: char| #[trigger] atom_pred()(c) ==> atomic_char(c),
        forall|c: char| ascii_digit(c) ==> #[trigger] numeric(c),
{
    assert forall|c: char| #[trigger] num_pred()(c) implies atomic_char(c) by {
        assert(('(' as u32) == 40 && (')' as u32) == 41);
    }
}

proof fn lemma_run_end_stops(p: Seq<char>, r: Seq<char>, x: int, f: spec_fn(char) -> bool)
    requires
        separated(p, r),
        0 <= x < p.len(),
        f(p[x]),
        forall|c: char| #[trigger] f(c) ==> atomic_char(c),
    ensures
        run_end(p + r, x, f) == run_end(p, x, f),
{
    lemma_run_end_prefix(p, r, x, f);
    lemma_run_end_bounds(p, x, f);
    let n = p.len() as int;
    if run_end(p, x, f) == n {
        assert(f(p[n - 1]));
        assert(p.last() == p[n - 1]);
        if r.len() > 0 {
            assert((p + r)[n] == r[0]);
        }
    }
}

/// A token found in `r` at `k`, moved `n` positions on.
pub open spec fn shift_token(t: Option<(TokenView, int)>, n: int) -> Option<(TokenView, int)> {
    match t {
        Some((tk, j)) => Some((tk, j + n)),
        None => None,
    }
}

proof fn lemma_next_token_shift(p: Seq<char>, r: Seq<char>, k: int)
    requires
        0 <= k <= r.len(),
    ensures
        next_token(p + r, p.len() + k) == shift_token(next_token(r, k), p.len() as int),
{
    let s = p + r;
    let n = p.len() as int;
    lemma_runs_agree(s, n + k);
    lemma_runs_agree(r, k);
    lemma_run_end_shift(p, r, k, ws_pred());
    lemma_run_end_bounds(r, k, ws_pred());
    let j = skip_ws(r, k);
    if j < r.len() {
        assert(s[n + j] == r[j]);
        lemma_runs_agree(s, n + j);
        lemma_runs_agree(r, j);
        lemma_run_end_shift(p, r, j, num_pred());
        lemma_run_end_shift(p, r, j, atom_pred());
        lemma_run_end_bounds(r, j, num_pred());
        lemma_run_end_bounds(r, j, atom_pred());
        let e = numeric_end(r, j);
        assert(s.subrange(n + j, n + e) =~= r.subrange(j, e));
        if e < r.len() {
            assert(s[n + e] == r[e]);
            lemma_runs_agree(s, n + e);
            lemma_runs_agree(r, e);
            lemma_run_end_shift(p, r, e, atom_pred());
        }
        let a = atomic_end(r, j);
        assert(s.subrange(n + j, n + a) =~= r.subrange(j, a));
    }
}

proof fn lemma_tokens_shift(p: Seq<char>, r: Seq<char>, k: int)
    requires
        0 <= k <= r.len(),
    ensures
        tokens_from(p + r, p.len() + k) == tokens_from(r, k),
    decreases r.len() - k,
{
    lemma_next_token_shift(p, r, k);
    lemma_next_token_advances(r, k);
    match next_token(r, k) {
        Some((t, j)) => {
            lemma_tokens_shift(p, r, j);
        },
        None => {},
    }
}

proof fn lemma_next_token_prefix(p: Seq<char>, r: Seq<char>, i: int)
    requires
        separated(p, r),
        0 <= i <= p.len(),
    ensures
        next_token(p, i) is Some ==> next_token(p + r, i) == next_token(p, i),
        next_token(p, i) is None ==> next_token(p + r, i) == next_token(p + r, p.len() as int),
{
    let s = p + r;
    let n = p.len() as int;
    lemma_numeric_is_atomic();
    lemma_runs_agree(s, i);
    lemma_runs_agree(p, i);
    lemma_runs_agree(s, n);
    lemma_run_end_prefix(p, r, i, ws_pred());
    lemma_run_end_bounds(p, i, ws_pred());
    let j = skip_ws(p, i);
    if j < n {
        assert(s[j] == p[j]);
        lemma_runs_agree(s, j);
        lemma_runs_agree(p, j);
        lemma_run_end_bounds(p, j, num_pred());
        lemma_run_end_bounds(p, j, atom_pred());
        if ascii_digit(p[j]) {
            assert(num_pred()(p[j]));
            lemma_run_end_stops(p, r, j, num_pred());
            let e = numeric_end(p, j);
            assert(s.subrange(j, e) =~= p.subrange(j, e));
            if e < n {
                assert(s[e] == p[e]);
                if atomic_char(p[e]) {
                    lemma_runs_agree(s, e);
                    lemma_runs_agree(p, e);
                    assert(atom_pred()(p[e]));
                    lemma_run_end_stops(p, r, e, atom_pred());
                }
            } else {
                assert(num_pred()(p[n - 1]));
                assert(p.last() == p[n - 1]);
                if r.len() > 0 {
                    assert(s[n] == r[0]);
                }
            }
        } else if p[j] != '(' && p[j] != ')' {
            assert(atom_pred()(p[j]));
            lemma_run_end_stops(p, r, j, atom_pred());
            assert(s.subrange(j, atomic_end(p, j)) =~= p.subrange(j, atomic_end(p, j)));
        }
    }
}

proof fn lemma_tokens_concat_from(p: Seq<char>, r: Seq<char>, i: int)
    requires
        separated(p, r),
        0 <= i <= p.len(),
    ensures
        tokens_from(p + r, i) == tokens_from(p, i) + tokens_from(r, 0),
    decreases p.len() - i,
{
    lemma_next_token_prefix(p, r, i);
    lemma_next_token_advances(p, i);
    match next_token(p, i) {
        Some((t, j)) => {
            lemma_tokens_concat_from(p, r, j);
            assert(seq![t] + (tokens_from(p, j) + tokens_from(r, 0)) =~= (seq![t] + tokens_from(p, j))
                + tokens_from(r, 0));
        },
        None => {
            lemma_tokens_shift(p, r, 0);
            assert(tokens_from(p + r, i) == tokens_from(p + r, p.len() as int));
            assert(tokens_from(p, i) + tokens_from(r, 0) =~= tokens_from(r, 0));
        },
    }
}

/// The tokens of a text that is `p` followed by `r`, where no token of one
/// can run into the other, are the tokens of `p` followed by those of `r`.
pub proof fn lemma_tokens_concat(p: Seq<char>, r: Seq<char>)
    requires
        separated(p, r),
    ensures
        tokens_from(p + r, 0) == tokens_from(p, 0) + tokens_from(r, 0),
{
    lemma_tokens_concat_from(p, r, 0);
}

proof fn lemma_token_count(s: Seq<char>, i: int)
    requires
        0 <= i <= s.len(),
    ensures
        tokens_from(s, i).len() <= s.len() - i,
    decreases s.len() - i,
{
    lemma_next_token_advances(s, i);
    match next_token(s, i) {
        Some((t, j)) => {
            lemma_token_count(s, j);
        },
        None => {},
    }
}

/// The reader finds no token exactly when only white space is left; after
/// it has found none it stands where it finds none again; and a text gives
/// no more tokens than it has characters left.
pub proof fn lemma_no_token_iff_white_space(s: Seq<char>, i: int)
    requires
        0 <= i <= s.len(),
    ensures
        next_token(s, i) is None <==> (forall|k: int| i <= k < s.len() ==> #[trigger] whitespace(s[k])),
        next_token(s, i) is None ==> next_token(s, skip_ws(s, i)) is None,
        next_token(s, i) is None <==> tokens_from(s, i).len() == 0,
        tokens_from(s, i).len() <= s.len() - i,
{
    lemma_runs_agree(s, i);
    lemma_run_end_bounds(s, i, ws_pred());
    lemma_next_token_advances(s, i);
    lemma_token_count(s, i);
    let j = skip_ws(s, i);
    if j < s.len() {
        assert(!whitespace(s[j]));
    } else {
        assert forall|k: int| i <= k < s.len() implies #[trigger] whitespace(s[k]) by {
            assert(ws_pred()(s[k]));
        }
        lemma_runs_agree(s, j);
    }
}

/// Editing white space does not change the tokens: a text `p w1 q` and the
/// text `p w2 q` give the same tokens when `w1` and `w2` are white space,
/// each of them non-empty unless `p` and `q` are separated without it (one
/// is empty, or a bracket or white space stands at the seam).
pub proof fn lemma_white_space_edit(p: Seq<char>, w1: Seq<char>, w2: Seq<char>, q: Seq<char>)
    requires
        forall|k: int| 0 <= k < w1.len() ==> #[trigger] whitespace(w1[k]),
        forall|k: int| 0 <= k < w2.len() ==> #[trigger] whitespace(w2[k]),
        w1.len() > 0 || separated(p, q),
        w2.len() > 0 || separated(p, q),
    ensures
        tokens_from(p + w1 + q, 0) == tokens_from(p + w2 + q, 0),
{
    lemma_white_space_gap(p, w1, q);
    lemma_white_space_gap(p, w2, q);
}

proof fn lemma_white_space_gap(p: Seq<char>, w: Seq<char>, q: Seq<char>)
    requires
        forall|k: int| 0 <= k < w.len() ==> #[trigger] whitespace(w[k]),
        w.len() > 0 || separated(p, q),
    ensures
        tokens_from(p + w + q, 0) == tokens_from(p, 0) + tokens_from(q, 0),
{
    if w.len() == 0 {
        assert(p + w + q =~= p + q);
        lemma_tokens_concat(p, q);
    } else {
        assert(whitespace(w[0]) && whitespace(w[w.len() - 1]));
        assert((w + q)[0] == w[0]);
        assert(w.last() == w[w.len() - 1]);
        lemma_tokens_concat(w, q);
        lemma_no_token_iff_white_space(w, 0);
        lemma_tokens_concat(p, w + q);
        assert(p + w + q =~= p + (w + q));
        assert(tokens_from(w, 0) + tokens_from(q, 0) =~= tokens_from(q, 0));
    }
}

proof fn lemma_digits_value_nonneg(d: Seq<char>)
    requires
        forall|i: int| 0 <= i < d.len() ==> ascii_digit(#[trigger] d[i]),
    ensures
        digits_value(d) >= 0,
    decreases d.len(),
{
    if d.len() > 0 {
        assert(ascii_digit(d[d.len() - 1]));
        assert forall|i: int| 0 <= i < d.drop_last().len() implies ascii_digit(#[trigger] d.drop_last()[i]) by {
            assert(d.drop_last()[i] == d[i]);
        }
        lemma_digits_value_nonneg(d.drop_last());
    }
}

/// A run of ASCII digits, of any length, reads as the number it spells in
/// decimal when that number fits in `isize`, and as `Error` when it does not.
pub proof fn lemma_digit_run_token(d: Seq<char>)
    requires
        d.len() > 0,
        forall|i: int| 0 <= i < d.len() ==> ascii_digit(#[trigger] d[i]),
    ensures
        digits_value(d) <= isize::MAX ==> number_token(d) == TokenView::Number(digits_value(d) as isize),
        digits_value(d) > isize::MAX ==> number_token(d) == TokenView::Error,
{
    lemma_digits_value_nonneg(d);
    assert(ascii_digit(d[0]));
    assert(d[0] != '-' && d[0] != '+');
}

/// A text that is a run of ASCII digits, of any length, gives one token: the
/// number it spells in decimal, when that fits in `isize`.
pub proof fn lemma_digit_text_tokens(d: Seq<char>)
    requires
        d.len() > 0,
        forall|i: int| 0 <= i < d.len() ==> ascii_digit(#[trigger] d[i]),
        digits_value(d) <= isize::MAX,
    ensures
        tokens_from(d, 0) == seq![TokenView::Number(digits_value(d) as isize)],
{
    lemma_digit_run_token(d);
    lemma_numeric_is_atomic();
    lemma_runs_agree(d, 0);
    assert(ascii_digit(d[0]));
    assert(!whitespace(d[0]));
    assert(skip_ws(d, 0) == 0);
    lemma_run_end_bounds(d, 0, num_pred());
    assert(run_end(d, 0, num_pred()) == d.len()) by {
        let e = run_end(d, 0, num_pred());
        if e < d.len() {
            assert(ascii_digit(d[e]));
            assert(num_pred()(d[e]));
        }
    }
    assert(d.subrange(0, d.len() as int) =~= d);
    assert(next_token(d, 0) == Some((TokenView::Number(digits_value(d) as isize), d.len() as int)));
    lemma_next_token_advances(d, d.len() as int);
    assert(tokens_from(d, d.len() as int) =~= Seq::<TokenView>::empty());
}

/// Whether a character can be part of an atom.
pub fn is_atomic_char(ch: char) -> (r: bool)
    ensures
        r == atomic_char(ch),
{
    !(char_is_whitespace(ch) || ch == '(' || ch == ')')
}

/// The token for a run of digits: its number, or `Error`.
pub fn into_number(cache: String) -> (r: Token)
    ensures
        r@ == number_token(cache@),
{
    match parse_isize_str(cache.as_str()) {
        Ok(n) => Token::Number(n),
        Err(_) => Token::Error,
    }
}

/// A reader of tokens over a text.
pub struct Tokenizer {
    chars: Vec<char>,
    pos: usize,
}

impl View for Tokenizer {
    type V = (Seq<char>, int);

    closed spec fn view(&self) -> (Seq<char>, int) {
        (self.chars@, self.pos as int)
    }
}

impl Tokenizer {
    /// Whether the position is within the text.
    pub closed spec fn wf(&self) -> bool {
        self.pos <= self.chars@.len()
    }

    /// A reader at the start of `str`.
    pub fn new(str: &str) -> (r: Tokenizer)
        ensures
            r.wf(),
            r@ == (str@, 0int),
    {
        Tokenizer { chars: str_chars(str), pos: 0 }
    }

    /// Reads the next token (see `next_token`).
    fn next_token(&mut self) -> (r: Option<Token>)
        requires
            old(self).wf(),
        ensures
            final(self).wf(),
            final(self)@.0 == old(self)@.0,
            match next_token(old(self)@.0, old(self)@.1) {
                None => r is None && final(self)@.1 == skip_ws(old(self)@.0, old(self)@.1),
                Some((t, j)) => r is Some && r.unwrap()@ == t && final(self)@.1 == j,
            },
    {
        let ghost s = self.chars@;
        let ghost i0 = self.pos as int;
        let len = self.chars.len();
        while self.pos < len && char_is_whitespace(self.chars[self.pos])
            invariant
                self.chars@ == s,
                len == s.len(),
                self.pos <= len,
                skip_ws(s, i0) == skip_ws(s, self.pos as int),
            decreases len - self.pos,
        {
            self.pos = self.pos + 1;
        }
        if self.pos >= len {
            return None;
        }
        let j = self.pos;
        assert(skip_ws(s, i0) == j);
        let c = self.chars[j];
        let code = c as u32;
        if 48 <= code && code <= 57 {
            let mut cache = String::new();
            while self.pos < len && char_is_numeric(self.chars[self.pos])
                invariant
                    self.chars@ == s,
                    len == s.len(),
                    j <= self.pos <= len,
                    numeric_end(s, j as int) == numeric_end(s, self.pos as int),
                    cache@ == s.subrange(j as int, self.pos as int),
                decreases len - self.pos,
            {
                push_char(&mut cache, self.chars[self.pos]);
                self.pos = self.pos + 1;
                assert(cache@ =~= s.subrange(j as int, self.pos as int));
            }
            if self.pos < len && is_atomic_char(self.chars[self.pos]) {
                while self.pos < len && is_atomic_char(self.chars[self.pos])
                    invariant
                        self.chars@ == s,
                        len == s.len(),
                        self.pos <= len,
                        atomic_end(s, numeric_end(s, j as int)) == atomic_end(s, self.pos as int),
                    decreases len - self.pos,
                {
                    push_char(&mut cache, self.chars[self.pos]);
                    self.pos = self.pos + 1;
                }
                Some(Token::Error)
            } else {
                Some(into_number(cache))
            }
        } else if c == '(' {
            self.pos = self.pos + 1;
            Some(Token::LBrace)
        } else if c == ')' {
            self.pos = self.pos + 1;
            Some(Token::RBrace)
        } else {
            let mut cache = String::new();
            while self.pos < len && is_atomic_char(self.chars[self.pos])
                invariant
                    self.chars@ == s,
                    len == s.len(),
                    j <= self.pos <= len,
                    atomic_end(s, j as int) == atomic_end(s, self.pos as int),
                    cache@ == s.subrange(j as int, self.pos as int),
                decreases len - self.pos,
            {
                push_char(&mut cache, self.chars[self.pos]);
                self.pos = self.pos + 1;
                assert(cache@ =~= s.subrange(j as int, self.pos as int));
            }
            Some(Token::Atomic(cache))
        }
    }

    /// Reads every token that is left.
    pub fn collect_tokens(&mut self) -> (v: Vec<Token>)
        requires
            old(self).wf(),
        ensures
            v@.map_values(|t: Token| t@) == tokens_from(old(self)@.0, old(self)@.1),
    {
        let ghost s = self.chars@;
        let ghost i0 = self.pos as int;
        let mut v: Vec<Token> = Vec::new();
        assert(v@.map_values(|t: Token| t@) + tokens_from(s, i0) =~= tokens_from(s, i0));
        loop
            invariant
                self.wf(),
                self@.0 == s,
                0 <= self@.1 <= s.len(),
                0 <= i0 <= s.len(),
                s == old(self)@.0,
                i0 == old(self)@.1,
                v@.map_values(|t: Token| t@) + tokens_from(s, self@.1) == tokens_from(s, i0),
            decreases s.len() - self@.1,
        {
            let ghost p = self@.1;
            proof {
                lemma_next_token_advances(s, p);
            }
            match self.next_token() {
                Some(t) => {
                    let ghost tv = t@;
                    let ghost v0 = v@;
                    v.push(t);
                    proof {
                        let j = self@.1;
                        assert(tokens_from(s, p) == seq![tv] + tokens_from(s, j));
                        assert(v@.map_values(|t: Token| t@) =~= v0.map_values(|t: Token| t@).push(tv));
                        assert(v0.map_values(|t: Token| t@).push(tv) + tokens_from(s, j) =~= v0.map_values(
                            |t: Token| t@,
                        ) + (seq![tv] + tokens_from(s, j)));
                    }
                },
                None => {
                    assert(tokens_from(s, p) =~= Seq::<TokenView>::empty());
                    assert(v@.map_values(|t: Token| t@) + Seq::<TokenView>::empty() =~= v@.map_values(|t: Token| t@));
                    return v;
                },
            }
        }
    }

    /// Reads the next token, as the tokenizer's iterator does.
    pub fn next(&mut self) -> (r: Option<Token>)
        requires
            old(self).wf(),
        ensures
            final(self).wf(),
            final(self)@.0 == old(self)@.0,
            match next_token(old(self)@.0, old(self)@.1) {
                None => r is None && final(self)@.1 == skip_ws(old(self)@.0, old(self)@.1),
                Some((t, j)) => r is Some && r.unwrap()@ == t && final(self)@.1 == j,
            },
    {
        self.next_token()
    }
}

} // verus!
