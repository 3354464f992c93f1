//! The lexical grammar as mathematics: what each rule reads at a position of a
//! character sequence, and what lexing a whole text yields.
//!
//! Positions are character indices. A rule's outcome is either the lexeme and
//! the index just past it, or the index of the character where it fails.
use vstd::prelude::*;

use crate::input::{lemma_run_end_bounds, run_end, CharClass};
use crate::lexeme::{Decimal, LexemeView, TokenView};
use crate::text::{
    byte_len, byte_offset, digit_value, is_digit, is_white_space, lemma_byte_offset_step,
    lemma_byte_offset_strict, uppercase,
};
use vstd::utf8::encode_utf8;

verus! {

/// What a rule makes of the text at a position.
pub type Outcome = Result<(LexemeView, int), int>;

/// `/*` starts at `i`.
pub open spec fn comment_open(s: Seq<char>, i: int) -> bool {
    0 <= i && i + 1 < s.len() && s[i] == '/' && s[i + 1] == '*'
}

/// `*/` starts at `i`.
pub open spec fn comment_close(s: Seq<char>, i: int) -> bool {
    0 <= i && i + 1 < s.len() && s[i] == '*' && s[i + 1] == '/'
}

/// Junk begins at `i`: white space, or a comment opening.
pub open spec fn junk_start(s: Seq<char>, i: int) -> bool {
    0 <= i < s.len() && (is_white_space(s[i]) || comment_open(s, i))
}

/// Where a run of junk that is `depth` comments deep at `i` ends; fails with
/// the end of the text when a comment is left open there.
pub open spec fn junk_end(s: Seq<char>, i: int, depth: nat) -> Result<int, int>
    decreases s.len() - i,
{
    if 0 <= i < s.len() {
        if depth == 0 {
            if is_white_space(s[i]) {
                junk_end(s, i + 1, 0)
            } else if comment_open(s, i) {
                junk_end(s, i + 2, 1)
            } else {
                Ok(i)
            }
        } else if comment_close(s, i) {
            junk_end(s, i + 2, (depth - 1) as nat)
        } else if comment_open(s, i) {
            junk_end(s, i + 2, depth + 1)
        } else {
            junk_end(s, i + 1, depth)
        }
    } else if depth == 0 {
        Ok(i)
    } else {
        Err(s.len() as int)
    }
}

pub open spec fn junk_at(s: Seq<char>, i: int) -> Outcome {
    match junk_end(s, i, 0) {
        Ok(j) => Ok((LexemeView::Junk, j)),
        Err(p) => Err(p),
    }
}

/// A symbol: a symbol-start character, then symbol-part characters; upper
/// case when its first character is.
pub open spec fn symbol_at(s: Seq<char>, i: int) -> Outcome {
    if 0 <= i < s.len() && CharClass::SymbolStart.holds(s[i]) {
        let j = run_end(CharClass::SymbolPart, s, i + 1);
        let t = s.subrange(i, j);
        if uppercase(s[i]) {
            Ok((LexemeView::UpperCaseSymbol(t), j))
        } else {
            Ok((LexemeView::LowerCaseSymbol(t), j))
        }
    } else {
        Err(i)
    }
}

/// The text of a symbol lexeme.
pub open spec fn symbol_text(l: LexemeView) -> Option<Seq<char>> {
    match l {
        LexemeView::LowerCaseSymbol(t) => Some(t),
        LexemeView::UpperCaseSymbol(t) => Some(t),
        _ => None,
    }
}

/// The Bool rule applies at `i`: the text there starts with `t` or `f` and
/// reads as a literal, so that any other symbol is left to the later rules.
pub open spec fn bool_start(s: Seq<char>, i: int) -> bool {
    0 <= i < s.len() && (s[i] == 't' || s[i] == 'f') && bool_at(s, i) is Ok
}

/// `true` or `false` as a whole lower-case symbol.
pub open spec fn bool_at(s: Seq<char>, i: int) -> Outcome {
    match symbol_at(s, i) {
        Ok((LexemeView::LowerCaseSymbol(t), j)) => {
            if t == seq!['t', 'r', 'u', 'e'] {
                Ok((LexemeView::Bool(true), j))
            } else if t == seq!['f', 'a', 'l', 's', 'e'] {
                Ok((LexemeView::Bool(false), j))
            } else {
                Err(i)
            }
        },
        _ => Err(i),
    }
}

/// The keyword `w` as a whole symbol, read as `lexeme`.
pub open spec fn keyword_at(w: Seq<char>, lexeme: LexemeView, s: Seq<char>, i: int) -> Outcome {
    match symbol_at(s, i) {
        Ok((l, j)) => if symbol_text(l) == Some(w) {
            Ok((lexeme, j))
        } else {
            Err(i)
        },
        Err(_) => Err(i),
    }
}

/// How many leading characters of `p`, from the `k`-th on, the text repeats
/// from index `i + k`.
pub open spec fn match_len(p: Seq<char>, s: Seq<char>, i: int, k: int) -> int
    decreases p.len() - k,
{
    if 0 <= k < p.len() && 0 <= i + k < s.len() && s[i + k] == p[k] {
        match_len(p, s, i, k + 1)
    } else {
        k
    }
}

/// The fixed character sequence `p`, read as `lexeme`; fails where the text
/// first differs from `p` (or ends).
pub open spec fn punctuation_at(p: Seq<char>, lexeme: LexemeView, s: Seq<char>, i: int) -> Outcome {
    let m = match_len(p, s, i, 0);
    if m == p.len() {
        Ok((lexeme, i + m))
    } else {
        Err(i + m)
    }
}

pub open spec fn number_start(s: Seq<char>, i: int) -> bool {
    0 <= i < s.len() && (is_digit(s[i]) || s[i] == '-')
}

/// Value of a sequence of decimal digits.
pub open spec fn digits_value(d: Seq<char>) -> int
    decreases d.len(),
{
    if d.len() == 0 {
        0
    } else {
        digits_value(d.drop_last()) * 10 + digit_value(d.last())
    }
}

pub open spec fn signed(negative: bool, v: int) -> int {
    if negative {
        -v
    } else {
        v
    }
}

pub open spec fn fits_i64(v: int) -> bool {
    i64::MIN <= v <= i64::MAX
}

/// A number: an optional `-`, digits, and optionally a `.` followed by
/// digits. A `.` that no digit follows ends the number before it; a second
/// `.` right after the fraction is an error there; a value out of `i64` range
/// is an error at the number's start.
pub open spec fn number_at(s: Seq<char>, i: int) -> Outcome {
    let negative = 0 <= i < s.len() && s[i] == '-';
    let a = if negative {
        i + 1
    } else {
        i
    };
    let b = run_end(CharClass::Digit, s, a);
    if b == a {
        Err(a)
    } else if b + 1 < s.len() && s[b] == '.' && is_digit(s[b + 1]) {
        let c = run_end(CharClass::Digit, s, b + 1);
        let m = signed(negative, digits_value(s.subrange(a, b) + s.subrange(b + 1, c)));
        if c < s.len() && s[c] == '.' {
            Err(c)
        } else if fits_i64(m) {
            Ok((LexemeView::Decimal(Decimal { mantissa: m as i64, scale: (c - b - 1) as usize }), c))
        } else {
            Err(i)
        }
    } else {
        let v = signed(negative, digits_value(s.subrange(a, b)));
        if fits_i64(v) {
            Ok((LexemeView::Integer(v as i64), b))
        } else {
            Err(i)
        }
    }
}

/// The character that the escape `\c` stands for.
pub open spec fn escape_of(c: char) -> Option<char> {
    if c == 't' {
        Some('\t')
    } else if c == 'n' {
        Some('\n')
    } else if c == 'r' {
        Some('\r')
    } else if c == '\\' {
        Some('\\')
    } else if c == '"' {
        Some('"')
    } else {
        None
    }
}

/// Puts `p` in front of the text of a successful outcome.
pub open spec fn prepend(p: Seq<char>, r: Result<(Seq<char>, int), int>) -> Result<(Seq<char>, int), int> {
    match r {
        Ok((t, k)) => Ok((p + t, k)),
        Err(e) => Err(e),
    }
}

/// The decoded rest of a string literal from `j` on, and the index past its
/// closing quote; fails at the end of the text when unterminated, or at a
/// character that no escape allows.
pub open spec fn string_body(s: Seq<char>, j: int) -> Result<(Seq<char>, int), int>
    decreases s.len() - j,
{
    if 0 <= j < s.len() {
        if s[j] == '"' {
            Ok((Seq::empty(), j + 1))
        } else if s[j] == '\\' {
            if j + 1 < s.len() {
                match escape_of(s[j + 1]) {
                    Some(e) => prepend(seq![e], string_body(s, j + 2)),
                    None => Err(j + 1),
                }
            } else {
                Err(s.len() as int)
            }
        } else {
            prepend(seq![s[j]], string_body(s, j + 1))
        }
    } else {
        Err(s.len() as int)
    }
}

pub open spec fn string_at(s: Seq<char>, i: int) -> Outcome {
    if 0 <= i < s.len() && s[i] == '"' {
        match string_body(s, i + 1) {
            Ok((t, k)) => Ok((LexemeView::String(t), k)),
            Err(e) => Err(e),
        }
    } else {
        Err(i)
    }
}

/// The kinds of rule, as mathematics.
pub enum RuleView {
    Junk,
    Bool,
    Number,
    Str,
    Punctuation(Seq<char>, LexemeView),
    Keyword(Seq<char>, LexemeView),
    Symbol,
}

impl RuleView {
    /// The rule applies at `i`.
    pub open spec fn usable_at(self, s: Seq<char>, i: int) -> bool {
        match self {
            RuleView::Junk => junk_start(s, i),
            RuleView::Bool => bool_start(s, i),
            RuleView::Number => number_start(s, i),
            RuleView::Str => 0 <= i < s.len() && s[i] == '"',
            RuleView::Punctuation(p, l) => punctuation_at(p, l, s, i) is Ok,
            RuleView::Keyword(w, l) => keyword_at(w, l, s, i) is Ok,
            RuleView::Symbol => 0 <= i < s.len() && CharClass::SymbolStart.holds(s[i]),
        }
    }

    /// What the rule reads at `i`.
    pub open spec fn lex_at(self, s: Seq<char>, i: int) -> Outcome {
        match self {
            RuleView::Junk => junk_at(s, i),
            RuleView::Bool => bool_at(s, i),
            RuleView::Number => number_at(s, i),
            RuleView::Str => string_at(s, i),
            RuleView::Punctuation(p, l) => punctuation_at(p, l, s, i),
            RuleView::Keyword(w, l) => keyword_at(w, l, s, i),
            RuleView::Symbol => symbol_at(s, i),
        }
    }
}

/// The punctuation rules, a longer sequence before any that is a prefix of it.
pub open spec fn punctuation_rules() -> Seq<RuleView> {
    seq![
        RuleView::Punctuation(seq!['=', '>'], LexemeView::RightDoubleArrow),
        RuleView::Punctuation(seq!['='], LexemeView::Equal),
        RuleView::Punctuation(seq!['('], LexemeView::LParen),
        RuleView::Punctuation(seq![')'], LexemeView::RParen),
        RuleView::Punctuation(seq!['<'], LexemeView::LAngle),
        RuleView::Punctuation(seq!['>'], LexemeView::RAngle),
        RuleView::Punctuation(seq!['{'], LexemeView::LCurl),
        RuleView::Punctuation(seq!['}'], LexemeView::RCurl),
        RuleView::Punctuation(seq!['|'], LexemeView::OrBar),
        RuleView::Punctuation(seq![';'], LexemeView::SemiColon),
        RuleView::Punctuation(seq![','], LexemeView::Comma),
    ]
}

/// The keyword rules.
pub open spec fn keyword_rules() -> Seq<RuleView> {
    seq![
        RuleView::Keyword(seq!['f', 'u', 'n'], LexemeView::Fun),
        RuleView::Keyword(seq!['l', 'e', 't'], LexemeView::Let),
        RuleView::Keyword(seq!['d', 'a', 't', 'a'], LexemeView::Data),
        RuleView::Keyword(seq!['s', 'p', 'e', 'c'], LexemeView::Spec),
    ]
}

/// The rules of the language, in the order they are tried: junk, literals,
/// punctuation, keywords, and symbols last.
pub open spec fn rule_set() -> Seq<RuleView> {
    seq![RuleView::Junk, RuleView::Bool, RuleView::Number, RuleView::Str] + punctuation_rules()
        + keyword_rules() + seq![RuleView::Symbol]
}

/// Index of the first of `rules`, from the `k`-th on, that applies at `i`.
pub open spec fn first_usable(rules: Seq<RuleView>, s: Seq<char>, i: int, k: int) -> Option<int>
    decreases rules.len() - k,
{
    if 0 <= k < rules.len() {
        if rules[k].usable_at(s, i) {
            Some(k)
        } else {
            first_usable(rules, s, i, k + 1)
        }
    } else {
        None
    }
}

/// What the first applicable rule reads at `i`; failure at `i` when none
/// applies.
pub open spec fn next_at(rules: Seq<RuleView>, s: Seq<char>, i: int) -> Outcome {
    match first_usable(rules, s, i, 0) {
        Some(k) => rules[k].lex_at(s, i),
        None => Err(i),
    }
}

/// Tokens of the text from index `i` on, with their byte spans; or the index
/// where lexing fails.
pub open spec fn lex_from(s: Seq<char>, i: int) -> Result<Seq<TokenView>, int>
    decreases s.len() - i,
    via lex_from_decreases
{
    if 0 <= i < s.len() {
        match next_at(rule_set(), s, i) {
            Ok((l, j)) => match lex_from(s, j) {
                Ok(ts) => Ok(
                    seq![TokenView { lexeme: l, start: byte_offset(s, i) as int, end: byte_offset(s, j) as int }]
                        + ts,
                ),
                Err(p) => Err(p),
            },
            Err(p) => Err(p),
        }
    } else {
        Ok(Seq::empty())
    }
}

#[via_fn]
proof fn lex_from_decreases(s: Seq<char>, i: int) {
    if 0 <= i < s.len() {
        lemma_next_at_progress(s, i);
    }
}

/// Tokens of a whole text, or the index where lexing fails.
pub open spec fn lex_text(s: Seq<char>) -> Result<Seq<TokenView>, int> {
    lex_from(s, 0)
}

pub proof fn lemma_junk_end_bounds(s: Seq<char>, i: int, depth: nat)
    requires
        0 <= i <= s.len(),
    ensures
        junk_end(s, i, depth) matches Ok(j) ==> i <= j <= s.len(),
        junk_end(s, i, depth) matches Err(p) ==> p == s.len(),
        depth == 0 && junk_start(s, i) ==> (junk_end(s, i, depth) matches Ok(j) ==> i < j),
    decreases s.len() - i,
{
    if 0 <= i < s.len() {
        if depth == 0 {
            if is_white_space(s[i]) {
                lemma_junk_end_bounds(s, i + 1, 0);
            } else if comment_open(s, i) {
                lemma_junk_end_bounds(s, i + 2, 1);
            }
        } else if comment_close(s, i) {
            lemma_junk_end_bounds(s, i + 2, (depth - 1) as nat);
        } else if comment_open(s, i) {
            lemma_junk_end_bounds(s, i + 2, depth + 1);
        } else {
            lemma_junk_end_bounds(s, i + 1, depth);
        }
    }
}

pub proof fn lemma_string_body_bounds(s: Seq<char>, j: int)
    requires
        0 <= j <= s.len(),
    ensures
        string_body(s, j) matches Ok((t, k)) ==> j < k <= s.len(),
        string_body(s, j) matches Err(p) ==> j <= p <= s.len(),
    decreases s.len() - j,
{
    if 0 <= j < s.len() {
        if s[j] == '"' {
        } else if s[j] == '\\' {
            if j + 1 < s.len() {
                lemma_string_body_bounds(s, j + 2);
            }
        } else {
            lemma_string_body_bounds(s, j + 1);
        }
    }
}

pub proof fn lemma_match_len_bounds(p: Seq<char>, s: Seq<char>, i: int, k: int)
    requires
        0 <= i,
        0 <= k <= p.len(),
        i + k <= s.len(),
    ensures
        k <= match_len(p, s, i, k) <= p.len(),
        i + match_len(p, s, i, k) <= s.len(),
    decreases p.len() - k,
{
    if 0 <= k < p.len() && 0 <= i + k < s.len() && s[i + k] == p[k] {
        lemma_match_len_bounds(p, s, i, k + 1);
    }
}

/// Where a rule succeeds it ends within the text and not before it starts,
/// and where it fails it fails within the text and not before its start.
pub proof fn lemma_lex_at_bounds(r: RuleView, s: Seq<char>, i: int)
    requires
        0 <= i <= s.len(),
    ensures
        r.lex_at(s, i) matches Ok((l, j)) ==> i <= j <= s.len(),
        r.lex_at(s, i) matches Err(p) ==> i <= p <= s.len(),
{
    if i < s.len() {
        lemma_run_end_bounds(CharClass::SymbolPart, s, i + 1);
        lemma_string_body_bounds(s, i + 1);
    }
    lemma_junk_end_bounds(s, i, 0);
    match r {
        RuleView::Number => {
            let negative = 0 <= i < s.len() && s[i] == '-';
            let a = if negative {
                i + 1
            } else {
                i
            };
            lemma_run_end_bounds(CharClass::Digit, s, a);
            let b = run_end(CharClass::Digit, s, a);
            if b + 1 < s.len() {
                lemma_run_end_bounds(CharClass::Digit, s, b + 1);
            }
        },
        RuleView::Punctuation(p, l) => {
            lemma_match_len_bounds(p, s, i, 0);
        },
        _ => {},
    }
}

/// A rule of the language that applies at `i` and succeeds moves past `i`.
pub proof fn lemma_usable_progress(r: RuleView, s: Seq<char>, i: int)
    requires
        0 <= i < s.len(),
        r.usable_at(s, i),
        r is Punctuation ==> r->Punctuation_0.len() > 0,
    ensures
        r.lex_at(s, i) matches Ok((l, j)) ==> i < j <= s.len(),
{
    lemma_lex_at_bounds(r, s, i);
    lemma_junk_end_bounds(s, i, 0);
    lemma_run_end_bounds(CharClass::SymbolPart, s, i + 1);
    match r {
        RuleView::Number => {
            let negative = s[i] == '-';
            let a = if negative {
                i + 1
            } else {
                i
            };
            lemma_run_end_bounds(CharClass::Digit, s, a);
            let b = run_end(CharClass::Digit, s, a);
            if b + 1 < s.len() {
                lemma_run_end_bounds(CharClass::Digit, s, b + 1);
            }
        },
        RuleView::Str => {
            lemma_string_body_bounds(s, i + 1);
        },
        _ => {},
    }
}

pub proof fn lemma_first_usable(rules: Seq<RuleView>, s: Seq<char>, i: int, k: int)
    requires
        0 <= k,
    ensures
        first_usable(rules, s, i, k) matches Some(m) ==> k <= m < rules.len() && rules[m].usable_at(
            s,
            i,
        ),
    decreases rules.len() - k,
{
    if 0 <= k < rules.len() && !rules[k].usable_at(s, i) {
        lemma_first_usable(rules, s, i, k + 1);
    }
}

/// Each step of lexing with the rules of the language moves forward.
pub proof fn lemma_next_at_progress(s: Seq<char>, i: int)
    requires
        0 <= i < s.len(),
    ensures
        next_at(rule_set(), s, i) matches Ok((l, j)) ==> i < j <= s.len(),
        next_at(rule_set(), s, i) matches Err(p) ==> i <= p <= s.len(),
{
    let rules = rule_set();
    lemma_first_usable(rules, s, i, 0);
    match first_usable(rules, s, i, 0) {
        Some(k) => {
            assert(rules[k] is Punctuation ==> rules[k]->Punctuation_0.len() > 0);
            lemma_usable_progress(rules[k], s, i);
            lemma_lex_at_bounds(rules[k], s, i);
        },
        None => {},
    }
}

/// The digit character for `d`, below ten.
pub open spec fn digit_char(d: int) -> char {
    seq!['0', '1', '2', '3', '4', '5', '6', '7', '8', '9'][d]
}

/// The decimal numeral of `n`, with no leading zero (but `0` itself).
pub open spec fn numeral(n: nat) -> Seq<char>
    decreases n,
{
    if n < 10 {
        seq![digit_char(n as int)]
    } else {
        numeral(n / 10).push(digit_char((n % 10) as int))
    }
}

proof fn lemma_digit_char(d: int)
    requires
        0 <= d < 10,
    ensures
        is_digit(digit_char(d)),
        digit_value(digit_char(d)) == d,
{
}

proof fn lemma_numeral(n: nat)
    ensures
        numeral(n).len() >= 1,
        forall|k: int| 0 <= k < numeral(n).len() ==> is_digit(#[trigger] numeral(n)[k]),
        digits_value(numeral(n)) == n,
    decreases n,
{
    if n < 10 {
        lemma_digit_char(n as int);
        let t = numeral(n);
        assert(t.drop_last() =~= Seq::<char>::empty());
        assert(digits_value(t.drop_last()) == 0);
        assert(digits_value(t) == digits_value(t.drop_last()) * 10 + digit_value(t.last()));
    } else {
        lemma_numeral(n / 10);
        lemma_digit_char((n % 10) as int);
        let t = numeral(n);
        assert(t.drop_last() =~= numeral(n / 10));
        assert(n == (n / 10) * 10 + n % 10) by (nonlinear_arith);
        assert(digits_value(t) == digits_value(t.drop_last()) * 10 + digit_value(t.last()));
        assert forall|k: int| 0 <= k < t.len() implies is_digit(#[trigger] t[k]) by {
            if k < t.len() - 1 {
                assert(t[k] == numeral(n / 10)[k]);
            }
        }
    }
}

proof fn lemma_digits_run_end(s: Seq<char>, k: int)
    requires
        0 <= k <= s.len(),
        forall|m: int| 0 <= m < s.len() ==> is_digit(#[trigger] s[m]),
    ensures
        run_end(CharClass::Digit, s, k) == s.len(),
    decreases s.len() - k,
{
    if k < s.len() {
        lemma_digits_run_end(s, k + 1);
    }
}

proof fn lemma_digits_byte_offset(s: Seq<char>, k: int)
    requires
        0 <= k <= s.len(),
        forall|m: int| 0 <= m < s.len() ==> is_digit(#[trigger] s[m]),
    ensures
        byte_offset(s, k) == k,
    decreases k,
{
    if k > 0 {
        lemma_digits_byte_offset(s, k - 1);
        lemma_byte_offset_step(s, k - 1);
    } else {
        assert(s.subrange(0, 0) =~= Seq::<char>::empty());
        assert(encode_utf8(Seq::<char>::empty()) =~= Seq::<u8>::empty());
    }
}

/// Lexing the decimal numeral of a natural number that fits in `i64` yields
/// exactly one token: that number as an `Integer`, spanning the whole text.
pub proof fn lemma_lex_numeral(n: nat)
    requires
        n <= i64::MAX,
    ensures
        lex_text(numeral(n)) == Ok::<Seq<TokenView>, int>(
            seq![TokenView { lexeme: LexemeView::Integer(n as i64), start: 0, end: numeral(n).len() as int }],
        ),
{
    let s = numeral(n);
    lemma_numeral(n);
    lemma_digits_run_end(s, 0);
    lemma_digits_byte_offset(s, 0);
    lemma_digits_byte_offset(s, s.len() as int);
    assert(s.subrange(0, s.len() as int) =~= s);
    let rules = rule_set();
    assert(rules[0] == RuleView::Junk);
    assert(rules[1] == RuleView::Bool);
    assert(rules[2] == RuleView::Number);
    assert(!rules[0].usable_at(s, 0));
    assert(!rules[1].usable_at(s, 0));
    assert(rules[2].usable_at(s, 0));
    assert(first_usable(rules, s, 0, 2) == Some(2int));
    assert(first_usable(rules, s, 0, 1) == Some(2int));
    assert(first_usable(rules, s, 0, 0) == Some(2int));
    assert(number_at(s, 0) == Ok::<(LexemeView, int), int>((LexemeView::Integer(n as i64), s.len() as int)));
    assert(lex_from(s, s.len() as int) == Ok::<Seq<TokenView>, int>(Seq::empty()));
    let tv = TokenView { lexeme: LexemeView::Integer(n as i64), start: 0, end: s.len() as int };
    assert(seq![tv] + Seq::<TokenView>::empty() =~= seq![tv]);
}

/// Wherever `=>` stands, the next token is a `RightDoubleArrow` covering
/// both characters, not an `Equal` followed by something else.
pub proof fn lemma_double_arrow_first(s: Seq<char>, i: int)
    requires
        0 <= i,
        i + 1 < s.len(),
        s[i] == '=',
        s[i + 1] == '>',
    ensures
        next_at(rule_set(), s, i) == Ok::<(LexemeView, int), int>((LexemeView::RightDoubleArrow, i + 2)),
{
    let rules = rule_set();
    let p = seq!['=', '>'];
    assert(rules[4] == RuleView::Punctuation(p, LexemeView::RightDoubleArrow));
    assert(match_len(p, s, i, 2) == 2);
    assert(match_len(p, s, i, 1) == 2);
    assert(match_len(p, s, i, 0) == 2);
    assert(rules[4].usable_at(s, i));
    assert(!rules[0].usable_at(s, i));
    assert(!rules[1].usable_at(s, i));
    assert(!rules[2].usable_at(s, i));
    assert(!rules[3].usable_at(s, i));
    assert(first_usable(rules, s, i, 4) == Some(4int));
    assert(first_usable(rules, s, i, 3) == Some(4int));
    assert(first_usable(rules, s, i, 2) == Some(4int));
    assert(first_usable(rules, s, i, 1) == Some(4int));
    assert(first_usable(rules, s, i, 0) == Some(4int));
}

/// No punctuation rule comes before a longer one that it is a proper prefix
/// of: the longer sequence is always tried first.
pub proof fn lemma_punctuation_longest_first(j: int, k: int)
    requires
        0 <= j < k < rule_set().len(),
        rule_set()[j] is Punctuation,
        rule_set()[k] is Punctuation,
    ensures
        !({
            let a = rule_set()[j]->Punctuation_0;
            let b = rule_set()[k]->Punctuation_0;
            a.len() < b.len() && a == b.subrange(0, a.len() as int)
        }),
{
    let rules = rule_set();
    let p = punctuation_rules();
    assert(forall|m: int| 0 <= m < 4 ==> !(#[trigger] rules[m] is Punctuation));
    assert(forall|m: int| 15 <= m < 20 ==> !(#[trigger] rules[m] is Punctuation));
    assert(forall|m: int| 4 <= m < 15 ==> #[trigger] rules[m] == p[m - 4]);
    assert(forall|m: int| 1 <= m < 11 ==> (#[trigger] p[m])->Punctuation_0.len() == 1);
    assert(p[0]->Punctuation_0.len() == 2);
}

/// The spans of `ts` tile the bytes `[from, to)`: in order, each non-empty,
/// each starting where the one before it ends.
pub open spec fn spans_tile(ts: Seq<TokenView>, from: int, to: int) -> bool
    decreases ts.len(),
{
    if ts.len() == 0 {
        from == to
    } else {
        &&& ts[0].start == from
        &&& ts[0].start < ts[0].end
        &&& spans_tile(ts.drop_first(), ts[0].end, to)
    }
}

proof fn lemma_lex_from_tiles(s: Seq<char>, i: int)
    requires
        0 <= i <= s.len(),
    ensures
        lex_from(s, i) matches Ok(ts) ==> spans_tile(ts, byte_offset(s, i) as int, byte_len(s) as int),
    decreases s.len() - i,
{
    if i < s.len() {
        lemma_next_at_progress(s, i);
        match next_at(rule_set(), s, i) {
            Ok((l, j)) => {
                lemma_lex_from_tiles(s, j);
                lemma_byte_offset_strict(s, i, j);
                match lex_from(s, j) {
                    Ok(rest) => {
                        let tv = TokenView {
                            lexeme: l,
                            start: byte_offset(s, i) as int,
                            end: byte_offset(s, j) as int,
                        };
                        assert((seq![tv] + rest).drop_first() =~= rest);
                    },
                    Err(_) => {},
                }
            },
            Err(_) => {},
        }
    }
}

/// The tokens of a text cover it exactly: in source order, each non-empty,
/// each starting where the one before it ends, from the first byte to the
/// last.
pub proof fn lemma_lex_tiles(s: Seq<char>)
    ensures
        lex_text(s) matches Ok(ts) ==> spans_tile(ts, 0, byte_len(s) as int),
{
    lemma_lex_from_tiles(s, 0);
    assert(s.subrange(0, 0) =~= Seq::<char>::empty());
    assert(encode_utf8(Seq::<char>::empty()) =~= Seq::<u8>::empty());
}

} // verus!
