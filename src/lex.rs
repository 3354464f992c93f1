//! The token rules, the dispatcher that tries them in order, and the entry
//! point that lexes a whole text.
use vstd::prelude::*;

use crate::grammar::{
    bool_at, bool_start, digits_value, escape_of, first_usable, fits_i64, junk_at, junk_end,
    junk_start, keyword_at, keyword_rules, lemma_next_at_progress, lex_from, lex_text, match_len,
    next_at, number_at, number_start, prepend, punctuation_at, punctuation_rules, rule_set,
    signed, string_at, string_body, symbol_at, Outcome, RuleView,
};
use crate::input::{lemma_run_end_bounds, run_end, CharClass, CursorState, Input};
use crate::lexeme::{Decimal, Lexeme, Token, TokenView};
use crate::text::{
    byte_offset, chars_of, digit_value, is_digit, is_digit_char, is_uppercase_char,
    is_white_space_char, push_char,
};

verus! {

broadcast use Input::lemma_wf;

/// The cursor went from `before` to `after` as the outcome `o` says, and
/// `r` reports it: on success the lexeme and the cursor past it; on failure
/// the byte offset of the failing character and the cursor where it was.
pub open spec fn lexed(o: Outcome, r: Result<Lexeme, usize>, before: CursorState, after: CursorState) -> bool {
    &&& after.text == before.text
    &&& match o {
        Ok((l, j)) => r is Ok && r->Ok_0@ == l && after.pos == j,
        Err(p) => r == Err::<Lexeme, usize>(byte_offset(before.text, p) as usize) && after.pos
            == before.pos,
    }
}

/// A token rule: a test of whether it applies, and the reading of a token.
pub trait Lexer {
    /// The rule applies at index `i` of `s`.
    spec fn usable_at(&self, s: Seq<char>, i: int) -> bool;

    /// What the rule reads at index `i` of `s`.
    spec fn lex_at(&self, s: Seq<char>, i: int) -> Outcome;

    /// Whether the rule applies at the cursor; the cursor does not move.
    fn usable(&self, input: &mut Input) -> (r: bool)
        requires
            old(input).wf(),
        ensures
            final(input).wf(),
            final(input)@ == old(input)@,
            r == self.usable_at(old(input)@.text, old(input)@.pos),
    ;

    /// Reads a token at the cursor and moves past it; on failure the cursor
    /// does not move.
    fn lex(&self, input: &mut Input) -> (r: Result<Lexeme, usize>)
        requires
            old(input).wf(),
        ensures
            final(input).wf(),
            lexed(self.lex_at(old(input)@.text, old(input)@.pos), r, old(input)@, final(input)@),
    ;
}

/// White space and comments; comments nest.
pub struct JunkLexer {}

impl Lexer for JunkLexer {
    open spec fn usable_at(&self, s: Seq<char>, i: int) -> bool {
        junk_start(s, i)
    }

    open spec fn lex_at(&self, s: Seq<char>, i: int) -> Outcome {
        junk_at(s, i)
    }

    fn usable(&self, input: &mut Input) -> (r: bool) {
        match input.peek() {
            Ok((_, c)) => {
                if is_white_space_char(c) {
                    return true;
                }
                if c != '/' {
                    return false;
                }
            },
            Err(_) => return false,
        }
        let rp = input.restore_point();
        input.next();
        let r = match input.next() {
            Ok((_, c)) => c == '*',
            Err(_) => false,
        };
        input.restore(rp);
        r
    }

    fn lex(&self, input: &mut Input) -> (r: Result<Lexeme, usize>) {
        let ghost s = input@.text;
        let ghost i = input@.pos;
        let start = input.restore_point();
        let mut depth: usize = 0;
        loop
            invariant
                input.wf(),
                s == old(input)@.text,
                i == old(input)@.pos,
                input@.text == s,
                start.valid_for(s),
                start.index() == i,
                i <= input@.pos <= s.len(),
                depth <= input@.pos,
                junk_end(s, i, 0) == junk_end(s, input@.pos, depth as nat),
            decreases s.len() - input@.pos,
        {
            if depth > 0 {
                match input.next() {
                    Ok((_, c)) => {
                        if c == '*' || c == '/' {
                            let follow = if c == '*' {
                                '/'
                            } else {
                                '*'
                            };
                            if let Ok(_) = input.expect(CharClass::Exactly(follow)) {
                                if c == '*' {
                                    depth = depth - 1;
                                } else {
                                    depth = depth + 1;
                                }
                            }
                        }
                    },
                    Err(e) => {
                        input.restore(start);
                        return Err(e);
                    },
                }
            } else {
                match input.peek() {
                    Ok((_, c)) => {
                        if is_white_space_char(c) {
                            input.next();
                        } else if c == '/' {
                            let rp = input.restore_point();
                            input.next();
                            match input.expect(CharClass::Exactly('*')) {
                                Ok(_) => {
                                    depth = 1;
                                },
                                Err(_) => {
                                    input.restore(rp);
                                    return Ok(Lexeme::Junk);
                                },
                            }
                        } else {
                            return Ok(Lexeme::Junk);
                        }
                    },
                    Err(_) => return Ok(Lexeme::Junk),
                }
            }
        }
    }
}

/// Identifiers: an alphabetic character or `_`, then alphanumeric characters
/// or `_`.
pub struct SymbolLexer {}

impl Lexer for SymbolLexer {
    open spec fn usable_at(&self, s: Seq<char>, i: int) -> bool {
        0 <= i < s.len() && CharClass::SymbolStart.holds(s[i])
    }

    open spec fn lex_at(&self, s: Seq<char>, i: int) -> Outcome {
        symbol_at(s, i)
    }

    fn usable(&self, input: &mut Input) -> (r: bool) {
        match input.peek() {
            Ok((_, c)) => CharClass::SymbolStart.admits(c),
            Err(_) => false,
        }
    }

    fn lex(&self, input: &mut Input) -> (r: Result<Lexeme, usize>) {
        let ghost s = input@.text;
        let ghost i = input@.pos;
        match input.expect(CharClass::SymbolStart) {
            Ok((_, c)) => {
                let (_, _, rest) = input.take_while(CharClass::SymbolPart);
                let mut text = String::new();
                push_char(&mut text, c);
                text.append(rest.as_str());
                proof {
                    lemma_run_end_bounds(CharClass::SymbolPart, s, i + 1);
                    assert(text@ =~= s.subrange(i, input@.pos));
                }
                if is_uppercase_char(c) {
                    Ok(Lexeme::UpperCaseSymbol(text))
                } else {
                    Ok(Lexeme::LowerCaseSymbol(text))
                }
            },
            Err(e) => Err(e),
        }
    }
}

/// Whether `t` holds exactly the characters `w`.
fn text_is(t: &String, w: &Vec<char>) -> (r: bool)
    ensures
        r == (t@ == w@),
{
    let n = t.as_str().unicode_len();
    if n != w.len() {
        return false;
    }
    let mut k: usize = 0;
    while k < n
        invariant
            n == t@.len(),
            n == w@.len(),
            k <= n,
            forall|m: int| 0 <= m < k ==> t@[m] == w@[m],
        decreases n - k,
    {
        if t.as_str().get_char(k) != w[k] {
            return false;
        }
        k = k + 1;
    }
    assert(t@ =~= w@);
    true
}

/// The literals `true` and `false`: whole symbols, so that `trueish` is
/// left to the symbol rule.
pub struct BoolLexer {}

impl Lexer for BoolLexer {
    open spec fn usable_at(&self, s: Seq<char>, i: int) -> bool {
        bool_start(s, i)
    }

    open spec fn lex_at(&self, s: Seq<char>, i: int) -> Outcome {
        bool_at(s, i)
    }

    fn usable(&self, input: &mut Input) -> (r: bool) {
        match input.peek() {
            Ok((_, c)) => {
                if c != 't' && c != 'f' {
                    return false;
                }
            },
            Err(_) => return false,
        }
        let rp = input.restore_point();
        let r = self.lex(input);
        input.restore(rp);
        r.is_ok()
    }

    fn lex(&self, input: &mut Input) -> (r: Result<Lexeme, usize>) {
        let start = input.restore_point();
        let offset = input.offset();
        let symbol = SymbolLexer {};
        match symbol.lex(input) {
            Ok(Lexeme::LowerCaseSymbol(t)) => {
                if text_is(&t, &vec!['t', 'r', 'u', 'e']) {
                    return Ok(Lexeme::Bool(true));
                } else if text_is(&t, &vec!['f', 'a', 'l', 's', 'e']) {
                    return Ok(Lexeme::Bool(false));
                }
            },
            _ => {},
        }
        input.restore(start);
        Err(offset)
    }
}

/// Appends the digit `c` to a number whose value so far is `acc`, negative
/// numbers growing downwards; `None` when the result leaves `i64`.
fn shift_in(acc: i64, negative: bool, c: char) -> (r: Option<i64>)
    requires
        is_digit(c),
        negative ==> acc <= 0,
        !negative ==> acc >= 0,
    ensures
        ({
            let v = acc * 10 + signed(negative, digit_value(c));
            &&& r matches Some(x) ==> x == v
            &&& r is None ==> !fits_i64(v)
        }),
{
    let d = (c as u32 - 0x30) as i64;
    match acc.checked_mul(10) {
        Some(m) => if negative {
            m.checked_sub(d)
        } else {
            m.checked_add(d)
        },
        None => None,
    }
}

pub proof fn lemma_digits_value_push(d: Seq<char>, c: char)
    ensures
        digits_value(d.push(c)) == digits_value(d) * 10 + digit_value(c),
{
    assert(d.push(c).drop_last() =~= d);
}

pub proof fn lemma_digits_value_nonneg(d: Seq<char>)
    requires
        forall|k: int| 0 <= k < d.len() ==> is_digit(#[trigger] d[k]),
    ensures
        digits_value(d) >= 0,
    decreases d.len(),
{
    if d.len() > 0 {
        lemma_digits_value_nonneg(d.drop_last());
    }
}

/// The number so far is the digits `d` read with the sign: either `acc` holds
/// it, or `overflow` is set and it is out of `i64` range.
pub open spec fn accumulated(d: Seq<char>, negative: bool, acc: i64, overflow: bool) -> bool {
    &&& negative ==> acc <= 0
    &&& !negative ==> acc >= 0
    &&& !overflow ==> acc == signed(negative, digits_value(d))
    &&& overflow ==> !fits_i64(signed(negative, digits_value(d)))
}

/// Reads a run of digits into the number so far.
fn digit_run(
    input: &mut Input,
    negative: bool,
    acc: &mut i64,
    overflow: &mut bool,
    Ghost(prefix): Ghost<Seq<char>>,
) -> (n: usize)
    requires
        old(input).wf(),
        accumulated(prefix, negative, *old(acc), *old(overflow)),
        forall|k: int| 0 <= k < prefix.len() ==> is_digit(#[trigger] prefix[k]),
    ensures
        final(input).wf(),
        final(input)@.text == old(input)@.text,
        final(input)@.pos == run_end(CharClass::Digit, old(input)@.text, old(input)@.pos),
        n == final(input)@.pos - old(input)@.pos,
        accumulated(
            prefix + old(input)@.text.subrange(old(input)@.pos, final(input)@.pos),
            negative,
            *final(acc),
            *final(overflow),
        ),
{
    let ghost s = input@.text;
    let ghost i = input@.pos;
    proof {
        lemma_run_end_bounds(CharClass::Digit, s, i);
        assert(prefix + s.subrange(i, i) =~= prefix);
    }
    let mut n: usize = 0;
    loop
        invariant
            input.wf(),
            s == old(input)@.text,
            i == old(input)@.pos,
            input@.text == s,
            i <= input@.pos <= run_end(CharClass::Digit, s, i) <= s.len(),
            run_end(CharClass::Digit, s, input@.pos) == run_end(CharClass::Digit, s, i),
            forall|k: int| 0 <= k < prefix.len() ==> is_digit(#[trigger] prefix[k]),
            forall|k: int| i <= k < run_end(CharClass::Digit, s, i) ==> is_digit(#[trigger] s[k]),
            accumulated(prefix + s.subrange(i, input@.pos), negative, *acc, *overflow),
            n == input@.pos - i,
        decreases s.len() - input@.pos,
    {
        let ghost before = prefix + s.subrange(i, input@.pos);
        match input.expect(CharClass::Digit) {
            Ok((_, c)) => {
                let ghost after = prefix + s.subrange(i, input@.pos);
                proof {
                    lemma_run_end_bounds(CharClass::Digit, s, input@.pos);
                    assert(after =~= before.push(c));
                    lemma_digits_value_push(before, c);
                    assert forall|k: int| 0 <= k < before.len() implies is_digit(#[trigger] before[k]) by {
                        if k >= prefix.len() {
                            assert(before[k] == s[i + k - prefix.len()]);
                        }
                    }
                    lemma_digits_value_nonneg(before);
                }
                if !*overflow {
                    match shift_in(*acc, negative, c) {
                        Some(v) => {
                            *acc = v;
                        },
                        None => {
                            *overflow = true;
                        },
                    }
                } else {
                    assert(digits_value(after) >= digits_value(before)) by (nonlinear_arith)
                        requires
                            digits_value(after) == digits_value(before) * 10 + digit_value(c),
                            digits_value(before) >= 0,
                            0 <= digit_value(c),
                    ;
                }
                n = n + 1;
            },
            Err(_) => {
                return n;
            },
        }
    }
}

/// Numbers: an optional `-`, digits, and optionally a fraction after a `.`.
pub struct IntegerLexer {}

impl Lexer for IntegerLexer {
    open spec fn usable_at(&self, s: Seq<char>, i: int) -> bool {
        number_start(s, i)
    }

    open spec fn lex_at(&self, s: Seq<char>, i: int) -> Outcome {
        number_at(s, i)
    }

    fn usable(&self, input: &mut Input) -> (r: bool) {
        match input.peek() {
            Ok((_, c)) => is_digit_char(c) || c == '-',
            Err(_) => false,
        }
    }

    fn lex(&self, input: &mut Input) -> (r: Result<Lexeme, usize>) {
        let ghost s = input@.text;
        let ghost i = input@.pos;
        let start = input.restore_point();
        let start_offset = input.offset();
        let negative = match input.expect(CharClass::Exactly('-')) {
            Ok(_) => true,
            Err(_) => false,
        };
        let ghost a = input@.pos;
        let mut acc: i64 = 0;
        let mut overflow = false;
        proof {
            assert(digits_value(Seq::<char>::empty()) == 0);
        }
        let whole_len = digit_run(input, negative, &mut acc, &mut overflow, Ghost(Seq::empty()));
        let ghost b = input@.pos;
        proof {
            lemma_run_end_bounds(CharClass::Digit, s, a);
            assert(Seq::<char>::empty() + s.subrange(a, b) =~= s.subrange(a, b));
        }
        if whole_len == 0 {
            let e = input.offset();
            input.restore(start);
            return Err(e);
        }
        let dot = input.restore_point();
        let fraction = match input.expect(CharClass::Exactly('.')) {
            Ok(_) => match input.peek() {
                Ok((_, c)) => is_digit_char(c),
                Err(_) => false,
            },
            Err(_) => false,
        };
        if !fraction {
            input.restore(dot);
            if overflow {
                input.restore(start);
                return Err(start_offset);
            }
            return Ok(Lexeme::Integer(acc));
        }
        let ghost whole = s.subrange(a, b);
        proof {
            assert forall|k: int| 0 <= k < whole.len() implies is_digit(#[trigger] whole[k]) by {
                assert(whole[k] == s[a + k]);
            }
        }
        let scale = digit_run(input, negative, &mut acc, &mut overflow, Ghost(whole));
        proof {
            lemma_run_end_bounds(CharClass::Digit, s, b + 1);
        }
        match input.peek() {
            Ok((second, x)) => {
                if x == '.' {
                    input.restore(start);
                    return Err(second);
                }
            },
            Err(_) => {},
        }
        if overflow {
            input.restore(start);
            return Err(start_offset);
        }
        Ok(Lexeme::Decimal(Decimal { mantissa: acc, scale }))
    }
}

/// The character that the escape `\c` stands for.
fn escaped(c: char) -> (r: Option<char>)
    ensures
        r == escape_of(c),
{
    if c == 't' {
        Some('\t')
    } else if c == 'n' {
        Some('\n')
    } else if c == 'r' {
        Some('\r')
    } else if c == '\\' {
        Some('\\')
    } else if c == '"' {
        Some('"')
    } else {
        None
    }
}

/// Double-quoted string literals with the escapes `\t \n \r \\ \"`.
pub struct StringLexer {}

impl Lexer for StringLexer {
    open spec fn usable_at(&self, s: Seq<char>, i: int) -> bool {
        0 <= i < s.len() && s[i] == '"'
    }

    open spec fn lex_at(&self, s: Seq<char>, i: int) -> Outcome {
        string_at(s, i)
    }

    fn usable(&self, input: &mut Input) -> (r: bool) {
        match input.peek() {
            Ok((_, c)) => c == '"',
            Err(_) => false,
        }
    }

    fn lex(&self, input: &mut Input) -> (r: Result<Lexeme, usize>) {
        let ghost s = input@.text;
        let ghost i = input@.pos;
        let start = input.restore_point();
        if let Err(e) = input.expect(CharClass::Exactly('"')) {
            return Err(e);
        }
        let mut text = String::new();
        proof {
            assert(Seq::<char>::empty() + Seq::<char>::empty() =~= Seq::<char>::empty());
            assert(prepend(text@, string_body(s, i + 1)) == string_body(s, i + 1)) by {
                match string_body(s, i + 1) {
                    Ok((t, k)) => {
                        assert(text@ + t =~= t);
                    },
                    Err(_) => {},
                }
            }
        }
        loop
            invariant
                input.wf(),
                s == old(input)@.text,
                i == old(input)@.pos,
                input@.text == s,
                start.valid_for(s),
                start.index() == i,
                0 <= i < s.len(),
                s[i] == '"',
                i < input@.pos <= s.len(),
                string_body(s, i + 1) == prepend(text@, string_body(s, input@.pos)),
            decreases s.len() - input@.pos,
        {
            let ghost j = input@.pos;
            let ghost before = text@;
            match input.next() {
                Ok((_, c)) => {
                    if c == '"' {
                        assert(text@ + Seq::<char>::empty() =~= text@);
                        return Ok(Lexeme::String(text));
                    } else if c == '\\' {
                        match input.next() {
                            Ok((at, e)) => match escaped(e) {
                                Some(x) => {
                                    push_char(&mut text, x);
                                    proof {
                                        match string_body(s, j + 2) {
                                            Ok((t, k)) => {
                                                assert(before + (seq![x] + t) =~= text@ + t);
                                            },
                                            Err(_) => {},
                                        }
                                    }
                                },
                                None => {
                                    input.restore(start);
                                    return Err(at);
                                },
                            },
                            Err(e) => {
                                input.restore(start);
                                return Err(e);
                            },
                        }
                    } else {
                        push_char(&mut text, c);
                        proof {
                            match string_body(s, j + 1) {
                                Ok((t, k)) => {
                                    assert(before + (seq![c] + t) =~= text@ + t);
                                },
                                Err(_) => {},
                            }
                        }
                    }
                },
                Err(e) => {
                    input.restore(start);
                    return Err(e);
                },
            }
        }
    }
}

/// Reads the fixed characters `pattern` as `lexeme`.
pub struct PunctuationLexer {
    pub pattern: Vec<char>,
    pub lexeme: Lexeme,
}

impl PunctuationLexer {
    pub fn new(pattern: &str, lexeme: Lexeme) -> (r: PunctuationLexer)
        ensures
            r.pattern@ == pattern@,
            r.lexeme@ == lexeme@,
    {
        PunctuationLexer { pattern: chars_of(pattern), lexeme }
    }
}

impl Lexer for PunctuationLexer {
    open spec fn usable_at(&self, s: Seq<char>, i: int) -> bool {
        punctuation_at(self.pattern@, self.lexeme@, s, i) is Ok
    }

    open spec fn lex_at(&self, s: Seq<char>, i: int) -> Outcome {
        punctuation_at(self.pattern@, self.lexeme@, s, i)
    }

    fn usable(&self, input: &mut Input) -> (r: bool) {
        let rp = input.restore_point();
        let r = self.lex(input);
        input.restore(rp);
        r.is_ok()
    }

    fn lex(&self, input: &mut Input) -> (r: Result<Lexeme, usize>) {
        let ghost s = input@.text;
        let ghost i = input@.pos;
        let ghost p = self.pattern@;
        let start = input.restore_point();
        let mut k: usize = 0;
        while k < self.pattern.len()
            invariant
                input.wf(),
                s == old(input)@.text,
                i == old(input)@.pos,
                p == self.pattern@,
                input@.text == s,
                start.valid_for(s),
                start.index() == i,
                0 <= i <= s.len(),
                k <= p.len(),
                input@.pos == i + k,
                match_len(p, s, i, 0) == match_len(p, s, i, k as int),
            decreases p.len() - k,
        {
            match input.expect(CharClass::Exactly(self.pattern[k])) {
                Ok(_) => {},
                Err(e) => {
                    input.restore(start);
                    return Err(e);
                },
            }
            k = k + 1;
        }
        Ok(self.lexeme.duplicate())
    }
}

/// Reads the reserved word `word` as `lexeme`: a whole symbol, and nothing
/// longer.
pub struct KeywordLexer {
    pub word: Vec<char>,
    pub lexeme: Lexeme,
}

impl KeywordLexer {
    pub fn new(word: &str, lexeme: Lexeme) -> (r: KeywordLexer)
        ensures
            r.word@ == word@,
            r.lexeme@ == lexeme@,
    {
        KeywordLexer { word: chars_of(word), lexeme }
    }
}

impl Lexer for KeywordLexer {
    open spec fn usable_at(&self, s: Seq<char>, i: int) -> bool {
        keyword_at(self.word@, self.lexeme@, s, i) is Ok
    }

    open spec fn lex_at(&self, s: Seq<char>, i: int) -> Outcome {
        keyword_at(self.word@, self.lexeme@, s, i)
    }

    fn usable(&self, input: &mut Input) -> (r: bool) {
        let rp = input.restore_point();
        let r = self.lex(input);
        input.restore(rp);
        r.is_ok()
    }

    fn lex(&self, input: &mut Input) -> (r: Result<Lexeme, usize>) {
        let start = input.restore_point();
        let offset = input.offset();
        let symbol = SymbolLexer {};
        let same = match symbol.lex(input) {
            Ok(Lexeme::LowerCaseSymbol(t)) => text_is(&t, &self.word),
            Ok(Lexeme::UpperCaseSymbol(t)) => text_is(&t, &self.word),
            _ => false,
        };
        if same {
            Ok(self.lexeme.duplicate())
        } else {
            input.restore(start);
            Err(offset)
        }
    }
}

/// One rule of any kind.
pub enum Rule {
    Junk(JunkLexer),
    Bool(BoolLexer),
    Number(IntegerLexer),
    Str(StringLexer),
    Punctuation(PunctuationLexer),
    Keyword(KeywordLexer),
    Symbol(SymbolLexer),
}

impl View for Rule {
    type V = RuleView;

    open spec fn view(&self) -> RuleView {
        match self {
            Rule::Junk(_) => RuleView::Junk,
            Rule::Bool(_) => RuleView::Bool,
            Rule::Number(_) => RuleView::Number,
            Rule::Str(_) => RuleView::Str,
            Rule::Punctuation(p) => RuleView::Punctuation(p.pattern@, p.lexeme@),
            Rule::Keyword(k) => RuleView::Keyword(k.word@, k.lexeme@),
            Rule::Symbol(_) => RuleView::Symbol,
        }
    }
}

impl Lexer for Rule {
    open spec fn usable_at(&self, s: Seq<char>, i: int) -> bool {
        self@.usable_at(s, i)
    }

    open spec fn lex_at(&self, s: Seq<char>, i: int) -> Outcome {
        self@.lex_at(s, i)
    }

    fn usable(&self, input: &mut Input) -> (r: bool) {
        match self {
            Rule::Junk(x) => x.usable(input),
            Rule::Bool(x) => x.usable(input),
            Rule::Number(x) => x.usable(input),
            Rule::Str(x) => x.usable(input),
            Rule::Punctuation(x) => x.usable(input),
            Rule::Keyword(x) => x.usable(input),
            Rule::Symbol(x) => x.usable(input),
        }
    }

    fn lex(&self, input: &mut Input) -> (r: Result<Lexeme, usize>) {
        match self {
            Rule::Junk(x) => x.lex(input),
            Rule::Bool(x) => x.lex(input),
            Rule::Number(x) => x.lex(input),
            Rule::Str(x) => x.lex(input),
            Rule::Punctuation(x) => x.lex(input),
            Rule::Keyword(x) => x.lex(input),
            Rule::Symbol(x) => x.lex(input),
        }
    }
}

pub open spec fn rule_views(rules: Seq<Rule>) -> Seq<RuleView> {
    rules.map_values(|r: Rule| r@)
}

fn punctuation(pattern: Vec<char>, lexeme: Lexeme) -> (r: Rule)
    ensures
        r@ == RuleView::Punctuation(pattern@, lexeme@),
{
    Rule::Punctuation(PunctuationLexer { pattern, lexeme })
}

fn keyword(word: Vec<char>, lexeme: Lexeme) -> (r: Rule)
    ensures
        r@ == RuleView::Keyword(word@, lexeme@),
{
    Rule::Keyword(KeywordLexer { word, lexeme })
}

proof fn lemma_rule_views_append(a: Seq<Rule>, b: Seq<Rule>)
    ensures
        rule_views(a + b) == rule_views(a) + rule_views(b),
{
    assert(rule_views(a + b) =~= rule_views(a) + rule_views(b));
}

fn single(c: char) -> (r: Vec<char>)
    ensures
        r@ == seq![c],
{
    let mut r = Vec::new();
    r.push(c);
    assert(r@ =~= seq![c]);
    r
}

fn punctuation_rule_list() -> (r: Vec<Rule>)
    ensures
        rule_views(r@) == punctuation_rules(),
{
    let r = vec![
        punctuation(vec!['=', '>'], Lexeme::RightDoubleArrow),
        punctuation(single('='), Lexeme::Equal),
        punctuation(single('('), Lexeme::LParen),
        punctuation(single(')'), Lexeme::RParen),
        punctuation(single('<'), Lexeme::LAngle),
        punctuation(single('>'), Lexeme::RAngle),
        punctuation(single('{'), Lexeme::LCurl),
        punctuation(single('}'), Lexeme::RCurl),
        punctuation(single('|'), Lexeme::OrBar),
        punctuation(single(';'), Lexeme::SemiColon),
        punctuation(single(','), Lexeme::Comma),
    ];
    assert(rule_views(r@) =~= punctuation_rules());
    r
}

fn keyword_rule_list() -> (r: Vec<Rule>)
    ensures
        rule_views(r@) == keyword_rules(),
{
    let r = vec![
        keyword(vec!['f', 'u', 'n'], Lexeme::Fun),
        keyword(vec!['l', 'e', 't'], Lexeme::Let),
        keyword(vec!['d', 'a', 't', 'a'], Lexeme::Data),
        keyword(vec!['s', 'p', 'e', 'c'], Lexeme::Spec),
    ];
    assert(rule_views(r@) =~= keyword_rules());
    r
}

/// The rules of the language, in the order they are tried.
pub fn rules() -> (r: Vec<Rule>)
    ensures
        rule_views(r@) == rule_set(),
{
    let mut r = vec![
        Rule::Junk(JunkLexer {}),
        Rule::Bool(BoolLexer {}),
        Rule::Number(IntegerLexer {}),
        Rule::Str(StringLexer {}),
    ];
    let ghost literal_rules = r@;
    assert(rule_views(r@) =~= seq![RuleView::Junk, RuleView::Bool, RuleView::Number, RuleView::Str]);
    let mut punctuation = punctuation_rule_list();
    let ghost punctuation_part = punctuation@;
    r.append(&mut punctuation);
    let mut keywords = keyword_rule_list();
    let ghost keyword_part = keywords@;
    r.append(&mut keywords);
    r.push(Rule::Symbol(SymbolLexer {}));
    proof {
        let last = seq![Rule::Symbol(SymbolLexer {})];
        assert(r@ =~= literal_rules + punctuation_part + keyword_part + last);
        lemma_rule_views_append(literal_rules, punctuation_part);
        lemma_rule_views_append(literal_rules + punctuation_part, keyword_part);
        lemma_rule_views_append(literal_rules + punctuation_part + keyword_part, last);
        assert(rule_views(last) =~= seq![RuleView::Symbol]);
    }
    r
}

/// Reads one token at the cursor with the first of `rules` that applies
/// there; fails at the cursor when none does, and with the rule's failure
/// when it fails.
pub fn dispatch(rules: &Vec<Rule>, input: &mut Input) -> (r: Result<Lexeme, usize>)
    requires
        old(input).wf(),
    ensures
        final(input).wf(),
        lexed(next_at(rule_views(rules@), old(input)@.text, old(input)@.pos), r, old(input)@, final(input)@),
{
    let ghost views = rule_views(rules@);
    let ghost s = input@.text;
    let ghost i = input@.pos;
    let mut k: usize = 0;
    while k < rules.len()
        invariant
            input.wf(),
            input@ == old(input)@,
            s == old(input)@.text,
            i == old(input)@.pos,
            views == rule_views(rules@),
            k <= rules.len(),
            first_usable(views, s, i, 0) == first_usable(views, s, i, k as int),
        decreases rules.len() - k,
    {
        if rules[k].usable(input) {
            return rules[k].lex(input);
        }
        k = k + 1;
    }
    Err(input.offset())
}

pub open spec fn token_views(v: Seq<Token>) -> Seq<TokenView> {
    v.map_values(|t: Token| t@)
}

/// Puts the tokens `ts` in front of a successful lexing.
pub open spec fn prepend_tokens(ts: Seq<TokenView>, r: Result<Seq<TokenView>, int>) -> Result<Seq<TokenView>, int> {
    match r {
        Ok(t) => Ok(ts + t),
        Err(p) => Err(p),
    }
}

/// Lexes the whole of `s`: every token in order, `Junk` included, with its
/// byte span; or the byte offset where no rule could go on.
pub fn lex(s: &str) -> (r: Result<Vec<Token>, usize>)
    ensures
        match lex_text(s@) {
            Ok(ts) => r matches Ok(v) && token_views(v@) == ts,
            Err(p) => r == Err::<Vec<Token>, usize>(byte_offset(s@, p) as usize),
        },
{
    let rules = rules();
    let mut input = Input::new(s);
    let mut tokens: Vec<Token> = Vec::new();
    proof {
        assert(token_views(tokens@) =~= Seq::<TokenView>::empty());
        match lex_from(s@, 0) {
            Ok(t) => {
                assert(Seq::<TokenView>::empty() + t =~= t);
            },
            Err(_) => {},
        }
    }
    loop
        invariant
            input.wf(),
            input@.text == s@,
            rule_views(rules@) == rule_set(),
            lex_text(s@) == prepend_tokens(token_views(tokens@), lex_from(s@, input@.pos)),
        decreases s@.len() - input@.pos,
    {
        if let Err(_) = input.peek() {
            assert(token_views(tokens@) + Seq::<TokenView>::empty() =~= token_views(tokens@));
            return Ok(tokens);
        }
        let ghost i = input@.pos;
        let ghost before = token_views(tokens@);
        let start = input.offset();
        proof {
            lemma_next_at_progress(s@, i);
        }
        match dispatch(&rules, &mut input) {
            Ok(l) => {
                let end = input.offset();
                let token = Token { lexeme: l, start, end };
                tokens.push(token);
                proof {
                    let tv = token@;
                    assert(token_views(tokens@) =~= before.push(tv));
                    match lex_from(s@, input@.pos) {
                        Ok(t) => {
                            assert(before + (seq![tv] + t) =~= before.push(tv) + t);
                        },
                        Err(_) => {},
                    }
                }
            },
            Err(e) => {
                return Err(e);
            },
        }
    }
}

} // verus!
