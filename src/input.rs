//! The cursor: a restorable scan position over the characters of a source
//! text, reporting byte offsets.
use vstd::prelude::*;

use crate::text::{
    alphabetic, alphanumeric, byte_len, byte_offset, char_width, chars_of, is_alphabetic_char,
    is_alphanumeric_char, is_digit, is_digit_char, is_white_space, is_white_space_char,
    lemma_byte_offset_monotonic, lemma_byte_offset_step, lemma_len_le_byte_offset, push_char,
};
use vstd::utf8::encode_utf8;

verus! {

/// What a cursor stands for: the whole text and the index of the next
/// character to read.
pub struct CursorState {
    pub text: Seq<char>,
    pub pos: int,
}

/// Result of looking at the character at index `pos` of `text`: its byte
/// offset and the character, or the byte length of the text at the end.
pub open spec fn peek_at(text: Seq<char>, pos: int) -> Result<(usize, char), usize> {
    if 0 <= pos < text.len() {
        Ok((byte_offset(text, pos) as usize, text[pos]))
    } else {
        Err(byte_len(text) as usize)
    }
}

/// A character predicate that the cursor can test.
#[derive(Clone, Copy, Debug, PartialEq, Eq)]
pub enum CharClass {
    /// Unicode white space.
    Whitespace,
    /// An ASCII decimal digit.
    Digit,
    /// A character that may begin a symbol: alphabetic or `_`.
    SymbolStart,
    /// A character that may continue a symbol: alphanumeric or `_`.
    SymbolPart,
    /// Exactly the given character.
    Exactly(char),
}

impl CharClass {
    pub open spec fn holds(self, c: char) -> bool {
        match self {
            CharClass::Whitespace => is_white_space(c),
            CharClass::Digit => is_digit(c),
            CharClass::SymbolStart => alphabetic(c) || c == '_',
            CharClass::SymbolPart => alphanumeric(c) || c == '_',
            CharClass::Exactly(x) => c == x,
        }
    }

    pub fn admits(&self, c: char) -> (r: bool)
        ensures
            r == self.holds(c),
    {
        match self {
            CharClass::Whitespace => is_white_space_char(c),
            CharClass::Digit => is_digit_char(c),
            CharClass::SymbolStart => is_alphabetic_char(c) || c == '_',
            CharClass::SymbolPart => is_alphanumeric_char(c) || c == '_',
            CharClass::Exactly(x) => c == *x,
        }
    }
}

/// End of the longest run of characters of class `cc` that starts at `i`.
pub open spec fn run_end(cc: CharClass, s: Seq<char>, i: int) -> int
    decreases s.len() - i,
{
    if 0 <= i < s.len() && cc.holds(s[i]) {
        run_end(cc, s, i + 1)
    } else {
        i
    }
}

pub proof fn lemma_run_end_bounds(cc: CharClass, s: Seq<char>, i: int)
    requires
        0 <= i <= s.len(),
    ensures
        i <= run_end(cc, s, i) <= s.len(),
        forall|k: int| i <= k < run_end(cc, s, i) ==> cc.holds(#[trigger] s[k]),
        run_end(cc, s, i) < s.len() ==> !cc.holds(s[run_end(cc, s, i)]),
    decreases s.len() - i,
{
    if i < s.len() && cc.holds(s[i]) {
        lemma_run_end_bounds(cc, s, i + 1);
    }
}

/// A saved scan position of a cursor.
#[derive(Clone, Copy, Debug, PartialEq, Eq)]
pub struct RestorePoint {
    pos: usize,
    offset: usize,
}

impl RestorePoint {
    /// Index of the character that the point stands before.
    pub closed spec fn index(self) -> int {
        self.pos as int
    }

    /// The point was taken on a cursor over `text`.
    pub closed spec fn valid_for(self, text: Seq<char>) -> bool {
        &&& self.pos <= text.len()
        &&& self.offset == byte_offset(text, self.pos as int)
    }
}

/// A cursor over the characters of a source text.
pub struct Input {
    chars: Vec<char>,
    pos: usize,
    offset: usize,
}

impl View for Input {
    type V = CursorState;

    closed spec fn view(&self) -> CursorState {
        CursorState { text: self.chars@, pos: self.pos as int }
    }
}

/// Makes a cursor at the start of `s`.
pub fn to_lex_input(s: &str) -> (r: Input)
    ensures
        r.wf(),
        r@.text == s@,
        r@.pos == 0,
{
    Input::new(s)
}

impl Input {
    /// The position is a character index of the text, the stored offset is its
    /// byte offset, and every byte offset of the text fits in `usize`.
    pub closed spec fn wf(&self) -> bool {
        &&& self.pos <= self.chars@.len()
        &&& self.offset == byte_offset(self.chars@, self.pos as int)
        &&& byte_len(self.chars@) <= usize::MAX
    }

    pub broadcast proof fn lemma_wf(&self)
        requires
            #[trigger] self.wf(),
        ensures
            0 <= self@.pos <= self@.text.len(),
            self@.text.len() <= byte_len(self@.text) <= usize::MAX,
    {
        lemma_len_le_byte_offset(self@.text, self@.text.len() as int);
    }

    /// Makes a cursor at the start of `s`.
    pub fn new(s: &str) -> (r: Input)
        ensures
            r.wf(),
            r@.text == s@,
            r@.pos == 0,
    {
        let chars = chars_of(s);
        // The text's UTF-8 size is a slice length, so it fits in `usize`.
        let _size = s.as_bytes().len();
        proof {
            assert(chars@.subrange(0, 0) =~= Seq::<char>::empty());
            assert(chars@.subrange(0, chars@.len() as int) =~= chars@);
        }
        assert(encode_utf8(Seq::<char>::empty()) =~= Seq::<u8>::empty()) by {
            reveal_with_fuel(encode_utf8, 1);
        }
        Input { chars, pos: 0, offset: 0 }
    }

    /// Byte offset of the next character, or the text's byte length at the end.
    pub fn offset(&self) -> (r: usize)
        requires
            self.wf(),
        ensures
            r == byte_offset(self@.text, self@.pos),
    {
        self.offset
    }

    /// The next character and its byte offset, without moving; at the end of
    /// the text, the text's byte length.
    pub fn peek(&self) -> (r: Result<(usize, char), usize>)
        requires
            self.wf(),
        ensures
            r == peek_at(self@.text, self@.pos),
    {
        if self.pos < self.chars.len() {
            Ok((self.offset, self.chars[self.pos]))
        } else {
            proof {
                assert(self.chars@.subrange(0, self.chars@.len() as int) =~= self.chars@);
            }
            Err(self.offset)
        }
    }

    /// Reads the next character and moves past it; at the end of the text,
    /// fails with the text's byte length and stays.
    pub fn next(&mut self) -> (r: Result<(usize, char), usize>)
        requires
            old(self).wf(),
        ensures
            final(self).wf(),
            r == peek_at(old(self)@.text, old(self)@.pos),
            final(self)@.text == old(self)@.text,
            final(self)@.pos == if r is Ok {
                old(self)@.pos + 1
            } else {
                old(self)@.pos
            },
    {
        let r = self.peek();
        if self.pos < self.chars.len() {
            let c = self.chars[self.pos];
            proof {
                lemma_byte_offset_step(self.chars@, self.pos as int);
                lemma_byte_offset_monotonic(self.chars@, self.pos + 1, self.chars@.len() as int);
            }
            self.offset = self.offset + char_width(c);
            self.pos = self.pos + 1;
        }
        r
    }

    /// A point that `restore` can bring this cursor back to.
    pub fn restore_point(&self) -> (r: RestorePoint)
        requires
            self.wf(),
        ensures
            r.valid_for(self@.text),
            r.index() == self@.pos,
    {
        RestorePoint { pos: self.pos, offset: self.offset }
    }

    /// Moves the cursor back (or forward) to a saved point.
    pub fn restore(&mut self, rp: RestorePoint)
        requires
            old(self).wf(),
            rp.valid_for(old(self)@.text),
        ensures
            final(self).wf(),
            final(self)@ == (CursorState { text: old(self)@.text, pos: rp.index() }),
    {
        self.pos = rp.pos;
        self.offset = rp.offset;
    }

    /// Moves past the longest run of characters of class `cc`; returns the
    /// byte span of the run and its text.
    pub fn take_while(&mut self, cc: CharClass) -> (r: (usize, usize, String))
        requires
            old(self).wf(),
        ensures
            final(self).wf(),
            final(self)@.text == old(self)@.text,
            final(self)@.pos == run_end(cc, old(self)@.text, old(self)@.pos),
            r.0 == byte_offset(old(self)@.text, old(self)@.pos),
            r.1 == byte_offset(old(self)@.text, final(self)@.pos),
            r.2@ == old(self)@.text.subrange(old(self)@.pos, final(self)@.pos),
    {
        let start = self.offset;
        let mut taken = String::new();
        proof {
            lemma_run_end_bounds(cc, self.chars@, self.pos as int);
        }
        while self.pos < self.chars.len() && cc.admits(self.chars[self.pos])
            invariant
                self.wf(),
                self.chars@ == old(self).chars@,
                old(self).pos <= self.pos,
                run_end(cc, self.chars@, self.pos as int) == run_end(
                    cc,
                    self.chars@,
                    old(self).pos as int,
                ),
                start == byte_offset(self.chars@, old(self).pos as int),
                taken@ == self.chars@.subrange(old(self).pos as int, self.pos as int),
            decreases self.chars.len() - self.pos,
        {
            let c = self.chars[self.pos];
            push_char(&mut taken, c);
            self.next();
            assert(taken@ =~= self.chars@.subrange(old(self).pos as int, self.pos as int));
        }
        (start, self.offset, taken)
    }

    /// Moves past the next character if it is of class `cc`, returning it
    /// with its byte offset; otherwise stays and fails with the byte offset of
    /// the mismatch (the text's byte length at the end).
    pub fn expect(&mut self, cc: CharClass) -> (r: Result<(usize, char), usize>)
        requires
            old(self).wf(),
        ensures
            final(self).wf(),
            final(self)@.text == old(self)@.text,
            ({
                let s = old(self)@.text;
                let i = old(self)@.pos;
                if i < s.len() && cc.holds(s[i]) {
                    &&& r == peek_at(s, i)
                    &&& final(self)@.pos == i + 1
                } else {
                    &&& r == Err::<(usize, char), usize>(byte_offset(s, i) as usize)
                    &&& final(self)@.pos == i
                }
            }),
    {
        if self.pos < self.chars.len() && cc.admits(self.chars[self.pos]) {
            self.next()
        } else {
            proof {
                assert(self.chars@.subrange(0, self.chars@.len() as int) =~= self.chars@);
            }
            Err(self.offset)
        }
    }
}

} // verus!
