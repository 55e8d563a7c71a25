use vstd::prelude::*;

use crate::token::{Token, TokenModel, TokenType};

verus! {

broadcast use vstd::string::group_string_axioms;

/// Where the scanner stands: the index of the current character, and the
/// 1-based row and column reported for it.
pub struct LexState {
    pub pos: int,
    pub row: int,
    pub col: int,
}

/// What `char::is_alphabetic` returns for a character (Unicode `Alphabetic`).
pub uninterp spec fn alphabetic(c: char) -> bool;

/// The characters with the Unicode `White_Space` property, those for which
/// `char::is_whitespace` holds.
pub open spec fn whitespace(c: char) -> bool {
    ('\u{9}' <= c && c <= '\u{d}') || c == ' ' || c == '\u{85}' || c == '\u{a0}' || c == '\u{1680}'
        || ('\u{2000}' <= c && c <= '\u{200a}') || c == '\u{2028}' || c == '\u{2029}' || c == '\u{202f}'
        || c == '\u{205f}' || c == '\u{3000}'
}

/// Relies on `char::is_alphabetic`: whether the character has the Unicode
/// `Alphabetic` property.
#[verifier::external_body]
fn is_alphabetic(c: char) -> (r: bool)
    ensures
        r == alphabetic(c),
{
    c.is_alphabetic()
}

fn is_whitespace(c: char) -> (r: bool)
    ensures
        r == whitespace(c),
{
    ('\u{9}' <= c && c <= '\u{d}') || c == ' ' || c == '\u{85}' || c == '\u{a0}' || c == '\u{1680}'
        || ('\u{2000}' <= c && c <= '\u{200a}') || c == '\u{2028}' || c == '\u{2029}' || c == '\u{202f}'
        || c == '\u{205f}' || c == '\u{3000}'
}

/// Relies on `String::push`: appends one character at the end.
#[verifier::external_body]
pub(crate) fn push_char(s: &mut String, c: char)
    ensures
        final(s)@ == old(s)@.push(c),
{
    s.push(c)
}

pub open spec fn is_letter(c: char) -> bool {
    alphabetic(c) || c == '_'
}

pub open spec fn is_digit(c: char) -> bool {
    '0' <= c && c <= '9'
}

/// The kind of a character that forms a token on its own.
pub open spec fn glyph_kind(c: char) -> Option<TokenType> {
    if c == '(' {
        Some(TokenType::LParen)
    } else if c == ')' {
        Some(TokenType::RParen)
    } else if c == '{' {
        Some(TokenType::LBrace)
    } else if c == '}' {
        Some(TokenType::RBrace)
    } else if c == '[' {
        Some(TokenType::LBracket)
    } else if c == ']' {
        Some(TokenType::RBracket)
    } else if c == '|' {
        Some(TokenType::Pipe)
    } else if c == '@' {
        Some(TokenType::At)
    } else if c == ',' {
        Some(TokenType::Comma)
    } else if c == '+' {
        Some(TokenType::Plus)
    } else if c == '*' {
        Some(TokenType::Asterisk)
    } else if c == '/' {
        Some(TokenType::Slash)
    } else if c == '<' {
        Some(TokenType::LesserThan)
    } else if c == '>' {
        Some(TokenType::GreaterThan)
    } else if c == '=' {
        Some(TokenType::Equals)
    } else if c == '!' {
        Some(TokenType::Bang)
    } else if c == '§' {
        Some(TokenType::Section)
    } else {
        None
    }
}

/// The kind of a word made of letters: a keyword, or an identifier.
pub open spec fn word_kind(w: Seq<char>) -> TokenType {
    if w == seq!['s', 'e', 't'] {
        TokenType::SetKeyword
    } else if w == seq!['f', 'n'] {
        TokenType::Function
    } else if w == seq!['t', 'r', 'u', 'e'] {
        TokenType::True
    } else if w == seq!['f', 'a', 'l', 's', 'e'] {
        TokenType::False
    } else if w == seq!['i', 'f'] {
        TokenType::If
    } else if w == seq!['w', 'h', 'e', 'n'] {
        TokenType::When
    } else if w == seq!['w', 'h', 'i', 'l', 'e'] {
        TokenType::While
    } else if w == seq!['i', 'n', 'c', 'l', 'u', 'd', 'e'] {
        TokenType::Include
    } else {
        TokenType::Ident
    }
}

/// The state after moving `n` characters forward. Moving onto the position
/// past the last character does not advance the column.
pub open spec fn skip(s: Seq<char>, st: LexState, n: int) -> LexState {
    if st.pos >= s.len() {
        st
    } else if st.pos + n < s.len() {
        LexState { pos: st.pos + n, row: st.row, col: st.col + n }
    } else {
        LexState { pos: s.len() as int, row: st.row, col: st.col + (s.len() - 1 - st.pos) }
    }
}

/// The state after moving over the current character: past a newline the
/// next row begins at column 1.
pub open spec fn step(s: Seq<char>, st: LexState) -> LexState {
    if 0 <= st.pos < s.len() && s[st.pos] == '\n' {
        skip(s, LexState { pos: st.pos, row: st.row + 1, col: 0 }, 1)
    } else {
        skip(s, st, 1)
    }
}

/// The state after `n` successive steps.
pub open spec fn walk(s: Seq<char>, st: LexState, n: int) -> LexState
    decreases n,
{
    if n <= 0 {
        st
    } else {
        step(s, walk(s, st, n - 1))
    }
}

pub proof fn lemma_walk_pos(s: Seq<char>, st: LexState, n: int)
    requires
        0 <= st.pos <= s.len(),
        0 <= n,
    ensures
        walk(s, st, n).pos == if st.pos + n < s.len() { st.pos + n } else { s.len() as int },
    decreases n,
{
    if n > 0 {
        lemma_walk_pos(s, st, n - 1);
    }
}

/// The first index at or after `p` that does not hold a letter.
pub open spec fn letters_end(s: Seq<char>, p: int) -> int
    decreases s.len() - p,
{
    if 0 <= p < s.len() && is_letter(s[p]) {
        letters_end(s, p + 1)
    } else {
        p
    }
}

/// The first index at or after `p` that does not hold a decimal digit.
pub open spec fn digits_end(s: Seq<char>, p: int) -> int
    decreases s.len() - p,
{
    if 0 <= p < s.len() && is_digit(s[p]) {
        digits_end(s, p + 1)
    } else {
        p
    }
}

/// The first index at or after `p` that holds `c`, or the length of `s`.
pub open spec fn find_char(s: Seq<char>, p: int, c: char) -> int
    decreases s.len() - p,
{
    if 0 <= p < s.len() && s[p] != c {
        find_char(s, p + 1, c)
    } else {
        p
    }
}

/// The state after whitespace and `#` comments have been passed over.
pub open spec fn trivia_end(s: Seq<char>, st: LexState) -> LexState
    decreases s.len() - st.pos via trivia_end_decreases
{
    if 0 <= st.pos < s.len() {
        let c = s[st.pos];
        if c == '\n' {
            trivia_end(s, skip(s, LexState { pos: st.pos, row: st.row + 1, col: 0 }, 1))
        } else if c == '#' {
            let e = find_char(s, st.pos, '\n');
            trivia_end(s, skip(s, st, e - st.pos))
        } else if whitespace(c) {
            trivia_end(s, skip(s, st, 1))
        } else {
            st
        }
    } else {
        st
    }
}

pub proof fn lemma_find_char_bounds(s: Seq<char>, p: int, c: char)
    requires
        0 <= p <= s.len(),
    ensures
        p <= find_char(s, p, c) <= s.len(),
        find_char(s, p, c) < s.len() ==> s[find_char(s, p, c)] == c,
    decreases s.len() - p,
{
    if p < s.len() && s[p] != c {
        lemma_find_char_bounds(s, p + 1, c);
    }
}

#[via_fn]
proof fn trivia_end_decreases(s: Seq<char>, st: LexState) {
    if 0 <= st.pos < s.len() && s[st.pos] == '#' {
        lemma_find_char_bounds(s, st.pos, '\n');
    }
}

pub open spec fn is_glyph(c: char) -> bool {
    glyph_kind(c) is Some
}

pub open spec fn make_token(kind: TokenType, st: LexState, literal: Seq<char>) -> TokenModel {
    TokenModel { kind, row: st.row as u32, col: st.col as u32, literal }
}

/// A numeric literal whose digits start at `d`, the literal itself at `st.pos`.
pub open spec fn number_token(s: Seq<char>, st: LexState, d: int) -> (TokenModel, LexState) {
    let e = digits_end(s, d);
    if e < s.len() && s[e] == '.' {
        let f = digits_end(s, e + 1);
        (make_token(TokenType::Float, st, s.subrange(st.pos, f)), skip(s, st, f - st.pos))
    } else {
        (make_token(TokenType::Int, st, s.subrange(st.pos, e)), skip(s, st, e - st.pos))
    }
}

/// The token that starts at `st`, where no whitespace or comment stands, and
/// the state after it.
pub open spec fn scan(s: Seq<char>, st: LexState) -> (TokenModel, LexState) {
    let p = st.pos;
    if p >= s.len() {
        (make_token(TokenType::EOF, st, Seq::empty()), st)
    } else {
        let c = s[p];
        if c == ':' {
            if p + 1 < s.len() && s[p + 1] == ':' {
                (make_token(TokenType::DoubleColon, st, s.subrange(p, p + 2)), skip(s, st, 2))
            } else {
                (make_token(TokenType::Illegal, st, seq![c]), skip(s, st, 1))
            }
        } else if c == '.' {
            if p + 1 < s.len() && s[p + 1] == '.' {
                if p + 2 < s.len() && s[p + 2] == '.' {
                    (make_token(TokenType::Ellipsis, st, s.subrange(p, p + 3)), skip(s, st, 3))
                } else {
                    (make_token(TokenType::DoubleDot, st, s.subrange(p, p + 2)), skip(s, st, 2))
                }
            } else {
                (make_token(TokenType::Illegal, st, seq![c]), skip(s, st, 1))
            }
        } else if c == '-' {
            if p + 1 < s.len() && is_digit(s[p + 1]) {
                number_token(s, st, p + 1)
            } else {
                (make_token(TokenType::Minus, st, seq![c]), skip(s, st, 1))
            }
        } else if glyph_kind(c) is Some {
            (make_token(glyph_kind(c)->0, st, seq![c]), skip(s, st, 1))
        } else if c == '"' {
            let q = find_char(s, p + 1, '"');
            (make_token(TokenType::String, st, s.subrange(p + 1, q)), walk(s, st, q + 1 - p))
        } else if is_letter(c) {
            let e = letters_end(s, p);
            let w = s.subrange(p, e);
            (make_token(word_kind(w), st, w), skip(s, st, e - p))
        } else if is_digit(c) {
            number_token(s, st, p)
        } else {
            (make_token(TokenType::Illegal, st, seq![c]), skip(s, st, 1))
        }
    }
}

/// One call of `next_token`: pass over trivia, then read one token.
pub open spec fn lex_step(s: Seq<char>, st: LexState) -> (TokenModel, LexState) {
    scan(s, trivia_end(s, st))
}

/// The state in which scanning of `s` begins.
pub open spec fn start_state() -> LexState {
    LexState { pos: 0, row: 1, col: 1 }
}

/// A scanner over a character sequence that hands out one token per call.
pub struct Lexer {
    input: Vec<char>,
    pos: usize,
    row: u32,
    col: u32,
}

impl Lexer {
    /// The characters being scanned.
    pub closed spec fn input(&self) -> Seq<char> {
        self.input@
    }

    /// Where scanning stands.
    pub closed spec fn state(&self) -> LexState {
        LexState { pos: self.pos as int, row: self.row as int, col: self.col as int }
    }

    pub closed spec fn wf(&self) -> bool {
        &&& self.input@.len() < u32::MAX
        &&& self.pos <= self.input@.len()
        &&& 1 <= self.row <= self.pos + 1
        &&& self.col <= self.pos + 1
    }

    /// A scanner positioned on the first character of `input`.
    pub fn new(input: &str) -> (r: Lexer)
        requires
            input@.len() < u32::MAX,
        ensures
            r.wf(),
            r.input() == input@,
            r.state() == start_state(),
    {
        let mut chars: Vec<char> = Vec::new();
        for c in it: input.chars()
            invariant
                chars@ == it.history(),
                it.seq() == input@,
        {
            chars.push(c);
        }
        Lexer { input: chars, pos: 0, row: 1, col: 1 }
    }

    /// A well-formed scanner stands within its input.
    pub proof fn lemma_wf_bounds(&self)
        requires
            self.wf(),
        ensures
            0 <= self.state().pos <= self.input().len(),
            self.input().len() < u32::MAX,
    {
    }

    proof fn lemma_skip_one(s: Seq<char>, st: LexState, n: int)
        requires
            0 <= n,
            st.pos <= s.len(),
        ensures
            skip(s, skip(s, st, n), 1) == skip(s, st, n + 1),
    {
    }

    /// Moves to the next character.
    fn read_char(&mut self)
        requires
            old(self).wf(),
        ensures
            final(self).wf(),
            final(self).input@ == old(self).input@,
            final(self).state() == skip(old(self).input@, old(self).state(), 1),
    {
        if self.pos < self.input.len() {
            if self.pos + 1 < self.input.len() {
                self.col = self.col + 1;
            }
            self.pos = self.pos + 1;
        }
    }

    fn at(&self, p: usize, c: char) -> (r: bool)
        ensures
            r == (p < self.input@.len() && self.input@[p as int] == c),
    {
        p < self.input.len() && self.input[p] == c
    }

    fn digit_at(&self, p: usize) -> (r: bool)
        ensures
            r == (p < self.input@.len() && is_digit(self.input@[p as int])),
    {
        p < self.input.len() && self.input[p] >= '0' && self.input[p] <= '9'
    }

    fn skip_whitespace(&mut self)
        requires
            old(self).wf(),
        ensures
            final(self).wf(),
            final(self).input@ == old(self).input@,
            final(self).state() == trivia_end(old(self).input@, old(self).state()),
    {
        let ghost s = self.input@;
        while self.pos < self.input.len()
            invariant
                self.wf(),
                self.input@ == s,
                old(self).input@ == s,
                trivia_end(s, self.state()) == trivia_end(s, old(self).state()),
            decreases s.len() - self.pos,
        {
            let c = self.input[self.pos];
            if c == '\n' {
                self.row = self.row + 1;
                self.col = if self.pos + 1 < self.input.len() { 1 } else { 0 };
                self.pos = self.pos + 1;
            } else if c == '#' {
                let ghost st0 = self.state();
                while self.pos < self.input.len() && self.input[self.pos] != '\n'
                    invariant
                        self.wf(),
                        self.input@ == s,
                        st0.pos <= self.pos,
                        self.state() == skip(s, st0, self.pos - st0.pos),
                        find_char(s, st0.pos, '\n') == find_char(s, self.pos as int, '\n'),
                    decreases s.len() - self.pos,
                {
                    proof { Self::lemma_skip_one(s, st0, self.pos - st0.pos); }
                    self.read_char();
                }
            } else if is_whitespace(c) {
                self.read_char();
            } else {
                return;
            }
        }
    }

    /// Reads `n` characters into a new string.
    fn take(&mut self, n: usize) -> (r: String)
        requires
            old(self).wf(),
            old(self).pos + n <= old(self).input@.len(),
        ensures
            final(self).wf(),
            final(self).input@ == old(self).input@,
            r@ == old(self).input@.subrange(old(self).pos as int, old(self).pos + n),
            final(self).state() == skip(old(self).input@, old(self).state(), n as int),
    {
        let ghost s = self.input@;
        let ghost st0 = self.state();
        let start = self.pos;
        let mut out = String::new();
        while self.pos < start + n
            invariant
                self.wf(),
                self.input@ == s,
                st0.pos == start,
                start <= self.pos <= start + n,
                start + n <= s.len(),
                out@ == s.subrange(start as int, self.pos as int),
                self.state() == skip(s, st0, self.pos - start),
            decreases start + n - self.pos,
        {
            push_char(&mut out, self.input[self.pos]);
            proof {
                Self::lemma_skip_one(s, st0, self.pos - start);
                assert(s.subrange(start as int, self.pos + 1) =~= s.subrange(start as int, self.pos as int).push(s[self.pos as int]));
            }
            self.read_char();
        }
        out
    }

    /// Reads characters while they satisfy the digit test.
    fn read_digits(&mut self, literal: &mut String)
        requires
            old(self).wf(),
        ensures
            final(self).wf(),
            final(self).input@ == old(self).input@,
            old(self).pos <= final(self).pos,
            final(self).pos == digits_end(old(self).input@, old(self).pos as int),
            final(self).state() == skip(old(self).input@, old(self).state(), final(self).pos - old(self).pos),
            final(literal)@ == old(literal)@ + old(self).input@.subrange(old(self).pos as int, final(self).pos as int),
    {
        let ghost s = self.input@;
        let ghost st0 = self.state();
        let ghost l0 = literal@;
        while self.digit_at(self.pos)
            invariant
                self.wf(),
                self.input@ == s,
                0 <= st0.pos <= self.pos <= s.len(),
                digits_end(s, st0.pos) == digits_end(s, self.pos as int),
                literal@ == l0 + s.subrange(st0.pos, self.pos as int),
                self.state() == skip(s, st0, self.pos - st0.pos),
            decreases s.len() - self.pos,
        {
            push_char(literal, self.input[self.pos]);
            proof {
                Self::lemma_skip_one(s, st0, self.pos - st0.pos);
                assert(s.subrange(st0.pos, self.pos + 1) =~= s.subrange(st0.pos, self.pos as int).push(s[self.pos as int]));
            }
            self.read_char();
        }
        proof {
            assert(l0 + s.subrange(st0.pos, self.pos as int) =~= literal@);
        }
    }

    /// Reads a numeric literal whose digits start at `d`.
    fn read_number(&mut self, d: usize) -> (r: Token)
        requires
            old(self).wf(),
            old(self).pos < d <= old(self).input@.len() || old(self).pos == d < old(self).input@.len(),
            d == old(self).pos + 1 ==> old(self).input@[old(self).pos as int] == '-',
        ensures
            final(self).wf(),
            final(self).input@ == old(self).input@,
            (r@, final(self).state()) == number_token(old(self).input@, old(self).state(), d as int),
    {
        let ghost s = self.input@;
        let ghost st0 = self.state();
        let row = self.row;
        let col = self.col;
        let mut literal = self.take(d - self.pos);
        self.read_digits(&mut literal);
        let ghost e = self.pos as int;
        assert(literal@ =~= s.subrange(st0.pos, e));
        let mut kind = TokenType::Int;
        if self.at(self.pos, '.') {
            kind = TokenType::Float;
            push_char(&mut literal, '.');
            self.read_char();
            assert(literal@ =~= s.subrange(st0.pos, e + 1));
            self.read_digits(&mut literal);
            assert(literal@ =~= s.subrange(st0.pos, self.pos as int));
        }
        Token { token_type: kind, row, col, literal }
    }

    fn letter_at(&self, p: usize) -> (r: bool)
        ensures
            r == (p < self.input@.len() && is_letter(self.input@[p as int])),
    {
        p < self.input.len() && (is_alphabetic(self.input[p]) || self.input[p] == '_')
    }

    /// Whether the characters from `start` to `end` spell `word`.
    fn spells(&self, start: usize, end: usize, word: &[char]) -> (r: bool)
        requires
            start <= end <= self.input@.len(),
        ensures
            r == (self.input@.subrange(start as int, end as int) == word@),
    {
        if end - start != word.len() {
            return false;
        }
        let mut i: usize = 0;
        while i < word.len()
            invariant
                start <= end <= self.input@.len(),
                end - start == word@.len(),
                i <= word@.len(),
                forall|j: int| 0 <= j < i ==> self.input@[start + j] == word@[j],
            decreases word@.len() - i,
        {
            if self.input[start + i] != word[i] {
                assert(self.input@.subrange(start as int, end as int)[i as int] != word@[i as int]);
                return false;
            }
            i = i + 1;
        }
        assert(self.input@.subrange(start as int, end as int) =~= word@);
        true
    }

    /// The kind of the word between `start` and `end`.
    fn word_type(&self, start: usize, end: usize) -> (r: TokenType)
        requires
            start <= end <= self.input@.len(),
        ensures
            r == word_kind(self.input@.subrange(start as int, end as int)),
    {
        let ghost w = self.input@.subrange(start as int, end as int);
        proof {
            assert(['s', 'e', 't']@ =~= seq!['s', 'e', 't']);
            assert(['f', 'n']@ =~= seq!['f', 'n']);
            assert(['t', 'r', 'u', 'e']@ =~= seq!['t', 'r', 'u', 'e']);
            assert(['f', 'a', 'l', 's', 'e']@ =~= seq!['f', 'a', 'l', 's', 'e']);
            assert(['i', 'f']@ =~= seq!['i', 'f']);
            assert(['w', 'h', 'e', 'n']@ =~= seq!['w', 'h', 'e', 'n']);
            assert(['w', 'h', 'i', 'l', 'e']@ =~= seq!['w', 'h', 'i', 'l', 'e']);
            assert(['i', 'n', 'c', 'l', 'u', 'd', 'e']@ =~= seq!['i', 'n', 'c', 'l', 'u', 'd', 'e']);
        }
        if self.spells(start, end, &['s', 'e', 't']) {
            TokenType::SetKeyword
        } else if self.spells(start, end, &['f', 'n']) {
            TokenType::Function
        } else if self.spells(start, end, &['t', 'r', 'u', 'e']) {
            TokenType::True
        } else if self.spells(start, end, &['f', 'a', 'l', 's', 'e']) {
            TokenType::False
        } else if self.spells(start, end, &['i', 'f']) {
            TokenType::If
        } else if self.spells(start, end, &['w', 'h', 'e', 'n']) {
            TokenType::When
        } else if self.spells(start, end, &['w', 'h', 'i', 'l', 'e']) {
            TokenType::While
        } else if self.spells(start, end, &['i', 'n', 'c', 'l', 'u', 'd', 'e']) {
            TokenType::Include
        } else {
            TokenType::Ident
        }
    }

    /// Reads a word of letters: an identifier or a keyword.
    fn read_identifier(&mut self) -> (r: Token)
        requires
            old(self).wf(),
        ensures
            final(self).wf(),
            final(self).input@ == old(self).input@,
            final(self).pos == letters_end(old(self).input@, old(self).pos as int),
            ({
                let s = old(self).input@;
                let st = old(self).state();
                let e = letters_end(s, st.pos);
                &&& r@ == make_token(word_kind(s.subrange(st.pos, e)), st, s.subrange(st.pos, e))
                &&& final(self).state() == skip(s, st, e - st.pos)
            }),
    {
        let ghost s = self.input@;
        let ghost st0 = self.state();
        let row = self.row;
        let col = self.col;
        let start = self.pos;
        let mut literal = String::new();
        while self.letter_at(self.pos)
            invariant
                self.wf(),
                self.input@ == s,
                st0.pos == start,
                start <= self.pos <= s.len(),
                letters_end(s, start as int) == letters_end(s, self.pos as int),
                literal@ == s.subrange(start as int, self.pos as int),
                self.state() == skip(s, st0, self.pos - start),
            decreases s.len() - self.pos,
        {
            push_char(&mut literal, self.input[self.pos]);
            proof {
                Self::lemma_skip_one(s, st0, self.pos - start);
                assert(s.subrange(start as int, self.pos + 1) =~= s.subrange(start as int, self.pos as int).push(s[self.pos as int]));
            }
            self.read_char();
        }
        let kind = self.word_type(start, self.pos);
        Token { token_type: kind, row, col, literal }
    }

    /// Moves over the current character, to the next row after a newline.
    fn step_char(&mut self)
        requires
            old(self).wf(),
        ensures
            final(self).wf(),
            final(self).input@ == old(self).input@,
            final(self).state() == step(old(self).input@, old(self).state()),
    {
        if self.pos < self.input.len() && self.input[self.pos] == '\n' {
            self.row = self.row + 1;
            self.col = if self.pos + 1 < self.input.len() { 1 } else { 0 };
            self.pos = self.pos + 1;
        } else {
            self.read_char();
        }
    }

    /// Reads a string literal from its opening quote to the closing quote or
    /// the end of input.
    fn read_string(&mut self) -> (r: Token)
        requires
            old(self).wf(),
            old(self).pos < old(self).input@.len(),
        ensures
            final(self).wf(),
            final(self).input@ == old(self).input@,
            ({
                let s = old(self).input@;
                let st = old(self).state();
                let q = find_char(s, st.pos + 1, '"');
                &&& r@ == make_token(TokenType::String, st, s.subrange(st.pos + 1, q))
                &&& final(self).state() == walk(s, st, q + 1 - st.pos)
            }),
    {
        let ghost s = self.input@;
        let ghost st0 = self.state();
        let row = self.row;
        let col = self.col;
        let start = self.pos;
        let mut literal = String::new();
        self.step_char();
        assert(walk(s, st0, 0) == st0);
        assert(walk(s, st0, 1) == step(s, walk(s, st0, 0)));
        while self.pos < self.input.len() && self.input[self.pos] != '"'
            invariant
                self.wf(),
                self.input@ == s,
                st0.pos == start,
                start < self.pos <= s.len(),
                find_char(s, start + 1, '"') == find_char(s, self.pos as int, '"'),
                literal@ == s.subrange(start + 1, self.pos as int),
                self.state() == walk(s, st0, self.pos - start),
            decreases s.len() - self.pos,
        {
            push_char(&mut literal, self.input[self.pos]);
            proof {
                assert(s.subrange(start + 1, self.pos + 1) =~= s.subrange(start + 1, self.pos as int).push(s[self.pos as int]));
            }
            self.step_char();
        }
        self.step_char();
        Token { token_type: TokenType::String, row, col, literal }
    }

    fn glyph(c: char) -> (r: Option<TokenType>)
        ensures
            r == glyph_kind(c),
    {
        match c {
            '(' => Some(TokenType::LParen),
            ')' => Some(TokenType::RParen),
            '{' => Some(TokenType::LBrace),
            '}' => Some(TokenType::RBrace),
            '[' => Some(TokenType::LBracket),
            ']' => Some(TokenType::RBracket),
            '|' => Some(TokenType::Pipe),
            '@' => Some(TokenType::At),
            ',' => Some(TokenType::Comma),
            '+' => Some(TokenType::Plus),
            '*' => Some(TokenType::Asterisk),
            '/' => Some(TokenType::Slash),
            '<' => Some(TokenType::LesserThan),
            '>' => Some(TokenType::GreaterThan),
            '=' => Some(TokenType::Equals),
            '!' => Some(TokenType::Bang),
            '§' => Some(TokenType::Section),
            _ => None,
        }
    }

    /// A token of `n` characters of the given kind, read from the current position.
    fn fixed_token(&mut self, kind: TokenType, n: usize) -> (r: Token)
        requires
            old(self).wf(),
            old(self).pos + n <= old(self).input@.len(),
        ensures
            final(self).wf(),
            final(self).input@ == old(self).input@,
            r@ == make_token(kind, old(self).state(), old(self).input@.subrange(old(self).pos as int, old(self).pos + n)),
            final(self).state() == skip(old(self).input@, old(self).state(), n as int),
    {
        let row = self.row;
        let col = self.col;
        let literal = self.take(n);
        Token { token_type: kind, row, col, literal }
    }

    /// Passes over whitespace and comments, then reads and returns one token.
    /// At the end of input it returns `EOF` with an empty literal, as often as
    /// it is called.
    pub fn next_token(&mut self) -> (r: Token)
        requires
            old(self).wf(),
        ensures
            final(self).wf(),
            final(self).input() == old(self).input(),
            (r@, final(self).state()) == lex_step(old(self).input(), old(self).state()),
    {
        self.skip_whitespace();
        let ghost s = self.input@;
        let ghost st = self.state();
        let p = self.pos;
        if p >= self.input.len() {
            return Token { token_type: TokenType::EOF, row: self.row, col: self.col, literal: String::new() };
        }
        let c = self.input[p];
        proof {
            assert(s.subrange(p as int, p + 1) =~= seq![c]);
        }
        if c == ':' {
            if self.at(p + 1, ':') {
                self.fixed_token(TokenType::DoubleColon, 2)
            } else {
                self.fixed_token(TokenType::Illegal, 1)
            }
        } else if c == '.' {
            if self.at(p + 1, '.') {
                if self.at(p + 2, '.') {
                    self.fixed_token(TokenType::Ellipsis, 3)
                } else {
                    self.fixed_token(TokenType::DoubleDot, 2)
                }
            } else {
                self.fixed_token(TokenType::Illegal, 1)
            }
        } else if c == '-' {
            if self.digit_at(p + 1) {
                self.read_number(p + 1)
            } else {
                self.fixed_token(TokenType::Minus, 1)
            }
        } else if let Some(kind) = Self::glyph(c) {
            self.fixed_token(kind, 1)
        } else if c == '"' {
            self.read_string()
        } else if self.letter_at(p) {
            self.read_identifier()
        } else if self.digit_at(p) {
            self.read_number(p)
        } else {
            self.fixed_token(TokenType::Illegal, 1)
        }
    }
}

} // verus!

verus! {

/// A character that forms a token by itself is read as a token of its kind
/// whose literal is that character, and scanning moves one character on. The
/// glyphs `::`, `..` and `...` are read the same way, two or three characters
/// long. Where a glyph stands, no whitespace or comment is passed over first,
/// so `next_token` reads exactly that token.
pub proof fn lemma_glyph_tokens(s: Seq<char>, st: LexState)
    requires
        0 <= st.pos < s.len(),
    ensures
        !whitespace(s[st.pos]) && s[st.pos] != '#' && s[st.pos] != '\n' ==> lex_step(s, st) == scan(s, st),
        is_glyph(s[st.pos]) ==> {
            &&& scan(s, st).0.kind == glyph_kind(s[st.pos])->0
            &&& scan(s, st).0.literal == seq![s[st.pos]]
            &&& scan(s, st).1 == skip(s, st, 1)
        },
        s[st.pos] == ':' && st.pos + 1 < s.len() && s[st.pos + 1] == ':' ==> {
            &&& scan(s, st).0.kind == TokenType::DoubleColon
            &&& scan(s, st).0.literal == seq![':', ':']
        },
        s[st.pos] == '.' && st.pos + 2 < s.len() && s[st.pos + 1] == '.' && s[st.pos + 2] == '.' ==> {
            &&& scan(s, st).0.kind == TokenType::Ellipsis
            &&& scan(s, st).0.literal == seq!['.', '.', '.']
        },
        s[st.pos] == '.' && st.pos + 1 < s.len() && s[st.pos + 1] == '.'
            && !(st.pos + 2 < s.len() && s[st.pos + 2] == '.') ==> {
            &&& scan(s, st).0.kind == TokenType::DoubleDot
            &&& scan(s, st).0.literal == seq!['.', '.']
        },
        s[st.pos] == '-' && !(st.pos + 1 < s.len() && is_digit(s[st.pos + 1])) ==> {
            &&& scan(s, st).0.kind == TokenType::Minus
            &&& scan(s, st).0.literal == seq!['-']
        },
{
    let p = st.pos;
    if p + 1 < s.len() {
        assert(s.subrange(p, p + 2) =~= seq![s[p], s[p + 1]]);
    }
    if p + 2 < s.len() {
        assert(s.subrange(p, p + 3) =~= seq![s[p], s[p + 1], s[p + 2]]);
    }
}

/// Columns and rows: a newline, passed over as whitespace or inside a string
/// literal, moves to the next row and back to column 1; any other whitespace character outside a
/// comment, and a token of one character (`§` among them), moves one column
/// on in the same row.
pub proof fn lemma_positions(s: Seq<char>, st: LexState)
    requires
        0 <= st.pos,
        st.pos + 1 < s.len(),
    ensures
        s[st.pos] == '\n' ==> trivia_end(s, st) == trivia_end(
            s,
            (LexState { pos: st.pos + 1, row: st.row + 1, col: 1 }),
        ),
        s[st.pos] != '\n' && s[st.pos] != '#' && whitespace(s[st.pos]) ==> trivia_end(s, st) == trivia_end(
            s,
            (LexState { pos: st.pos + 1, row: st.row, col: st.col + 1 }),
        ),
        s[st.pos] == '\n' ==> step(s, st) == (LexState { pos: st.pos + 1, row: st.row + 1, col: 1 }),
        is_glyph(s[st.pos]) ==> scan(s, st).1 == (LexState {
            pos: st.pos + 1,
            row: st.row,
            col: st.col + 1,
        }),
{
}

/// A comment, `#` up to the end of its line (a `#!` first line among them),
/// yields no token: reading from its `#` gives what reading from the end of
/// its line gives.
pub proof fn lemma_comment_dropped(s: Seq<char>, st: LexState)
    requires
        0 <= st.pos < s.len(),
        s[st.pos] == '#',
    ensures
        lex_step(s, st) == lex_step(s, skip(s, st, find_char(s, st.pos, '\n') - st.pos)),
{
}

/// Once only whitespace and comments are left, `next_token` yields `EOF`
/// with an empty literal and leaves the scanner where it is, so every later
/// call yields the same.
pub proof fn lemma_end_of_input_repeats(s: Seq<char>, st: LexState)
    requires
        0 <= st.pos <= s.len(),
        trivia_end(s, st).pos >= s.len(),
    ensures
        lex_step(s, st).0.kind == TokenType::EOF,
        lex_step(s, st).0.literal == Seq::<char>::empty(),
        lex_step(s, lex_step(s, st).1) == lex_step(s, st),
{
}

} // verus!

verus! {

proof fn lemma_scan_ends_bounds(s: Seq<char>, p: int)
    requires
        0 <= p <= s.len(),
    ensures
        p <= letters_end(s, p) <= s.len(),
        p <= digits_end(s, p) <= s.len(),
    decreases s.len() - p,
{
    if p < s.len() {
        lemma_scan_ends_bounds(s, p + 1);
    }
}

proof fn lemma_trivia_end_bounds(s: Seq<char>, st: LexState)
    requires
        0 <= st.pos <= s.len(),
    ensures
        st.pos <= trivia_end(s, st).pos <= s.len(),
    decreases s.len() - st.pos,
{
    if st.pos < s.len() {
        let c = s[st.pos];
        if c == '\n' {
            lemma_trivia_end_bounds(s, skip(s, LexState { pos: st.pos, row: st.row + 1, col: 0 }, 1));
        } else if c == '#' {
            lemma_find_char_bounds(s, st.pos, '\n');
            lemma_trivia_end_bounds(s, skip(s, st, find_char(s, st.pos, '\n') - st.pos));
        } else if whitespace(c) {
            lemma_trivia_end_bounds(s, skip(s, st, 1));
        }
    }
}

/// Each call of `next_token` that does not yield `EOF` moves forward in the
/// input, and none moves past its end.
pub proof fn lemma_lex_step_progress(s: Seq<char>, st: LexState)
    requires
        0 <= st.pos <= s.len(),
    ensures
        st.pos <= lex_step(s, st).1.pos <= s.len(),
        lex_step(s, st).0.kind != TokenType::EOF ==> st.pos < lex_step(s, st).1.pos,
{
    lemma_trivia_end_bounds(s, st);
    let t = trivia_end(s, st);
    if t.pos < s.len() {
        lemma_scan_ends_bounds(s, t.pos);
        lemma_scan_ends_bounds(s, t.pos + 1);
        lemma_find_char_bounds(s, t.pos + 1, '"');
        lemma_walk_pos(s, t, find_char(s, t.pos + 1, '"') + 1 - t.pos);
        let e = digits_end(s, t.pos);
        let e1 = digits_end(s, t.pos + 1);
        if e < s.len() {
            lemma_scan_ends_bounds(s, e + 1);
        }
        if e1 < s.len() {
            lemma_scan_ends_bounds(s, e1 + 1);
        }
    }
}

/// Every token that successive calls of `next_token` yield from `st`, up to
/// and including the first `EOF`.
pub open spec fn lex_all(s: Seq<char>, st: LexState) -> Seq<TokenModel>
    decreases s.len() - st.pos via lex_all_decreases
{
    let (t, next) = lex_step(s, st);
    if t.kind == TokenType::EOF || !(0 <= st.pos <= s.len()) {
        seq![t]
    } else {
        seq![t] + lex_all(s, next)
    }
}

#[via_fn]
proof fn lex_all_decreases(s: Seq<char>, st: LexState) {
    if 0 <= st.pos <= s.len() {
        lemma_lex_step_progress(s, st);
    }
}

} // verus!

verus! {

/// `s1` from `start1` on and `s2` from `start2` on hold the same characters.
pub open spec fn same_rest(s1: Seq<char>, start1: int, s2: Seq<char>, start2: int) -> bool {
    &&& 0 <= start1 <= s1.len()
    &&& 0 <= start2 <= s2.len()
    &&& s1.len() - start1 == s2.len() - start2
    &&& forall|i: int| 0 <= i < s1.len() - start1 ==> #[trigger] s1[start1 + i] == s2[start2 + i]
}

pub open spec fn shifted(st: LexState, d: int) -> LexState {
    LexState { pos: st.pos + d, row: st.row, col: st.col }
}

proof fn lemma_same_char(s1: Seq<char>, start1: int, s2: Seq<char>, start2: int, q: int)
    requires
        same_rest(s1, start1, s2, start2),
        start1 <= q < s1.len(),
    ensures
        s1[q] == s2[q - (start1 - start2)],
{
    assert(s1[start1 + (q - start1)] == s2[start2 + (q - start1)]);
}

proof fn lemma_shift_ends(s1: Seq<char>, start1: int, s2: Seq<char>, start2: int, q: int, c: char)
    requires
        same_rest(s1, start1, s2, start2),
        start1 <= q <= s1.len(),
    ensures
        letters_end(s1, q) - (start1 - start2) == letters_end(s2, q - (start1 - start2)),
        digits_end(s1, q) - (start1 - start2) == digits_end(s2, q - (start1 - start2)),
        find_char(s1, q, c) - (start1 - start2) == find_char(s2, q - (start1 - start2), c),
    decreases s1.len() - q,
{
    if q < s1.len() {
        lemma_same_char(s1, start1, s2, start2, q);
        lemma_shift_ends(s1, start1, s2, start2, q + 1, c);
    }
}

proof fn lemma_shift_subrange(s1: Seq<char>, start1: int, s2: Seq<char>, start2: int, a: int, b: int)
    requires
        same_rest(s1, start1, s2, start2),
        start1 <= a <= b <= s1.len(),
    ensures
        s1.subrange(a, b) == s2.subrange(a - (start1 - start2), b - (start1 - start2)),
{
    assert forall|i: int| 0 <= i < b - a implies s1.subrange(a, b)[i] == s2.subrange(a - (start1 - start2), b - (start1 - start2))[i] by {
        lemma_same_char(s1, start1, s2, start2, a + i);
    }
    assert(s1.subrange(a, b) =~= s2.subrange(a - (start1 - start2), b - (start1 - start2)));
}

proof fn lemma_shift_walk(s1: Seq<char>, start1: int, s2: Seq<char>, start2: int, st: LexState, n: int)
    requires
        same_rest(s1, start1, s2, start2),
        start1 <= st.pos <= s1.len(),
        0 <= n,
    ensures
        walk(s1, st, n) == shifted(walk(s2, shifted(st, start2 - start1), n), start1 - start2),
        start1 <= walk(s1, st, n).pos <= s1.len(),
    decreases n,
{
    if n > 0 {
        lemma_shift_walk(s1, start1, s2, start2, st, n - 1);
        let w = walk(s1, st, n - 1);
        if w.pos < s1.len() {
            lemma_same_char(s1, start1, s2, start2, w.pos);
        }
    }
}

proof fn lemma_shift_trivia(s1: Seq<char>, start1: int, s2: Seq<char>, start2: int, st: LexState)
    requires
        same_rest(s1, start1, s2, start2),
        start1 <= st.pos <= s1.len(),
    ensures
        trivia_end(s1, st) == shifted(trivia_end(s2, shifted(st, start2 - start1)), start1 - start2),
        start1 <= trivia_end(s1, st).pos <= s1.len(),
    decreases s1.len() - st.pos,
{
    if st.pos < s1.len() {
        lemma_same_char(s1, start1, s2, start2, st.pos);
        let c = s1[st.pos];
        if c == '\n' {
            lemma_shift_trivia(s1, start1, s2, start2, skip(s1, LexState { pos: st.pos, row: st.row + 1, col: 0 }, 1));
        } else if c == '#' {
            lemma_shift_ends(s1, start1, s2, start2, st.pos, '\n');
            lemma_find_char_bounds(s1, st.pos, '\n');
            lemma_shift_trivia(s1, start1, s2, start2, skip(s1, st, find_char(s1, st.pos, '\n') - st.pos));
        } else if whitespace(c) {
            lemma_shift_trivia(s1, start1, s2, start2, skip(s1, st, 1));
        }
    }
}

proof fn lemma_shift_scan(s1: Seq<char>, start1: int, s2: Seq<char>, start2: int, st: LexState)
    requires
        same_rest(s1, start1, s2, start2),
        start1 <= st.pos <= s1.len(),
    ensures
        scan(s1, st).0 == scan(s2, shifted(st, start2 - start1)).0,
        scan(s1, st).1 == shifted(scan(s2, shifted(st, start2 - start1)).1, start1 - start2),
{
    let p = st.pos;
    let d = start1 - start2;
    if p < s1.len() {
        lemma_same_char(s1, start1, s2, start2, p);
        if p + 1 < s1.len() {
            lemma_same_char(s1, start1, s2, start2, p + 1);
        }
        if p + 2 < s1.len() {
            lemma_same_char(s1, start1, s2, start2, p + 2);
            lemma_shift_subrange(s1, start1, s2, start2, p, p + 3);
        }
        if p + 2 <= s1.len() {
            lemma_shift_subrange(s1, start1, s2, start2, p, p + 2);
        }
        lemma_shift_ends(s1, start1, s2, start2, p, '"');
        lemma_shift_ends(s1, start1, s2, start2, p + 1, '"');
        lemma_scan_ends_bounds(s1, p);
        lemma_scan_ends_bounds(s1, p + 1);
        lemma_find_char_bounds(s1, p + 1, '"');
        lemma_shift_subrange(s1, start1, s2, start2, p, letters_end(s1, p));
        lemma_shift_subrange(s1, start1, s2, start2, p + 1, find_char(s1, p + 1, '"'));
        lemma_shift_walk(s1, start1, s2, start2, st, find_char(s1, p + 1, '"') + 1 - p);
        let e0 = digits_end(s1, p);
        let e1 = digits_end(s1, p + 1);
        lemma_shift_subrange(s1, start1, s2, start2, p, e0);
        lemma_shift_subrange(s1, start1, s2, start2, p, e1);
        if e0 < s1.len() {
            lemma_same_char(s1, start1, s2, start2, e0);
            lemma_shift_ends(s1, start1, s2, start2, e0 + 1, '"');
            lemma_scan_ends_bounds(s1, e0 + 1);
            lemma_shift_subrange(s1, start1, s2, start2, p, digits_end(s1, e0 + 1));
        }
        if e1 < s1.len() {
            lemma_same_char(s1, start1, s2, start2, e1);
            lemma_shift_ends(s1, start1, s2, start2, e1 + 1, '"');
            lemma_scan_ends_bounds(s1, e1 + 1);
            lemma_shift_subrange(s1, start1, s2, start2, p, digits_end(s1, e1 + 1));
        }
        if e0 >= s1.len() {
            assert(e0 == s1.len());
        }
    }
}

} // verus!

verus! {

proof fn lemma_shift_lex_all(s1: Seq<char>, start1: int, s2: Seq<char>, start2: int, st: LexState)
    requires
        same_rest(s1, start1, s2, start2),
        start1 <= st.pos <= s1.len(),
    ensures
        lex_all(s1, st) == lex_all(s2, shifted(st, start2 - start1)),
    decreases s1.len() - st.pos,
{
    lemma_shift_trivia(s1, start1, s2, start2, st);
    lemma_shift_scan(s1, start1, s2, start2, trivia_end(s1, st));
    lemma_lex_step_progress(s1, st);
    let (t, next) = lex_step(s1, st);
    if t.kind != TokenType::EOF {
        lemma_shift_lex_all(s1, start1, s2, start2, next);
        assert(lex_all(s1, st) == seq![t] + lex_all(s1, next));
    }
}

proof fn lemma_lex_all_same_trivia(s: Seq<char>, a: LexState, b: LexState)
    requires
        0 <= a.pos <= s.len(),
        0 <= b.pos <= s.len(),
        trivia_end(s, a) == trivia_end(s, b),
    ensures
        lex_all(s, a) == lex_all(s, b),
{
}

/// A comment line yields no token: `#`, then text without a newline, then a
/// newline, in front of `rest` gives every token, with its row and column,
/// that a bare newline in front of `rest` gives. A `#!` first line is such
/// a line.
pub proof fn lemma_comment_line_yields_no_token(comment: Seq<char>, rest: Seq<char>)
    requires
        forall|i: int| 0 <= i < comment.len() ==> comment[i] != '\n',
    ensures
        lex_all(seq!['#'] + comment + seq!['\n'] + rest, start_state()) == lex_all(
            seq!['\n'] + rest,
            start_state(),
        ),
{
    let s1 = seq!['#'] + comment + seq!['\n'] + rest;
    let s2 = seq!['\n'] + rest;
    let n = comment.len() as int;
    assert(s1[0] == '#');
    assert(s1[n + 1] == '\n');
    assert(s2[0] == '\n');
    assert forall|i: int| 0 <= i < n + 1 implies s1[i] != '\n' by {
        if i > 0 {
            assert(s1[i] == comment[i - 1]);
        }
    }
    assert forall|i: int| 0 <= i < s1.len() - (n + 2) implies #[trigger] s1[(n + 2) + i] == s2[1 + i] by {
        assert(s1[(n + 2) + i] == rest[i]);
        assert(s2[1 + i] == rest[i]);
    }
    assert(same_rest(s1, n + 2, s2, 1));
    let st0 = start_state();
    // in s1 the comment runs up to its newline at n + 1
    assert forall|q: int| 0 <= q <= n + 1 implies find_char(s1, q, '\n') == n + 1 by {
        lemma_find_from(s1, q, n + 1);
    }
    let at_newline1 = skip(s1, st0, n + 1);
    let after1 = skip(s1, LexState { pos: n + 1, row: 2, col: 0 }, 1);
    let after2 = skip(s2, LexState { pos: 0, row: 2, col: 0 }, 1);
    assert(trivia_end(s1, st0) == trivia_end(s1, at_newline1));
    assert(at_newline1.pos == n + 1);
    assert(trivia_end(s1, at_newline1) == trivia_end(s1, after1));
    assert(trivia_end(s2, st0) == trivia_end(s2, after2));
    assert(after1 == shifted(after2, n + 1));
    lemma_lex_all_same_trivia(s1, st0, after1);
    lemma_lex_all_same_trivia(s2, st0, after2);
    lemma_shift_lex_all(s1, n + 2, s2, 1, after1);
    assert(shifted(after1, 1 - (n + 2)) == after2);
}

proof fn lemma_find_from(s: Seq<char>, q: int, e: int)
    requires
        0 <= q <= e < s.len(),
        s[e] == '\n',
        forall|i: int| q <= i < e ==> s[i] != '\n',
    ensures
        find_char(s, q, '\n') == e,
    decreases e - q,
{
    if q < e {
        lemma_find_from(s, q + 1, e);
    }
}

} // verus!
