use vstd::prelude::*;
use vstd::string::StrSliceExecFns;

verus! {

/// A token of the arithmetic language.
#[derive(Debug)]
pub enum Token {
    Number(i32),
    Identifier(String),
    Plus,
    Minus,
    Times,
    Divide,
    Assignment,
    Semicolon,
    OpenParen,
    CloseParen,
    Variable,
    Computation,
    EOF,
}

/// The mathematical value of a token: identifiers are character sequences.
pub enum TokenView {
    Number(i32),
    Identifier(Seq<char>),
    Plus,
    Minus,
    Times,
    Divide,
    Assignment,
    Semicolon,
    OpenParen,
    CloseParen,
    Variable,
    Computation,
    EOF,
}

impl View for Token {
    type V = TokenView;

    open spec fn view(&self) -> TokenView {
        match self {
            Token::Number(v) => TokenView::Number(*v),
            Token::Identifier(s) => TokenView::Identifier(s@),
            Token::Plus => TokenView::Plus,
            Token::Minus => TokenView::Minus,
            Token::Times => TokenView::Times,
            Token::Divide => TokenView::Divide,
            Token::Assignment => TokenView::Assignment,
            Token::Semicolon => TokenView::Semicolon,
            Token::OpenParen => TokenView::OpenParen,
            Token::CloseParen => TokenView::CloseParen,
            Token::Variable => TokenView::Variable,
            Token::Computation => TokenView::Computation,
            Token::EOF => TokenView::EOF,
        }
    }
}

impl PartialEq for Token {
    fn eq(&self, other: &Token) -> (r: bool) {
        match (self, other) {
            (Token::Number(a), Token::Number(b)) => *a == *b,
            (Token::Identifier(a), Token::Identifier(b)) => *a == *b,
            (Token::Plus, Token::Plus) => true,
            (Token::Minus, Token::Minus) => true,
            (Token::Times, Token::Times) => true,
            (Token::Divide, Token::Divide) => true,
            (Token::Assignment, Token::Assignment) => true,
            (Token::Semicolon, Token::Semicolon) => true,
            (Token::OpenParen, Token::OpenParen) => true,
            (Token::CloseParen, Token::CloseParen) => true,
            (Token::Variable, Token::Variable) => true,
            (Token::Computation, Token::Computation) => true,
            (Token::EOF, Token::EOF) => true,
            _ => false,
        }
    }
}

impl vstd::std_specs::cmp::PartialEqSpecImpl for Token {
    open spec fn obeys_eq_spec() -> bool {
        true
    }

    open spec fn eq_spec(&self, other: &Token) -> bool {
        self@ == other@
    }
}

/// Why the text could not be split into tokens.
#[derive(Debug, Clone, Copy, PartialEq, Eq, Structural)]
pub enum LexError {
    /// The byte at `pos` cannot start a token (a `<` not followed by `-` counts as such).
    UnexpectedCharacter { pos: usize, found: u8 },
    /// The digits starting at `pos` denote a number above `i32::MAX`.
    NumberOutOfRange { pos: usize },
    /// The text ended at `pos` before its terminating `.`.
    UnexpectedEnd { pos: usize },
}

/// The classes of bytes that the scanner consumes in runs.
#[derive(Clone, Copy, PartialEq, Eq, Structural)]
pub enum CharClass {
    Space,
    Digit,
    Word,
}

pub open spec fn is_space(c: u8) -> bool {
    c == 32 || (9 <= c && c <= 13)
}

pub open spec fn is_digit(c: u8) -> bool {
    48 <= c && c <= 57
}

pub open spec fn is_letter(c: u8) -> bool {
    (65 <= c && c <= 90) || (97 <= c && c <= 122)
}

pub open spec fn in_class(c: u8, class: CharClass) -> bool {
    match class {
        CharClass::Space => is_space(c),
        CharClass::Digit => is_digit(c),
        CharClass::Word => is_letter(c) || is_digit(c) || c == 95,
    }
}

/// The byte at `pos`, or the sentinel `0` past the end of the text.
pub open spec fn byte_at(input: Seq<u8>, pos: int) -> u8 {
    if 0 <= pos < input.len() {
        input[pos]
    } else {
        0
    }
}

/// The end of the longest run of bytes of `class` that starts at `pos`.
pub open spec fn span(input: Seq<u8>, pos: int, class: CharClass) -> int
    decreases input.len() - pos,
{
    if 0 <= pos < input.len() && in_class(input[pos], class) {
        span(input, pos + 1, class)
    } else {
        pos
    }
}

/// Where the next token starts: past the whitespace at `pos`.
pub open spec fn token_start(input: Seq<u8>, pos: int) -> int {
    span(input, pos, CharClass::Space)
}

/// The value of a run of decimal digits.
pub open spec fn digits_value(d: Seq<u8>) -> int
    decreases d.len(),
{
    if d.len() == 0 {
        0
    } else {
        digits_value(d.drop_last()) * 10 + (d.last() - 48)
    }
}

pub open spec fn chars_of(bytes: Seq<u8>) -> Seq<char> {
    bytes.map_values(|b: u8| b as char)
}

pub open spec fn var_word() -> Seq<u8> {
    seq![118u8, 97, 114]
}

pub open spec fn computation_word() -> Seq<u8> {
    seq![99u8, 111, 109, 112, 117, 116, 97, 116, 105, 111, 110]
}

/// The token that a run of word characters stands for.
pub open spec fn word_token(w: Seq<u8>) -> TokenView {
    if w == var_word() {
        TokenView::Variable
    } else if w == computation_word() {
        TokenView::Computation
    } else {
        TokenView::Identifier(chars_of(w))
    }
}

/// The token that a single punctuation byte stands for, if any.
pub open spec fn punctuation(c: u8) -> Option<TokenView> {
    if c == 43 {
        Some(TokenView::Plus)
    } else if c == 45 {
        Some(TokenView::Minus)
    } else if c == 42 {
        Some(TokenView::Times)
    } else if c == 47 {
        Some(TokenView::Divide)
    } else if c == 59 {
        Some(TokenView::Semicolon)
    } else if c == 40 {
        Some(TokenView::OpenParen)
    } else if c == 41 {
        Some(TokenView::CloseParen)
    } else {
        None
    }
}

/// Scanning one token from `pos`: the token and the position just past it.
/// The terminating `.` is not consumed, so the end of input repeats.
pub open spec fn lex(input: Seq<u8>, pos: int) -> Result<(TokenView, int), LexError> {
    let start = token_start(input, pos);
    let c = byte_at(input, start);
    if is_digit(c) {
        let end = span(input, start, CharClass::Digit);
        let v = digits_value(input.subrange(start, end));
        if v <= i32::MAX {
            Ok((TokenView::Number(v as i32), end))
        } else {
            Err(LexError::NumberOutOfRange { pos: start as usize })
        }
    } else if is_letter(c) {
        let end = span(input, start, CharClass::Word);
        Ok((word_token(input.subrange(start, end)), end))
    } else if punctuation(c) is Some {
        Ok((punctuation(c)->Some_0, start + 1))
    } else if c == 60 {
        if byte_at(input, start + 1) == 45 {
            Ok((TokenView::Assignment, start + 2))
        } else {
            Err(LexError::UnexpectedCharacter { pos: start as usize, found: c })
        }
    } else if c == 46 {
        Ok((TokenView::EOF, start))
    } else if start >= input.len() {
        Err(LexError::UnexpectedEnd { pos: start as usize })
    } else {
        Err(LexError::UnexpectedCharacter { pos: start as usize, found: c })
    }
}

/// The token part of `lex`.
pub open spec fn lex_token(input: Seq<u8>, pos: int) -> Result<TokenView, LexError> {
    match lex(input, pos) {
        Ok((t, _)) => Ok(t),
        Err(e) => Err(e),
    }
}

pub open spec fn token_result_view(r: Result<Token, LexError>) -> Result<TokenView, LexError> {
    match r {
        Ok(t) => Ok(t@),
        Err(e) => Err(e),
    }
}

pub proof fn lemma_span_bounds(input: Seq<u8>, pos: int, class: CharClass)
    requires
        0 <= pos <= input.len(),
    ensures
        pos <= span(input, pos, class) <= input.len(),
        forall|i: int| pos <= i < span(input, pos, class) ==> in_class(#[trigger] input[i], class),
    decreases input.len() - pos,
{
    if pos < input.len() && in_class(input[pos], class) {
        lemma_span_bounds(input, pos + 1, class);
    }
}

pub proof fn lemma_span_idempotent(input: Seq<u8>, pos: int, class: CharClass)
    requires
        0 <= pos <= input.len(),
    ensures
        span(input, span(input, pos, class), class) == span(input, pos, class),
    decreases input.len() - pos,
{
    if pos < input.len() && in_class(input[pos], class) {
        lemma_span_idempotent(input, pos + 1, class);
    }
}

pub proof fn lemma_digits_value_prefix(d: Seq<u8>, k: int)
    requires
        0 <= k <= d.len(),
        forall|i: int| 0 <= i < d.len() ==> is_digit(#[trigger] d[i]),
    ensures
        0 <= digits_value(d.subrange(0, k)) <= digits_value(d),
    decreases d.len(),
{
    if k == d.len() {
        assert(d.subrange(0, k) =~= d);
        lemma_digits_value_nonneg(d);
    } else {
        lemma_digits_value_prefix(d.drop_last(), k);
        assert(d.drop_last().subrange(0, k) =~= d.subrange(0, k));
        lemma_digits_value_nonneg(d.drop_last());
    }
}

pub proof fn lemma_digits_value_nonneg(d: Seq<u8>)
    requires
        forall|i: int| 0 <= i < d.len() ==> is_digit(#[trigger] d[i]),
    ensures
        0 <= digits_value(d),
    decreases d.len(),
{
    if d.len() > 0 {
        lemma_digits_value_nonneg(d.drop_last());
    }
}

/// A scanned token lies within the text, and every token but the end of input
/// moves the cursor forward.
pub proof fn lemma_lex_advances(input: Seq<u8>, pos: int)
    requires
        0 <= pos <= input.len(),
    ensures
        lex(input, pos) matches Ok((t, next)) ==> pos <= next <= input.len() && (t != TokenView::EOF
            ==> pos < next),
{
    let start = token_start(input, pos);
    lemma_span_bounds(input, pos, CharClass::Space);
    if start < input.len() {
        lemma_span_bounds(input, start + 1, CharClass::Digit);
        lemma_span_bounds(input, start + 1, CharClass::Word);
    }
}

/// Once the end of input has been scanned, scanning again yields it again, at the same place.
pub proof fn lemma_end_of_input_is_terminal(input: Seq<u8>, pos: int)
    requires
        0 <= pos <= input.len(),
        lex(input, pos) matches Ok((TokenView::EOF, _)),
    ensures
        lex(input, lex(input, pos)->Ok_0.1) == lex(input, pos),
{
    lemma_span_idempotent(input, pos, CharClass::Space);
}

/// A scanner over the bytes of a program text, with a cursor that only moves forward.
pub struct Tokenizer {
    input: Vec<u8>,
    pos: usize,
}

impl Tokenizer {
    /// The bytes being scanned.
    pub closed spec fn text(&self) -> Seq<u8> {
        self.input@
    }

    /// The cursor.
    pub closed spec fn position(&self) -> int {
        self.pos as int
    }

    pub closed spec fn wf(&self) -> bool {
        self.pos <= self.input@.len()
    }

    pub proof fn lemma_cursor_in_text(&self)
        requires
            self.wf(),
        ensures
            0 <= self.position() <= self.text().len(),
    {
    }

    /// Creates a tokenizer at the start of the UTF-8 bytes of `input_string`.
    pub fn new(input_string: String) -> (t: Tokenizer)
        ensures
            t.wf(),
            t.text() == vstd::utf8::encode_utf8(input_string@),
            t.position() == 0,
    {
        Tokenizer { input: input_string.as_str().as_bytes_vec(), pos: 0 }
    }

    /// The cursor, as an offset into the bytes.
    pub fn cursor(&self) -> (r: usize)
        ensures
            r as int == self.position(),
    {
        self.pos
    }

    fn peek_byte(&self) -> (c: u8)
        ensures
            c == byte_at(self.text(), self.position()),
    {
        if self.pos < self.input.len() {
            self.input[self.pos]
        } else {
            0
        }
    }

    /// The character under the cursor, or `'\0'` past the end of the text.
    pub fn peek_char(&self) -> (c: char)
        ensures
            c == byte_at(self.text(), self.position()) as char,
    {
        self.peek_byte() as char
    }

    /// The next token, without moving the cursor: calling it again gives the same
    /// token, and so does a following `next_token`.
    pub fn peek_token(&mut self) -> (r: Result<Token, LexError>)
        requires
            old(self).wf(),
        ensures
            final(self).wf(),
            final(self).text() == old(self).text(),
            final(self).position() == old(self).position(),
            token_result_view(r) == lex_token(old(self).text(), old(self).position()),
    {
        let current_pos = self.pos;
        let next_token = self.next_token();
        self.pos = current_pos;
        next_token
    }

    /// Consumes the byte under the cursor.
    fn next_char(&mut self) -> (c: char)
        requires
            old(self).wf(),
            old(self).position() < old(self).text().len(),
        ensures
            final(self).wf(),
            final(self).text() == old(self).text(),
            final(self).position() == old(self).position() + 1,
            c == old(self).text()[old(self).position()] as char,
    {
        // The length is a `usize`, so the cursor below it can move on by one.
        let len = self.input.len();
        proof {
            assert(self.pos < len);
        }
        let c = self.input[self.pos] as char;
        self.pos = self.pos + 1;
        c
    }

    fn class_contains(c: u8, class: CharClass) -> (r: bool)
        ensures
            r == in_class(c, class),
    {
        match class {
            CharClass::Space => c == 32 || (9 <= c && c <= 13),
            CharClass::Digit => 48 <= c && c <= 57,
            CharClass::Word => (65 <= c && c <= 90) || (97 <= c && c <= 122) || (48 <= c && c
                <= 57) || c == 95,
        }
    }

    /// Moves the cursor past the run of bytes of `class` under it.
    fn consume_while(&mut self, class: CharClass)
        requires
            old(self).wf(),
        ensures
            final(self).wf(),
            final(self).text() == old(self).text(),
            final(self).position() == span(old(self).text(), old(self).position(), class),
    {
        let ghost start = self.pos as int;
        while self.pos < self.input.len() && Self::class_contains(self.input[self.pos], class)
            invariant
                self.wf(),
                self.text() == old(self).text(),
                span(self.text(), start, class) == span(self.text(), self.position(), class),
            decreases self.input@.len() - self.pos,
        {
            self.pos = self.pos + 1;
        }
    }

    /// Moves the cursor past whitespace.
    pub fn consume_whitespace(&mut self)
        requires
            old(self).wf(),
        ensures
            final(self).wf(),
            final(self).text() == old(self).text(),
            final(self).position() == token_start(old(self).text(), old(self).position()),
    {
        self.consume_while(CharClass::Space);
    }

    /// Where the next token starts, without moving the cursor.
    pub fn token_start(&self) -> (r: usize)
        requires
            self.wf(),
        ensures
            r as int == token_start(self.text(), self.position()),
    {
        let mut p = self.pos;
        while p < self.input.len() && Self::class_contains(self.input[p], CharClass::Space)
            invariant
                self.pos <= p <= self.input@.len(),
                token_start(self.text(), self.position()) == span(
                    self.text(),
                    p as int,
                    CharClass::Space,
                ),
            decreases self.input@.len() - p,
        {
            p = p + 1;
        }
        p
    }
    /// Whether the bytes in `start..end` spell `word`.
    fn word_is(&self, start: usize, end: usize, word: &[u8]) -> (r: bool)
        requires
            start <= end <= self.text().len(),
        ensures
            r == (self.text().subrange(start as int, end as int) == word@),
    {
        if end - start != word.len() {
            return false;
        }
        let mut i: usize = 0;
        while i < word.len()
            invariant
                start <= end <= self.input@.len(),
                end - start == word@.len(),
                i <= word@.len(),
                forall|j: int| 0 <= j < i ==> self.input@[start + j] == word@[j],
            decreases word@.len() - i,
        {
            if self.input[start + i] != word[i] {
                return false;
            }
            i = i + 1;
        }
        assert(self.text().subrange(start as int, end as int) =~= word@);
        true
    }

    /// Scans the run of digits under the cursor into a `Number`.
    fn tokenize_number(&mut self) -> (r: Result<Token, LexError>)
        requires
            old(self).wf(),
            is_digit(byte_at(old(self).text(), old(self).position())),
        ensures
            final(self).wf(),
            final(self).text() == old(self).text(),
            old(self).position() <= final(self).position(),
            ({
                let start = old(self).position();
                let end = span(old(self).text(), start, CharClass::Digit);
                let v = digits_value(old(self).text().subrange(start, end));
                &&& v <= i32::MAX ==> r == Ok::<Token, LexError>(Token::Number(v as i32))
                    && final(self).position() == end
                &&& v > i32::MAX ==> r == Err::<Token, LexError>(
                    LexError::NumberOutOfRange { pos: start as usize },
                )
            }),
    {
        let start = self.pos;
        self.consume_while(CharClass::Digit);
        let end = self.pos;
        proof {
            lemma_span_bounds(self.input@, start as int, CharClass::Digit);
        }
        let ghost digits = self.input@.subrange(start as int, end as int);
        let mut value: i64 = 0;
        let mut i: usize = start;
        while i < end
            invariant
                self.wf(),
                self.text() == old(self).text(),
                self.position() == end,
                start as int == old(self).position(),
                end as int == span(old(self).text(), start as int, CharClass::Digit),
                start <= i <= end <= self.input@.len(),
                digits == self.input@.subrange(start as int, end as int),
                forall|j: int| 0 <= j < digits.len() ==> is_digit(#[trigger] digits[j]),
                value == digits_value(self.input@.subrange(start as int, i as int)),
                0 <= value <= i32::MAX,
            decreases end - i,
        {
            let d = self.input[i];
            assert(is_digit(digits[i - start]));
            assert(self.input@.subrange(start as int, i + 1).drop_last() =~= self.input@.subrange(
                start as int,
                i as int,
            ));
            value = value * 10 + (d - 48) as i64;
            i = i + 1;
            assert(value == digits_value(self.input@.subrange(start as int, i as int)));
            if value > 2147483647 {
                proof {
                    assert(digits.subrange(0, i - start) =~= self.input@.subrange(
                        start as int,
                        i as int,
                    ));
                    lemma_digits_value_prefix(digits, i - start);
                }
                return Err(LexError::NumberOutOfRange { pos: start });
            }
        }
        Ok(Token::Number(value as i32))
    }

    /// Scans the run of word characters under the cursor into a keyword or an `Identifier`.
    fn tokenize_identifier_or_keyword(&mut self) -> (r: Token)
        requires
            old(self).wf(),
        ensures
            final(self).wf(),
            final(self).text() == old(self).text(),
            final(self).position() == span(old(self).text(), old(self).position(), CharClass::Word),
            r@ == word_token(old(self).text().subrange(old(self).position(), final(self).position())),
    {
        let start = self.pos;
        self.consume_while(CharClass::Word);
        let end = self.pos;
        proof {
            lemma_span_bounds(self.input@, start as int, CharClass::Word);
        }
        if self.word_is(start, end, &[118u8, 97, 114]) {
            return Token::Variable;
        }
        if self.word_is(start, end, &[99u8, 111, 109, 112, 117, 116, 97, 116, 105, 111, 110]) {
            return Token::Computation;
        }
        let mut identifier = String::new();
        let mut i: usize = start;
        while i < end
            invariant
                start <= i <= end <= self.input@.len(),
                identifier@ == chars_of(self.input@.subrange(start as int, i as int)),
            decreases end - i,
        {
            push_char(&mut identifier, self.input[i] as char);
            assert(chars_of(self.input@.subrange(start as int, i + 1)) =~= chars_of(
                self.input@.subrange(start as int, i as int),
            ).push(self.input@[i as int] as char));
            i = i + 1;
        }
        Token::Identifier(identifier)
    }

    /// Scans the next token and moves the cursor past it; the terminating `.`
    /// is left under the cursor.
    pub fn next_token(&mut self) -> (r: Result<Token, LexError>)
        requires
            old(self).wf(),
        ensures
            final(self).wf(),
            final(self).text() == old(self).text(),
            token_result_view(r) == lex_token(old(self).text(), old(self).position()),
            r is Ok ==> final(self).position() == lex(old(self).text(), old(self).position())->Ok_0.1,
            old(self).position() <= final(self).position(),
            r matches Ok(t) && t != Token::EOF ==> old(self).position() < final(self).position(),
    {
        proof {
            lemma_lex_advances(self.input@, self.pos as int);
        }
        self.consume_whitespace();
        proof {
            lemma_span_bounds(self.input@, old(self).pos as int, CharClass::Space);
        }
        let start = self.pos;
        let c = self.peek_byte();
        if 48 <= c && c <= 57 {
            return self.tokenize_number();
        }
        if (65 <= c && c <= 90) || (97 <= c && c <= 122) {
            return Ok(self.tokenize_identifier_or_keyword());
        }
        if c == 43 {
            self.next_char();
            Ok(Token::Plus)
        } else if c == 45 {
            self.next_char();
            Ok(Token::Minus)
        } else if c == 42 {
            self.next_char();
            Ok(Token::Times)
        } else if c == 47 {
            self.next_char();
            Ok(Token::Divide)
        } else if c == 59 {
            self.next_char();
            Ok(Token::Semicolon)
        } else if c == 40 {
            self.next_char();
            Ok(Token::OpenParen)
        } else if c == 41 {
            self.next_char();
            Ok(Token::CloseParen)
        } else if c == 60 {
            self.next_char();
            if self.peek_byte() == 45 {
                self.next_char();
                Ok(Token::Assignment)
            } else {
                Err(LexError::UnexpectedCharacter { pos: start, found: c })
            }
        } else if c == 46 {
            Ok(Token::EOF)
        } else if start >= self.input.len() {
            Err(LexError::UnexpectedEnd { pos: start })
        } else {
            Err(LexError::UnexpectedCharacter { pos: start, found: c })
        }
    }
}

/// Relies on `String::push`: appends one character at the end.
#[verifier::external_body]
fn push_char(s: &mut String, c: char)
    ensures
        final(s)@ == old(s)@.push(c),
{
    s.push(c)
}

} // verus!
