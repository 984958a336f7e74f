use vstd::prelude::*;
use crate::symbols::SymbolTable;
use crate::tokenizer::{lemma_end_of_input_is_terminal, lemma_lex_advances, lex, token_start, LexError, Token, TokenView, Tokenizer};

verus! {

/// Why a program was rejected. Positions are byte offsets into the program text.
#[derive(Debug)]
pub enum ParseError {
    /// The text could not be split into tokens.
    Lexical(LexError),
    /// The token `found` at `pos` is not the `expected` one that the grammar requires there.
    ExpectedToken { pos: usize, expected: Token, found: Token },
    /// A declaration names no variable at `pos`.
    ExpectedIdentifier { pos: usize },
    /// The variable at `pos` has not been declared.
    UndefinedVariable { pos: usize, name: String },
    /// The divisor of the `/` at `pos` evaluated to zero.
    DivideByZero { pos: usize },
    /// The operation at `pos` leaves the range of `i32`.
    Overflow { pos: usize },
    /// The token `found` at `pos` cannot start a factor.
    UnexpectedFactor { pos: usize, found: Token },
    /// A statement is followed at `pos` by `found`, which is neither `;` nor the end of input.
    UnexpectedEndOfStatement { pos: usize, found: Token },
}

/// The mathematical value of a `ParseError`.
pub enum ParseErrorView {
    Lexical(LexError),
    ExpectedToken { pos: usize, expected: TokenView, found: TokenView },
    ExpectedIdentifier { pos: usize },
    UndefinedVariable { pos: usize, name: Seq<char> },
    DivideByZero { pos: usize },
    Overflow { pos: usize },
    UnexpectedFactor { pos: usize, found: TokenView },
    UnexpectedEndOfStatement { pos: usize, found: TokenView },
}

impl View for ParseError {
    type V = ParseErrorView;

    open spec fn view(&self) -> ParseErrorView {
        match self {
            ParseError::Lexical(e) => ParseErrorView::Lexical(*e),
            ParseError::ExpectedToken { pos, expected, found } => ParseErrorView::ExpectedToken {
                pos: *pos,
                expected: expected@,
                found: found@,
            },
            ParseError::ExpectedIdentifier { pos } => ParseErrorView::ExpectedIdentifier { pos: *pos },
            ParseError::UndefinedVariable { pos, name } => ParseErrorView::UndefinedVariable {
                pos: *pos,
                name: name@,
            },
            ParseError::DivideByZero { pos } => ParseErrorView::DivideByZero { pos: *pos },
            ParseError::Overflow { pos } => ParseErrorView::Overflow { pos: *pos },
            ParseError::UnexpectedFactor { pos, found } => ParseErrorView::UnexpectedFactor {
                pos: *pos,
                found: found@,
            },
            ParseError::UnexpectedEndOfStatement { pos, found } => {
                ParseErrorView::UnexpectedEndOfStatement { pos: *pos, found: found@ }
            },
        }
    }
}

/// Variable names and their values.
pub type Env = Map<Seq<char>, i32>;

/// The start of the token at `pos`, as reported in errors.
pub open spec fn at(input: Seq<u8>, pos: int) -> usize {
    token_start(input, pos) as usize
}

/// `to` lies past `from`, within the text.
pub open spec fn advances(input: Seq<u8>, from: int, to: int) -> bool {
    from < to <= input.len()
}

/// Division truncating toward zero.
pub open spec fn trunc_div(a: int, b: int) -> int {
    let q = if a >= 0 {
        if b > 0 {
            a / b
        } else {
            a / (-b)
        }
    } else {
        if b > 0 {
            (-a) / b
        } else {
            (-a) / (-b)
        }
    };
    if (a < 0) != (b < 0) && a != 0 {
        -q
    } else {
        q
    }
}

/// The exact result of `a op b` for an arithmetic operator token.
pub open spec fn arith(op: TokenView, a: i32, b: i32) -> int {
    match op {
        TokenView::Plus => a + b,
        TokenView::Minus => a - b,
        TokenView::Times => a * b,
        _ => trunc_div(a as int, b as int),
    }
}

pub open spec fn fits_i32(v: int) -> bool {
    i32::MIN <= v <= i32::MAX
}

/// Requiring token `t` at `pos`: the position past it.
pub open spec fn expect(input: Seq<u8>, pos: int, t: TokenView) -> Result<int, ParseErrorView> {
    match lex(input, pos) {
        Err(e) => Err(ParseErrorView::Lexical(e)),
        Ok((u, next)) => if u == t {
            Ok(next)
        } else {
            Err(ParseErrorView::ExpectedToken { pos: at(input, pos), expected: t, found: u })
        },
    }
}

/// `factor := number | identifier | "(" expression ")"`: its value and the position past it.
pub open spec fn factor_value(input: Seq<u8>, pos: int, env: Env) -> Result<
    (i32, int),
    ParseErrorView,
>
    decreases input.len() - pos, 0int,
{
    match lex(input, pos) {
        Err(e) => Err(ParseErrorView::Lexical(e)),
        Ok((TokenView::Number(v), next)) => Ok((v, next)),
        Ok((TokenView::Identifier(name), next)) => if env.contains_key(name) {
            Ok((env[name], next))
        } else {
            Err(ParseErrorView::UndefinedVariable { pos: at(input, pos), name })
        },
        Ok((TokenView::OpenParen, next)) => if advances(input, pos, next) {
            match expression_value(input, next, env) {
                Err(e) => Err(e),
                Ok((v, after)) => match expect(input, after, TokenView::CloseParen) {
                    Err(e) => Err(e),
                    Ok(end) => Ok((v, end)),
                },
            }
        } else {
            Err(ParseErrorView::UnexpectedFactor { pos: at(input, pos), found: TokenView::OpenParen })
        },
        Ok((t, _)) => Err(ParseErrorView::UnexpectedFactor { pos: at(input, pos), found: t }),
    }
}

/// Applies `op`, found at byte `op_at`, to `acc` and the operand `b`.
pub open spec fn combine(op_at: usize, op: TokenView, acc: i32, b: i32) -> Result<
    i32,
    ParseErrorView,
> {
    if op == TokenView::Divide && b == 0 {
        Err(ParseErrorView::DivideByZero { pos: op_at })
    } else if fits_i32(arith(op, acc, b)) {
        Ok(arith(op, acc, b) as i32)
    } else {
        Err(ParseErrorView::Overflow { pos: op_at })
    }
}

/// `{ ("*" | "/") factor }` after a term's value so far, `acc`, folded from the left.
pub open spec fn term_rest(input: Seq<u8>, pos: int, acc: i32, env: Env) -> Result<
    (i32, int),
    ParseErrorView,
>
    decreases input.len() - pos, 1int,
{
    match lex(input, pos) {
        Err(e) => Err(ParseErrorView::Lexical(e)),
        Ok((op, next)) => if (op == TokenView::Times || op == TokenView::Divide) && advances(
            input,
            pos,
            next,
        ) {
            match factor_value(input, next, env) {
                Err(e) => Err(e),
                Ok((b, after)) => match combine(at(input, pos), op, acc, b) {
                    Err(e) => Err(e),
                    Ok(v) => if advances(input, pos, after) {
                        term_rest(input, after, v, env)
                    } else {
                        Ok((v, after))
                    },
                },
            }
        } else {
            Ok((acc, pos))
        },
    }
}

/// `term := factor { ("*" | "/") factor }`.
pub open spec fn term_value(input: Seq<u8>, pos: int, env: Env) -> Result<(i32, int), ParseErrorView>
    decreases input.len() - pos, 2int,
{
    match factor_value(input, pos, env) {
        Err(e) => Err(e),
        Ok((v, after)) => if pos <= after <= input.len() {
            term_rest(input, after, v, env)
        } else {
            Ok((v, after))
        },
    }
}

/// `{ ("+" | "-") term }` after an expression's value so far, `acc`, folded from the left.
pub open spec fn expression_rest(input: Seq<u8>, pos: int, acc: i32, env: Env) -> Result<
    (i32, int),
    ParseErrorView,
>
    decreases input.len() - pos, 3int,
{
    match lex(input, pos) {
        Err(e) => Err(ParseErrorView::Lexical(e)),
        Ok((op, next)) => if (op == TokenView::Plus || op == TokenView::Minus) && advances(
            input,
            pos,
            next,
        ) {
            match term_value(input, next, env) {
                Err(e) => Err(e),
                Ok((b, after)) => match combine(at(input, pos), op, acc, b) {
                    Err(e) => Err(e),
                    Ok(v) => if advances(input, pos, after) {
                        expression_rest(input, after, v, env)
                    } else {
                        Ok((v, after))
                    },
                },
            }
        } else {
            Ok((acc, pos))
        },
    }
}

/// `expression := term { ("+" | "-") term }`.
pub open spec fn expression_value(input: Seq<u8>, pos: int, env: Env) -> Result<
    (i32, int),
    ParseErrorView,
>
    decreases input.len() - pos, 4int,
{
    match term_value(input, pos, env) {
        Err(e) => Err(e),
        Ok((v, after)) => if pos <= after <= input.len() {
            expression_rest(input, after, v, env)
        } else {
            Ok((v, after))
        },
    }
}

/// `declaration := "var" identifier "<-" expression ";"`, from just past `var`:
/// the position past it and the bindings with the new one.
pub open spec fn declaration(input: Seq<u8>, pos: int, env: Env) -> Result<(int, Env), ParseErrorView> {
    match lex(input, pos) {
        Err(e) => Err(ParseErrorView::Lexical(e)),
        Ok((TokenView::Identifier(name), next)) => match expect(input, next, TokenView::Assignment) {
            Err(e) => Err(e),
            Ok(p) => match expression_value(input, p, env) {
                Err(e) => Err(e),
                Ok((v, after)) => match expect(input, after, TokenView::Semicolon) {
                    Err(e) => Err(e),
                    Ok(end) => Ok((end, env.insert(name, v))),
                },
            },
        },
        Ok(_) => Err(ParseErrorView::ExpectedIdentifier { pos: at(input, pos) }),
    }
}

/// `{ declaration }`: the position past the declarations and the bindings they make.
pub open spec fn declarations(input: Seq<u8>, pos: int, env: Env) -> Result<(int, Env), ParseErrorView>
    decreases input.len() - pos,
{
    match lex(input, pos) {
        Err(e) => Err(ParseErrorView::Lexical(e)),
        Ok((TokenView::Variable, next)) => match declaration(input, next, env) {
            Err(e) => Err(e),
            Ok((end, env2)) => if advances(input, pos, end) {
                declarations(input, end, env2)
            } else {
                Ok((end, env2))
            },
        },
        Ok(_) => Ok((pos, env)),
    }
}

/// `{ expression (";" | EndOfInput) } EndOfInput`: the value of each statement, in order.
pub open spec fn statements(input: Seq<u8>, pos: int, env: Env) -> Result<Seq<i32>, ParseErrorView>
    decreases input.len() - pos,
{
    match lex(input, pos) {
        Err(e) => Err(ParseErrorView::Lexical(e)),
        Ok((TokenView::EOF, _)) => Ok(Seq::empty()),
        Ok(_) => match expression_value(input, pos, env) {
            Err(e) => Err(e),
            Ok((v, after)) => match lex(input, after) {
                Err(e) => Err(ParseErrorView::Lexical(e)),
                Ok((TokenView::EOF, _)) => Ok(seq![v]),
                Ok((TokenView::Semicolon, next)) => if advances(input, pos, next) {
                    match statements(input, next, env) {
                        Err(e) => Err(e),
                        Ok(rest) => Ok(seq![v] + rest),
                    }
                } else {
                    Ok(seq![v])
                },
                Ok((t, _)) => Err(
                    ParseErrorView::UnexpectedEndOfStatement { pos: at(input, after), found: t },
                ),
            },
        },
    }
}

/// `computation := "computation" { declaration } { statement } EndOfInput`, read from `pos`
/// with the bindings `env`: the value of each statement, in order.
pub open spec fn computation_from(input: Seq<u8>, pos: int, env: Env) -> Result<
    Seq<i32>,
    ParseErrorView,
> {
    match expect(input, pos, TokenView::Computation) {
        Err(e) => Err(e),
        Ok(p) => match declarations(input, p, env) {
            Err(e) => Err(e),
            Ok((q, env2)) => statements(input, q, env2),
        },
    }
}

/// The bindings that the declarations of a computation read from `pos` leave.
pub open spec fn declared(input: Seq<u8>, pos: int, env: Env) -> Env {
    match expect(input, pos, TokenView::Computation) {
        Ok(p) => match declarations(input, p, env) {
            Ok((_, env2)) => env2,
            Err(_) => env,
        },
        Err(_) => env,
    }
}

/// An executable outcome `r` agrees with the outcome `s` of the grammar, whose
/// position is `end` for a success.
pub open spec fn agrees(r: Result<i32, ParseError>, s: Result<(i32, int), ParseErrorView>, end: int) -> bool {
    match s {
        Ok((v, p)) => r matches Ok(x) && x == v && end == p,
        Err(e) => r matches Err(f) && f@ == e,
    }
}

/// A factor that is read successfully ends past its start, within the text.
pub proof fn lemma_factor_progress(input: Seq<u8>, pos: int, env: Env)
    requires
        0 <= pos <= input.len(),
    ensures
        factor_value(input, pos, env) matches Ok((_, p)) ==> pos < p <= input.len(),
    decreases input.len() - pos, 0int,
{
    lemma_lex_advances(input, pos);
    match lex(input, pos) {
        Ok((TokenView::OpenParen, next)) => {
            lemma_expression_progress(input, next, env);
            match expression_value(input, next, env) {
                Ok((_, after)) => lemma_lex_advances(input, after),
                Err(_) => {},
            }
        },
        _ => {},
    }
}

/// The operators and operands after a term's first factor end at or past their start.
pub proof fn lemma_term_rest_progress(input: Seq<u8>, pos: int, acc: i32, env: Env)
    requires
        0 <= pos <= input.len(),
    ensures
        term_rest(input, pos, acc, env) matches Ok((_, p)) ==> pos <= p <= input.len(),
    decreases input.len() - pos, 1int,
{
    lemma_lex_advances(input, pos);
    match lex(input, pos) {
        Ok((op, next)) => if (op == TokenView::Times || op == TokenView::Divide) && advances(
            input,
            pos,
            next,
        ) {
            lemma_factor_progress(input, next, env);
            match factor_value(input, next, env) {
                Ok((b, after)) => match combine(at(input, pos), op, acc, b) {
                    Ok(v) => if advances(input, pos, after) {
                        lemma_term_rest_progress(input, after, v, env);
                    },
                    Err(_) => {},
                },
                Err(_) => {},
            }
        },
        Err(_) => {},
    }
}

/// A term that is read successfully ends past its start, within the text.
pub proof fn lemma_term_progress(input: Seq<u8>, pos: int, env: Env)
    requires
        0 <= pos <= input.len(),
    ensures
        term_value(input, pos, env) matches Ok((_, p)) ==> pos < p <= input.len(),
    decreases input.len() - pos, 2int,
{
    lemma_factor_progress(input, pos, env);
    match factor_value(input, pos, env) {
        Ok((v, after)) => lemma_term_rest_progress(input, after, v, env),
        Err(_) => {},
    }
}

/// The operators and operands after an expression's first term end at or past their start.
pub proof fn lemma_expression_rest_progress(input: Seq<u8>, pos: int, acc: i32, env: Env)
    requires
        0 <= pos <= input.len(),
    ensures
        expression_rest(input, pos, acc, env) matches Ok((_, p)) ==> pos <= p <= input.len(),
    decreases input.len() - pos, 3int,
{
    lemma_lex_advances(input, pos);
    match lex(input, pos) {
        Ok((op, next)) => if (op == TokenView::Plus || op == TokenView::Minus) && advances(
            input,
            pos,
            next,
        ) {
            lemma_term_progress(input, next, env);
            match term_value(input, next, env) {
                Ok((b, after)) => match combine(at(input, pos), op, acc, b) {
                    Ok(v) => if advances(input, pos, after) {
                        lemma_expression_rest_progress(input, after, v, env);
                    },
                    Err(_) => {},
                },
                Err(_) => {},
            }
        },
        Err(_) => {},
    }
}

/// An expression that is read successfully ends past its start, within the text.
/// So the position guards in the grammar's definitions always hold: they only make
/// its termination evident.
pub proof fn lemma_expression_progress(input: Seq<u8>, pos: int, env: Env)
    requires
        0 <= pos <= input.len(),
    ensures
        expression_value(input, pos, env) matches Ok((_, p)) ==> pos < p <= input.len(),
    decreases input.len() - pos, 4int,
{
    lemma_term_progress(input, pos, env);
    match term_value(input, pos, env) {
        Ok((v, after)) => lemma_expression_rest_progress(input, after, v, env),
        Err(_) => {},
    }
}

/// The values `done` followed by those of the outcome `r`.
pub open spec fn after_values(done: Seq<i32>, r: Result<Seq<i32>, ParseErrorView>) -> Result<
    Seq<i32>,
    ParseErrorView,
> {
    match r {
        Ok(rest) => Ok(done + rest),
        Err(e) => Err(e),
    }
}

/// An executable outcome `r` agrees with the outcome `s` of the grammar.
pub open spec fn agrees_values(r: Result<Vec<i32>, ParseError>, s: Result<Seq<i32>, ParseErrorView>) -> bool {
    match s {
        Ok(vals) => r matches Ok(x) && x@ == vals,
        Err(e) => r matches Err(f) && f@ == e,
    }
}

/// A recursive-descent parser that evaluates a program as it reads it.
pub struct Parser {
    tokenizer: Tokenizer,
    symbol_table: SymbolTable,
}

impl Parser {
    /// The program text, as bytes.
    pub closed spec fn text(&self) -> Seq<u8> {
        self.tokenizer.text()
    }

    /// How far the program has been read.
    pub closed spec fn position(&self) -> int {
        self.tokenizer.position()
    }

    /// The variables declared so far.
    pub closed spec fn symbols(&self) -> Env {
        self.symbol_table@
    }

    pub closed spec fn wf(&self) -> bool {
        self.tokenizer.wf()
    }

    pub closed spec fn remaining(&self) -> int {
        self.text().len() - self.position()
    }

    pub proof fn lemma_position_in_text(&self)
        requires
            self.wf(),
        ensures
            0 <= self.position() <= self.text().len(),
    {
        self.tokenizer.lemma_cursor_in_text();
    }

    /// A parser at the start of `input`, with no variables.
    pub fn new(input: String) -> (p: Parser)
        ensures
            p.wf(),
            p.text() == vstd::utf8::encode_utf8(input@),
            p.position() == 0,
            p.symbols() == Map::<Seq<char>, i32>::empty(),
    {
        Parser { tokenizer: Tokenizer::new(input), symbol_table: SymbolTable::new() }
    }

    /// Peeks at the next token, turning a lexical error into a `ParseError`.
    fn lookahead(&mut self) -> (r: Result<Token, ParseError>)
        requires
            old(self).wf(),
        ensures
            final(self).wf(),
            final(self).text() == old(self).text(),
            final(self).position() == old(self).position(),
            final(self).symbols() == old(self).symbols(),
            match lex(old(self).text(), old(self).position()) {
                Ok((t, _)) => r matches Ok(u) && u@ == t,
                Err(e) => r matches Err(f) && f@ == ParseErrorView::Lexical(e),
            },
    {
        match self.tokenizer.peek_token() {
            Ok(t) => Ok(t),
            Err(e) => Err(ParseError::Lexical(e)),
        }
    }

    /// Consumes the next token, turning a lexical error into a `ParseError`.
    fn advance(&mut self) -> (r: Result<Token, ParseError>)
        requires
            old(self).wf(),
        ensures
            final(self).wf(),
            final(self).text() == old(self).text(),
            final(self).symbols() == old(self).symbols(),
            match lex(old(self).text(), old(self).position()) {
                Ok((t, next)) => r matches Ok(u) && u@ == t && final(self).position() == next,
                Err(e) => r matches Err(f) && f@ == ParseErrorView::Lexical(e),
            },
            r is Ok ==> old(self).position() <= final(self).position(),
            r matches Ok(t) && t@ != TokenView::EOF ==> old(self).position() < final(self).position(),
    {
        proof {
            self.tokenizer.lemma_cursor_in_text();
            lemma_lex_advances(self.text(), self.position());
        }
        match self.tokenizer.next_token() {
            Ok(t) => Ok(t),
            Err(e) => Err(ParseError::Lexical(e)),
        }
    }

    /// Consumes the next token, which must be `expected`.
    fn match_char(&mut self, expected: Token) -> (r: Result<(), ParseError>)
        requires
            old(self).wf(),
        ensures
            final(self).wf(),
            final(self).text() == old(self).text(),
            final(self).symbols() == old(self).symbols(),
            match expect(old(self).text(), old(self).position(), expected@) {
                Ok(next) => r is Ok && final(self).position() == next,
                Err(e) => r matches Err(f) && f@ == e,
            },
            lex(old(self).text(), old(self).position()) is Ok ==> final(self).position() == lex(
                old(self).text(),
                old(self).position(),
            )->Ok_0.1,
            r is Ok && expected@ != TokenView::EOF ==> old(self).position() < final(self).position(),
    {
        let pos = self.tokenizer.token_start();
        let t = match self.advance() {
            Ok(t) => t,
            Err(e) => return Err(e),
        };
        if t == expected {
            Ok(())
        } else {
            Err(ParseError::ExpectedToken { pos, expected, found: t })
        }
    }
    /// Applies the operator `op`, found at byte `op_at`, to `a` and `b`.
    fn apply_operator(op: &Token, op_at: usize, a: i32, b: i32) -> (r: Result<i32, ParseError>)
        requires
            op@ == TokenView::Plus || op@ == TokenView::Minus || op@ == TokenView::Times || op@
                == TokenView::Divide,
        ensures
            match combine(op_at, op@, a, b) {
                Ok(v) => r matches Ok(x) && x == v,
                Err(e) => r matches Err(f) && f@ == e,
            },
    {
        let out = match op {
            Token::Plus => a.checked_add(b),
            Token::Minus => a.checked_sub(b),
            Token::Times => a.checked_mul(b),
            _ => {
                if b == 0 {
                    return Err(ParseError::DivideByZero { pos: op_at });
                }
                a.checked_div(b)
            },
        };
        match out {
            Some(v) => Ok(v),
            None => Err(ParseError::Overflow { pos: op_at }),
        }
    }

    /// `factor := number | identifier | "(" expression ")"`.
    fn parse_factor(&mut self) -> (r: Result<i32, ParseError>)
        requires
            old(self).wf(),
        ensures
            final(self).wf(),
            final(self).text() == old(self).text(),
            final(self).symbols() == old(self).symbols(),
            agrees(
                r,
                factor_value(old(self).text(), old(self).position(), old(self).symbols()),
                final(self).position(),
            ),
            r is Ok ==> old(self).position() < final(self).position(),
        decreases old(self).remaining(), 0int,
    {
        proof {
            self.lemma_position_in_text();
        }
        let pos = self.tokenizer.token_start();
        let t = match self.advance() {
            Ok(t) => t,
            Err(e) => return Err(e),
        };
        match t {
            Token::OpenParen => {
                let v = match self.parse_expression() {
                    Ok(v) => v,
                    Err(e) => return Err(e),
                };
                match self.match_char(Token::CloseParen) {
                    Ok(()) => Ok(v),
                    Err(e) => Err(e),
                }
            },
            Token::Number(v) => Ok(v),
            Token::Identifier(name) => match self.symbol_table.get(&name) {
                Some(v) => Ok(v),
                None => Err(ParseError::UndefinedVariable { pos, name }),
            },
            other => Err(ParseError::UnexpectedFactor { pos, found: other }),
        }
    }

    /// `term := factor { ("*" | "/") factor }`, folded from the left.
    fn parse_term(&mut self) -> (r: Result<i32, ParseError>)
        requires
            old(self).wf(),
        ensures
            final(self).wf(),
            final(self).text() == old(self).text(),
            final(self).symbols() == old(self).symbols(),
            agrees(
                r,
                term_value(old(self).text(), old(self).position(), old(self).symbols()),
                final(self).position(),
            ),
            r is Ok ==> old(self).position() < final(self).position(),
        decreases old(self).remaining(), 2int,
    {
        let ghost input = self.text();
        let ghost env = self.symbols();
        let ghost start = self.position();
        proof {
            self.lemma_position_in_text();
        }
        let mut result = match self.parse_factor() {
            Ok(v) => v,
            Err(e) => return Err(e),
        };
        proof {
            self.lemma_position_in_text();
        }
        loop
            invariant
                self.wf(),
                self.text() == input,
                self.symbols() == env,
                0 <= start < self.position() <= input.len(),
                start == old(self).position(),
                input == old(self).text(),
                env == old(self).symbols(),
                term_value(input, start, env) == term_rest(input, self.position(), result, env),
            decreases self.remaining(),
        {
            proof {
                lemma_lex_advances(input, self.position());
            }
            let op_at = self.tokenizer.token_start();
            let op = match self.lookahead() {
                Ok(t) => t,
                Err(e) => return Err(e),
            };
            match op {
                Token::Times | Token::Divide => {},
                _ => return Ok(result),
            }
            let _ = self.advance();
            let b = match self.parse_factor() {
                Ok(v) => v,
                Err(e) => return Err(e),
            };
            result = match Self::apply_operator(&op, op_at, result, b) {
                Ok(v) => v,
                Err(e) => return Err(e),
            };
            proof {
                self.lemma_position_in_text();
            }
        }
    }

    /// `expression := term { ("+" | "-") term }`, folded from the left.
    fn parse_expression(&mut self) -> (r: Result<i32, ParseError>)
        requires
            old(self).wf(),
        ensures
            final(self).wf(),
            final(self).text() == old(self).text(),
            final(self).symbols() == old(self).symbols(),
            agrees(
                r,
                expression_value(old(self).text(), old(self).position(), old(self).symbols()),
                final(self).position(),
            ),
            r is Ok ==> old(self).position() < final(self).position(),
        decreases old(self).remaining(), 4int,
    {
        let ghost input = self.text();
        let ghost env = self.symbols();
        let ghost start = self.position();
        proof {
            self.lemma_position_in_text();
        }
        let mut result = match self.parse_term() {
            Ok(v) => v,
            Err(e) => return Err(e),
        };
        proof {
            self.lemma_position_in_text();
        }
        loop
            invariant
                self.wf(),
                self.text() == input,
                self.symbols() == env,
                0 <= start < self.position() <= input.len(),
                start == old(self).position(),
                input == old(self).text(),
                env == old(self).symbols(),
                expression_value(input, start, env) == expression_rest(
                    input,
                    self.position(),
                    result,
                    env,
                ),
            decreases self.remaining(),
        {
            proof {
                lemma_lex_advances(input, self.position());
            }
            let op_at = self.tokenizer.token_start();
            let op = match self.lookahead() {
                Ok(t) => t,
                Err(e) => return Err(e),
            };
            match op {
                Token::Plus | Token::Minus => {},
                _ => return Ok(result),
            }
            let _ = self.advance();
            let b = match self.parse_term() {
                Ok(v) => v,
                Err(e) => return Err(e),
            };
            result = match Self::apply_operator(&op, op_at, result, b) {
                Ok(v) => v,
                Err(e) => return Err(e),
            };
            proof {
                self.lemma_position_in_text();
            }
        }
    }
    /// `declaration := "var" identifier "<-" expression ";"`, from just past `var`;
    /// binds the identifier to the expression's value.
    fn parse_assignment(&mut self) -> (r: Result<(), ParseError>)
        requires
            old(self).wf(),
        ensures
            final(self).wf(),
            final(self).text() == old(self).text(),
            match declaration(old(self).text(), old(self).position(), old(self).symbols()) {
                Ok((end, env)) => r is Ok && final(self).position() == end && final(self).symbols()
                    == env,
                Err(e) => r matches Err(f) && f@ == e,
            },
            r is Ok ==> old(self).position() < final(self).position(),
            r is Err ==> final(self).symbols() == old(self).symbols(),
    {
        proof {
            self.lemma_position_in_text();
        }
        let pos = self.tokenizer.token_start();
        let t = match self.advance() {
            Ok(t) => t,
            Err(e) => return Err(e),
        };
        match t {
            Token::Identifier(name) => {
                match self.match_char(Token::Assignment) {
                    Ok(()) => {},
                    Err(e) => return Err(e),
                }
                let value = match self.parse_expression() {
                    Ok(v) => v,
                    Err(e) => return Err(e),
                };
                match self.match_char(Token::Semicolon) {
                    Ok(()) => {},
                    Err(e) => return Err(e),
                }
                self.symbol_table.insert(name, value);
                Ok(())
            },
            _ => Err(ParseError::ExpectedIdentifier { pos }),
        }
    }

    /// `{ declaration }`: reads declarations while the next token is `var`.
    fn parse_statement(&mut self) -> (r: Result<(), ParseError>)
        requires
            old(self).wf(),
        ensures
            final(self).wf(),
            final(self).text() == old(self).text(),
            match declarations(old(self).text(), old(self).position(), old(self).symbols()) {
                Ok((end, env)) => r is Ok && final(self).position() == end && final(self).symbols()
                    == env,
                Err(e) => r matches Err(f) && f@ == e,
            },
    {
        let ghost input = self.text();
        let ghost start = self.position();
        let ghost env = self.symbols();
        proof {
            self.lemma_position_in_text();
        }
        loop
            invariant
                self.wf(),
                self.text() == input,
                0 <= start <= self.position() <= input.len(),
                input == old(self).text(),
                start == old(self).position(),
                env == old(self).symbols(),
                declarations(input, start, env) == declarations(
                    input,
                    self.position(),
                    self.symbols(),
                ),
            decreases self.remaining(),
        {
            proof {
                lemma_lex_advances(input, self.position());
            }
            let t = match self.lookahead() {
                Ok(t) => t,
                Err(e) => return Err(e),
            };
            match t {
                Token::Variable => {},
                _ => return Ok(()),
            }
            let _ = self.advance();
            match self.parse_assignment() {
                Ok(()) => {},
                Err(e) => return Err(e),
            }
            proof {
                self.lemma_position_in_text();
            }
        }
    }

    /// `{ expression (";" | EndOfInput) }` up to the end of input: the value of each
    /// statement, in order.
    fn multiple_expression(&mut self) -> (r: Result<Vec<i32>, ParseError>)
        requires
            old(self).wf(),
        ensures
            final(self).wf(),
            final(self).text() == old(self).text(),
            final(self).symbols() == old(self).symbols(),
            agrees_values(r, statements(old(self).text(), old(self).position(), old(self).symbols())),
            r is Ok ==> lex(final(self).text(), final(self).position()) == Ok::<
                (TokenView, int),
                LexError,
            >((TokenView::EOF, final(self).position())),
    {
        let ghost input = self.text();
        let ghost start = self.position();
        let ghost env = self.symbols();
        proof {
            self.lemma_position_in_text();
        }
        let mut results: Vec<i32> = Vec::new();
        assert(after_values(results@, statements(input, start, env)) =~= statements(
            input,
            start,
            env,
        )) by {
            match statements(input, start, env) {
                Ok(vals) => {
                    assert(results@ + vals =~= vals);
                },
                Err(_) => {},
            }
        }
        loop
            invariant
                self.wf(),
                self.text() == input,
                self.symbols() == env,
                0 <= start <= self.position() <= input.len(),
                input == old(self).text(),
                start == old(self).position(),
                env == old(self).symbols(),
                statements(input, start, env) == after_values(
                    results@,
                    statements(input, self.position(), env),
                ),
            decreases self.remaining(),
        {
            proof {
                lemma_lex_advances(input, self.position());
            }
            let ghost p = self.position();
            let t = match self.lookahead() {
                Ok(t) => t,
                Err(e) => return Err(e),
            };
            if t == Token::EOF {
                let _ = self.advance();
                proof {
                    assert(results@ + Seq::<i32>::empty() =~= results@);
                    lemma_end_of_input_is_terminal(input, p);
                }
                return Ok(results);
            }
            let value = match self.parse_expression() {
                Ok(v) => v,
                Err(e) => return Err(e),
            };
            proof {
                self.lemma_position_in_text();
                lemma_lex_advances(input, self.position());
            }
            let after = self.tokenizer.token_start();
            let ghost done = results@;
            let ghost q = self.position();
            let next = match self.advance() {
                Ok(t) => t,
                Err(e) => return Err(e),
            };
            results.push(value);
            match next {
                Token::Semicolon => {
                    proof {
                        match statements(input, self.position(), env) {
                            Ok(rest) => {
                                assert(done + (seq![value] + rest) =~= results@ + rest);
                            },
                            Err(_) => {},
                        }
                    }
                },
                Token::EOF => {
                    proof {
                        assert(done + seq![value] =~= results@);
                        lemma_end_of_input_is_terminal(input, q);
                    }
                    return Ok(results);
                },
                other => return Err(ParseError::UnexpectedEndOfStatement { pos: after, found: other }),
            }
        }
    }

    /// `computation := "computation" { declaration } { statement } EndOfInput`: reads
    /// the program from the cursor and returns the value of each statement, in order.
    pub fn parse_computation(&mut self) -> (r: Result<Vec<i32>, ParseError>)
        requires
            old(self).wf(),
        ensures
            final(self).wf(),
            final(self).text() == old(self).text(),
            agrees_values(
                r,
                computation_from(old(self).text(), old(self).position(), old(self).symbols()),
            ),
            r is Ok ==> final(self).symbols() == declared(
                old(self).text(),
                old(self).position(),
                old(self).symbols(),
            ),
            r is Ok ==> lex(final(self).text(), final(self).position()) == Ok::<
                (TokenView, int),
                LexError,
            >((TokenView::EOF, final(self).position())),
    {
        match self.match_char(Token::Computation) {
            Ok(()) => {},
            Err(e) => return Err(e),
        }
        match self.parse_statement() {
            Ok(()) => {},
            Err(e) => return Err(e),
        }
        self.multiple_expression()
    }
}

} // verus!
