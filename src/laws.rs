//! Properties of evaluation that hold for whole families of programs: operator
//! precedence and left associativity, for any three decimal literals.

use vstd::prelude::*;
use crate::parser::{
    arith, at, combine, expression_rest, expression_value, factor_value, fits_i32, term_rest,
    term_value, computation_from, declarations, statements, Env, ParseErrorView,
};
use crate::tokenizer::{
    byte_at, digits_value, in_class, is_digit, is_space, lex, punctuation, span, token_start, CharClass,
    computation_word, LexError, TokenView,
};

verus! {

/// Scanning `t` from `p` gives the token `tok` and the position `e` past it.
#[verifier::opaque]
pub open spec fn scans(t: Seq<u8>, p: int, tok: TokenView, e: int) -> bool {
    lex(t, p) == Ok::<(TokenView, int), LexError>((tok, e))
}

/// A nonempty run of decimal digits.
pub open spec fn is_digits(d: Seq<u8>) -> bool {
    d.len() > 0 && forall|i: int| 0 <= i < d.len() ==> is_digit(#[trigger] d[i])
}

/// The text `a o1 b o2 c.`, with single spaces around the two operators.
pub open spec fn three_operand_text(a: Seq<u8>, o1: u8, b: Seq<u8>, o2: u8, c: Seq<u8>) -> Seq<u8> {
    a + seq![32u8, o1, 32u8] + b + seq![32u8, o2, 32u8] + c + seq![46u8]
}

/// The operator token that byte `o` stands for.
pub open spec fn operator(o: u8) -> TokenView {
    punctuation(o)->Some_0
}

/// The value of a digit run, as an `i32`.
pub open spec fn literal(d: Seq<u8>) -> i32 {
    digits_value(d) as i32
}

proof fn lemma_span_run(input: Seq<u8>, p: int, e: int, class: CharClass)
    requires
        0 <= p <= e <= input.len(),
        forall|i: int| p <= i < e ==> in_class(#[trigger] input[i], class),
        e == input.len() || !in_class(input[e], class),
    ensures
        span(input, p, class) == e,
    decreases e - p,
{
    if p < e {
        lemma_span_run(input, p + 1, e, class);
    }
}

/// Scanning from `p` over spaces up to `s`, where the digits `s..e` stand.
proof fn lemma_lex_number(input: Seq<u8>, p: int, s: int, e: int)
    requires
        0 <= p <= s < e <= input.len(),
        forall|i: int| p <= i < s ==> is_space(#[trigger] input[i]),
        forall|i: int| s <= i < e ==> is_digit(#[trigger] input[i]),
        e == input.len() || !is_digit(input[e]),
        digits_value(input.subrange(s, e)) <= i32::MAX,
    ensures
        lex(input, p) == Ok::<(TokenView, int), crate::tokenizer::LexError>(
            (TokenView::Number(digits_value(input.subrange(s, e)) as i32), e),
        ),
{
    lemma_span_run(input, p, s, CharClass::Space);
    lemma_span_run(input, s, e, CharClass::Digit);
}

/// Scanning from `p` over spaces up to the byte at `s`, which is no space.
proof fn lemma_token_start(input: Seq<u8>, p: int, s: int)
    requires
        0 <= p <= s < input.len(),
        forall|i: int| p <= i < s ==> is_space(#[trigger] input[i]),
        !is_space(input[s]),
    ensures
        token_start(input, p) == s,
        byte_at(input, s) == input[s],
{
    lemma_span_run(input, p, s, CharClass::Space);
}

/// How `prefix` followed by the text `a o1 b o2 c.` splits into tokens from `p0`,
/// where only spaces stand between `p0` and the end of `prefix`.
proof fn lemma_three_operand_tokens(
    prefix: Seq<u8>,
    p0: int,
    a: Seq<u8>,
    o1: u8,
    b: Seq<u8>,
    o2: u8,
    c: Seq<u8>,
)
    requires
        0 <= p0 <= prefix.len(),
        forall|i: int| p0 <= i < prefix.len() ==> is_space(#[trigger] prefix[i]),
        is_digits(a),
        is_digits(b),
        is_digits(c),
        digits_value(a) <= i32::MAX,
        digits_value(b) <= i32::MAX,
        digits_value(c) <= i32::MAX,
        punctuation(o1) is Some,
        punctuation(o2) is Some,
    ensures
        three_operand_tokens(
            prefix + three_operand_text(a, o1, b, o2, c),
            p0,
            (prefix.len() + a.len()) as int,
            (prefix.len() + a.len() + 3 + b.len()) as int,
            (prefix.len() + a.len() + 3 + b.len() + 3 + c.len()) as int,
            literal(a),
            operator(o1),
            literal(b),
            operator(o2),
            literal(c),
        ),
{
    reveal(scans);
    let t = prefix + three_operand_text(a, o1, b, o2, c);
    let k = prefix.len() as int;
    let la = k + a.len();
    let eb = la + 3 + b.len();
    let ec = eb + 3 + c.len();
    assert(t.len() == ec + 1);
    assert(t.subrange(k, la) =~= a);
    assert(t.subrange(la + 3, eb) =~= b);
    assert(t.subrange(eb + 3, ec) =~= c);
    assert(t[la] == 32 && t[la + 1] == o1 && t[la + 2] == 32);
    assert(t[eb] == 32 && t[eb + 1] == o2 && t[eb + 2] == 32);
    assert(t[ec] == 46);
    assert forall|i: int| p0 <= i < k implies is_space(#[trigger] t[i]) by {
        assert(t[i] == prefix[i]);
    }
    assert forall|i: int| k <= i < la implies is_digit(#[trigger] t[i]) by {
        assert(t[i] == a[i - k]);
    }
    assert forall|i: int| la + 3 <= i < eb implies is_digit(#[trigger] t[i]) by {
        assert(t[i] == b[i - la - 3]);
    }
    assert forall|i: int| eb + 3 <= i < ec implies is_digit(#[trigger] t[i]) by {
        assert(t[i] == c[i - eb - 3]);
    }
    lemma_lex_number(t, p0, k, la);
    lemma_token_start(t, la, la + 1);
    lemma_lex_number(t, la + 2, la + 3, eb);
    lemma_token_start(t, eb, eb + 1);
    lemma_lex_number(t, eb + 2, eb + 3, ec);
    lemma_token_start(t, ec, ec);
}

proof fn lemma_factor_number(t: Seq<u8>, p: int, v: i32, e: int, env: Env)
    requires
        scans(t, p, TokenView::Number(v), e),
    ensures
        factor_value(t, p, env) == Ok::<(i32, int), ParseErrorView>((v, e)),
{
    reveal(scans);
}

proof fn lemma_rests_stop_at_end(t: Seq<u8>, p: int, acc: i32, env: Env)
    requires
        scans(t, p, TokenView::EOF, p),
    ensures
        term_rest(t, p, acc, env) == Ok::<(i32, int), ParseErrorView>((acc, p)),
        expression_rest(t, p, acc, env) == Ok::<(i32, int), ParseErrorView>((acc, p)),
{
    reveal(scans);
}

proof fn lemma_term_rest_stops(t: Seq<u8>, p: int, acc: i32, env: Env, op: TokenView, next: int)
    requires
        scans(t, p, op, next),
        op == TokenView::Plus || op == TokenView::Minus,
    ensures
        term_rest(t, p, acc, env) == Ok::<(i32, int), ParseErrorView>((acc, p)),
{
    reveal(scans);
}

proof fn lemma_term_rest_step(t: Seq<u8>, p: int, acc: i32, env: Env, op: TokenView, next: int, b: i32, after: int)
    requires
        scans(t, p, op, next),
        op == TokenView::Times || op == TokenView::Divide,
        p < next < after <= t.len(),
        factor_value(t, next, env) == Ok::<(i32, int), ParseErrorView>((b, after)),
        combine(at(t, p), op, acc, b) is Ok,
    ensures
        term_rest(t, p, acc, env) == term_rest(t, after, combine(at(t, p), op, acc, b)->Ok_0, env),
{
    reveal(scans);
}

proof fn lemma_expression_rest_step(t: Seq<u8>, p: int, acc: i32, env: Env, op: TokenView, next: int, b: i32, after: int)
    requires
        scans(t, p, op, next),
        op == TokenView::Plus || op == TokenView::Minus,
        p < next < after <= t.len(),
        term_value(t, next, env) == Ok::<(i32, int), ParseErrorView>((b, after)),
        combine(at(t, p), op, acc, b) is Ok,
    ensures
        expression_rest(t, p, acc, env) == expression_rest(
            t,
            after,
            combine(at(t, p), op, acc, b)->Ok_0,
            env,
        ),
{
    reveal(scans);
}

proof fn lemma_term_start(t: Seq<u8>, p: int, env: Env, v: i32, after: int)
    requires
        0 <= p < after <= t.len(),
        factor_value(t, p, env) == Ok::<(i32, int), ParseErrorView>((v, after)),
    ensures
        term_value(t, p, env) == term_rest(t, after, v, env),
{
}

proof fn lemma_expression_start(t: Seq<u8>, p: int, env: Env, v: i32, after: int)
    requires
        0 <= p < after <= t.len(),
        term_value(t, p, env) == Ok::<(i32, int), ParseErrorView>((v, after)),
    ensures
        expression_value(t, p, env) == expression_rest(t, after, v, env),
{
}

/// The tokens of `a o1 b o2 c.` as `lemma_three_operand_tokens` gives them.
pub open spec fn three_operand_tokens(
    t: Seq<u8>,
    p0: int,
    la: int,
    eb: int,
    ec: int,
    x: i32,
    op1: TokenView,
    y: i32,
    op2: TokenView,
    z: i32,
) -> bool {
    &&& 0 <= p0 < la < la + 2 < eb < eb + 2 < ec
    &&& t.len() == ec + 1
    &&& scans(t, p0, TokenView::Number(x), la)
    &&& scans(t, la, op1, la + 2)
    &&& scans(t, la + 2, TokenView::Number(y), eb)
    &&& scans(t, eb, op2, eb + 2)
    &&& scans(t, eb + 2, TokenView::Number(z), ec)
    &&& scans(t, ec, TokenView::EOF, ec)
}

proof fn lemma_precedence_at(
    t: Seq<u8>,
    p0: int,
    la: int,
    eb: int,
    ec: int,
    x: i32,
    op1: TokenView,
    y: i32,
    op2: TokenView,
    z: i32,
    env: Env,
)
    requires
        three_operand_tokens(t, p0, la, eb, ec, x, op1, y, op2, z),
        op1 == TokenView::Plus || op1 == TokenView::Minus,
        op2 == TokenView::Times || op2 == TokenView::Divide,
        op2 == TokenView::Divide ==> z != 0,
        fits_i32(arith(op2, y, z)),
        fits_i32(arith(op1, x, arith(op2, y, z) as i32)),
    ensures
        expression_value(t, p0, env) == Ok::<(i32, int), ParseErrorView>(
            (arith(op1, x, arith(op2, y, z) as i32) as i32, ec),
        ),
{
    let yz = arith(op2, y, z) as i32;
    let v = arith(op1, x, yz) as i32;
    lemma_factor_number(t, p0, x, la, env);
    lemma_factor_number(t, la + 2, y, eb, env);
    lemma_factor_number(t, eb + 2, z, ec, env);
    lemma_term_rest_stops(t, la, x, env, op1, la + 2);
    lemma_term_start(t, p0, env, x, la);
    lemma_term_rest_step(t, eb, y, env, op2, eb + 2, z, ec);
    lemma_rests_stop_at_end(t, ec, yz, env);
    lemma_term_start(t, la + 2, env, y, eb);
    lemma_expression_start(t, p0, env, x, la);
    lemma_expression_rest_step(t, la, x, env, op1, la + 2, yz, ec);
    lemma_rests_stop_at_end(t, ec, v, env);
}

proof fn lemma_left_associative_at(
    t: Seq<u8>,
    p0: int,
    la: int,
    eb: int,
    ec: int,
    x: i32,
    op1: TokenView,
    y: i32,
    op2: TokenView,
    z: i32,
    env: Env,
)
    requires
        three_operand_tokens(t, p0, la, eb, ec, x, op1, y, op2, z),
        ((op1 == TokenView::Plus || op1 == TokenView::Minus) && (op2 == TokenView::Plus || op2
            == TokenView::Minus)) || ((op1 == TokenView::Times || op1 == TokenView::Divide) && (
        op2 == TokenView::Times || op2 == TokenView::Divide)),
        op1 == TokenView::Divide ==> y != 0,
        op2 == TokenView::Divide ==> z != 0,
        fits_i32(arith(op1, x, y)),
        fits_i32(arith(op2, arith(op1, x, y) as i32, z)),
    ensures
        expression_value(t, p0, env) == Ok::<(i32, int), ParseErrorView>(
            (arith(op2, arith(op1, x, y) as i32, z) as i32, ec),
        ),
{
    let xy = arith(op1, x, y) as i32;
    let v = arith(op2, xy, z) as i32;
    lemma_factor_number(t, p0, x, la, env);
    lemma_factor_number(t, la + 2, y, eb, env);
    lemma_factor_number(t, eb + 2, z, ec, env);
    lemma_term_start(t, p0, env, x, la);
    lemma_rests_stop_at_end(t, ec, v, env);
    if op1 == TokenView::Plus || op1 == TokenView::Minus {
        lemma_term_rest_stops(t, la, x, env, op1, la + 2);
        lemma_term_start(t, la + 2, env, y, eb);
        lemma_term_rest_stops(t, eb, y, env, op2, eb + 2);
        lemma_term_start(t, eb + 2, env, z, ec);
        lemma_rests_stop_at_end(t, ec, z, env);
        lemma_expression_start(t, p0, env, x, la);
        lemma_expression_rest_step(t, la, x, env, op1, la + 2, y, eb);
        lemma_expression_rest_step(t, eb, xy, env, op2, eb + 2, z, ec);
    } else {
        lemma_term_rest_step(t, la, x, env, op1, la + 2, y, eb);
        lemma_term_rest_step(t, eb, xy, env, op2, eb + 2, z, ec);
        lemma_expression_start(t, p0, env, v, ec);
    }
}

/// The program `computation a o1 b o2 c.`: one statement and no declarations.
pub open spec fn three_operand_program(a: Seq<u8>, o1: u8, b: Seq<u8>, o2: u8, c: Seq<u8>) -> Seq<u8> {
    computation_word() + seq![32u8] + three_operand_text(a, o1, b, o2, c)
}

/// A program that starts with `computation ` and then a digit: the keyword is read,
/// no declaration follows, and the statements begin at the space after the keyword.
proof fn lemma_program_opening(t: Seq<u8>, x: i32, e: int, env: Env)
    requires
        t.len() > 12,
        t.subrange(0, 11) == computation_word(),
        t[11] == 32,
        scans(t, 11, TokenView::Number(x), e),
    ensures
        computation_from(t, 0, env) == statements(t, 11, env),
{
    reveal(scans);
    let cw = computation_word();
    assert(cw[0] == 99 && cw[1] == 111 && cw[2] == 109 && cw[3] == 112 && cw[4] == 117 && cw[5]
        == 116 && cw[6] == 97 && cw[7] == 116 && cw[8] == 105 && cw[9] == 111 && cw[10] == 110);
    assert forall|i: int| 0 <= i < 11 implies in_class(#[trigger] t[i], CharClass::Word) by {
        assert(t[i] == t.subrange(0, 11)[i]);
        if i == 0 {
        } else if i == 1 {
        } else if i == 2 {
        } else if i == 3 {
        } else if i == 4 {
        } else if i == 5 {
        } else if i == 6 {
        } else if i == 7 {
        } else if i == 8 {
        } else if i == 9 {
        } else {
        }
    }
    assert(t[0] == t.subrange(0, 11)[0]);
    lemma_span_run(t, 0, 0, CharClass::Space);
    lemma_span_run(t, 0, 11, CharClass::Word);
    assert(scans(t, 0, TokenView::Computation, 11));
    assert(declarations(t, 11, env) == Ok::<(int, Env), ParseErrorView>((11, env)));
}

/// `*` and `/` bind tighter than `+` and `-`: the program `computation a o1 b o2 c.`,
/// with `o1` an additive and `o2` a multiplicative operator, has the single value
/// `a o1 (b o2 c)`.
pub proof fn lemma_precedence(a: Seq<u8>, o1: u8, b: Seq<u8>, o2: u8, c: Seq<u8>)
    requires
        is_digits(a),
        is_digits(b),
        is_digits(c),
        digits_value(a) <= i32::MAX,
        digits_value(b) <= i32::MAX,
        digits_value(c) <= i32::MAX,
        o1 == 43 || o1 == 45,
        o2 == 42 || o2 == 47,
        o2 == 47 ==> literal(c) != 0,
        fits_i32(arith(operator(o2), literal(b), literal(c))),
        fits_i32(
            arith(operator(o1), literal(a), arith(operator(o2), literal(b), literal(c)) as i32),
        ),
    ensures
        computation_from(three_operand_program(a, o1, b, o2, c), 0, Map::empty()) == Ok::<
            Seq<i32>,
            ParseErrorView,
        >(
            seq![
                arith(
                    operator(o1),
                    literal(a),
                    arith(operator(o2), literal(b), literal(c)) as i32,
                ) as i32,
            ],
        ),
{
    let prefix = computation_word() + seq![32u8];
    let t = three_operand_program(a, o1, b, o2, c);
    assert(t =~= prefix + three_operand_text(a, o1, b, o2, c));
    assert(prefix[11] == 32);
    lemma_three_operand_tokens(prefix, 11, a, o1, b, o2, c);
    let la = 12 + a.len() as int;
    let eb = la + 3 + b.len() as int;
    let ec = eb + 3 + c.len() as int;
    lemma_precedence_at(
        t,
        11,
        la,
        eb,
        ec,
        literal(a),
        operator(o1),
        literal(b),
        operator(o2),
        literal(c),
        Map::empty(),
    );
    assert(t.subrange(0, 11) =~= computation_word());
    lemma_program_opening(t, literal(a), 12 + a.len() as int, Map::empty());
}

/// Operators of one precedence level associate to the left: the program
/// `computation a o1 b o2 c.`, with `o1` and `o2` both additive or both
/// multiplicative, has the single value `(a o1 b) o2 c`.
pub proof fn lemma_left_associative(a: Seq<u8>, o1: u8, b: Seq<u8>, o2: u8, c: Seq<u8>)
    requires
        is_digits(a),
        is_digits(b),
        is_digits(c),
        digits_value(a) <= i32::MAX,
        digits_value(b) <= i32::MAX,
        digits_value(c) <= i32::MAX,
        ((o1 == 43 || o1 == 45) && (o2 == 43 || o2 == 45)) || ((o1 == 42 || o1 == 47) && (o2
            == 42 || o2 == 47)),
        o1 == 47 ==> literal(b) != 0,
        o2 == 47 ==> literal(c) != 0,
        fits_i32(arith(operator(o1), literal(a), literal(b))),
        fits_i32(
            arith(operator(o2), arith(operator(o1), literal(a), literal(b)) as i32, literal(c)),
        ),
    ensures
        computation_from(three_operand_program(a, o1, b, o2, c), 0, Map::empty()) == Ok::<
            Seq<i32>,
            ParseErrorView,
        >(
            seq![
                arith(
                    operator(o2),
                    arith(operator(o1), literal(a), literal(b)) as i32,
                    literal(c),
                ) as i32,
            ],
        ),
{
    let prefix = computation_word() + seq![32u8];
    let t = three_operand_program(a, o1, b, o2, c);
    assert(t =~= prefix + three_operand_text(a, o1, b, o2, c));
    assert(prefix[11] == 32);
    lemma_three_operand_tokens(prefix, 11, a, o1, b, o2, c);
    let la = 12 + a.len() as int;
    let eb = la + 3 + b.len() as int;
    let ec = eb + 3 + c.len() as int;
    lemma_left_associative_at(
        t,
        11,
        la,
        eb,
        ec,
        literal(a),
        operator(o1),
        literal(b),
        operator(o2),
        literal(c),
        Map::empty(),
    );
    assert(t.subrange(0, 11) =~= computation_word());
    lemma_program_opening(t, literal(a), 12 + a.len() as int, Map::empty());
}

} // verus!
