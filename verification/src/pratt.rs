//! The expression engine: a lexer, a top-down operator-precedence parser and
//! an evaluator over numbers, strings and booleans.

use crate::hashing::push_char;
use vstd::prelude::*;
use vstd::string::{StrSliceExecFns, StringExecFns};

verus! {

/// A lexeme of the query language.
#[derive(Eq, Debug, PartialEq)]
pub enum Token {
    Plus,
    Minus,
    Multiply,
    Equals,
    Num(i32),
    Var(String),
    Str(String),
    Bool(bool),
    ParenOpen,
    ParenClose,
    NotEquals,
    Not,
}

/// The model of a lexeme.
pub enum TokenM {
    Plus,
    Minus,
    Multiply,
    Equals,
    Num(i32),
    Var(Seq<char>),
    StrLit(Seq<char>),
    BoolLit(bool),
    ParenOpen,
    ParenClose,
    NotEquals,
    Not,
}

impl View for Token {
    type V = TokenM;

    open spec fn view(&self) -> TokenM {
        match self {
            Token::Plus => TokenM::Plus,
            Token::Minus => TokenM::Minus,
            Token::Multiply => TokenM::Multiply,
            Token::Equals => TokenM::Equals,
            Token::Num(n) => TokenM::Num(*n),
            Token::Var(s) => TokenM::Var(s@),
            Token::Str(s) => TokenM::StrLit(s@),
            Token::Bool(b) => TokenM::BoolLit(*b),
            Token::ParenOpen => TokenM::ParenOpen,
            Token::ParenClose => TokenM::ParenClose,
            Token::NotEquals => TokenM::NotEquals,
            Token::Not => TokenM::Not,
        }
    }
}

impl Clone for Token {
    fn clone(&self) -> (res: Token)
        ensures
            res@ == self@,
    {
        match self {
            Token::Plus => Token::Plus,
            Token::Minus => Token::Minus,
            Token::Multiply => Token::Multiply,
            Token::Equals => Token::Equals,
            Token::Num(n) => Token::Num(*n),
            Token::Var(s) => Token::Var(s.clone()),
            Token::Str(s) => Token::Str(s.clone()),
            Token::Bool(b) => Token::Bool(*b),
            Token::ParenOpen => Token::ParenOpen,
            Token::ParenClose => Token::ParenClose,
            Token::NotEquals => Token::NotEquals,
            Token::Not => Token::Not,
        }
    }
}

/// The models of a sequence of lexemes.
pub open spec fn token_views(ts: Seq<Token>) -> Seq<TokenM> {
    ts.map_values(|t: Token| t@)
}

/// Pushing a token pushes its model.
pub proof fn lemma_token_views_push(ts: Seq<Token>, x: Token)
    ensures
        token_views(ts.push(x)) == token_views(ts).push(x@),
{
    assert forall|j: int| 0 <= j < ts.len() + 1 implies token_views(ts.push(x))[j]
        == token_views(ts).push(x@)[j] by {
        if j < ts.len() {
            assert(ts.push(x)[j] == ts[j]);
        } else {
            assert(ts.push(x)[j] == x);
        }
    }
    assert(token_views(ts.push(x)) =~= token_views(ts).push(x@));
}

/// What lexing or evaluation can fail with.
#[derive(Eq, Debug, PartialEq)]
pub enum ExpressionError {
    UnexpectedToken(Token),
    UnboundVariable(String),
    UnsupportedOperation,
    RanOutOfTokens,
    DidntGetRightParen,
}

/// The model of an expression error.
pub enum ErrM {
    UnexpectedToken(TokenM),
    UnboundVariable(Seq<char>),
    UnsupportedOperation,
    RanOutOfTokens,
    DidntGetRightParen,
}

impl View for ExpressionError {
    type V = ErrM;

    open spec fn view(&self) -> ErrM {
        match self {
            ExpressionError::UnexpectedToken(t) => ErrM::UnexpectedToken(t@),
            ExpressionError::UnboundVariable(v) => ErrM::UnboundVariable(v@),
            ExpressionError::UnsupportedOperation => ErrM::UnsupportedOperation,
            ExpressionError::RanOutOfTokens => ErrM::RanOutOfTokens,
            ExpressionError::DidntGetRightParen => ErrM::DidntGetRightParen,
        }
    }
}

impl ExpressionError {
    /// A short description of the error, for boundaries that carry errors as
    /// text.
    pub fn message(&self) -> (r: String)
        ensures
            match self@ {
                ErrM::UnexpectedToken(_) => r@ == "Unexpected token"@,
                ErrM::UnboundVariable(v) => r@ == "Unbound variable: "@ + v,
                ErrM::UnsupportedOperation => r@ == "Unsupported operation"@,
                ErrM::RanOutOfTokens => r@ == "Ran out of tokens"@,
                ErrM::DidntGetRightParen => r@ == "Didn't get right paren"@,
            },
    {
        match self {
            ExpressionError::UnexpectedToken(_) => "Unexpected token".to_owned(),
            ExpressionError::UnboundVariable(v) => "Unbound variable: ".to_owned().concat(
                v.as_str(),
            ),
            ExpressionError::UnsupportedOperation => "Unsupported operation".to_owned(),
            ExpressionError::RanOutOfTokens => "Ran out of tokens".to_owned(),
            ExpressionError::DidntGetRightParen => "Didn't get right paren".to_owned(),
        }
    }
}

/// A node of the expression tree.
pub enum ASTNode {
    Num(i32),
    Str(String),
    Var(String),
    Bool(bool),
    Add(Box<ASTNode>, Box<ASTNode>),
    Sub(Box<ASTNode>, Box<ASTNode>),
    Mul(Box<ASTNode>, Box<ASTNode>),
    Eq(Box<ASTNode>, Box<ASTNode>),
    Not(Box<ASTNode>),
    NotEq(Box<ASTNode>, Box<ASTNode>),
}

/// The model of an expression tree.
pub enum ExprM {
    Num(i32),
    StrLit(Seq<char>),
    Var(Seq<char>),
    BoolLit(bool),
    Add(Box<ExprM>, Box<ExprM>),
    Sub(Box<ExprM>, Box<ExprM>),
    Mul(Box<ExprM>, Box<ExprM>),
    Eq(Box<ExprM>, Box<ExprM>),
    Not(Box<ExprM>),
    NotEq(Box<ExprM>, Box<ExprM>),
}

/// The model of an expression tree node.
pub open spec fn ast_view(a: &ASTNode) -> ExprM
    decreases a,
{
    match a {
        ASTNode::Num(n) => ExprM::Num(*n),
        ASTNode::Str(s) => ExprM::StrLit(s@),
        ASTNode::Var(s) => ExprM::Var(s@),
        ASTNode::Bool(b) => ExprM::BoolLit(*b),
        ASTNode::Add(l, r) => ExprM::Add(Box::new(ast_view(l)), Box::new(ast_view(r))),
        ASTNode::Sub(l, r) => ExprM::Sub(Box::new(ast_view(l)), Box::new(ast_view(r))),
        ASTNode::Mul(l, r) => ExprM::Mul(Box::new(ast_view(l)), Box::new(ast_view(r))),
        ASTNode::Eq(l, r) => ExprM::Eq(Box::new(ast_view(l)), Box::new(ast_view(r))),
        ASTNode::Not(c) => ExprM::Not(Box::new(ast_view(c))),
        ASTNode::NotEq(l, r) => ExprM::NotEq(Box::new(ast_view(l)), Box::new(ast_view(r))),
    }
}

/// A value an expression can evaluate to.
#[derive(Eq, Debug, PartialEq)]
pub enum Value {
    Str(String),
    Num(i32),
    Bool(bool),
}

/// The model of a value.
pub enum ValueM {
    StrV(Seq<char>),
    NumV(i32),
    BoolV(bool),
}

impl View for Value {
    type V = ValueM;

    open spec fn view(&self) -> ValueM {
        match self {
            Value::Str(s) => ValueM::StrV(s@),
            Value::Num(n) => ValueM::NumV(*n),
            Value::Bool(b) => ValueM::BoolV(*b),
        }
    }
}

impl Clone for Value {
    fn clone(&self) -> (res: Value)
        ensures
            res@ == self@,
    {
        match self {
            Value::Str(s) => Value::Str(s.clone()),
            Value::Num(n) => Value::Num(*n),
            Value::Bool(b) => Value::Bool(*b),
        }
    }
}

/// Whether `c` is a decimal digit.
pub open spec fn is_digit_char(c: char) -> bool {
    '0' <= c && c <= '9'
}

/// Whether `c` is an ASCII letter; identifiers start with one.
pub open spec fn is_alpha_char(c: char) -> bool {
    ('a' <= c && c <= 'z') || ('A' <= c && c <= 'Z')
}

/// Whether `c` may continue an identifier.
pub open spec fn is_alnum_char(c: char) -> bool {
    is_alpha_char(c) || is_digit_char(c)
}

/// The numeric value of a digit character.
pub open spec fn digit_val(c: char) -> int {
    c as u32 - 48
}

/// How many digits run from position `i`.
pub open spec fn digit_run(s: Seq<char>, i: int) -> nat
    decreases s.len() - i,
{
    if 0 <= i < s.len() && is_digit_char(s[i]) {
        (1 + digit_run(s, i + 1)) as nat
    } else {
        0
    }
}

/// How many identifier characters run from position `i`.
pub open spec fn alnum_run(s: Seq<char>, i: int) -> nat
    decreases s.len() - i,
{
    if 0 <= i < s.len() && is_alnum_char(s[i]) {
        (1 + alnum_run(s, i + 1)) as nat
    } else {
        0
    }
}

/// How many characters run from position `i` before a closing quote (or the
/// end of the text).
pub open spec fn str_run(s: Seq<char>, i: int) -> nat
    decreases s.len() - i,
{
    if 0 <= i < s.len() && s[i] != '"' {
        (1 + str_run(s, i + 1)) as nat
    } else {
        0
    }
}

/// The base-10 value of the digits `s[i..j]`.
pub open spec fn digits_val(s: Seq<char>, i: int, j: int) -> int
    decreases j - i,
{
    if j <= i {
        0
    } else {
        digits_val(s, i, j - 1) * 10 + digit_val(s[j - 1])
    }
}

/// A digit run stays inside the text.
proof fn lemma_digit_run_bound(s: Seq<char>, i: int)
    ensures
        i <= s.len() ==> i + digit_run(s, i) <= s.len(),
    decreases s.len() - i,
{
    if 0 <= i < s.len() && is_digit_char(s[i]) {
        lemma_digit_run_bound(s, i + 1);
    }
}

/// An identifier run stays inside the text.
proof fn lemma_alnum_run_bound(s: Seq<char>, i: int)
    ensures
        i <= s.len() ==> i + alnum_run(s, i) <= s.len(),
    decreases s.len() - i,
{
    if 0 <= i < s.len() && is_alnum_char(s[i]) {
        lemma_alnum_run_bound(s, i + 1);
    }
}

/// A string-literal body stays inside the text.
proof fn lemma_str_run_bound(s: Seq<char>, i: int)
    ensures
        i <= s.len() ==> i + str_run(s, i) <= s.len(),
    decreases s.len() - i,
{
    if 0 <= i < s.len() && s[i] != '"' {
        lemma_str_run_bound(s, i + 1);
    }
}

/// Prepends a token to a lexing result.
pub open spec fn lex_cons(t: TokenM, rest: Result<Seq<TokenM>, ErrM>) -> Result<
    Seq<TokenM>,
    ErrM,
> {
    match rest {
        Ok(ts) => Ok(seq![t] + ts),
        Err(e) => Err(e),
    }
}

/// The lexemes of `s` from position `i` on. Single-character operators and
/// parentheses stand for themselves; `==` and `!=` are two characters, and a
/// lone `=` is an error; spaces are skipped; a digit starts a base-10
/// integer literal, which must fit in 32 signed bits; a double quote starts
/// a string literal (no escapes) running to the next quote or the end of the
/// text; an ASCII letter starts an identifier, with `true` and `false` read
/// as boolean literals; anything else is an error.
pub open spec fn spec_lex_at(s: Seq<char>, i: int) -> Result<Seq<TokenM>, ErrM>
    decreases s.len() - i,
        via spec_lex_at_dec
{
    if i < 0 || i >= s.len() {
        Ok(Seq::empty())
    } else {
        let c = s[i];
        if c == '+' {
            lex_cons(TokenM::Plus, spec_lex_at(s, i + 1))
        } else if c == '-' {
            lex_cons(TokenM::Minus, spec_lex_at(s, i + 1))
        } else if c == '*' {
            lex_cons(TokenM::Multiply, spec_lex_at(s, i + 1))
        } else if c == '=' {
            if i + 1 < s.len() && s[i + 1] == '=' {
                lex_cons(TokenM::Equals, spec_lex_at(s, i + 2))
            } else {
                Err(ErrM::UnexpectedToken(TokenM::Var(seq![c])))
            }
        } else if c == '!' {
            if i + 1 < s.len() && s[i + 1] == '=' {
                lex_cons(TokenM::NotEquals, spec_lex_at(s, i + 2))
            } else {
                lex_cons(TokenM::Not, spec_lex_at(s, i + 1))
            }
        } else if c == '(' {
            lex_cons(TokenM::ParenOpen, spec_lex_at(s, i + 1))
        } else if c == ')' {
            lex_cons(TokenM::ParenClose, spec_lex_at(s, i + 1))
        } else if c == ' ' {
            spec_lex_at(s, i + 1)
        } else if is_digit_char(c) {
            let run = digit_run(s, i) as int;
            let v = digits_val(s, i, i + run);
            if v > i32::MAX as int {
                Err(ErrM::UnexpectedToken(TokenM::Var(s.subrange(i, i + run))))
            } else {
                lex_cons(TokenM::Num(v as i32), spec_lex_at(s, i + run))
            }
        } else if c == '"' {
            let body = str_run(s, i + 1) as int;
            let lit = s.subrange(i + 1, i + 1 + body);
            let next = if i + 1 + body < s.len() {
                i + 2 + body
            } else {
                i + 1 + body
            };
            lex_cons(TokenM::StrLit(lit), spec_lex_at(s, next))
        } else if is_alpha_char(c) {
            let run = alnum_run(s, i) as int;
            let w = s.subrange(i, i + run);
            if w == "true"@ {
                lex_cons(TokenM::BoolLit(true), spec_lex_at(s, i + run))
            } else if w == "false"@ {
                lex_cons(TokenM::BoolLit(false), spec_lex_at(s, i + run))
            } else {
                lex_cons(TokenM::Var(w), spec_lex_at(s, i + run))
            }
        } else {
            Err(ErrM::UnexpectedToken(TokenM::Var(seq![c])))
        }
    }
}

#[via_fn]
proof fn spec_lex_at_dec(s: Seq<char>, i: int) {
    lemma_digit_run_bound(s, i);
    lemma_alnum_run_bound(s, i);
    lemma_str_run_bound(s, i + 1);
}

/// A lexing result with tokens already produced in front of it.
pub open spec fn lex_concat(ts: Seq<TokenM>, rest: Result<Seq<TokenM>, ErrM>) -> Result<
    Seq<TokenM>,
    ErrM,
> {
    match rest {
        Ok(more) => Ok(ts + more),
        Err(e) => Err(e),
    }
}

/// Producing one more token folds into the prefix.
proof fn lemma_lex_concat_push(ts: Seq<TokenM>, t: TokenM, rest: Result<Seq<TokenM>, ErrM>)
    ensures
        lex_concat(ts, lex_cons(t, rest)) == lex_concat(ts.push(t), rest),
{
    match rest {
        Ok(more) => {
            assert(ts + (seq![t] + more) =~= ts.push(t) + more);
        },
        Err(_) => {},
    }
}

/// Every character of a digit run is a digit.
proof fn lemma_digit_run_chars(s: Seq<char>, i: int)
    ensures
        forall|k: int| i <= k < i + digit_run(s, i) ==> is_digit_char(#[trigger] s[k]),
    decreases s.len() - i,
{
    if 0 <= i < s.len() && is_digit_char(s[i]) {
        lemma_digit_run_chars(s, i + 1);
    }
}

/// The position right after the digit run starting at `start`.
fn digit_run_end(input: &str, start: usize) -> (j: usize)
    requires
        start <= input@.len(),
    ensures
        j == start + digit_run(input@, start as int),
        j <= input@.len(),
{
    proof {
        lemma_digit_run_bound(input@, start as int);
    }
    let len = input.unicode_len();
    let mut j = start;
    while j < len
        invariant
            start <= j <= len,
            len == input@.len(),
            digit_run(input@, start as int) == (j - start) + digit_run(input@, j as int),
        decreases len - j,
    {
        let c = input.get_char(j);
        if !('0' <= c && c <= '9') {
            return j;
        }
        proof {
            lemma_digit_run_bound(input@, j + 1);
        }
        j = j + 1;
    }
    j
}

/// The position right after the identifier run starting at `start`.
fn alnum_run_end(input: &str, start: usize) -> (j: usize)
    requires
        start <= input@.len(),
    ensures
        j == start + alnum_run(input@, start as int),
        j <= input@.len(),
{
    proof {
        lemma_alnum_run_bound(input@, start as int);
    }
    let len = input.unicode_len();
    let mut j = start;
    while j < len
        invariant
            start <= j <= len,
            len == input@.len(),
            alnum_run(input@, start as int) == (j - start) + alnum_run(input@, j as int),
        decreases len - j,
    {
        let c = input.get_char(j);
        let alpha = ('a' <= c && c <= 'z') || ('A' <= c && c <= 'Z');
        let digit = '0' <= c && c <= '9';
        if !(alpha || digit) {
            return j;
        }
        proof {
            lemma_alnum_run_bound(input@, j + 1);
        }
        j = j + 1;
    }
    j
}

/// The position of the closing quote for a literal body starting at `start`,
/// or the end of the text when the literal is unterminated.
fn str_run_end(input: &str, start: usize) -> (j: usize)
    requires
        start <= input@.len(),
    ensures
        j == start + str_run(input@, start as int),
        j <= input@.len(),
{
    proof {
        lemma_str_run_bound(input@, start as int);
    }
    let len = input.unicode_len();
    let mut j = start;
    while j < len
        invariant
            start <= j <= len,
            len == input@.len(),
            str_run(input@, start as int) == (j - start) + str_run(input@, j as int),
        decreases len - j,
    {
        let c = input.get_char(j);
        if c == '"' {
            return j;
        }
        proof {
            lemma_str_run_bound(input@, j + 1);
        }
        j = j + 1;
    }
    j
}

/// The characters `input[from..to]`, as a new string.
fn substring_chars(input: &str, from: usize, to: usize) -> (r: String)
    requires
        from <= to <= input@.len(),
    ensures
        r@ == input@.subrange(from as int, to as int),
{
    let mut r = String::new();
    let mut k = from;
    while k < to
        invariant
            from <= k <= to <= input@.len(),
            r@ == input@.subrange(from as int, k as int),
        decreases to - k,
    {
        push_char(&mut r, input.get_char(k));
        proof {
            assert(r@ =~= input@.subrange(from as int, k + 1));
        }
        k = k + 1;
    }
    r
}

/// The value of the digit run `input[start..end]`, when it fits in 32 signed
/// bits.
fn digits_value(input: &str, start: usize, end: usize) -> (r: Option<i32>)
    requires
        start <= end <= input@.len(),
        forall|k: int| start <= k < end ==> is_digit_char(#[trigger] input@[k]),
    ensures
        match r {
            Some(v) => v == digits_val(input@, start as int, end as int) && digits_val(
                input@,
                start as int,
                end as int,
            ) <= i32::MAX,
            None => digits_val(input@, start as int, end as int) > i32::MAX,
        },
{
    let mut val: u64 = 0;
    let mut k = start;
    while k < end
        invariant
            start <= k <= end <= input@.len(),
            forall|j: int| start <= j < end ==> is_digit_char(#[trigger] input@[j]),
            val <= 21474836479,
            val <= i32::MAX as u64 ==> val == digits_val(input@, start as int, k as int),
            (val > i32::MAX as u64) == (digits_val(input@, start as int, k as int)
                > i32::MAX as int),
        decreases end - k,
    {
        let c = input.get_char(k);
        let d = ((c as u32) - 48) as u64;
        proof {
            assert(is_digit_char(input@[k as int]));
            assert(digits_val(input@, start as int, k + 1) == digits_val(
                input@,
                start as int,
                k as int,
            ) * 10 + digit_val(input@[k as int]));
            if digits_val(input@, start as int, k as int) > i32::MAX as int {
                let dv = digits_val(input@, start as int, k as int);
                lemma_digits_val_nonneg(input@, start as int, k as int);
                assert(dv * 10 == dv + 9 * dv);
                assert(dv * 10 + digit_val(input@[k as int]) > i32::MAX as int);
            }
        }
        if val > 2147483647u64 {
            // the run already exceeds the largest literal; keep it saturated
        } else {
            val = val * 10 + d;
        }
        k = k + 1;
    }
    if val > 2147483647u64 {
        None
    } else {
        Some(val as i32)
    }
}

/// A digit-run value is never negative.
pub proof fn lemma_digits_val_nonneg(s: Seq<char>, i: int, j: int)
    requires
        forall|k: int| i <= k < j ==> is_digit_char(#[trigger] s[k]),
    ensures
        digits_val(s, i, j) >= 0,
    decreases j - i,
{
    if j > i {
        lemma_digits_val_nonneg(s, i, j - 1);
        let dv = digits_val(s, i, j - 1);
        assert(dv * 10 >= 0);
    }
}

/// Reads the lexemes of `input`, exactly as `spec_lex_at` describes them.
pub fn lex(input: &str) -> (res: Result<Vec<Token>, ExpressionError>)
    ensures
        match res {
            Ok(toks) => spec_lex_at(input@, 0) == Ok::<Seq<TokenM>, ErrM>(token_views(toks@)),
            Err(e) => spec_lex_at(input@, 0) == Err::<Seq<TokenM>, ErrM>(e@),
        },
{
    let len = input.unicode_len();
    let mut tokens: Vec<Token> = Vec::new();
    let mut i: usize = 0;
    while i < len
        invariant
            i <= len,
            len == input@.len(),
            spec_lex_at(input@, 0) == lex_concat(
                token_views(tokens@),
                spec_lex_at(input@, i as int),
            ),
        decreases len - i,
    {
        let ghost toks0 = token_views(tokens@);
        let ghost s = input@;
        let c = input.get_char(i);
        if c == '+' {
            push_token(&mut tokens, Token::Plus);
            proof {
                lemma_lex_concat_push(toks0, TokenM::Plus, spec_lex_at(s, i + 1));
            }
            i = i + 1;
        } else if c == '-' {
            push_token(&mut tokens, Token::Minus);
            proof {
                lemma_lex_concat_push(toks0, TokenM::Minus, spec_lex_at(s, i + 1));
            }
            i = i + 1;
        } else if c == '*' {
            push_token(&mut tokens, Token::Multiply);
            proof {
                lemma_lex_concat_push(toks0, TokenM::Multiply, spec_lex_at(s, i + 1));
            }
            i = i + 1;
        } else if c == '=' {
            if i + 1 < len && input.get_char(i + 1) == '=' {
                push_token(&mut tokens, Token::Equals);
                proof {
                    lemma_lex_concat_push(toks0, TokenM::Equals, spec_lex_at(s, i + 2));
                }
                i = i + 2;
            } else {
                let mut t = String::new();
                push_char(&mut t, c);
                proof {
                    assert(t@ =~= seq![c]);
                }
                return Err(ExpressionError::UnexpectedToken(Token::Var(t)));
            }
        } else if c == '!' {
            if i + 1 < len && input.get_char(i + 1) == '=' {
                push_token(&mut tokens, Token::NotEquals);
                proof {
                    lemma_lex_concat_push(toks0, TokenM::NotEquals, spec_lex_at(s, i + 2));
                }
                i = i + 2;
            } else {
                push_token(&mut tokens, Token::Not);
                proof {
                    lemma_lex_concat_push(toks0, TokenM::Not, spec_lex_at(s, i + 1));
                }
                i = i + 1;
            }
        } else if c == '(' {
            push_token(&mut tokens, Token::ParenOpen);
            proof {
                lemma_lex_concat_push(toks0, TokenM::ParenOpen, spec_lex_at(s, i + 1));
            }
            i = i + 1;
        } else if c == ')' {
            push_token(&mut tokens, Token::ParenClose);
            proof {
                lemma_lex_concat_push(toks0, TokenM::ParenClose, spec_lex_at(s, i + 1));
            }
            i = i + 1;
        } else if c == ' ' {
            i = i + 1;
        } else if '0' <= c && c <= '9' {
            let end = digit_run_end(input, i);
            proof {
                lemma_digit_run_chars(s, i as int);
            }
            let value = digits_value(input, i, end);
            match value {
                Some(v) => {
                    push_token(&mut tokens, Token::Num(v));
                    proof {
                        lemma_lex_concat_push(toks0, TokenM::Num(v), spec_lex_at(s, end as int));
                    }
                    i = end;
                },
                None => {
                    let t = substring_chars(input, i, end);
                    return Err(ExpressionError::UnexpectedToken(Token::Var(t)));
                },
            }
        } else if c == '"' {
            let body_end = str_run_end(input, i + 1);
            let lit = substring_chars(input, i + 1, body_end);
            let next: usize = if body_end < len {
                body_end + 1
            } else {
                body_end
            };
            let ghost litv = lit@;
            push_token(&mut tokens, Token::Str(lit));
            proof {
                lemma_lex_concat_push(toks0, TokenM::StrLit(litv), spec_lex_at(s, next as int));
            }
            i = next;
        } else if ('a' <= c && c <= 'z') || ('A' <= c && c <= 'Z') {
            let end = alnum_run_end(input, i);
            let w = substring_chars(input, i, end);
            if w == "true".to_owned() {
                push_token(&mut tokens, Token::Bool(true));
                proof {
                    lemma_lex_concat_push(toks0, TokenM::BoolLit(true), spec_lex_at(s, end as int));
                }
            } else if w == "false".to_owned() {
                push_token(&mut tokens, Token::Bool(false));
                proof {
                    lemma_lex_concat_push(
                        toks0,
                        TokenM::BoolLit(false),
                        spec_lex_at(s, end as int),
                    );
                }
            } else {
                let ghost wv = w@;
                push_token(&mut tokens, Token::Var(w));
                proof {
                    lemma_lex_concat_push(toks0, TokenM::Var(wv), spec_lex_at(s, end as int));
                }
            }
            i = end;
        } else {
            let mut t = String::new();
            push_char(&mut t, c);
            proof {
                assert(t@ =~= seq![c]);
            }
            return Err(ExpressionError::UnexpectedToken(Token::Var(t)));
        }
    }
    proof {
        assert(token_views(tokens@) + Seq::<TokenM>::empty() =~= token_views(tokens@));
    }
    Ok(tokens)
}

/// Appends a token, tracking the model sequence.
fn push_token(tokens: &mut Vec<Token>, t: Token)
    ensures
        token_views(final(tokens)@) == token_views(old(tokens)@).push(t@),
{
    let ghost ts0 = tokens@;
    let ghost tv = t;
    tokens.push(t);
    proof {
        lemma_token_views_push(ts0, tv);
    }
}

/// The bindings carried by entry pairs; a later binding wins.
pub open spec fn env_map(es: Seq<(String, Value)>) -> Map<Seq<char>, ValueM>
    decreases es.len(),
{
    if es.len() == 0 {
        Map::empty()
    } else {
        env_map(es.drop_last()).insert(es.last().0@, es.last().1@)
    }
}

/// A variable environment: names bound to values, a later binding shadowing
/// an earlier one.
pub struct Environment {
    pub entries: Vec<(String, Value)>,
}

impl View for Environment {
    type V = Map<Seq<char>, ValueM>;

    open spec fn view(&self) -> Map<Seq<char>, ValueM> {
        env_map(self.entries@)
    }
}

impl Environment {
    /// An environment with no bindings.
    pub fn new() -> (e: Environment)
        ensures
            e@ == Map::<Seq<char>, ValueM>::empty(),
    {
        Environment { entries: Vec::new() }
    }

    /// Binds `name` to `value`, shadowing any earlier binding.
    pub fn insert(&mut self, name: String, value: Value)
        ensures
            final(self)@ == old(self)@.insert(name@, value@),
    {
        let ghost gn = name;
        let ghost gv = value;
        let ghost es0 = self.entries@;
        self.entries.push((name, value));
        proof {
            assert(self.entries@.drop_last() =~= es0);
            assert(self.entries@.last() == (gn, gv));
        }
    }

    /// The value bound to `name`, if any.
    pub fn get(&self, name: &String) -> (r: Option<&Value>)
        ensures
            match r {
                Some(v) => self@.contains_key(name@) && v@ == self@[name@],
                None => !self@.contains_key(name@),
            },
    {
        let mut j = self.entries.len();
        proof {
            assert(self.entries@.take(self.entries@.len() as int) =~= self.entries@);
        }
        while j > 0
            invariant
                j <= self.entries@.len(),
                self@.contains_key(name@) == env_map(self.entries@.take(j as int)).contains_key(
                    name@,
                ),
                self@.contains_key(name@) ==> self@[name@] == env_map(
                    self.entries@.take(j as int),
                )[name@],
            decreases j,
        {
            let jj = j - 1;
            proof {
                assert(self.entries@.take(j as int).drop_last() =~= self.entries@.take(jj as int));
                assert(self.entries@.take(j as int).last() == self.entries@[jj as int]);
            }
            if self.entries[jj].0 == *name {
                return Some(&self.entries[jj].1);
            }
            j = jj;
        }
        proof {
            assert(self.entries@.take(0) =~= Seq::<(String, Value)>::empty());
        }
        None
    }
}

/// The value of an expression under an environment: literals stand for
/// themselves; a variable looks its name up and fails with
/// `UnboundVariable` when absent; `+`, `-` and `*` demand numbers and wrap
/// on overflow; `==` and `!=` demand operands of one kind; `!` demands a
/// boolean; anything else is an `UnsupportedOperation`. The left operand is
/// evaluated first, and its error wins.
pub open spec fn spec_eval(e: ExprM, env: Map<Seq<char>, ValueM>) -> Result<ValueM, ErrM>
    decreases e,
{
    match e {
        ExprM::Num(n) => Ok(ValueM::NumV(n)),
        ExprM::StrLit(t) => Ok(ValueM::StrV(t)),
        ExprM::BoolLit(b) => Ok(ValueM::BoolV(b)),
        ExprM::Var(name) => if env.contains_key(name) {
            Ok(env[name])
        } else {
            Err(ErrM::UnboundVariable(name))
        },
        ExprM::Add(l, r) => match (spec_eval(*l, env), spec_eval(*r, env)) {
            (Err(e1), _) => Err(e1),
            (Ok(_), Err(e2)) => Err(e2),
            (Ok(ValueM::NumV(a)), Ok(ValueM::NumV(b))) => Ok(ValueM::NumV(a.wrapping_add(b))),
            _ => Err(ErrM::UnsupportedOperation),
        },
        ExprM::Sub(l, r) => match (spec_eval(*l, env), spec_eval(*r, env)) {
            (Err(e1), _) => Err(e1),
            (Ok(_), Err(e2)) => Err(e2),
            (Ok(ValueM::NumV(a)), Ok(ValueM::NumV(b))) => Ok(ValueM::NumV(a.wrapping_sub(b))),
            _ => Err(ErrM::UnsupportedOperation),
        },
        ExprM::Mul(l, r) => match (spec_eval(*l, env), spec_eval(*r, env)) {
            (Err(e1), _) => Err(e1),
            (Ok(_), Err(e2)) => Err(e2),
            (Ok(ValueM::NumV(a)), Ok(ValueM::NumV(b))) => Ok(ValueM::NumV(a.wrapping_mul(b))),
            _ => Err(ErrM::UnsupportedOperation),
        },
        ExprM::Eq(l, r) => match (spec_eval(*l, env), spec_eval(*r, env)) {
            (Err(e1), _) => Err(e1),
            (Ok(_), Err(e2)) => Err(e2),
            (Ok(ValueM::NumV(a)), Ok(ValueM::NumV(b))) => Ok(ValueM::BoolV(a == b)),
            (Ok(ValueM::StrV(a)), Ok(ValueM::StrV(b))) => Ok(ValueM::BoolV(a == b)),
            (Ok(ValueM::BoolV(a)), Ok(ValueM::BoolV(b))) => Ok(ValueM::BoolV(a == b)),
            _ => Err(ErrM::UnsupportedOperation),
        },
        ExprM::NotEq(l, r) => match (spec_eval(*l, env), spec_eval(*r, env)) {
            (Err(e1), _) => Err(e1),
            (Ok(_), Err(e2)) => Err(e2),
            (Ok(ValueM::NumV(a)), Ok(ValueM::NumV(b))) => Ok(ValueM::BoolV(a != b)),
            (Ok(ValueM::StrV(a)), Ok(ValueM::StrV(b))) => Ok(ValueM::BoolV(a != b)),
            (Ok(ValueM::BoolV(a)), Ok(ValueM::BoolV(b))) => Ok(ValueM::BoolV(a != b)),
            _ => Err(ErrM::UnsupportedOperation),
        },
        ExprM::Not(child) => match spec_eval(*child, env) {
            Err(e1) => Err(e1),
            Ok(ValueM::BoolV(b)) => Ok(ValueM::BoolV(!b)),
            Ok(_) => Err(ErrM::UnsupportedOperation),
        },
    }
}

/// Evaluates an expression under an environment, exactly as `spec_eval`
/// describes it.
pub fn eval(ast: &ASTNode, environment: &Environment) -> (r: Result<Value, ExpressionError>)
    ensures
        match r {
            Ok(v) => spec_eval(ast_view(ast), environment@) == Ok::<ValueM, ErrM>(v@),
            Err(e) => spec_eval(ast_view(ast), environment@) == Err::<ValueM, ErrM>(e@),
        },
    decreases ast,
{
    match ast {
        ASTNode::Num(n) => Ok(Value::Num(*n)),
        ASTNode::Str(t) => Ok(Value::Str(t.clone())),
        ASTNode::Bool(b) => Ok(Value::Bool(*b)),
        ASTNode::Var(name) => match environment.get(name) {
            Some(val) => Ok(val.clone()),
            None => Err(ExpressionError::UnboundVariable(name.clone())),
        },
        ASTNode::Add(lhs, rhs) => {
            let l = eval(lhs, environment)?;
            let r = eval(rhs, environment)?;
            match (l, r) {
                (Value::Num(a), Value::Num(b)) => Ok(Value::Num(a.wrapping_add(b))),
                _ => Err(ExpressionError::UnsupportedOperation),
            }
        },
        ASTNode::Sub(lhs, rhs) => {
            let l = eval(lhs, environment)?;
            let r = eval(rhs, environment)?;
            match (l, r) {
                (Value::Num(a), Value::Num(b)) => Ok(Value::Num(a.wrapping_sub(b))),
                _ => Err(ExpressionError::UnsupportedOperation),
            }
        },
        ASTNode::Mul(lhs, rhs) => {
            let l = eval(lhs, environment)?;
            let r = eval(rhs, environment)?;
            match (l, r) {
                (Value::Num(a), Value::Num(b)) => Ok(Value::Num(a.wrapping_mul(b))),
                _ => Err(ExpressionError::UnsupportedOperation),
            }
        },
        ASTNode::Eq(lhs, rhs) => {
            let l = eval(lhs, environment)?;
            let r = eval(rhs, environment)?;
            match (l, r) {
                (Value::Num(a), Value::Num(b)) => Ok(Value::Bool(a == b)),
                (Value::Str(a), Value::Str(b)) => Ok(Value::Bool(a == b)),
                (Value::Bool(a), Value::Bool(b)) => Ok(Value::Bool(a == b)),
                _ => Err(ExpressionError::UnsupportedOperation),
            }
        },
        ASTNode::NotEq(lhs, rhs) => {
            let l = eval(lhs, environment)?;
            let r = eval(rhs, environment)?;
            match (l, r) {
                (Value::Num(a), Value::Num(b)) => Ok(Value::Bool(a != b)),
                (Value::Str(a), Value::Str(b)) => Ok(Value::Bool(!(a == b))),
                (Value::Bool(a), Value::Bool(b)) => Ok(Value::Bool(a != b)),
                _ => Err(ExpressionError::UnsupportedOperation),
            }
        },
        ASTNode::Not(child) => {
            let val = eval(child, environment)?;
            match val {
                Value::Bool(b) => Ok(Value::Bool(!b)),
                _ => Err(ExpressionError::UnsupportedOperation),
            }
        },
    }
}

/// The prefix an expression starts with, at binding power `prec`: a unary
/// minus (read as `0 - x`) below power 30, a `!` below power 40, a literal
/// or variable, or a parenthesised sub-expression below power 50, which must
/// be closed. Returns the parsed node and the position after it.
pub open spec fn spec_parse_prefix(ts: Seq<TokenM>, pos: int, prec: int) -> Result<
    (ExprM, int),
    ErrM,
>
    decreases ts.len() - pos, 2int,
{
    if pos < 0 || pos >= ts.len() {
        Err(ErrM::RanOutOfTokens)
    } else {
        match ts[pos] {
            TokenM::Minus => if prec < 30 {
                match spec_parse(ts, pos + 1, 30) {
                    Ok((rhs, p)) => Ok(
                        (ExprM::Sub(Box::new(ExprM::Num(0)), Box::new(rhs)), p),
                    ),
                    Err(e) => Err(e),
                }
            } else {
                Err(ErrM::UnexpectedToken(TokenM::Minus))
            },
            TokenM::Not => if prec < 40 {
                match spec_parse(ts, pos + 1, 40) {
                    Ok((rhs, p)) => Ok((ExprM::Not(Box::new(rhs)), p)),
                    Err(e) => Err(e),
                }
            } else {
                Err(ErrM::UnexpectedToken(TokenM::Not))
            },
            TokenM::Num(v) => Ok((ExprM::Num(v), pos + 1)),
            TokenM::Var(name) => Ok((ExprM::Var(name), pos + 1)),
            TokenM::StrLit(t) => Ok((ExprM::StrLit(t), pos + 1)),
            TokenM::BoolLit(b) => Ok((ExprM::BoolLit(b), pos + 1)),
            TokenM::ParenOpen => if prec < 50 {
                match spec_parse(ts, pos + 1, 0) {
                    Ok((sub, p)) => if 0 <= p < ts.len() && ts[p] is ParenClose {
                        Ok((sub, p + 1))
                    } else {
                        Err(ErrM::DidntGetRightParen)
                    },
                    Err(e) => Err(e),
                }
            } else {
                Err(ErrM::UnexpectedToken(TokenM::ParenOpen))
            },
            t => Err(ErrM::UnexpectedToken(t)),
        }
    }
}

/// An expression at binding power `prec`: a prefix, then any run of infix
/// operators that bind more tightly than `prec`.
pub open spec fn spec_parse(ts: Seq<TokenM>, pos: int, prec: int) -> Result<(ExprM, int), ErrM>
    decreases ts.len() - pos, 3int,
{
    match spec_parse_prefix(ts, pos, prec) {
        Err(e) => Err(e),
        Ok((lhs, p1)) => if p1 <= pos || p1 > ts.len() {
            Err(ErrM::RanOutOfTokens)
        } else {
            spec_parse_infix(ts, lhs, p1, prec)
        },
    }
}

/// The infix run after a parsed left operand: while the next token is an
/// operator binding more tightly than `prec`, parse its right operand at the
/// operator's own power and fold it in; `==` and `!=` bind at 10, `+` and
/// `-` at 20, `*` at 30.
pub open spec fn spec_parse_infix(ts: Seq<TokenM>, lhs: ExprM, pos: int, prec: int) -> Result<
    (ExprM, int),
    ErrM,
>
    decreases ts.len() - pos, 1int,
{
    if pos < 0 || pos >= ts.len() {
        Ok((lhs, pos))
    } else {
        match ts[pos] {
            TokenM::Plus => if prec < 20 {
                match spec_parse(ts, pos + 1, 20) {
                    Err(e) => Err(e),
                    Ok((rhs, p2)) => if p2 <= pos || p2 > ts.len() {
                        Err(ErrM::RanOutOfTokens)
                    } else {
                        spec_parse_infix(
                            ts,
                            ExprM::Add(Box::new(lhs), Box::new(rhs)),
                            p2,
                            prec,
                        )
                    },
                }
            } else {
                Ok((lhs, pos))
            },
            TokenM::Minus => if prec < 20 {
                match spec_parse(ts, pos + 1, 20) {
                    Err(e) => Err(e),
                    Ok((rhs, p2)) => if p2 <= pos || p2 > ts.len() {
                        Err(ErrM::RanOutOfTokens)
                    } else {
                        spec_parse_infix(
                            ts,
                            ExprM::Sub(Box::new(lhs), Box::new(rhs)),
                            p2,
                            prec,
                        )
                    },
                }
            } else {
                Ok((lhs, pos))
            },
            TokenM::Multiply => if prec < 30 {
                match spec_parse(ts, pos + 1, 30) {
                    Err(e) => Err(e),
                    Ok((rhs, p2)) => if p2 <= pos || p2 > ts.len() {
                        Err(ErrM::RanOutOfTokens)
                    } else {
                        spec_parse_infix(
                            ts,
                            ExprM::Mul(Box::new(lhs), Box::new(rhs)),
                            p2,
                            prec,
                        )
                    },
                }
            } else {
                Ok((lhs, pos))
            },
            TokenM::Equals => if prec < 10 {
                match spec_parse(ts, pos + 1, 10) {
                    Err(e) => Err(e),
                    Ok((rhs, p2)) => if p2 <= pos || p2 > ts.len() {
                        Err(ErrM::RanOutOfTokens)
                    } else {
                        spec_parse_infix(ts, ExprM::Eq(Box::new(lhs), Box::new(rhs)), p2, prec)
                    },
                }
            } else {
                Ok((lhs, pos))
            },
            TokenM::NotEquals => if prec < 10 {
                match spec_parse(ts, pos + 1, 10) {
                    Err(e) => Err(e),
                    Ok((rhs, p2)) => if p2 <= pos || p2 > ts.len() {
                        Err(ErrM::RanOutOfTokens)
                    } else {
                        spec_parse_infix(
                            ts,
                            ExprM::NotEq(Box::new(lhs), Box::new(rhs)),
                            p2,
                            prec,
                        )
                    },
                }
            } else {
                Ok((lhs, pos))
            },
            _ => Ok((lhs, pos)),
        }
    }
}

/// Parses the prefix of an expression, exactly as `spec_parse_prefix`
/// describes it.
fn parse_prefix(tokens: &Vec<Token>, pos: usize, precedence: i32) -> (r: Result<
    (ASTNode, usize),
    ExpressionError,
>)
    ensures
        match r {
            Ok(p) => spec_parse_prefix(token_views(tokens@), pos as int, precedence as int)
                == Ok::<(ExprM, int), ErrM>((ast_view(&p.0), p.1 as int)) && pos < p.1
                <= tokens@.len(),
            Err(e) => spec_parse_prefix(token_views(tokens@), pos as int, precedence as int)
                == Err::<(ExprM, int), ErrM>(e@),
        },
    decreases tokens@.len() - pos, 2int,
{
    if pos >= tokens.len() {
        return Err(ExpressionError::RanOutOfTokens);
    }
    proof {
        assert(token_views(tokens@)[pos as int] == tokens@[pos as int]@);
    }
    match &tokens[pos] {
        Token::Minus => {
            if precedence < 30 {
                match parse_expr(tokens, pos + 1, 30) {
                    Ok((rhs, p)) => {
                        let node = ASTNode::Sub(Box::new(ASTNode::Num(0)), Box::new(rhs));
                        proof {
                            reveal_with_fuel(ast_view, 2);
                            assert(spec_parse_prefix(
                                token_views(tokens@),
                                pos as int,
                                precedence as int,
                            ) == Ok::<(ExprM, int), ErrM>((ast_view(&node), p as int)));
                        }
                        Ok((node, p))
                    },
                    Err(e) => Err(e),
                }
            } else {
                proof {
                    assert(spec_parse_prefix(token_views(tokens@), pos as int, precedence as int)
                        == Err::<(ExprM, int), ErrM>(ErrM::UnexpectedToken(TokenM::Minus)));
                }
                Err(ExpressionError::UnexpectedToken(Token::Minus))
            }
        },
        Token::Not => {
            if precedence < 40 {
                match parse_expr(tokens, pos + 1, 40) {
                    Ok((rhs, p)) => Ok((ASTNode::Not(Box::new(rhs)), p)),
                    Err(e) => Err(e),
                }
            } else {
                Err(ExpressionError::UnexpectedToken(Token::Not))
            }
        },
        Token::Num(v) => {
            proof {
                assert(spec_parse_prefix(token_views(tokens@), pos as int, precedence as int)
                    == Ok::<(ExprM, int), ErrM>((ExprM::Num(*v), pos + 1)));
            }
            Ok((ASTNode::Num(*v), pos + 1))
        },
        Token::Var(name) => {
            proof {
                assert(spec_parse_prefix(token_views(tokens@), pos as int, precedence as int)
                    == Ok::<(ExprM, int), ErrM>((ExprM::Var(name@), pos + 1)));
            }
            Ok((ASTNode::Var(name.clone()), pos + 1))
        },
        Token::Str(t) => {
            proof {
                assert(spec_parse_prefix(token_views(tokens@), pos as int, precedence as int)
                    == Ok::<(ExprM, int), ErrM>((ExprM::StrLit(t@), pos + 1)));
            }
            Ok((ASTNode::Str(t.clone()), pos + 1))
        },
        Token::Bool(b) => {
            proof {
                assert(spec_parse_prefix(token_views(tokens@), pos as int, precedence as int)
                    == Ok::<(ExprM, int), ErrM>((ExprM::BoolLit(*b), pos + 1)));
            }
            Ok((ASTNode::Bool(*b), pos + 1))
        },
        Token::ParenOpen => {
            if precedence < 50 {
                match parse_expr(tokens, pos + 1, 0) {
                    Ok((sub, p)) => {
                        if p < tokens.len() && matches!(&tokens[p], Token::ParenClose) {
                            proof {
                                assert(token_views(tokens@)[p as int] == tokens@[p as int]@);
                                assert(spec_parse_prefix(
                                    token_views(tokens@),
                                    pos as int,
                                    precedence as int,
                                ) == Ok::<(ExprM, int), ErrM>((ast_view(&sub), p + 1)));
                            }
                            Ok((sub, p + 1))
                        } else {
                            proof {
                                assert(spec_parse_prefix(
                                    token_views(tokens@),
                                    pos as int,
                                    precedence as int,
                                ) == Err::<(ExprM, int), ErrM>(ErrM::DidntGetRightParen));
                            }
                            Err(ExpressionError::DidntGetRightParen)
                        }
                    },
                    Err(e) => Err(e),
                }
            } else {
                Err(ExpressionError::UnexpectedToken(Token::ParenOpen))
            }
        },
        t => {
            proof {
                assert(spec_parse_prefix(token_views(tokens@), pos as int, precedence as int)
                    == Err::<(ExprM, int), ErrM>(ErrM::UnexpectedToken(tokens@[pos as int]@)));
            }
            Err(ExpressionError::UnexpectedToken(t.clone()))
        },
    }
}

/// Parses an expression at binding power `precedence`, exactly as
/// `spec_parse` describes it.
fn parse_expr(tokens: &Vec<Token>, pos: usize, precedence: i32) -> (r: Result<
    (ASTNode, usize),
    ExpressionError,
>)
    ensures
        match r {
            Ok(p) => spec_parse(token_views(tokens@), pos as int, precedence as int) == Ok::<
                (ExprM, int),
                ErrM,
            >((ast_view(&p.0), p.1 as int)) && pos < p.1 <= tokens@.len(),
            Err(e) => spec_parse(token_views(tokens@), pos as int, precedence as int) == Err::<
                (ExprM, int),
                ErrM,
            >(e@),
        },
    decreases tokens@.len() - pos, 3int,
{
    match parse_prefix(tokens, pos, precedence) {
        Err(e) => Err(e),
        Ok((lhs, p1)) => parse_infix(tokens, lhs, p1, precedence),
    }
}

/// Parses the infix run after a left operand, exactly as `spec_parse_infix`
/// describes it.
fn parse_infix(tokens: &Vec<Token>, lhs: ASTNode, pos: usize, precedence: i32) -> (r: Result<
    (ASTNode, usize),
    ExpressionError,
>)
    requires
        pos <= tokens@.len(),
    ensures
        match r {
            Ok(p) => spec_parse_infix(
                token_views(tokens@),
                ast_view(&lhs),
                pos as int,
                precedence as int,
            ) == Ok::<(ExprM, int), ErrM>((ast_view(&p.0), p.1 as int)) && pos <= p.1
                <= tokens@.len(),
            Err(e) => spec_parse_infix(
                token_views(tokens@),
                ast_view(&lhs),
                pos as int,
                precedence as int,
            ) == Err::<(ExprM, int), ErrM>(e@),
        },
    decreases tokens@.len() - pos, 1int,
{
    if pos >= tokens.len() {
        return Ok((lhs, pos));
    }
    match &tokens[pos] {
        Token::Plus => {
            if precedence < 20 {
                match parse_expr(tokens, pos + 1, 20) {
                    Err(e) => Err(e),
                    Ok((rhs, p2)) => parse_infix(
                        tokens,
                        ASTNode::Add(Box::new(lhs), Box::new(rhs)),
                        p2,
                        precedence,
                    ),
                }
            } else {
                Ok((lhs, pos))
            }
        },
        Token::Minus => {
            if precedence < 20 {
                match parse_expr(tokens, pos + 1, 20) {
                    Err(e) => Err(e),
                    Ok((rhs, p2)) => parse_infix(
                        tokens,
                        ASTNode::Sub(Box::new(lhs), Box::new(rhs)),
                        p2,
                        precedence,
                    ),
                }
            } else {
                Ok((lhs, pos))
            }
        },
        Token::Multiply => {
            if precedence < 30 {
                match parse_expr(tokens, pos + 1, 30) {
                    Err(e) => Err(e),
                    Ok((rhs, p2)) => parse_infix(
                        tokens,
                        ASTNode::Mul(Box::new(lhs), Box::new(rhs)),
                        p2,
                        precedence,
                    ),
                }
            } else {
                Ok((lhs, pos))
            }
        },
        Token::Equals => {
            if precedence < 10 {
                match parse_expr(tokens, pos + 1, 10) {
                    Err(e) => Err(e),
                    Ok((rhs, p2)) => parse_infix(
                        tokens,
                        ASTNode::Eq(Box::new(lhs), Box::new(rhs)),
                        p2,
                        precedence,
                    ),
                }
            } else {
                Ok((lhs, pos))
            }
        },
        Token::NotEquals => {
            if precedence < 10 {
                match parse_expr(tokens, pos + 1, 10) {
                    Err(e) => Err(e),
                    Ok((rhs, p2)) => parse_infix(
                        tokens,
                        ASTNode::NotEq(Box::new(lhs), Box::new(rhs)),
                        p2,
                        precedence,
                    ),
                }
            } else {
                Ok((lhs, pos))
            }
        },
        _ => Ok((lhs, pos)),
    }
}

/// A cursor over a token sequence.
pub struct Parser {
    pub tokens: Vec<Token>,
    pub pos: usize,
}

impl Parser {
    /// Parses one expression at binding power `precedence` from the cursor,
    /// advancing it past what was consumed; the cursor stays put on failure.
    pub fn parse(&mut self, precedence: i32) -> (r: Result<ASTNode, ExpressionError>)
        requires
            old(self).pos <= old(self).tokens@.len(),
        ensures
            final(self).tokens == old(self).tokens,
            final(self).pos <= final(self).tokens@.len(),
            match r {
                Ok(ast) => spec_parse(
                    token_views(old(self).tokens@),
                    old(self).pos as int,
                    precedence as int,
                ) == Ok::<(ExprM, int), ErrM>((ast_view(&ast), final(self).pos as int)),
                Err(e) => spec_parse(
                    token_views(old(self).tokens@),
                    old(self).pos as int,
                    precedence as int,
                ) == Err::<(ExprM, int), ErrM>(e@) && final(self).pos == old(self).pos,
            },
    {
        match parse_expr(&self.tokens, self.pos, precedence) {
            Ok((ast, p)) => {
                self.pos = p;
                Ok(ast)
            },
            Err(e) => Err(e),
        }
    }
}

/// What lexing and parsing a whole query text yields: the expression of its
/// first well-formed prefix, or the first error met.
pub open spec fn spec_lex_parse(s: Seq<char>) -> Result<ExprM, ErrM> {
    match spec_lex_at(s, 0) {
        Err(e) => Err(e),
        Ok(ts) => match spec_parse(ts, 0, 0) {
            Ok((e, _)) => Ok(e),
            Err(e2) => Err(e2),
        },
    }
}

/// Lexes and parses a query text, exactly as `spec_lex_parse` describes it.
pub fn lex_parse(input: String) -> (r: Result<ASTNode, ExpressionError>)
    ensures
        match r {
            Ok(ast) => spec_lex_parse(input@) == Ok::<ExprM, ErrM>(ast_view(&ast)),
            Err(e) => spec_lex_parse(input@) == Err::<ExprM, ErrM>(e@),
        },
{
    let tokens = match lex(input.as_str()) {
        Ok(ts) => ts,
        Err(e) => {
            return Err(e);
        },
    };
    let mut parser = Parser { tokens, pos: 0 };
    match parser.parse(0) {
        Ok(ast) => Ok(ast),
        Err(e) => Err(e),
    }
}

} // verus!
