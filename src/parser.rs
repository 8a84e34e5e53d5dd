use vstd::prelude::*;
use crate::lexer::{Reserved, Token};

verus! {

/// One parsed program line: an optional line number and one statement.
#[derive(Debug, PartialEq)]
pub struct Line {
    pub number: Option<u32>,
    pub statement: Statement,
}

#[derive(Debug, PartialEq)]
pub struct Statement {
    pub reserved: Reserved,
    pub child: StatementType,
}

/// What follows a statement's keyword. Only `GOTO` has a statement form so
/// far, with an expression after it; `Singleton` is kept for keywords that
/// will take nothing after them, and no statement form produces it yet.
#[derive(Debug, PartialEq)]
pub enum StatementType {
    Expression(Expression),
    Singleton,
}

/// An operand of a term, with the `*` or `/` that joins it to the factors
/// before it.
#[derive(Debug, PartialEq)]
pub struct Factor {
    pub op: Option<Token>,
    pub data: Box<Factors>,
}

#[derive(Debug, PartialEq)]
pub enum Factors {
    Number(u32),
    Var(char),
    Expression(Expression),
}

/// A sum of terms.
#[derive(Debug, PartialEq)]
pub struct Expression {
    pub child: Vec<Term>,
}

/// A product of factors, with the `+` or `-` that joins it to the terms
/// before it (or stands before the first term).
#[derive(Debug, PartialEq)]
pub struct Term {
    pub op: Option<Token>,
    pub child: Vec<Factor>,
}

/// Why a token sequence is no line. Positions are token indices.
#[derive(Debug, PartialEq, Eq, Clone, Copy)]
pub enum ParseError {
    /// The tokens ended where a statement or a factor had to start.
    UnexpectedEof,
    /// A statement has to start with a keyword.
    InvalidStatement { at: usize },
    /// A keyword whose statement form is not defined yet.
    UnsupportedStatement { keyword: Reserved, at: usize },
    /// An expression whose first term could not be parsed.
    InvalidTerm { at: usize },
    /// A token that starts no factor.
    InvalidFactor { at: usize },
    /// An opening bracket whose expression is not followed by a closing one.
    UnbalancedBrackets { at: usize },
    /// Tokens left over after a complete line.
    TrailingTokens { at: usize },
}

// ---- The parse tree as mathematical values ----

pub enum AtomView {
    Number(u32),
    Var(char),
    Expression(ExpressionView),
}

pub struct FactorView {
    pub op: Option<Token>,
    pub data: AtomView,
}

pub struct TermView {
    pub op: Option<Token>,
    pub factors: Seq<FactorView>,
}

pub struct ExpressionView {
    pub terms: Seq<TermView>,
}

pub enum StatementTypeView {
    Expression(ExpressionView),
    Singleton,
}

pub struct StatementView {
    pub reserved: Reserved,
    pub child: StatementTypeView,
}

pub struct LineView {
    pub number: Option<u32>,
    pub statement: StatementView,
}

pub open spec fn factor_view(f: Factor) -> FactorView
    decreases f,
{
    FactorView {
        op: f.op,
        data: match *f.data {
            Factors::Number(n) => AtomView::Number(n),
            Factors::Var(c) => AtomView::Var(c),
            Factors::Expression(e) => AtomView::Expression(expression_view(e)),
        },
    }
}

pub open spec fn factors_view(s: Seq<Factor>) -> Seq<FactorView>
    decreases s,
{
    if s.len() == 0 {
        seq![]
    } else {
        factors_view(s.subrange(0, s.len() - 1)).push(factor_view(s[s.len() - 1]))
    }
}

pub open spec fn term_view(t: Term) -> TermView
    decreases t,
{
    TermView { op: t.op, factors: factors_view(t.child@) }
}

pub open spec fn terms_view(s: Seq<Term>) -> Seq<TermView>
    decreases s,
{
    if s.len() == 0 {
        seq![]
    } else {
        terms_view(s.subrange(0, s.len() - 1)).push(term_view(s[s.len() - 1]))
    }
}

pub open spec fn expression_view(e: Expression) -> ExpressionView
    decreases e,
{
    ExpressionView { terms: terms_view(e.child@) }
}

impl View for Factor {
    type V = FactorView;

    open spec fn view(&self) -> FactorView {
        factor_view(*self)
    }
}

impl View for Term {
    type V = TermView;

    open spec fn view(&self) -> TermView {
        term_view(*self)
    }
}

impl View for Expression {
    type V = ExpressionView;

    open spec fn view(&self) -> ExpressionView {
        expression_view(*self)
    }
}

impl View for Statement {
    type V = StatementView;

    open spec fn view(&self) -> StatementView {
        StatementView {
            reserved: self.reserved,
            child: match self.child {
                StatementType::Expression(e) => StatementTypeView::Expression(e@),
                StatementType::Singleton => StatementTypeView::Singleton,
            },
        }
    }
}

impl View for Line {
    type V = LineView;

    open spec fn view(&self) -> LineView {
        LineView { number: self.number, statement: self.statement@ }
    }
}

// ---- The tokens that a tree stands for ----

pub open spec fn op_tokens(op: Option<Token>) -> Seq<Token> {
    match op {
        Some(t) => seq![t],
        None => seq![],
    }
}

pub open spec fn factor_tokens(f: FactorView) -> Seq<Token>
    decreases f,
{
    op_tokens(f.op) + match f.data {
        AtomView::Number(n) => seq![Token::Number(n)],
        AtomView::Var(c) => seq![Token::Var(c)],
        AtomView::Expression(e) => seq![Token::OpeningBracket('(')] + expression_tokens(e) + seq![
            Token::ClosingBracket(')'),
        ],
    }
}

pub open spec fn factors_tokens(s: Seq<FactorView>) -> Seq<Token>
    decreases s,
{
    if s.len() == 0 {
        seq![]
    } else {
        factors_tokens(s.subrange(0, s.len() - 1)) + factor_tokens(s[s.len() - 1])
    }
}

pub open spec fn term_tokens(t: TermView) -> Seq<Token>
    decreases t,
{
    op_tokens(t.op) + factors_tokens(t.factors)
}

pub open spec fn terms_tokens(s: Seq<TermView>) -> Seq<Token>
    decreases s,
{
    if s.len() == 0 {
        seq![]
    } else {
        terms_tokens(s.subrange(0, s.len() - 1)) + term_tokens(s[s.len() - 1])
    }
}

pub open spec fn expression_tokens(e: ExpressionView) -> Seq<Token>
    decreases e,
{
    terms_tokens(e.terms)
}

pub open spec fn statement_tokens(s: StatementView) -> Seq<Token> {
    seq![Token::Reserved(s.reserved)] + match s.child {
        StatementTypeView::Expression(e) => expression_tokens(e),
        StatementTypeView::Singleton => seq![],
    }
}

pub open spec fn line_tokens(l: LineView) -> Seq<Token> {
    match l.number {
        Some(n) => seq![Token::Number(n)] + statement_tokens(l.statement),
        None => statement_tokens(l.statement),
    }
}

// ---- The grammar ----
//
// Each rule reads the tokens from position `pos` on. A rule that succeeds
// consumes exactly the tokens of the tree it returns; a repetition stops
// (without failing) at the first continuation that does not parse.

pub open spec fn is_add_op(t: Token) -> bool {
    t is Plus || t is Minus
}

pub open spec fn is_mul_op(t: Token) -> bool {
    t is Asterisk || t is Slash
}

pub open spec fn remaining(toks: Seq<Token>, pos: nat) -> nat {
    if pos < toks.len() {
        (toks.len() - pos) as nat
    } else {
        0
    }
}

/// `factor ::= NUMBER | VAR | '(' expression ')'`
pub open spec fn parse_factor(toks: Seq<Token>, pos: nat) -> Result<FactorView, ParseError>
    decreases remaining(toks, pos), 0nat,
{
    if pos >= toks.len() {
        Err(ParseError::UnexpectedEof)
    } else {
        match toks[pos as int] {
            Token::Number(n) => Ok(FactorView { op: None, data: AtomView::Number(n) }),
            Token::Var(c) => Ok(FactorView { op: None, data: AtomView::Var(c) }),
            Token::OpeningBracket(b) => {
                if b != '(' {
                    Err(ParseError::InvalidFactor { at: pos as usize })
                } else {
                    match parse_expression(toks, pos + 1) {
                        Err(e) => Err(e),
                        Ok(e) => {
                            let close = pos + 1 + expression_tokens(e).len();
                            if close < toks.len() && toks[close as int] == Token::ClosingBracket(
                                ')',
                            ) {
                                Ok(FactorView { op: None, data: AtomView::Expression(e) })
                            } else {
                                Err(ParseError::UnbalancedBrackets { at: pos as usize })
                            }
                        },
                    }
                }
            },
            _ => Err(ParseError::InvalidFactor { at: pos as usize }),
        }
    }
}

/// `(('*' | '/') factor)*`
pub open spec fn factor_tail(toks: Seq<Token>, pos: nat) -> Seq<FactorView>
    decreases remaining(toks, pos), 1nat,
{
    if pos < toks.len() && is_mul_op(toks[pos as int]) {
        match parse_factor(toks, pos + 1) {
            Ok(f) => seq![FactorView { op: Some(toks[pos as int]), data: f.data }] + factor_tail(
                toks,
                pos + 1 + factor_tokens(f).len(),
            ),
            Err(_) => seq![],
        }
    } else {
        seq![]
    }
}

/// `term ::= factor (('*' | '/') factor)*`
pub open spec fn parse_term(toks: Seq<Token>, pos: nat) -> Result<TermView, ParseError>
    decreases remaining(toks, pos), 2nat,
{
    match parse_factor(toks, pos) {
        Err(e) => Err(e),
        Ok(f) => Ok(
            TermView {
                op: None,
                factors: seq![f] + factor_tail(toks, pos + factor_tokens(f).len()),
            },
        ),
    }
}

/// `(('+' | '-') term)*`
pub open spec fn term_tail(toks: Seq<Token>, pos: nat) -> Seq<TermView>
    decreases remaining(toks, pos), 3nat,
{
    if pos < toks.len() && is_add_op(toks[pos as int]) {
        match parse_term(toks, pos + 1) {
            Ok(t) => seq![TermView { op: Some(toks[pos as int]), factors: t.factors }] + term_tail(
                toks,
                pos + 1 + term_tokens(t).len(),
            ),
            Err(_) => seq![],
        }
    } else {
        seq![]
    }
}

/// `expression ::= ('+' | '-' | ε) term (('+' | '-') term)*`
pub open spec fn parse_expression(toks: Seq<Token>, pos: nat) -> Result<ExpressionView, ParseError>
    decreases remaining(toks, pos), 4nat,
{
    if pos < toks.len() && is_add_op(toks[pos as int]) {
        match parse_term(toks, pos + 1) {
            Ok(t) => Ok(
                ExpressionView {
                    terms: seq![TermView { op: Some(toks[pos as int]), factors: t.factors }]
                        + term_tail(toks, pos + 1 + term_tokens(t).len()),
                },
            ),
            Err(_) => Err(ParseError::InvalidTerm { at: pos as usize }),
        }
    } else {
        match parse_term(toks, pos) {
            Ok(t) => Ok(
                ExpressionView {
                    terms: seq![t] + term_tail(toks, pos + term_tokens(t).len()),
                },
            ),
            Err(_) => Err(ParseError::InvalidTerm { at: pos as usize }),
        }
    }
}

/// `statement ::= GOTO expression`; the other keywords have no statement form yet.
pub open spec fn parse_statement(toks: Seq<Token>, pos: nat) -> Result<StatementView, ParseError> {
    if pos >= toks.len() {
        Err(ParseError::UnexpectedEof)
    } else {
        match toks[pos as int] {
            Token::Reserved(r) => {
                if r == Reserved::GOTO {
                    match parse_expression(toks, pos + 1) {
                        Ok(e) => Ok(
                            StatementView { reserved: r, child: StatementTypeView::Expression(e) },
                        ),
                        Err(e) => Err(e),
                    }
                } else {
                    Err(ParseError::UnsupportedStatement { keyword: r, at: pos as usize })
                }
            },
            _ => Err(ParseError::InvalidStatement { at: pos as usize }),
        }
    }
}

/// `line ::= [NUMBER] statement`
pub open spec fn parse_line(toks: Seq<Token>, pos: nat) -> Result<LineView, ParseError> {
    if pos < toks.len() && toks[pos as int] is Number {
        match parse_statement(toks, pos + 1) {
            Ok(s) => Ok(LineView { number: Some(toks[pos as int]->Number_0), statement: s }),
            Err(e) => Err(e),
        }
    } else {
        match parse_statement(toks, pos) {
            Ok(s) => Ok(LineView { number: None, statement: s }),
            Err(e) => Err(e),
        }
    }
}

/// A whole token sequence as one line, with nothing left over.
pub open spec fn parse_tokens(toks: Seq<Token>) -> Result<LineView, ParseError> {
    match parse_line(toks, 0) {
        Err(e) => Err(e),
        Ok(l) => if line_tokens(l).len() == toks.len() {
            Ok(l)
        } else {
            Err(ParseError::TrailingTokens { at: line_tokens(l).len() as usize })
        },
    }
}

// ---- Facts about the views and token sequences of growing vectors ----

proof fn lemma_factors_view_push(s: Seq<Factor>, f: Factor)
    ensures
        factors_view(s.push(f)) == factors_view(s).push(factor_view(f)),
{
    assert(s.push(f).subrange(0, s.len() as int) =~= s);
}

proof fn lemma_terms_view_push(s: Seq<Term>, t: Term)
    ensures
        terms_view(s.push(t)) == terms_view(s).push(term_view(t)),
{
    assert(s.push(t).subrange(0, s.len() as int) =~= s);
}

proof fn lemma_factors_tokens_push(s: Seq<FactorView>, f: FactorView)
    ensures
        factors_tokens(s.push(f)) == factors_tokens(s) + factor_tokens(f),
{
    assert(s.push(f).subrange(0, s.len() as int) =~= s);
}

proof fn lemma_terms_tokens_push(s: Seq<TermView>, t: TermView)
    ensures
        terms_tokens(s.push(t)) == terms_tokens(s) + term_tokens(t),
{
    assert(s.push(t).subrange(0, s.len() as int) =~= s);
}

/// `r` is the outcome `spec` describes, with a tree in its view.
pub open spec fn agrees<T: View>(r: Result<T, ParseError>, spec: Result<T::V, ParseError>) -> bool {
    match r {
        Ok(v) => spec == Ok::<T::V, ParseError>(v@),
        Err(e) => spec == Err::<T::V, ParseError>(e),
    }
}

fn is_closing(t: &Token) -> (r: bool)
    ensures
        r == (*t == Token::ClosingBracket(')')),
{
    match t {
        Token::ClosingBracket(c) => *c == ')',
        _ => false,
    }
}

/// Parses one factor at position `index + lookahead`. On success `lookahead`
/// moves past the factor's tokens; on failure it is left as it was.
pub fn factor(tokens: &[Token], index: &mut usize, lookahead: &mut usize) -> (r: Result<
    Factor,
    ParseError,
>)
    ensures
        *final(index) == *old(index),
        agrees(r, parse_factor(tokens@, (*old(index) + *old(lookahead)) as nat)),
        match r {
            Ok(f) => *final(lookahead) == *old(lookahead) + factor_tokens(f@).len() && *old(index)
                + *final(lookahead) <= tokens@.len(),
            Err(_) => *final(lookahead) == *old(lookahead),
        },
    decreases tokens@.len() - (*old(index) + *old(lookahead)), 0nat,
{
    let len = tokens.len();
    if *index >= len || *lookahead >= len - *index {
        return Err(ParseError::UnexpectedEof);
    }
    let pos = *index + *lookahead;
    match &tokens[pos] {
        Token::Number(n) => {
            *lookahead = *lookahead + 1;
            Ok(Factor { op: None, data: Box::new(Factors::Number(*n)) })
        },
        Token::Var(c) => {
            *lookahead = *lookahead + 1;
            Ok(Factor { op: None, data: Box::new(Factors::Var(*c)) })
        },
        Token::OpeningBracket(b) => {
            if *b != '(' {
                return Err(ParseError::InvalidFactor { at: pos });
            }
            let start = *lookahead;
            *lookahead = start + 1;
            match expression(tokens, index, lookahead) {
                Err(e) => {
                    *lookahead = start;
                    Err(e)
                },
                Ok(e) => {
                    let close = *index + *lookahead;
                    if close < tokens.len() && is_closing(&tokens[close]) {
                        *lookahead = *lookahead + 1;
                        let f = Factor { op: None, data: Box::new(Factors::Expression(e)) };
                        assert(factor_tokens(f@) =~= seq![Token::OpeningBracket('(')]
                            + expression_tokens(e@) + seq![Token::ClosingBracket(')')]);
                        Ok(f)
                    } else {
                        *lookahead = start;
                        Err(ParseError::UnbalancedBrackets { at: pos })
                    }
                },
            }
        },
        _ => Err(ParseError::InvalidFactor { at: pos }),
    }
}

fn term(tokens: &[Token], index: &mut usize, lookahead: &mut usize) -> (r: Result<
    Term,
    ParseError,
>)
    requires
        *old(index) + *old(lookahead) <= tokens@.len(),
    ensures
        *final(index) == *old(index),
        agrees(r, parse_term(tokens@, (*old(index) + *old(lookahead)) as nat)),
        match r {
            Ok(t) => *final(lookahead) == *old(lookahead) + term_tokens(t@).len() && *old(index)
                + *final(lookahead) <= tokens@.len(),
            Err(_) => *final(lookahead) == *old(lookahead),
        },
    decreases tokens@.len() - (*old(index) + *old(lookahead)), 2nat,
{
    let len = tokens.len();
    let ghost toks = tokens@;
    let ghost index0 = *index;
    let ghost start = (*index + *lookahead) as nat;
    let first = match factor(tokens, index, lookahead) {
        Ok(f) => f,
        Err(e) => return Err(e),
    };
    let ghost f0 = first@;
    let ghost after_first = (*index + *lookahead) as nat;
    let mut factors: Vec<Factor> = Vec::new();
    proof {
        lemma_factors_view_push(factors@, first);
        lemma_factors_tokens_push(seq![], f0);
        assert(factors@.push(first).subrange(0, 0) =~= seq![]);
        assert(factors_tokens(seq![]) + factor_tokens(f0) =~= factor_tokens(f0));
    }
    factors.push(first);
    assert(factors_view(factors@) =~= seq![f0]);
    loop
        invariant
            *index == index0,
            toks == tokens@,
            len == tokens@.len(),
            *index + *lookahead <= tokens@.len(),
            after_first <= *index + *lookahead,
            start == *old(index) + *old(lookahead),
            factors_view(factors@) + factor_tail(toks, (*index + *lookahead) as nat) == seq![f0]
                + factor_tail(toks, after_first),
            *index + *lookahead == start + factors_tokens(factors_view(factors@)).len(),
        ensures
            factor_tail(toks, (*index + *lookahead) as nat) == Seq::<FactorView>::empty(),
        decreases tokens@.len() - (*index + *lookahead),
    {
        let pos = *index + *lookahead;
        if pos >= tokens.len() {
            break;
        }
        let op = match &tokens[pos] {
            Token::Asterisk => Token::Asterisk,
            Token::Slash => Token::Slash,
            _ => {
                break;
            },
        };
        let save = *lookahead;
        *lookahead = save + 1;
        match factor(tokens, index, lookahead) {
            Ok(f) => {
                let next = Factor { op: Some(op), data: f.data };
                proof {
                    let g = next@;
                    let done = factors_view(factors@);
                    let rest = factor_tail(toks, (*index + *lookahead) as nat);
                    assert(factor_tail(toks, pos as nat) == seq![g] + rest);
                    lemma_factors_view_push(factors@, next);
                    lemma_factors_tokens_push(done, g);
                    assert(done.push(g) + rest =~= done + (seq![g] + rest));
                }
                factors.push(next);
            },
            Err(_) => {
                *lookahead = save;
                break;
            },
        }
    }
    assert(factors_view(factors@) + Seq::<FactorView>::empty() =~= factors_view(factors@));
    Ok(Term { op: None, child: factors })
}

fn expression(tokens: &[Token], index: &mut usize, lookahead: &mut usize) -> (r: Result<
    Expression,
    ParseError,
>)
    requires
        *old(index) + *old(lookahead) <= tokens@.len(),
    ensures
        *final(index) == *old(index),
        agrees(r, parse_expression(tokens@, (*old(index) + *old(lookahead)) as nat)),
        match r {
            Ok(e) => *final(lookahead) == *old(lookahead) + expression_tokens(e@).len()
                && *old(index) + *final(lookahead) <= tokens@.len(),
            Err(_) => *final(lookahead) == *old(lookahead),
        },
    decreases tokens@.len() - (*old(index) + *old(lookahead)), 4nat,
{
    let len = tokens.len();
    let ghost toks = tokens@;
    let ghost index0 = *index;
    let start_lookahead = *lookahead;
    let pos = *index + *lookahead;
    let lead: Option<Token> = if pos < tokens.len() {
        match &tokens[pos] {
            Token::Plus => Some(Token::Plus),
            Token::Minus => Some(Token::Minus),
            _ => None,
        }
    } else {
        None
    };
    if lead.is_some() {
        *lookahead = start_lookahead + 1;
    }
    let first = match term(tokens, index, lookahead) {
        Ok(t) => Term { op: lead, child: t.child },
        Err(_) => {
            *lookahead = start_lookahead;
            return Err(ParseError::InvalidTerm { at: pos });
        },
    };
    let ghost t0 = first@;
    let ghost after_first = (*index + *lookahead) as nat;
    let mut terms: Vec<Term> = Vec::new();
    proof {
        lemma_terms_view_push(terms@, first);
        lemma_terms_tokens_push(seq![], t0);
        assert(terms@.push(first).subrange(0, 0) =~= seq![]);
        assert(terms_tokens(seq![]) + term_tokens(t0) =~= term_tokens(t0));
    }
    terms.push(first);
    assert(terms_view(terms@) =~= seq![t0]);
    loop
        invariant
            *index == index0,
            toks == tokens@,
            len == tokens@.len(),
            *index + *lookahead <= tokens@.len(),
            after_first <= *index + *lookahead,
            pos == *old(index) + *old(lookahead),
            terms_view(terms@) + term_tail(toks, (*index + *lookahead) as nat) == seq![t0]
                + term_tail(toks, after_first),
            *index + *lookahead == pos + terms_tokens(terms_view(terms@)).len(),
        ensures
            term_tail(toks, (*index + *lookahead) as nat) == Seq::<TermView>::empty(),
        decreases tokens@.len() - (*index + *lookahead),
    {
        let at = *index + *lookahead;
        if at >= tokens.len() {
            break;
        }
        let op = match &tokens[at] {
            Token::Plus => Token::Plus,
            Token::Minus => Token::Minus,
            _ => {
                break;
            },
        };
        let save = *lookahead;
        *lookahead = save + 1;
        match term(tokens, index, lookahead) {
            Ok(t) => {
                let next = Term { op: Some(op), child: t.child };
                proof {
                    let g = next@;
                    let done = terms_view(terms@);
                    let rest = term_tail(toks, (*index + *lookahead) as nat);
                    assert(term_tail(toks, at as nat) == seq![g] + rest);
                    lemma_terms_view_push(terms@, next);
                    lemma_terms_tokens_push(done, g);
                    assert(done.push(g) + rest =~= done + (seq![g] + rest));
                }
                terms.push(next);
            },
            Err(_) => {
                *lookahead = save;
                break;
            },
        }
    }
    assert(terms_view(terms@) + Seq::<TermView>::empty() =~= terms_view(terms@));
    Ok(Expression { child: terms })
}

fn statement(tokens: &[Token], index: &mut usize, lookahead: &mut usize) -> (r: Result<
    Statement,
    ParseError,
>)
    requires
        *old(index) + *old(lookahead) <= tokens@.len(),
    ensures
        *final(index) == *old(index),
        agrees(r, parse_statement(tokens@, (*old(index) + *old(lookahead)) as nat)),
        match r {
            Ok(s) => *final(lookahead) == *old(lookahead) + statement_tokens(s@).len()
                && *old(index) + *final(lookahead) <= tokens@.len(),
            Err(_) => *final(lookahead) == *old(lookahead),
        },
{
    let len = tokens.len();
    let pos = *index + *lookahead;
    if pos >= len {
        return Err(ParseError::UnexpectedEof);
    }
    match &tokens[pos] {
        Token::Reserved(keyword) => match keyword {
            Reserved::GOTO => {
                let start = *lookahead;
                *lookahead = start + 1;
                match expression(tokens, index, lookahead) {
                    Ok(e) => Ok(
                        Statement { reserved: Reserved::GOTO, child: StatementType::Expression(e) },
                    ),
                    Err(err) => {
                        *lookahead = start;
                        Err(err)
                    },
                }
            },
            _ => Err(ParseError::UnsupportedStatement { keyword: *keyword, at: pos }),
        },
        _ => Err(ParseError::InvalidStatement { at: pos }),
    }
}

fn line(tokens: &[Token], index: &mut usize, lookahead: &mut usize) -> (r: Result<
    Line,
    ParseError,
>)
    requires
        *old(index) + *old(lookahead) <= tokens@.len(),
    ensures
        *final(index) == *old(index),
        agrees(r, parse_line(tokens@, (*old(index) + *old(lookahead)) as nat)),
        match r {
            Ok(l) => *final(lookahead) == *old(lookahead) + line_tokens(l@).len() && *old(index)
                + *final(lookahead) <= tokens@.len(),
            Err(_) => *final(lookahead) == *old(lookahead),
        },
{
    let len = tokens.len();
    let pos = *index + *lookahead;
    let number: Option<u32> = if pos < tokens.len() {
        match &tokens[pos] {
            Token::Number(n) => Some(*n),
            _ => None,
        }
    } else {
        None
    };
    let start = *lookahead;
    if number.is_some() {
        *lookahead = start + 1;
    }
    match statement(tokens, index, lookahead) {
        Ok(s) => Ok(Line { number, statement: s }),
        Err(e) => {
            *lookahead = start;
            Err(e)
        },
    }
}

/// Parses a whole token sequence as one program line; every token must
/// belong to it.
pub fn parse(lex: Vec<Token>) -> (r: Result<Line, ParseError>)
    ensures
        agrees(r, parse_tokens(lex@)),
        r is Ok ==> line_tokens(r->Ok_0@) == lex@,
{
    proof {
        lemma_parse_covers_tokens(lex@);
    }
    let mut index: usize = 0;
    let mut lookahead: usize = 0;
    let parsed = match line(lex.as_slice(), &mut index, &mut lookahead) {
        Ok(l) => l,
        Err(e) => return Err(e),
    };
    if index + lookahead != lex.len() {
        return Err(ParseError::TrailingTokens { at: index + lookahead });
    }
    Ok(parsed)
}

// ---- Laws of the parser ----

/// An opening bracket followed by an expression that parses is one factor
/// wrapping that expression exactly when a closing bracket follows it, and an
/// `UnbalancedBrackets` failure otherwise.
pub proof fn lemma_bracketed_factor(toks: Seq<Token>, pos: nat, e: ExpressionView)
    requires
        pos < toks.len(),
        toks[pos as int] == Token::OpeningBracket('('),
        parse_expression(toks, pos + 1) == Ok::<ExpressionView, ParseError>(e),
    ensures
        ({
            let close = pos + 1 + expression_tokens(e).len();
            if close < toks.len() && toks[close as int] == Token::ClosingBracket(')') {
                parse_factor(toks, pos) == Ok::<FactorView, ParseError>(
                    FactorView { op: None, data: AtomView::Expression(e) },
                )
            } else {
                parse_factor(toks, pos) == Err::<FactorView, ParseError>(
                    ParseError::UnbalancedBrackets { at: pos as usize },
                )
            }
        }),
{
}

/// Two results that `parse` may give for the same tokens are the same: the
/// same tree, or the same error.
pub proof fn lemma_parse_repeatable(
    toks: Seq<Token>,
    first: Result<Line, ParseError>,
    second: Result<Line, ParseError>,
)
    requires
        agrees(first, parse_tokens(toks)),
        agrees(second, parse_tokens(toks)),
    ensures
        match (first, second) {
            (Ok(a), Ok(b)) => a@ == b@,
            (Err(a), Err(b)) => a == b,
            _ => false,
        },
{
}

/// A line whose first token that is not a number is no keyword fails with
/// `InvalidStatement`: at that token when it comes first or second, else at
/// the second number.
pub proof fn lemma_statement_needs_keyword(toks: Seq<Token>, k: nat)
    requires
        k < toks.len(),
        forall|j: int| 0 <= j < k ==> #[trigger] toks[j] is Number,
        !(toks[k as int] is Number),
        !(toks[k as int] is Reserved),
    ensures
        parse_tokens(toks) == Err::<LineView, ParseError>(
            ParseError::InvalidStatement { at: if k == 0 { 0 } else { 1 } },
        ),
{
    if k > 0 {
        assert(toks[0] is Number);
    }
    if k > 1 {
        assert(toks[1] is Number);
    }
}

/// When a line parses but does not take every token, the whole sequence is a
/// `TrailingTokens` failure at the first token left over.
pub proof fn lemma_leftover_tokens(toks: Seq<Token>, l: LineView)
    requires
        parse_line(toks, 0) == Ok::<LineView, ParseError>(l),
        line_tokens(l).len() < toks.len(),
    ensures
        parse_tokens(toks) == Err::<LineView, ParseError>(
            ParseError::TrailingTokens { at: line_tokens(l).len() as usize },
        ),
{
}

// ---- What a parsed tree covers ----

/// `y` stands in `toks` from position `pos` on.
pub open spec fn spans(toks: Seq<Token>, pos: nat, y: Seq<Token>) -> bool {
    pos + y.len() <= toks.len() && toks.subrange(pos as int, (pos + y.len()) as int) == y
}

proof fn lemma_spans_concat(toks: Seq<Token>, pos: nat, a: Seq<Token>, b: Seq<Token>)
    requires
        spans(toks, pos, a),
        spans(toks, pos + a.len(), b),
    ensures
        spans(toks, pos, a + b),
{
    assert(toks.subrange(pos as int, (pos + (a + b).len()) as int) =~= a + b);
}

proof fn lemma_spans_one(toks: Seq<Token>, pos: nat)
    requires
        pos < toks.len(),
    ensures
        spans(toks, pos, seq![toks[pos as int]]),
{
    assert(toks.subrange(pos as int, pos + 1 as int) =~= seq![toks[pos as int]]);
}

proof fn lemma_spans_empty(toks: Seq<Token>, pos: nat)
    requires
        pos <= toks.len(),
    ensures
        spans(toks, pos, Seq::<Token>::empty()),
{
    assert(toks.subrange(pos as int, pos as int) =~= Seq::<Token>::empty());
}

proof fn lemma_factors_tokens_prepend(g: FactorView, rest: Seq<FactorView>)
    ensures
        factors_tokens(seq![g] + rest) == factor_tokens(g) + factors_tokens(rest),
    decreases rest.len(),
{
    let s = seq![g] + rest;
    if rest.len() == 0 {
        assert(s.subrange(0, 0) =~= Seq::<FactorView>::empty());
        assert(factors_tokens(Seq::<FactorView>::empty()) + factor_tokens(g) =~= factor_tokens(g)
            + factors_tokens(rest));
    } else {
        let shorter = rest.subrange(0, rest.len() - 1);
        lemma_factors_tokens_prepend(g, shorter);
        assert(s.subrange(0, s.len() - 1) =~= seq![g] + shorter);
        assert(factor_tokens(g) + factors_tokens(shorter) + factor_tokens(rest[rest.len() - 1])
            =~= factor_tokens(g) + (factors_tokens(shorter) + factor_tokens(
            rest[rest.len() - 1],
        )));
    }
}

proof fn lemma_terms_tokens_prepend(g: TermView, rest: Seq<TermView>)
    ensures
        terms_tokens(seq![g] + rest) == term_tokens(g) + terms_tokens(rest),
    decreases rest.len(),
{
    let s = seq![g] + rest;
    if rest.len() == 0 {
        assert(s.subrange(0, 0) =~= Seq::<TermView>::empty());
        assert(terms_tokens(Seq::<TermView>::empty()) + term_tokens(g) =~= term_tokens(g)
            + terms_tokens(rest));
    } else {
        let shorter = rest.subrange(0, rest.len() - 1);
        lemma_terms_tokens_prepend(g, shorter);
        assert(s.subrange(0, s.len() - 1) =~= seq![g] + shorter);
        assert(term_tokens(g) + terms_tokens(shorter) + term_tokens(rest[rest.len() - 1])
            =~= term_tokens(g) + (terms_tokens(shorter) + term_tokens(rest[rest.len() - 1])));
    }
}

proof fn lemma_factor_covers(toks: Seq<Token>, pos: nat)
    ensures
        parse_factor(toks, pos) is Ok ==> spans(toks, pos, factor_tokens(parse_factor(toks, pos)->Ok_0)),
    decreases remaining(toks, pos), 0nat,
{
    if pos < toks.len() {
        match toks[pos as int] {
            Token::Number(n) => {
                lemma_spans_one(toks, pos);
                assert(factor_tokens(parse_factor(toks, pos)->Ok_0) =~= seq![toks[pos as int]]);
            },
            Token::Var(c) => {
                lemma_spans_one(toks, pos);
                assert(factor_tokens(parse_factor(toks, pos)->Ok_0) =~= seq![toks[pos as int]]);
            },
            Token::OpeningBracket(b) => {
                lemma_expression_covers(toks, pos + 1);
                if parse_factor(toks, pos) is Ok {
                    let e = parse_expression(toks, pos + 1)->Ok_0;
                    let inner = expression_tokens(e);
                    lemma_spans_one(toks, pos);
                    lemma_spans_one(toks, pos + 1 + inner.len());
                    lemma_spans_concat(toks, pos, seq![toks[pos as int]], inner);
                    lemma_spans_concat(
                        toks,
                        pos,
                        seq![toks[pos as int]] + inner,
                        seq![toks[(pos + 1 + inner.len()) as int]],
                    );
                    assert(factor_tokens(parse_factor(toks, pos)->Ok_0) =~= seq![toks[pos as int]]
                        + inner + seq![toks[(pos + 1 + inner.len()) as int]]);
                }
            },
            _ => {},
        }
    }
}

proof fn lemma_factor_tail_covers(toks: Seq<Token>, pos: nat)
    requires
        pos <= toks.len(),
    ensures
        spans(toks, pos, factors_tokens(factor_tail(toks, pos))),
    decreases remaining(toks, pos), 1nat,
{
    lemma_spans_empty(toks, pos);
    if pos < toks.len() && is_mul_op(toks[pos as int]) {
        lemma_factor_covers(toks, pos + 1);
        if parse_factor(toks, pos + 1) is Ok {
            let f = parse_factor(toks, pos + 1)->Ok_0;
            let g = FactorView { op: Some(toks[pos as int]), data: f.data };
            let next = pos + 1 + factor_tokens(f).len();
            lemma_factor_tail_covers(toks, next);
            lemma_factors_tokens_prepend(g, factor_tail(toks, next));
            lemma_spans_one(toks, pos);
            assert(factor_tokens(g) =~= seq![toks[pos as int]] + factor_tokens(f));
            lemma_spans_concat(toks, pos, seq![toks[pos as int]], factor_tokens(f));
            lemma_spans_concat(toks, pos, factor_tokens(g), factors_tokens(factor_tail(toks, next)));
        }
    }
}

proof fn lemma_term_covers(toks: Seq<Token>, pos: nat)
    ensures
        parse_term(toks, pos) is Ok ==> spans(toks, pos, term_tokens(parse_term(toks, pos)->Ok_0)),
    decreases remaining(toks, pos), 2nat,
{
    lemma_factor_covers(toks, pos);
    if parse_factor(toks, pos) is Ok {
        let f = parse_factor(toks, pos)->Ok_0;
        let next = pos + factor_tokens(f).len();
        lemma_factor_tail_covers(toks, next);
        lemma_factors_tokens_prepend(f, factor_tail(toks, next));
        lemma_spans_concat(toks, pos, factor_tokens(f), factors_tokens(factor_tail(toks, next)));
        let t = parse_term(toks, pos)->Ok_0;
        assert(term_tokens(t) =~= factors_tokens(t.factors));
    }
}

proof fn lemma_term_tail_covers(toks: Seq<Token>, pos: nat)
    requires
        pos <= toks.len(),
    ensures
        spans(toks, pos, terms_tokens(term_tail(toks, pos))),
    decreases remaining(toks, pos), 3nat,
{
    lemma_spans_empty(toks, pos);
    if pos < toks.len() && is_add_op(toks[pos as int]) {
        lemma_term_covers(toks, pos + 1);
        if parse_term(toks, pos + 1) is Ok {
            let t = parse_term(toks, pos + 1)->Ok_0;
            let g = TermView { op: Some(toks[pos as int]), factors: t.factors };
            let next = pos + 1 + term_tokens(t).len();
            lemma_term_tail_covers(toks, next);
            lemma_terms_tokens_prepend(g, term_tail(toks, next));
            lemma_spans_one(toks, pos);
            assert(term_tokens(t) =~= factors_tokens(t.factors));
            assert(term_tokens(g) =~= seq![toks[pos as int]] + term_tokens(t));
            lemma_spans_concat(toks, pos, seq![toks[pos as int]], term_tokens(t));
            lemma_spans_concat(toks, pos, term_tokens(g), terms_tokens(term_tail(toks, next)));
        }
    }
}

proof fn lemma_expression_covers(toks: Seq<Token>, pos: nat)
    ensures
        parse_expression(toks, pos) is Ok ==> spans(
            toks,
            pos,
            expression_tokens(parse_expression(toks, pos)->Ok_0),
        ),
    decreases remaining(toks, pos), 4nat,
{
    if pos < toks.len() && is_add_op(toks[pos as int]) {
        lemma_term_covers(toks, pos + 1);
        if parse_term(toks, pos + 1) is Ok {
            let t = parse_term(toks, pos + 1)->Ok_0;
            let g = TermView { op: Some(toks[pos as int]), factors: t.factors };
            let next = pos + 1 + term_tokens(t).len();
            lemma_term_tail_covers(toks, next);
            lemma_terms_tokens_prepend(g, term_tail(toks, next));
            lemma_spans_one(toks, pos);
            assert(term_tokens(t) =~= factors_tokens(t.factors));
            assert(term_tokens(g) =~= seq![toks[pos as int]] + term_tokens(t));
            lemma_spans_concat(toks, pos, seq![toks[pos as int]], term_tokens(t));
            lemma_spans_concat(toks, pos, term_tokens(g), terms_tokens(term_tail(toks, next)));
        }
    } else {
        lemma_term_covers(toks, pos);
        if parse_term(toks, pos) is Ok {
            let t = parse_term(toks, pos)->Ok_0;
            let next = pos + term_tokens(t).len();
            lemma_term_tail_covers(toks, next);
            lemma_terms_tokens_prepend(t, term_tail(toks, next));
            lemma_spans_concat(toks, pos, term_tokens(t), terms_tokens(term_tail(toks, next)));
        }
    }
}

/// A line that parses stands for exactly the tokens it was parsed from.
pub proof fn lemma_parse_covers_tokens(toks: Seq<Token>)
    ensures
        parse_tokens(toks) is Ok ==> line_tokens(parse_tokens(toks)->Ok_0) == toks,
{
    let start: nat = if toks.len() > 0 && toks[0] is Number { 1 } else { 0 };
    if start < toks.len() && toks[start as int] is Reserved {
        lemma_expression_covers(toks, start + 1);
    }
    if parse_tokens(toks) is Ok {
        let l = parse_tokens(toks)->Ok_0;
        let s = l.statement;
        let e = s.child->Expression_0;
        lemma_spans_one(toks, start);
        lemma_spans_concat(toks, start, seq![toks[start as int]], expression_tokens(e));
        assert(statement_tokens(s) =~= seq![toks[start as int]] + expression_tokens(e));
        if start == 1 {
            lemma_spans_one(toks, 0);
            lemma_spans_concat(toks, 0, seq![toks[0]], statement_tokens(s));
            assert(line_tokens(l) =~= seq![toks[0]] + statement_tokens(s));
        }
        assert(toks.subrange(0, toks.len() as int) =~= toks);
    }
}

} // verus!
