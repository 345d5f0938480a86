//! The parser: a Pratt parser from tokens to the syntax tree. It records
//! every error it meets and goes on with the next expression.
use vstd::prelude::*;
use crate::ast::{Expression, Program, TypeAnn, spec_unwrap_loc};
use crate::error_reporter::Diagnostic;
use crate::lexer::{Lexer, Token, TokenView, token_debug, token_kind, plain_token, lemma_next_token_progress,
    skip_end, scan_token};
use crate::text::{join2, join3, owned, str_eq, string_from_chars};

verus! {

/// How tightly an operator binds, from loosest to tightest.
#[derive(Clone, Copy, Debug, PartialEq, Eq, Structural, PartialOrd, Ord)]
pub enum Precedence {
    Lowest,
    Assign,
    Equals,
    LessGreater,
    Sum,
    Product,
    Prefix,
    Call,
}

/// The rank of a precedence: higher binds tighter.
pub open spec fn precedence_rank(p: Precedence) -> u8 {
    match p {
        Precedence::Lowest => 0,
        Precedence::Assign => 1,
        Precedence::Equals => 2,
        Precedence::LessGreater => 3,
        Precedence::Sum => 4,
        Precedence::Product => 5,
        Precedence::Prefix => 6,
        Precedence::Call => 7,
    }
}

impl Precedence {
    /// The rank of this precedence (see `precedence_rank`).
    pub fn rank(self) -> (r: u8)
        ensures
            r == precedence_rank(self),
    {
        match self {
            Precedence::Lowest => 0,
            Precedence::Assign => 1,
            Precedence::Equals => 2,
            Precedence::LessGreater => 3,
            Precedence::Sum => 4,
            Precedence::Product => 5,
            Precedence::Prefix => 6,
            Precedence::Call => 7,
        }
    }
}

/// The precedence of a token as an infix operator.
pub open spec fn spec_token_precedence(t: TokenView) -> Precedence {
    match t {
        TokenView::Eq | TokenView::NotEq => Precedence::Equals,
        TokenView::Greater | TokenView::Less => Precedence::LessGreater,
        TokenView::Plus | TokenView::Minus => Precedence::Sum,
        TokenView::Star | TokenView::Slash => Precedence::Product,
        TokenView::LParen | TokenView::LBracket | TokenView::Dot | TokenView::Colon => Precedence::Call,
        TokenView::Assign => Precedence::Assign,
        _ => Precedence::Lowest,
    }
}

/// How tightly the infix operators bind, loosest first: `=`; `==` and `!=`;
/// `<` and `>`; `+` and `-`; `*` and `/`; then calls, indexing, `.` and
/// `:`, which bind tightest. Operators of one group bind alike; every other
/// token ends an expression.
pub proof fn law_precedence_order()
    ensures
        precedence_rank(spec_token_precedence(TokenView::Assign)) > precedence_rank(Precedence::Lowest),
        precedence_rank(spec_token_precedence(TokenView::Assign)) < precedence_rank(spec_token_precedence(TokenView::Eq)),
        spec_token_precedence(TokenView::Eq) == spec_token_precedence(TokenView::NotEq),
        precedence_rank(spec_token_precedence(TokenView::Eq)) < precedence_rank(spec_token_precedence(TokenView::Less)),
        spec_token_precedence(TokenView::Less) == spec_token_precedence(TokenView::Greater),
        precedence_rank(spec_token_precedence(TokenView::Greater)) < precedence_rank(spec_token_precedence(TokenView::Plus)),
        spec_token_precedence(TokenView::Plus) == spec_token_precedence(TokenView::Minus),
        precedence_rank(spec_token_precedence(TokenView::Minus)) < precedence_rank(spec_token_precedence(TokenView::Star)),
        spec_token_precedence(TokenView::Star) == spec_token_precedence(TokenView::Slash),
        precedence_rank(spec_token_precedence(TokenView::Slash)) < precedence_rank(spec_token_precedence(TokenView::LParen)),
        spec_token_precedence(TokenView::LParen) == spec_token_precedence(TokenView::LBracket),
        spec_token_precedence(TokenView::LParen) == spec_token_precedence(TokenView::Dot),
        spec_token_precedence(TokenView::LParen) == spec_token_precedence(TokenView::Colon),
        forall|t: TokenView| !infix_token(t) ==> spec_token_precedence(t) == Precedence::Lowest,
{
}

/// The tokens that continue an expression as infix operators.
pub open spec fn infix_token(t: TokenView) -> bool {
    t is Plus || t is Minus || t is Star || t is Slash || t is Eq || t is NotEq || t is Less
        || t is Greater || t is LParen || t is Assign || t is LBracket || t is Dot || t is Colon
}

/// The tokens that can start an expression.
pub open spec fn prefix_token(t: TokenView) -> bool {
    t is Ident || t is Number || t is StringLiteral || t is Colon || t is Bang || t is Minus
        || t is LParen || t is If || t is Fn || t is Do || t is LBracket || t is LBrace || t is Let
        || t is Const || t is Return || t is Loop || t is While || t is For
}

/// The message for a token that cannot stand where it is.
pub open spec fn unexpected_message(t: TokenView) -> Seq<char> {
    match t {
        TokenView::Illegal(c) => "Illegal character '"@ + seq![c] + "'"@,
        TokenView::EOF => "Unexpected end of file"@,
        _ => "Unexpected token "@ + token_debug(t),
    }
}

/// What the lexer has left to read, counted so that every token but the
/// end of input lowers it.
pub open spec fn lexer_rest(l: Lexer) -> nat {
    if l.cursor() <= l.input().len() + 1 { (l.input().len() + 1 - l.cursor()) as nat } else { 0 }
}

/// The parser's state: the lexer, the current and the next token with the
/// places where they start, and the errors found so far.
pub struct Parser {
    lexer: Lexer,
    current_token: Token,
    peek_token: Token,
    cur_line: usize,
    cur_col: usize,
    peek_line: usize,
    peek_col: usize,
    pub errors: Vec<Diagnostic>,
}

impl Parser {
    /// The current token.
    pub closed spec fn current(&self) -> TokenView {
        self.current_token@
    }

    /// The token after the current one.
    pub closed spec fn peek(&self) -> TokenView {
        self.peek_token@
    }

    /// The current token, the one after it, and the next `n` tokens of the
    /// input after those.
    pub closed spec fn upcoming(&self, n: nat) -> Seq<TokenView> {
        seq![self.current_token@, self.peek_token@] + tokens_from(self.lexer.input(), self.lexer.cursor() as int, n)
    }

    /// Looking further ahead sees the same first tokens.
    pub proof fn lemma_upcoming(&self, n: nat, m: nat)
        requires
            n <= m,
        ensures
            self.upcoming(n).len() == n + 2,
            self.upcoming(m).len() == m + 2,
            self.upcoming(n) == self.upcoming(m).take(n + 2int),
            self.upcoming(n)[0] == self.current(),
            self.upcoming(n)[1] == self.peek(),
    {
        lemma_tokens_from(self.lexer.input(), self.lexer.cursor() as int, n, m);
        assert(self.upcoming(n) =~= self.upcoming(m).take(n + 2int));
    }

    /// The place of the current token.
    pub closed spec fn place(&self) -> (usize, usize) {
        (self.cur_line, self.cur_col)
    }

    /// The errors found so far.
    pub closed spec fn errors_seq(&self) -> Seq<Diagnostic> {
        self.errors@
    }

    /// The lexer is in a consistent state.
    pub closed spec fn wf(&self) -> bool {
        self.lexer.wf()
    }

    /// A measure of the input left: every step to the next token lowers
    /// it, unless both tokens already are the end of input.
    pub closed spec fn measure(&self) -> nat {
        3 * lexer_rest(self.lexer) + (if self.peek_token@ is EOF { 0nat } else { 2nat })
            + (if self.current_token@ is EOF { 0nat } else { 1nat })
    }

    /// The parser went on from `old`: it consumed input, if any, and only
    /// added errors.
    pub closed spec fn advanced(&self, old: &Parser) -> bool {
        &&& self.wf()
        &&& self.measure() <= old.measure()
        &&& old.errors_seq().is_prefix_of(self.errors_seq())
    }

    /// A parser over the tokens of `lexer`, with the first two read.
    pub fn new(lexer: Lexer) -> (p: Self)
        requires
            lexer.wf(),
        ensures
            p.wf(),
            p.errors_seq().len() == 0,
    {
        let mut lexer = lexer;
        let (current_token, cur_line, cur_col) = lexer.next_token();
        let (peek_token, peek_line, peek_col) = lexer.next_token();
        Parser {
            lexer,
            current_token,
            peek_token,
            cur_line,
            cur_col,
            peek_line,
            peek_col,
            errors: Vec::new(),
        }
    }

    /// Moves to the next token.
    fn next_token(&mut self)
        requires
            old(self).wf(),
        ensures
            final(self).wf(),
            final(self).errors_seq() == old(self).errors_seq(),
            final(self).current() == old(self).peek(),
            final(self).measure() <= old(self).measure(),
            !(old(self).current() is EOF && old(self).peek() is EOF) ==> final(self).measure() < old(self).measure(),
            forall|n: nat| #[trigger] final(self).upcoming(n) == old(self).upcoming(n + 1).drop_first(),
    {
        let ghost c0 = self.lexer.cursor() as int;
        let ghost input = self.lexer.input();
        self.current_token = self.peek_token.duplicate();
        self.cur_line = self.peek_line;
        self.cur_col = self.peek_col;
        let (next_tok, next_line, next_col) = self.lexer.next_token();
        self.peek_token = next_tok;
        self.peek_line = next_line;
        self.peek_col = next_col;
        proof {
            lemma_next_token_progress(input, c0);
            assert forall|n: nat| #[trigger] self.upcoming(n) == old(self).upcoming(n + 1).drop_first() by {
                let t = tokens_from(input, c0, n + 1);
                assert(t == seq![self.peek_token@] + tokens_from(input, self.lexer.cursor() as int, n));
                assert(self.upcoming(n) =~= old(self).upcoming(n + 1).drop_first());
            }
        }
    }

    /// Records an error about the current token.
    fn report_error(&mut self)
        requires
            old(self).wf(),
        ensures
            final(self).wf(),
            final(self).measure() == old(self).measure(),
            final(self).current() == old(self).current(),
            final(self).peek() == old(self).peek(),
            final(self).errors_seq().len() == old(self).errors_seq().len() + 1,
            old(self).errors_seq().is_prefix_of(final(self).errors_seq()),
            final(self).errors_seq().last().message@ == unexpected_message(old(self).current()),
            final(self).errors_seq().last().line == old(self).place().0,
            final(self).errors_seq().last().col == old(self).place().1,
    {
        let msg = match &self.current_token {
            Token::Illegal(c) => join3("Illegal character '", string_from_chars(&[*c]).as_str(), "'"),
            Token::EOF => owned("Unexpected end of file"),
            _ => join2("Unexpected token ", self.current_token.debug_text().as_str()),
        };
        self.errors.push(Diagnostic {
            line: self.cur_line,
            col: self.cur_col,
            message: msg,
            hint: Some(owned("Check for missing operators or mismatched parentheses")),
        });
    }

    /// Records an error with `msg` at the current token.
    fn report_error_with_msg(&mut self, msg: String)
        requires
            old(self).wf(),
        ensures
            final(self).wf(),
            final(self).measure() == old(self).measure(),
            final(self).current() == old(self).current(),
            final(self).peek() == old(self).peek(),
            final(self).errors_seq() == old(self).errors_seq().push(Diagnostic {
                line: old(self).place().0, col: old(self).place().1, message: msg, hint: None }),
    {
        self.errors.push(Diagnostic { line: self.cur_line, col: self.cur_col, message: msg, hint: None });
    }

    /// Records an error with `msg` and a hint at the current token.
    fn report_error_with_hint(&mut self, msg: String, hint: String)
        requires
            old(self).wf(),
        ensures
            final(self).wf(),
            final(self).measure() == old(self).measure(),
            final(self).current() == old(self).current(),
            final(self).peek() == old(self).peek(),
            final(self).errors_seq() == old(self).errors_seq().push(Diagnostic {
                line: old(self).place().0, col: old(self).place().1, message: msg, hint: Some(hint) }),
    {
        self.errors.push(Diagnostic { line: self.cur_line, col: self.cur_col, message: msg, hint: Some(hint) });
    }

    /// Moves on if the next token is `expected`; records an error if not.
    fn expect_peek(&mut self, expected: Token) -> (r: bool)
        requires
            old(self).wf(),
            plain_token(expected@),
            !(expected@ is EOF),
        ensures
            r == (old(self).peek() == expected@),
            r ==> final(self).errors_seq() == old(self).errors_seq() && final(self).current() == expected@
                && final(self).measure() < old(self).measure(),
            r ==> forall|n: nat| #[trigger] final(self).upcoming(n) == old(self).upcoming(n + 1).drop_first(),
            !r ==> final(self).errors_seq().len() == old(self).errors_seq().len() + 1
                && final(self).measure() == old(self).measure()
                && final(self).current() == old(self).current()
                && final(self).peek() == old(self).peek(),
            final(self).advanced(old(self)),
    {
        if self.peek_token.same_kind(&expected) {
            self.next_token();
            true
        } else {
            let msg = join3(join2("Expected ", expected.debug_text().as_str()).as_str(), ", but got ",
                self.peek_token.debug_text().as_str());
            self.report_error_with_hint(msg, owned("Check the syntax in this area for missing punctuation"));
            false
        }
    }

    /// The precedence of the next token.
    fn peek_precedence(&self) -> (p: Precedence)
        ensures
            p == spec_token_precedence(self.peek()),
    {
        token_precedence(&self.peek_token)
    }

    /// The precedence of the current token.
    fn current_precedence(&self) -> (p: Precedence)
        ensures
            p == spec_token_precedence(self.current()),
    {
        token_precedence(&self.current_token)
    }

    /// Whether the next token continues an expression as an operator.
    fn peek_is_infix_operator(&self) -> (r: bool)
        ensures
            r == infix_token(self.peek()),
    {
        matches!(self.peek_token, Token::Plus | Token::Minus | Token::Star | Token::Slash | Token::Eq
            | Token::NotEq | Token::Less | Token::Greater | Token::LParen | Token::Assign
            | Token::LBracket | Token::Dot | Token::Colon)
    }
}

/// The precedence of `token` as an infix operator.
pub fn token_precedence(token: &Token) -> (p: Precedence)
    ensures
        p == spec_token_precedence(token@),
{
    match token {
        Token::Eq | Token::NotEq => Precedence::Equals,
        Token::Greater | Token::Less => Precedence::LessGreater,
        Token::Plus | Token::Minus => Precedence::Sum,
        Token::Star | Token::Slash => Precedence::Product,
        Token::LParen | Token::LBracket | Token::Dot | Token::Colon => Precedence::Call,
        Token::Assign => Precedence::Assign,
        _ => Precedence::Lowest,
    }
}

/// The token that the lexer reads next from position `c` of `input`, and
/// the position after it.
pub open spec fn lex_next(input: Seq<char>, c: int) -> (TokenView, int) {
    let q = if c < input.len() { skip_end(input, c) } else { c };
    scan_token(input, q)
}

/// The next `n` tokens of `input` from position `c` on.
pub open spec fn tokens_from(input: Seq<char>, c: int, n: nat) -> Seq<TokenView>
    decreases n,
{
    if n == 0 {
        seq![]
    } else {
        let (t, e) = lex_next(input, c);
        seq![t] + tokens_from(input, e, (n - 1) as nat)
    }
}

/// Reading fewer tokens reads a prefix of the same tokens.
pub proof fn lemma_tokens_from(input: Seq<char>, c: int, n: nat, m: nat)
    requires
        n <= m,
    ensures
        tokens_from(input, c, n).len() == n,
        tokens_from(input, c, m).len() == m,
        tokens_from(input, c, n) == tokens_from(input, c, m).take(n as int),
    decreases n, m,
{
    if n == 0 {
        if m > 0 {
            let (t, e) = lex_next(input, c);
            lemma_tokens_from(input, e, 0, (m - 1) as nat);
        }
        assert(tokens_from(input, c, m).take(0) =~= Seq::<TokenView>::empty());
    } else {
        let (t, e) = lex_next(input, c);
        lemma_tokens_from(input, e, (n - 1) as nat, (m - 1) as nat);
        assert(tokens_from(input, c, n) =~= tokens_from(input, c, m).take(n as int));
    }
}

/// A token that stands for a name or a literal.
pub open spec fn leaf_token(t: TokenView) -> bool {
    t is Ident || t is Number || t is StringLiteral
}

/// A block that holds just the name or literal that `t` stands for.
pub open spec fn leaf_block(e: Expression, t: TokenView) -> bool {
    e matches Expression::Block(es, b) && !b && es@.len() == 1 && leaf_of(spec_unwrap_loc(es@[0]), t)
}

/// `expr` wrapped in its place in the source.
pub open spec fn located(expr: Expression, line: usize, col: usize) -> Expression {
    Expression::Loc { line, col, expr: Box::new(expr) }
}

/// The text of an operator token that builds an infix expression.
pub open spec fn infix_text(t: TokenView) -> Option<Seq<char>> {
    match t {
        TokenView::Plus => Some("+"@),
        TokenView::Minus => Some("-"@),
        TokenView::Star => Some("*"@),
        TokenView::Slash => Some("/"@),
        TokenView::Eq => Some("=="@),
        TokenView::NotEq => Some("!="@),
        TokenView::Greater => Some(">"@),
        TokenView::Less => Some("<"@),
        _ => None,
    }
}

/// The tokens `u` start with a name or literal, an arithmetic or comparison
/// operator that binds tighter than `p`, another name or literal, and then a
/// token that binds no tighter than `p`.
pub open spec fn binary_run(u: Seq<TokenView>, p: Precedence) -> bool {
    &&& leaf_token(u[0])
    &&& infix_text(u[1]) is Some
    &&& precedence_rank(p) < precedence_rank(spec_token_precedence(u[1]))
    &&& leaf_token(u[2])
    &&& (u[3] is EOF || precedence_rank(spec_token_precedence(u[3])) <= precedence_rank(p))
}

/// `e` is `a op b` for the name or literal `a` stands for, the operator of
/// `op` and the name or literal `b` stands for.
pub open spec fn binary_of(e: Expression, a: TokenView, op: TokenView, b: TokenView) -> bool {
    spec_unwrap_loc(e) matches Expression::Infix { left, operator, right }
        && leaf_of(spec_unwrap_loc(*left), a) && operator@ == infix_text(op)->0
        && leaf_of(spec_unwrap_loc(*right), b)
}

/// The tokens `u` are three names or literals joined by two arithmetic or
/// comparison operators that both bind tighter than `p`, and then a token
/// that binds no tighter than `p`.
pub open spec fn chain_run(u: Seq<TokenView>, p: Precedence) -> bool {
    &&& leaf_token(u[0])
    &&& infix_text(u[1]) is Some
    &&& leaf_token(u[2])
    &&& infix_text(u[3]) is Some
    &&& leaf_token(u[4])
    &&& precedence_rank(p) < precedence_rank(spec_token_precedence(u[1]))
    &&& precedence_rank(p) < precedence_rank(spec_token_precedence(u[3]))
    &&& (u[5] is EOF || precedence_rank(spec_token_precedence(u[5])) <= precedence_rank(p))
}

/// `e` groups the chain `u[0] u[1] u[2] u[3] u[4]` by precedence: around
/// the second operator when it binds tighter than the first, and from the
/// left otherwise.
pub open spec fn chain_of(e: Expression, u: Seq<TokenView>) -> bool {
    spec_unwrap_loc(e) matches Expression::Infix { left, operator, right } && if precedence_rank(
        spec_token_precedence(u[1])) < precedence_rank(spec_token_precedence(u[3])) {
        leaf_of(spec_unwrap_loc(*left), u[0]) && operator@ == infix_text(u[1])->0 && binary_of(*right, u[2], u[3], u[4])
    } else {
        binary_of(*left, u[0], u[1], u[2]) && operator@ == infix_text(u[3])->0 && leaf_of(spec_unwrap_loc(*right), u[4])
    }
}

/// From position 1 on, the tokens `u` are `m` fields, each a name, a colon
/// and a type name, with commas between them and a closing brace after the
/// last.
pub open spec fn record_ann_run(u: Seq<TokenView>, m: nat) -> bool {
    &&& m >= 1
    &&& u.len() >= 4 * m + 1
    &&& forall|i: int| 0 <= i < m ==> {
        &&& #[trigger] u[1 + 4 * i] is Ident
        &&& u[2 + 4 * i] is Colon
        &&& u[3 + 4 * i] matches TokenView::Ident(t) && named_type(t) is Some
        &&& if i < m - 1 { u[4 + 4 * i] is Comma } else { u[4 + 4 * i] is RBrace }
    }
}

/// The fields that the tokens of `record_ann_run(u, m)` name, in order.
pub open spec fn record_ann_fields(u: Seq<TokenView>, m: nat) -> Seq<(Seq<char>, TypeAnn)> {
    Seq::new(m, |i: int| (u[1 + 4 * i]->Ident_0, named_type(u[3 + 4 * i]->Ident_0)->0))
}

/// The tokens `u` read `fn(T, ..., T): T` from `u[0]` on, with `m >= 1`
/// parameters, each type a plain type name.
pub open spec fn fn_ann_run(u: Seq<TokenView>, m: nat) -> bool {
    &&& m >= 1
    &&& u.len() >= 2 * m + 4
    &&& u[1] is LParen
    &&& forall|i: int| 0 <= i < m ==> {
        &&& #[trigger] u[2 + 2 * i] matches TokenView::Ident(t) && named_type(t) is Some
        &&& if i < m - 1 { u[3 + 2 * i] is Comma } else { u[3 + 2 * i] is RParen }
    }
    &&& u[2 * m + 2int] is Colon
    &&& u[2 * m + 3int] matches TokenView::Ident(t) && named_type(t) is Some
}

/// The parameter types that the tokens of `fn_ann_run(u, m)` name, in order.
pub open spec fn fn_ann_params(u: Seq<TokenView>, m: nat) -> Seq<TypeAnn> {
    Seq::new(m, |i: int| named_type(u[2 + 2 * i]->Ident_0)->0)
}

/// The tokens `u` are `k` names or literals and then the end of input.
pub open spec fn leaf_program(u: Seq<TokenView>, k: nat) -> bool {
    &&& u.len() >= k + 1
    &&& forall|i: int| 0 <= i < k ==> leaf_token(#[trigger] u[i])
    &&& u[k as int] is EOF
}

/// `x` is the name or literal that the token `t` stands for.
pub open spec fn leaf_of(x: Expression, t: TokenView) -> bool {
    match t {
        TokenView::Ident(n) => x matches Expression::Identifier(m) && m@ == n,
        TokenView::Number(n) => x matches Expression::Number(m) && m@ == n,
        TokenView::StringLiteral(n) => x matches Expression::StringLiteral(m) && m@ == n,
        _ => false,
    }
}

/// The type that a plain name in an annotation stands for.
pub open spec fn named_type(n: Seq<char>) -> Option<TypeAnn> {
    if n == "Number"@ {
        Some(TypeAnn::Number)
    } else if n == "String"@ {
        Some(TypeAnn::String)
    } else if n == "Atom"@ {
        Some(TypeAnn::Atom)
    } else if n == "Any"@ {
        Some(TypeAnn::Any)
    } else {
        None
    }
}

/// `e` is an expression placed at `place` whose inner form satisfies `form`.
pub open spec fn placed(e: Expression, place: (usize, usize), form: spec_fn(Expression) -> bool) -> bool {
    e matches Expression::Loc { line, col, expr } && line == place.0 && col == place.1 && form(*expr)
}

/// The expression, wrapped in its place in the source, if there is one.
fn wrap(expr: Option<Expression>, line: usize, col: usize) -> (r: Option<Expression>)
    ensures
        r == match expr {
            Some(e) => Some(located(e, line, col)),
            None => None,
        },
{
    match expr {
        Some(e) => Some(Expression::Loc { line, col, expr: Box::new(e) }),
        None => None,
    }
}

/// The expression inside any place wrappers.
fn unwrap_loc_owned(expr: Expression) -> (r: Expression)
    ensures
        r == spec_unwrap_loc(expr),
    decreases expr,
{
    match expr {
        Expression::Loc { expr: inner, .. } => unwrap_loc_owned(*inner),
        other => other,
    }
}


impl Parser {
    /// Moves to the next token, then reads a type annotation.
    fn parse_type_annotation(&mut self) -> (r: Option<TypeAnn>)
        requires
            old(self).wf(),
            !(old(self).current() is EOF),
        ensures
            final(self).advanced(old(self)),
            r is None ==> final(self).errors_seq().len() > old(self).errors_seq().len(),
            match old(self).peek() {
                TokenView::Ident(n) => match named_type(n) {
                    Some(t) => r == Some(t) && final(self).errors_seq() == old(self).errors_seq()
                        && forall|k: nat| #[trigger] final(self).upcoming(k) == old(self).upcoming(k + 1).drop_first(),
                    None => r is None && final(self).errors_seq().last().message@ == "Unknown type annotation: '"@ + n + "'"@,
                },
                TokenView::LBracket => r matches Some(t) ==> t is Array,
                TokenView::LBrace => r matches Some(t) ==> t is Hash,
                TokenView::Fn => r matches Some(t) ==> t is Function,
                _ => r is None && final(self).errors_seq().last().message@
                    == "Expected type annotation, got "@ + token_debug(old(self).peek()),
            },
        decreases old(self).measure(), 0nat,
    {
        self.next_token();
        self.parse_type_annotation_inner()
    }

    /// Reads the type annotation that starts at the current token: a base
    /// type name, `[T]`, `{ name: T, ... }` or `fn(T, ...): T`.
    fn parse_type_annotation_inner(&mut self) -> (r: Option<TypeAnn>)
        requires
            old(self).wf(),
        ensures
            final(self).advanced(old(self)),
            r is None ==> final(self).errors_seq().len() > old(self).errors_seq().len(),
            match old(self).current() {
                TokenView::Ident(n) => match named_type(n) {
                    Some(t) => r == Some(t) && *final(self) == *old(self),
                    None => r is None && final(self).errors_seq() == old(self).errors_seq().push(Diagnostic {
                        line: old(self).place().0, col: old(self).place().1,
                        message: final(self).errors_seq().last().message, hint: None })
                        && final(self).errors_seq().last().message@ == "Unknown type annotation: '"@ + n + "'"@,
                },
                TokenView::LBracket => (r matches Some(t) ==> t is Array)
                    && (old(self).peek() matches TokenView::Ident(n) ==> (named_type(n) is Some
                        && old(self).upcoming(1)[2] is RBracket
                        ==> r == Some(TypeAnn::Array(Box::new(named_type(n)->0)))
                            && final(self).errors_seq() == old(self).errors_seq())),
                TokenView::LBrace => (r matches Some(t) ==> t is Hash)
                    && (old(self).peek() is RBrace ==> (r matches Some(TypeAnn::Hash(f)) && f@.len() == 0))
                    && (forall|m: nat| #[trigger] record_ann_run(old(self).upcoming((4 * m - 1) as nat), m) ==> (
                        r matches Some(TypeAnn::Hash(f)) && f@.len() == m
                        && (forall|i: int| 0 <= i < m ==> (#[trigger] f@[i]).0@
                            == record_ann_fields(old(self).upcoming((4 * m - 1) as nat), m)[i].0
                            && f@[i].1 == record_ann_fields(old(self).upcoming((4 * m - 1) as nat), m)[i].1)
                        && final(self).errors_seq() == old(self).errors_seq())),
                TokenView::Fn => (r matches Some(t) ==> t is Function)
                    && (forall|m: nat| #[trigger] fn_ann_run(old(self).upcoming((2 * m + 2) as nat), m) ==> ({
                        let u = old(self).upcoming((2 * m + 2) as nat);
                        &&& r matches Some(TypeAnn::Function { params, ret })
                        &&& params@ == fn_ann_params(u, m)
                        &&& *ret == named_type(u[2 * m + 3int]->Ident_0)->0
                        &&& final(self).errors_seq() == old(self).errors_seq()
                    }))
                    && ({
                        let u = old(self).upcoming(3);
                        u[1] is LParen && u[2] is RParen && u[3] is Colon
                            && (u[4] matches TokenView::Ident(t) && named_type(t) is Some) ==> (
                            r matches Some(TypeAnn::Function { params, ret }) && params@.len() == 0
                            && *ret == named_type(u[4]->Ident_0)->0
                            && final(self).errors_seq() == old(self).errors_seq())
                    }),
                _ => r is None && final(self).errors_seq().len() == old(self).errors_seq().len() + 1
                    && final(self).errors_seq().last().message@ == "Expected type annotation, got "@ + token_debug(old(self).current()),
            },
        decreases old(self).measure(), 1nat,
    {
        match &self.current_token {
            Token::Ident(name) => {
                if str_eq(name.as_str(), "Number") {
                    Some(TypeAnn::Number)
                } else if str_eq(name.as_str(), "String") {
                    Some(TypeAnn::String)
                } else if str_eq(name.as_str(), "Atom") {
                    Some(TypeAnn::Atom)
                } else if str_eq(name.as_str(), "Any") {
                    Some(TypeAnn::Any)
                } else {
                    let msg = join3("Unknown type annotation: '", name.as_str(), "'");
                    self.report_error_with_msg(msg);
                    None
                }
            },
            Token::LBracket => {
                let ghost start = *self;
                proof { start.lemma_upcoming(1, 1); }
                let inner = match self.parse_type_annotation() {
                    Some(t) => t,
                    None => { return None; },
                };
                proof {
                    self.lemma_upcoming(0, 0);
                    if let TokenView::Ident(n) = start.peek() {
                        if named_type(n) is Some {
                            assert(self.upcoming(0) == start.upcoming(1).drop_first());
                        }
                    }
                }
                if !self.expect_peek(Token::RBracket) {
                    return None;
                }
                Some(TypeAnn::Array(Box::new(inner)))
            },
            Token::LBrace => {
                let ghost good = exists|m: nat| #[trigger] record_ann_run(old(self).upcoming((4 * m - 1) as nat), m);
                let ghost gm: nat = if good {
                    choose|m: nat| #[trigger] record_ann_run(old(self).upcoming((4 * m - 1) as nat), m)
                } else {
                    1
                };
                let ghost uu = old(self).upcoming((4 * gm - 1) as nat);
                let ghost rf = record_ann_fields(uu, gm);
                let ghost mut gi: int = 0;
                proof { old(self).lemma_upcoming(0, (4 * gm - 1) as nat); }
                self.next_token();
                let mut fields: Vec<(String, TypeAnn)> = Vec::new();
                proof {
                    if good {
                        assert(forall|n: nat| #[trigger] self.upcoming(n) == old(self).upcoming(n + 1).skip(1)) by {
                            assert forall|n: nat| #[trigger] self.upcoming(n) == old(self).upcoming(n + 1).skip(1) by {
                                assert(old(self).upcoming(n + 1).skip(1) =~= old(self).upcoming(n + 1).drop_first());
                            }
                        }
                        self.lemma_upcoming(0, 0);
                        old(self).lemma_upcoming(1, (4 * gm - 1) as nat);
                        assert(self.current() == uu[1]);
                        assert(uu[1 + 4 * 0int] is Ident);
                    }
                }
                if matches!(self.current_token, Token::RBrace) {
                    return Some(TypeAnn::Hash(fields));
                }
                loop
                    invariant_except_break
                        good ==> {
                            &&& 0 <= gi < gm
                            &&& forall|n: nat| #[trigger] self.upcoming(n) == old(self).upcoming((n + 1 + 4 * gi) as nat).skip(1 + 4 * gi)
                            &&& fields@.len() == gi
                            &&& forall|j: int| 0 <= j < gi ==> (#[trigger] fields@[j]).0@ == rf[j].0 && fields@[j].1 == rf[j].1
                            &&& self.errors_seq() == old(self).errors_seq()
                        },
                    invariant
                        self.advanced(old(self)),
                        self.measure() < old(self).measure(),
                        old(self).current() is LBrace,
                        !(old(self).peek() is RBrace),
                        good == exists|m: nat| #[trigger] record_ann_run(old(self).upcoming((4 * m - 1) as nat), m),
                        good ==> record_ann_run(uu, gm),
                        uu == old(self).upcoming((4 * gm - 1) as nat),
                        uu.len() == 4 * gm + 1,
                        rf == record_ann_fields(uu, gm),
                    ensures
                        self.advanced(old(self)),
                        good ==> {
                            &&& fields@.len() == gm
                            &&& forall|j: int| 0 <= j < gm ==> (#[trigger] fields@[j]).0@ == rf[j].0 && fields@[j].1 == rf[j].1
                            &&& self.errors_seq() == old(self).errors_seq()
                        },
                    decreases self.measure(),
                {
                    let ghost s0 = *self;
                    proof {
                        if good {
                            s0.lemma_upcoming(2, 2);
                            old(self).lemma_upcoming((3 + 4 * gi) as nat, (4 * gm - 1) as nat);
                            assert(s0.upcoming(2) == old(self).upcoming((3 + 4 * gi) as nat).skip(1 + 4 * gi));
                            assert(s0.upcoming(2) =~= uu.subrange(1 + 4 * gi, 5 + 4 * gi));
                            assert(uu[1 + 4 * gi] is Ident);
                        }
                    }
                    let key = match &self.current_token {
                        Token::Ident(name) => name.clone(),
                        _ => {
                            self.report_error_with_msg(owned("Expected identifier for type field"));
                            return None;
                        },
                    };
                    if !self.expect_peek(Token::Colon) {
                        return None;
                    }
                    let ghost s1 = *self;
                    proof {
                        if good {
                            s1.lemma_upcoming(1, 1);
                            assert(s1.upcoming(1) == s0.upcoming(2).drop_first());
                            assert(s1.peek() == uu[3 + 4 * gi]);
                        }
                    }
                    let val_type = match self.parse_type_annotation() {
                        Some(t) => t,
                        None => { return None; },
                    };
                    let ghost fields0 = fields@;
                    fields.push((key, val_type));
                    proof {
                        if good {
                            s1.lemma_upcoming(1, 1);
                            assert(s1.upcoming(1) == s0.upcoming(2).drop_first());
                            self.lemma_upcoming(0, 0);
                            assert(self.upcoming(0) == s1.upcoming(1).drop_first());
                            assert(fields@[gi] == (key, val_type));
                            assert forall|j: int| 0 <= j < gi + 1 implies (#[trigger] fields@[j]).0@ == rf[j].0
                                && fields@[j].1 == rf[j].1 by {
                                if j < gi {
                                    assert(fields@[j] == fields0[j]);
                                }
                            }
                        }
                    }
                    if matches!(self.peek_token, Token::Comma) {
                        let ghost s2 = *self;
                        self.next_token();
                        self.next_token();
                        proof {
                            if good {
                                assert(gi < gm - 1);
                                assert forall|n: nat| #[trigger] self.upcoming(n)
                                    == old(self).upcoming((n + 1 + 4 * (gi + 1)) as nat).skip(1 + 4 * (gi + 1)) by {
                                    assert(self.upcoming(n) == s2.upcoming(n + 2).skip(2));
                                    assert(s2.upcoming(n + 2) == s1.upcoming(n + 3).skip(1));
                                    assert(s1.upcoming(n + 3) == s0.upcoming(n + 4).skip(1));
                                    assert(s0.upcoming(n + 4) == old(self).upcoming((n + 4 + 1 + 4 * gi) as nat).skip(1 + 4 * gi));
                                    let big = old(self).upcoming((n + 5 + 4 * gi) as nat);
                                    old(self).lemma_upcoming((n + 5 + 4 * gi) as nat, (n + 5 + 4 * gi) as nat);
                                    assert((n + 1 + 4 * (gi + 1)) as nat == (n + 4 + 1 + 4 * gi) as nat);
                                    assert(big.skip(1 + 4 * gi).skip(1) =~= big.skip(2 + 4 * gi));
                                    assert(big.skip(2 + 4 * gi).skip(1) =~= big.skip(3 + 4 * gi));
                                    assert(big.skip(3 + 4 * gi).skip(2) =~= big.skip(5 + 4 * gi));
                                }
                                self.lemma_upcoming(0, 0);
                                old(self).lemma_upcoming((1 + 4 * (gi + 1)) as nat, (4 * gm - 1) as nat);
                                assert(self.upcoming(0) == old(self).upcoming((1 + 4 * (gi + 1)) as nat).skip(1 + 4 * (gi + 1)));
                                assert(self.current() == uu[1 + 4 * (gi + 1)]);
                                gi = gi + 1;
                            }
                        }
                        if matches!(self.current_token, Token::RBrace) {
                            break;
                        }
                    } else if matches!(self.peek_token, Token::RBrace) {
                        self.next_token();
                        proof {
                            if good {
                                assert(gi == gm - 1);
                            }
                        }
                        break;
                    } else {
                        self.report_error_with_msg(owned("Expected ',' or '}' in hash type"));
                        return None;
                    }
                }
                proof {
                    if good {
                        assert forall|m: nat| #[trigger] record_ann_run(old(self).upcoming((4 * m - 1) as nat), m)
                            implies m == gm by {
                            if m < gm {
                                old(self).lemma_upcoming((4 * m - 1) as nat, (4 * gm - 1) as nat);
                                let w = old(self).upcoming((4 * m - 1) as nat);
                                assert(w[1 + 4 * (m - 1)] is Ident);
                                assert(uu[1 + 4 * (m - 1)] is Ident);
                                assert(w[4 + 4 * (m - 1)] == uu[4 + 4 * (m - 1)]);
                            } else if m > gm {
                                old(self).lemma_upcoming((4 * gm - 1) as nat, (4 * m - 1) as nat);
                                let w = old(self).upcoming((4 * m - 1) as nat);
                                assert(w[1 + 4 * (gm - 1)] is Ident);
                                assert(uu[1 + 4 * (gm - 1)] is Ident);
                                assert(w[4 + 4 * (gm - 1)] == uu[4 + 4 * (gm - 1)]);
                            }
                        }
                    }
                }
                Some(TypeAnn::Hash(fields))
            },
            Token::Fn => self.parse_fn_annotation(),
            _ => {
                let msg = join2("Expected type annotation, got ", self.current_token.debug_text().as_str());
                self.report_error_with_msg(msg);
                None
            },
        }
    }

    /// Reads a function type annotation `fn(T, ...): T`, starting at the
    /// `fn` token; a parameter may carry a name, as in `x: T`.
    #[verifier::rlimit(40)]
    fn parse_fn_annotation(&mut self) -> (r: Option<TypeAnn>)
        requires
            old(self).wf(),
            old(self).current() is Fn,
        ensures
            final(self).advanced(old(self)),
            r is None ==> final(self).errors_seq().len() > old(self).errors_seq().len(),
            r matches Some(t) ==> t is Function,
            forall|m: nat| #[trigger] fn_ann_run(old(self).upcoming((2 * m + 2) as nat), m) ==> ({
                let u = old(self).upcoming((2 * m + 2) as nat);
                &&& r matches Some(TypeAnn::Function { params, ret })
                &&& params@ == fn_ann_params(u, m)
                &&& *ret == named_type(u[2 * m + 3int]->Ident_0)->0
                &&& final(self).errors_seq() == old(self).errors_seq()
            }),
            ({
                let u = old(self).upcoming(3);
                u[1] is LParen && u[2] is RParen && u[3] is Colon
                    && (u[4] matches TokenView::Ident(t) && named_type(t) is Some) ==> (
                    r matches Some(TypeAnn::Function { params, ret }) && params@.len() == 0
                    && *ret == named_type(u[4]->Ident_0)->0
                    && final(self).errors_seq() == old(self).errors_seq())
            }),
        decreases old(self).measure(), 0nat,
    {
        let ghost good = exists|m: nat| #[trigger] fn_ann_run(old(self).upcoming((2 * m + 2) as nat), m);
        let ghost gm: nat = if good {
            choose|m: nat| #[trigger] fn_ann_run(old(self).upcoming((2 * m + 2) as nat), m)
        } else {
            1
        };
        let ghost uu = old(self).upcoming((2 * gm + 2) as nat);
        let ghost rp = fn_ann_params(uu, gm);
        let ghost u3 = old(self).upcoming(3);
        let ghost empty = u3[1] is LParen && u3[2] is RParen && u3[3] is Colon
            && (u3[4] matches TokenView::Ident(t) && named_type(t) is Some);
        let ghost mut gi: int = 0;
        proof {
            old(self).lemma_upcoming(0, (2 * gm + 2) as nat);
            old(self).lemma_upcoming(0, 3);
            if good {
                assert(uu[2 + 2 * 0int] is Ident);
            }
        }
        if !self.expect_peek(Token::LParen) {
            return None;
        }
        let mut params: Vec<TypeAnn> = Vec::new();
        proof {
            assert(forall|n: nat| #[trigger] self.upcoming(n) == old(self).upcoming(n + 1).skip(1)) by {
                assert forall|n: nat| #[trigger] self.upcoming(n) == old(self).upcoming(n + 1).skip(1) by {
                    assert(old(self).upcoming(n + 1).skip(1) =~= old(self).upcoming(n + 1).drop_first());
                }
            }
        }
        proof {
            if empty {
                self.lemma_upcoming(0, 0);
                old(self).lemma_upcoming(1, 3);
                assert(self.upcoming(0) == old(self).upcoming(1).skip(1));
                assert(self.peek() == u3[2]);
            }
        }
        if !matches!(self.peek_token, Token::RParen) {
            proof {
                if good {
                    self.lemma_upcoming(0, 0);
                    old(self).lemma_upcoming(1, (2 * gm + 2) as nat);
                }
            }
            loop
                invariant_except_break
                    !(self.current() is EOF),
                    good ==> {
                        &&& 0 <= gi < gm
                        &&& forall|n: nat| #[trigger] self.upcoming(n) == old(self).upcoming((n + 1 + 2 * gi) as nat).skip(1 + 2 * gi)
                        &&& params@ == rp.take(gi)
                        &&& self.errors_seq() == old(self).errors_seq()
                    },
                invariant
                    self.advanced(old(self)),
                    self.measure() < old(self).measure(),
                    old(self).current() is Fn,
                    good == exists|m: nat| #[trigger] fn_ann_run(old(self).upcoming((2 * m + 2) as nat), m),
                    good ==> fn_ann_run(uu, gm),
                    uu == old(self).upcoming((2 * gm + 2) as nat),
                    uu.len() == 2 * gm + 4,
                    rp == fn_ann_params(uu, gm),
                    u3 == old(self).upcoming(3),
                    !(u3[1] is LParen && u3[2] is RParen && u3[3] is Colon
                        && (u3[4] matches TokenView::Ident(t) && named_type(t) is Some)),
                ensures
                    self.advanced(old(self)),
                    good ==> {
                        &&& params@ == rp
                        &&& forall|n: nat| #[trigger] self.upcoming(n) == old(self).upcoming((n + 2 * gm) as nat).skip(2 * gm as int)
                        &&& self.errors_seq() == old(self).errors_seq()
                    },
                decreases self.measure(),
            {
                let ghost s0 = *self;
                proof {
                    if good {
                        s0.lemma_upcoming(2, 2);
                        old(self).lemma_upcoming((3 + 2 * gi) as nat, (2 * gm + 2) as nat);
                        assert(s0.upcoming(2) == old(self).upcoming((3 + 2 * gi) as nat).skip(1 + 2 * gi));
                        assert(s0.upcoming(2) =~= uu.subrange(1 + 2 * gi, 5 + 2 * gi));
                        assert(uu[2 + 2 * gi] is Ident);
                    }
                }
                self.next_token();
                proof {
                    if good {
                        self.lemma_upcoming(0, 1);
                        assert(self.upcoming(1) == s0.upcoming(2).drop_first());
                        assert(self.current() == uu[2 + 2 * gi]);
                        assert(self.peek() == uu[3 + 2 * gi]);
                        assert(uu[2 + 2 * gi] matches TokenView::Ident(t) && named_type(t) is Some);
                    }
                }
                let is_named = match &self.current_token {
                    Token::Ident(_) => matches!(self.peek_token, Token::Colon),
                    _ => false,
                };
                if is_named {
                    self.next_token();
                    self.next_token();
                }
                let ghost s1 = *self;
                let param_type = match self.parse_type_annotation_inner() {
                    Some(t) => t,
                    None => { return None; },
                };
                params.push(param_type);
                proof {
                    if good {
                        assert(!is_named);
                        assert(*self == s1);
                        assert(params@ =~= rp.take(gi + 1));
                    }
                }
                if matches!(self.peek_token, Token::Comma) {
                    let ghost s2 = *self;
                    self.next_token();
                    proof {
                        if good {
                            assert(gi < gm - 1);
                            assert forall|n: nat| #[trigger] self.upcoming(n)
                                == old(self).upcoming((n + 1 + 2 * (gi + 1)) as nat).skip(1 + 2 * (gi + 1)) by {
                                assert(self.upcoming(n) == s2.upcoming(n + 1).skip(1));
                                assert(s2.upcoming(n + 1) == s0.upcoming(n + 2).skip(1));
                                assert(s0.upcoming(n + 2) == old(self).upcoming((n + 2 + 1 + 2 * gi) as nat).skip(1 + 2 * gi));
                                let big = old(self).upcoming((n + 3 + 2 * gi) as nat);
                                old(self).lemma_upcoming((n + 3 + 2 * gi) as nat, (n + 3 + 2 * gi) as nat);
                                assert((n + 1 + 2 * (gi + 1)) as nat == (n + 2 + 1 + 2 * gi) as nat);
                                assert(big.skip(1 + 2 * gi).skip(1) =~= big.skip(2 + 2 * gi));
                                assert(big.skip(2 + 2 * gi).skip(1) =~= big.skip(3 + 2 * gi));
                            }
                            gi = gi + 1;
                        }
                    }
                } else {
                    proof {
                        if good {
                            assert(gi == gm - 1);
                            assert forall|n: nat| #[trigger] self.upcoming(n)
                                == old(self).upcoming((n + 2 * gm) as nat).skip(2 * gm as int) by {
                                assert(self.upcoming(n) == s0.upcoming(n + 1).skip(1));
                                assert(s0.upcoming(n + 1) == old(self).upcoming((n + 1 + 1 + 2 * gi) as nat).skip(1 + 2 * gi));
                                let big = old(self).upcoming((n + 2 * gm) as nat);
                                old(self).lemma_upcoming((n + 2 * gm) as nat, (n + 2 * gm) as nat);
                                assert((n + 2 * gm) as nat == (n + 1 + 1 + 2 * gi) as nat);
                                assert(big.skip(1 + 2 * gi).skip(1) =~= big.skip(2 + 2 * gi));
                            }
                        }
                    }
                    break;
                }
            }
        } else {
            proof {
                if good {
                    old(self).lemma_upcoming(1, (2 * gm + 2) as nat);
                    self.lemma_upcoming(0, 0);
                    assert(uu[2 + 2 * 0int] is Ident);
                }
            }
        }
        let ghost s3 = *self;
        proof {
            if good {
                s3.lemma_upcoming(1, 3);
                old(self).lemma_upcoming((2 * gm + 2) as nat, (2 * gm + 2) as nat);
                assert(s3.upcoming(3) == old(self).upcoming((3 + 2 * gm) as nat).skip(2 * gm as int));
                old(self).lemma_upcoming((2 * gm + 2) as nat, (3 + 2 * gm) as nat);
                assert(s3.upcoming(3)[1] == uu[2 * gm + 1int]);
                assert(uu[3 + 2 * (gm - 1)] is RParen);
                assert(s3.upcoming(3)[2] == uu[2 * gm + 2int]);
                assert(s3.upcoming(3)[3] == uu[2 * gm + 3int]);
            }
            if empty {
                s3.lemma_upcoming(1, 3);
                old(self).lemma_upcoming(3, 4);
                assert(s3.upcoming(3) == old(self).upcoming(4).skip(1));
            }
        }
        if !self.expect_peek(Token::RParen) {
            return None;
        }
        proof {
            self.lemma_upcoming(0, 2);
            if good || empty {
                assert(self.upcoming(2) == s3.upcoming(3).drop_first());
                assert(self.peek() == s3.upcoming(3)[2]);
            }
        }
        if !self.expect_peek(Token::Colon) {
            return None;
        }
        proof {
            if good {
                self.lemma_upcoming(0, 0);
                assert(self.peek() == s3.upcoming(3)[3]);
            }
            if empty {
                self.lemma_upcoming(0, 0);
                assert(self.peek() == s3.upcoming(3)[3]);
            }
        }
        let ret = match self.parse_type_annotation() {
            Some(t) => t,
            None => { return None; },
        };
        proof {
            if good {
                assert forall|m: nat| #[trigger] fn_ann_run(old(self).upcoming((2 * m + 2) as nat), m)
                    implies m == gm by {
                    if m < gm {
                        old(self).lemma_upcoming((2 * m + 2) as nat, (2 * gm + 2) as nat);
                        let w = old(self).upcoming((2 * m + 2) as nat);
                        assert(w[2 + 2 * (m - 1)] is Ident);
                        assert(uu[2 + 2 * (m - 1)] is Ident);
                        assert(w[3 + 2 * (m - 1)] == uu[3 + 2 * (m - 1)]);
                    } else if m > gm {
                        old(self).lemma_upcoming((2 * gm + 2) as nat, (2 * m + 2) as nat);
                        let w = old(self).upcoming((2 * m + 2) as nat);
                        assert(w[2 + 2 * (gm - 1)] is Ident);
                        assert(uu[2 + 2 * (gm - 1)] is Ident);
                        assert(w[3 + 2 * (gm - 1)] == uu[3 + 2 * (gm - 1)]);
                    }
                }
            }
        }
        Some(TypeAnn::Function { params, ret: Box::new(ret) })
    }
}


impl Parser {
    /// Parses the whole input: one expression after another until the end,
    /// skipping past each error.
    pub fn parse_program(&mut self) -> (program: Program)
        requires
            old(self).wf(),
        ensures
            final(self).advanced(old(self)),
            final(self).current() is EOF,
            old(self).current() is EOF ==> program.expressions@.len() == 0
                && final(self).errors_seq() == old(self).errors_seq(),
            (old(self).current() is Ident || old(self).current() is Number || old(self).current() is StringLiteral)
                && old(self).peek() is EOF ==> {
                &&& program.expressions@.len() == 1
                &&& placed(program.expressions@[0], old(self).place(), |x: Expression| leaf_of(x, old(self).current()))
                &&& final(self).errors_seq() == old(self).errors_seq()
            },
            binary_run(old(self).upcoming(2), Precedence::Lowest) && old(self).upcoming(2)[3] is EOF ==> {
                let u = old(self).upcoming(2);
                &&& program.expressions@.len() == 1
                &&& binary_of(program.expressions@[0], u[0], u[1], u[2])
                &&& final(self).errors_seq() == old(self).errors_seq()
            },
            chain_run(old(self).upcoming(4), Precedence::Lowest) && old(self).upcoming(4)[5] is EOF ==> {
                &&& program.expressions@.len() == 1
                &&& chain_of(program.expressions@[0], old(self).upcoming(4))
                &&& final(self).errors_seq() == old(self).errors_seq()
            },
            forall|k: nat| #[trigger] leaf_program(old(self).upcoming(k), k) ==> {
                &&& program.expressions@.len() == k
                &&& forall|i: int| 0 <= i < k ==> leaf_of(spec_unwrap_loc(#[trigger] program.expressions@[i]),
                    old(self).upcoming(k)[i])
                &&& final(self).errors_seq() == old(self).errors_seq()
            },
    {
        let mut program = Program { expressions: Vec::new() };
        let ghost lp = exists|k: nat| #[trigger] leaf_program(old(self).upcoming(k), k);
        let ghost gk: nat = if lp { choose|k: nat| #[trigger] leaf_program(old(self).upcoming(k), k) } else { 0 };
        let ghost uk = old(self).upcoming(gk);
        proof { old(self).lemma_upcoming(gk, gk); }
        let ghost u2 = old(self).upcoming(2);
        let ghost pair = binary_run(u2, Precedence::Lowest) && u2[3] is EOF;
        let ghost u4 = old(self).upcoming(4);
        let ghost triple = chain_run(u4, Precedence::Lowest) && u4[5] is EOF;
        proof { old(self).lemma_upcoming(2, 2); old(self).lemma_upcoming(4, 4); }
        let ghost single = (old(self).current() is Ident || old(self).current() is Number
            || old(self).current() is StringLiteral) && old(self).peek() is EOF;
        while !self.current_token.is_eof()
            invariant
                self.advanced(old(self)),
                old(self).current() is EOF ==> program.expressions@.len() == 0
                    && self.errors_seq() == old(self).errors_seq() && self.current() is EOF,
                single == ((old(self).current() is Ident || old(self).current() is Number
                    || old(self).current() is StringLiteral) && old(self).peek() is EOF),
                single ==> (program.expressions@.len() == 0 && self.current() == old(self).current()
                    && self.peek() == old(self).peek() && self.place() == old(self).place()
                    && self.errors_seq() == old(self).errors_seq())
                    || (program.expressions@.len() == 1 && self.current() is EOF
                    && placed(program.expressions@[0], old(self).place(), |x: Expression| leaf_of(x, old(self).current()))
                    && self.errors_seq() == old(self).errors_seq()),
                u2 == old(self).upcoming(2),
                u2.len() == 4,
                pair == (binary_run(u2, Precedence::Lowest) && u2[3] is EOF),
                pair ==> (program.expressions@.len() == 0 && *self == *old(self))
                    || (program.expressions@.len() == 1 && self.current() is EOF
                    && binary_of(program.expressions@[0], u2[0], u2[1], u2[2])
                    && self.errors_seq() == old(self).errors_seq()),
                u4 == old(self).upcoming(4),
                u4.len() == 6,
                triple == (chain_run(u4, Precedence::Lowest) && u4[5] is EOF),
                triple ==> (program.expressions@.len() == 0 && *self == *old(self))
                    || (program.expressions@.len() == 1 && self.current() is EOF
                    && chain_of(program.expressions@[0], u4)
                    && self.errors_seq() == old(self).errors_seq()),
                lp == exists|k: nat| #[trigger] leaf_program(old(self).upcoming(k), k),
                lp ==> leaf_program(uk, gk),
                uk == old(self).upcoming(gk),
                uk.len() == gk + 2,
                lp ==> {
                    &&& program.expressions@.len() <= gk
                    &&& forall|n: nat| #[trigger] self.upcoming(n)
                        == old(self).upcoming(n + program.expressions@.len()).skip(program.expressions@.len() as int)
                    &&& forall|i: int| 0 <= i < program.expressions@.len()
                        ==> leaf_of(spec_unwrap_loc(#[trigger] program.expressions@[i]), uk[i])
                    &&& self.errors_seq() == old(self).errors_seq()
                },
            decreases 2 * self.measure() + (if self.current() is EOF { 0nat } else { 1nat }),
        {
            let ghost s0 = *self;
            let ghost done = program.expressions@.len();
            proof {
                if lp {
                    s0.lemma_upcoming(1, 1);
                    assert(s0.upcoming(0) == old(self).upcoming(done).skip(done as int));
                    old(self).lemma_upcoming(done, gk);
                    s0.lemma_upcoming(0, 1);
                    assert(s0.current() == uk[done as int]);
                    assert(done < gk);
                    old(self).lemma_upcoming((done + 1) as nat, gk);
                    assert(s0.upcoming(1) == old(self).upcoming(done + 1).skip(done as int));
                    assert(s0.peek() == uk[done + 1int]);
                    assert(leaf_token(uk[done as int]));
                    if done + 1 < gk { assert(leaf_token(uk[done + 1int])); }
                }
            }
            match self.parse_expression(Precedence::Lowest) {
                Some(expr) => { program.expressions.push(expr); },
                None => {},
            }
            proof {
                if pair {
                    self.lemma_upcoming(0, 0);
                    assert(self.upcoming(0) == s0.upcoming(2).skip(2));
                }
                if triple {
                    self.lemma_upcoming(0, 0);
                    assert(self.upcoming(0) == s0.upcoming(4).skip(4));
                }
            }
            let ghost s1 = *self;
            let ghost prog1 = program.expressions@;
            self.next_token();
            proof {
                if lp {
                    let e = prog1[done as int];
                    let inner = *e->Loc_expr;
                    assert(spec_unwrap_loc(e) == spec_unwrap_loc(inner));
                    assert(spec_unwrap_loc(inner) == inner);
                    assert forall|n: nat| #[trigger] self.upcoming(n)
                        == old(self).upcoming(n + done + 1).skip(done + 1int) by {
                        assert(self.upcoming(n) == s1.upcoming(n + 1).drop_first());
                        assert(s1.upcoming(n + 1) == old(self).upcoming(n + 1 + done).skip(done as int));
                        old(self).lemma_upcoming(n + 1 + done, n + 1 + done);
                        assert(old(self).upcoming(n + done + 1).skip(done + 1int)
                            =~= old(self).upcoming(n + 1 + done).skip(done as int).drop_first());
                    }
                }
            }
        }
        proof {
            if lp {
                let done = program.expressions@.len();
                self.lemma_upcoming(0, 0);
                old(self).lemma_upcoming(done, gk);
                assert(self.current() == uk[done as int]);
                assert(done == gk) by {
                    if done < gk {
                        assert(leaf_token(uk[done as int]));
                    }
                }
                assert forall|k: nat| #[trigger] leaf_program(old(self).upcoming(k), k) implies k == gk by {
                    if k < gk {
                        old(self).lemma_upcoming(k, gk);
                        assert(leaf_token(uk[k as int]));
                    } else if k > gk {
                        old(self).lemma_upcoming(gk, k);
                        assert(leaf_token(old(self).upcoming(k)[gk as int]));
                    }
                }
            }
        }
        program
    }

    /// Parses an expression that binds tighter than `precedence`, starting
    /// at the current token; stops on its last token.
    fn parse_expression(&mut self, precedence: Precedence) -> (r: Option<Expression>)
        requires
            old(self).wf(),
        ensures
            final(self).advanced(old(self)),
            r is None ==> final(self).errors_seq().len() > old(self).errors_seq().len(),
            r is Some ==> !(final(self).current() is EOF),
            !prefix_token(old(self).current()) ==> {
                &&& r is None
                &&& final(self).errors_seq().len() == old(self).errors_seq().len() + 1
                &&& final(self).errors_seq().last().message@ == unexpected_message(old(self).current())
                &&& final(self).current() == old(self).current()
                &&& final(self).measure() == old(self).measure()
            },
            (old(self).current() is Ident || old(self).current() is Number || old(self).current() is StringLiteral)
                && (old(self).peek() is EOF
                    || precedence_rank(spec_token_precedence(old(self).peek())) <= precedence_rank(precedence)) ==> {
                &&& r matches Some(e) && placed(e, old(self).place(), |x: Expression| leaf_of(x, old(self).current()))
                &&& *final(self) == *old(self)
                &&& final(self).errors_seq() == old(self).errors_seq()
                &&& final(self).current() == old(self).current()
                &&& final(self).peek() == old(self).peek()
            },
            binary_run(old(self).upcoming(2), precedence) ==> ({
                let u = old(self).upcoming(2);
                &&& r matches Some(e) && binary_of(e, u[0], u[1], u[2])
                &&& final(self).errors_seq() == old(self).errors_seq()
                &&& forall|n: nat| #[trigger] final(self).upcoming(n) == old(self).upcoming(n + 2).skip(2)
            }),
            ({
                let u = old(self).upcoming(2);
                u[0] is LParen && leaf_token(u[1]) && u[2] is RParen
                    && (u[3] is EOF || precedence_rank(spec_token_precedence(u[3])) <= precedence_rank(precedence))
                ==> (r matches Some(e) && leaf_of(spec_unwrap_loc(e), u[1])
                    && final(self).errors_seq() == old(self).errors_seq()
                    && forall|n: nat| #[trigger] final(self).upcoming(n) == old(self).upcoming(n + 2).skip(2))
            }),
            chain_run(old(self).upcoming(4), precedence) ==> ({
                &&& r matches Some(e) && chain_of(e, old(self).upcoming(4))
                &&& final(self).errors_seq() == old(self).errors_seq()
                &&& forall|n: nat| #[trigger] final(self).upcoming(n) == old(self).upcoming(n + 4).skip(4)
            }),
        decreases old(self).measure(), 5nat,
    {
        let line = self.cur_line;
        let col = self.cur_col;
        let left_opt = match &self.current_token {
            Token::Ident(name) => Some(Expression::Identifier(name.clone())),
            Token::Number(val) => Some(Expression::Number(val.clone())),
            Token::StringLiteral(val) => Some(Expression::StringLiteral(val.clone())),
            Token::Colon => self.parse_atom_literal(),
            Token::Bang | Token::Minus => self.parse_prefix_expression(),
            Token::LParen => self.parse_grouped_expression(),
            Token::If => self.parse_if_expression(),
            Token::Fn => self.parse_function_expression(),
            Token::Do => self.parse_block_expression(),
            Token::LBracket => self.parse_array_literal(),
            Token::LBrace => self.parse_hash_literal(),
            Token::Let => self.parse_let_expression(),
            Token::Const => self.parse_const_expression(),
            Token::Return => self.parse_return_expression(),
            Token::Loop => self.parse_loop_expression(),
            Token::While => self.parse_while_expression(),
            Token::For => self.parse_for_expression(),
            _ => {
                self.report_error();
                None
            },
        };
        let mut left_expr = match left_opt {
            Some(e) => e,
            None => { return None; },
        };
        let ghost grp = ({
            let u = old(self).upcoming(2);
            u[0] is LParen && leaf_token(u[1]) && u[2] is RParen
                && (u[3] is EOF || precedence_rank(spec_token_precedence(u[3])) <= precedence_rank(precedence))
        });
        proof {
            if grp {
                old(self).lemma_upcoming(1, 2);
                old(self).lemma_upcoming(2, 2);
                self.lemma_upcoming(0, 0);
                assert(self.upcoming(0) == old(self).upcoming(2).skip(2));
                assert(self.peek() == old(self).upcoming(2)[3]);
            }
        }
        if matches!(self.current_token, Token::Ident(_) | Token::Number(_) | Token::StringLiteral(_)) {
            left_expr = Expression::Loc { line, col, expr: Box::new(left_expr) };
        }
        let ghost leaf_case = (old(self).current() is Ident || old(self).current() is Number
            || old(self).current() is StringLiteral) && (old(self).peek() is EOF
            || precedence_rank(spec_token_precedence(old(self).peek())) <= precedence_rank(precedence));
        let ghost bin_case = binary_run(old(self).upcoming(2), precedence);
        let ghost u2 = old(self).upcoming(2);
        let ghost mut rounds: int = 0;
        let ghost ch_case = chain_run(old(self).upcoming(4), precedence);
        let ghost u4 = old(self).upcoming(4);
        let ghost nest = precedence_rank(spec_token_precedence(u4[1])) < precedence_rank(spec_token_precedence(u4[3]));
        proof { old(self).lemma_upcoming(2, 2); old(self).lemma_upcoming(4, 4); old(self).lemma_upcoming(2, 4); }
        while !self.peek_token.is_eof() && precedence.rank() < self.peek_precedence().rank()
            invariant
                self.advanced(old(self)),
                !(self.current() is EOF),
                prefix_token(old(self).current()),
                leaf_case == ((old(self).current() is Ident || old(self).current() is Number
                    || old(self).current() is StringLiteral) && (old(self).peek() is EOF
                    || precedence_rank(spec_token_precedence(old(self).peek())) <= precedence_rank(precedence))),
                leaf_case ==> self.peek() == old(self).peek() && self.current() == old(self).current()
                    && *self == *old(self)
                    && self.errors_seq() == old(self).errors_seq()
                    && placed(left_expr, old(self).place(), |x: Expression| leaf_of(x, old(self).current())),
                bin_case == binary_run(old(self).upcoming(2), precedence),
                grp == ({
                    let u = old(self).upcoming(2);
                    u[0] is LParen && leaf_token(u[1]) && u[2] is RParen
                        && (u[3] is EOF || precedence_rank(spec_token_precedence(u[3])) <= precedence_rank(precedence))
                }),
                grp ==> self.peek() == u2[3] && leaf_of(spec_unwrap_loc(left_expr), u2[1])
                    && self.errors_seq() == old(self).errors_seq()
                    && forall|n: nat| #[trigger] self.upcoming(n) == old(self).upcoming(n + 2).skip(2),
                u2 == old(self).upcoming(2),
                u2.len() == 4,
                bin_case ==> 0 <= rounds <= 1,
                bin_case && rounds == 0 ==> *self == *old(self)
                    && placed(left_expr, old(self).place(), |x: Expression| leaf_of(x, old(self).current())),
                bin_case && rounds == 1 ==> binary_of(left_expr, u2[0], u2[1], u2[2])
                    && self.errors_seq() == old(self).errors_seq()
                    && self.peek() == u2[3]
                    && forall|n: nat| #[trigger] self.upcoming(n) == old(self).upcoming(n + 2).skip(2),
                ch_case == chain_run(old(self).upcoming(4), precedence),
                u4 == old(self).upcoming(4),
                u4.len() == 6,
                u2 == u4.take(4),
                nest == (precedence_rank(spec_token_precedence(u4[1])) < precedence_rank(spec_token_precedence(u4[3]))),
                ch_case ==> 0 <= rounds <= 2 && (nest ==> rounds <= 1),
                u4[1] == old(self).peek(),
                ch_case && rounds == 1 && !nest ==> self.peek() == u4[3],
                ch_case && ((rounds == 1 && nest) || rounds == 2) ==> self.peek() == u4[5],
                ch_case && rounds == 0 ==> *self == *old(self)
                    && placed(left_expr, old(self).place(), |x: Expression| leaf_of(x, old(self).current())),
                ch_case && rounds == 1 && !nest ==> binary_of(left_expr, u4[0], u4[1], u4[2])
                    && self.errors_seq() == old(self).errors_seq()
                    && forall|n: nat| #[trigger] self.upcoming(n) == old(self).upcoming(n + 2).skip(2),
                ch_case && ((rounds == 1 && nest) || rounds == 2) ==> chain_of(left_expr, u4)
                    && self.errors_seq() == old(self).errors_seq()
                    && forall|n: nat| #[trigger] self.upcoming(n) == old(self).upcoming(n + 4).skip(4),
            decreases self.measure(),
        {
            if !self.peek_is_infix_operator() {
                return Some(left_expr);
            }
            let ghost s0 = *self;
            let ghost left0 = left_expr;
            self.next_token();
            proof {
                if bin_case {
                    s0.lemma_upcoming(2, 2);
                    assert(self.upcoming(1) == s0.upcoming(2).drop_first());
                    self.lemma_upcoming(1, 1);
                }
            }
            let ghost s1 = *self;
            proof {
                if ch_case {
                    s0.lemma_upcoming(4, 4);
                    s1.lemma_upcoming(3, 3);
                    s1.lemma_upcoming(1, 3);
                    assert(s1.upcoming(3) == s0.upcoming(4).drop_first());
                    if rounds == 0 {
                        assert(s1.upcoming(3) =~= u4.drop_first());
                    } else {
                        assert(s0.upcoming(4) == old(self).upcoming(6).skip(2));
                        old(self).lemma_upcoming(4, 6);
                        assert(s1.upcoming(1) =~= u4.skip(3));
                    }
                }
            }
            left_expr = match self.parse_infix_expression(left_expr) {
                Some(e) => e,
                None => { return None; },
            };
            proof {
                if ch_case {
                    let ex = *left_expr->Loc_expr;
                    assert(spec_unwrap_loc(left_expr) == spec_unwrap_loc(ex));
                    assert(ex is Infix);
                    assert(spec_unwrap_loc(ex) == ex);
                    if rounds == 0 {
                        let inner = *left0->Loc_expr;
                        assert(spec_unwrap_loc(left0) == spec_unwrap_loc(inner));
                        assert(spec_unwrap_loc(inner) == inner);
                        if nest {
                            assert forall|n: nat| #[trigger] self.upcoming(n) == old(self).upcoming(n + 4).skip(4) by {
                                assert(self.upcoming(n) == s1.upcoming(n + 3).skip(3));
                                assert(s1.upcoming(n + 3) == s0.upcoming(n + 4).drop_first());
                                assert(old(self).upcoming(n + 4).skip(4) =~= s0.upcoming(n + 4).drop_first().skip(3));
                            }
                            assert(chain_of(left_expr, u4));
                            self.lemma_upcoming(0, 0);
                            old(self).lemma_upcoming(0, 4);
                            assert(self.upcoming(0) == old(self).upcoming(4).skip(4));
                            assert(self.peek() == u4[5]);
                        } else {
                            assert forall|n: nat| #[trigger] self.upcoming(n) == old(self).upcoming(n + 2).skip(2) by {
                                assert(self.upcoming(n) == s1.upcoming(n + 1).drop_first());
                                assert(s1.upcoming(n + 1) == s0.upcoming(n + 2).drop_first());
                                assert(old(self).upcoming(n + 2).skip(2) =~= s0.upcoming(n + 2).drop_first().drop_first());
                            }
                            self.lemma_upcoming(0, 0);
                            old(self).lemma_upcoming(2, 4);
                            assert(self.upcoming(0) == old(self).upcoming(2).skip(2));
                            assert(self.peek() == u4[3]);
                            assert(binary_of(left_expr, u4[0], u4[1], u4[2]));
                        }
                    } else {
                        assert forall|n: nat| #[trigger] self.upcoming(n) == old(self).upcoming(n + 4).skip(4) by {
                            assert(self.upcoming(n) == s1.upcoming(n + 1).drop_first());
                            assert(s1.upcoming(n + 1) == s0.upcoming(n + 2).drop_first());
                            assert(s0.upcoming(n + 2) == old(self).upcoming(n + 4).skip(2));
                            assert(old(self).upcoming(n + 4).skip(4) =~= old(self).upcoming(n + 4).skip(2).drop_first().drop_first());
                        }
                        assert(chain_of(left_expr, u4));
                        self.lemma_upcoming(0, 0);
                        old(self).lemma_upcoming(0, 4);
                        assert(self.upcoming(0) == old(self).upcoming(4).skip(4));
                        assert(self.peek() == u4[5]);
                    }
                    rounds = rounds + 1;
                }
            }
            proof {
                if bin_case {
                    let inner = *left0->Loc_expr;
                    assert(spec_unwrap_loc(left0) == spec_unwrap_loc(inner));
                    assert(spec_unwrap_loc(inner) == inner);
                    assert forall|n: nat| #[trigger] self.upcoming(n) == old(self).upcoming(n + 2).skip(2) by {
                        assert(self.upcoming(n) == s1.upcoming(n + 1).drop_first());
                        assert(s1.upcoming(n + 1) == s0.upcoming(n + 2).drop_first());
                        assert(old(self).upcoming(n + 2).skip(2) =~= s0.upcoming(n + 2).drop_first().drop_first());
                    }
                    self.lemma_upcoming(0, 0);
                    old(self).lemma_upcoming(1, 2);
                    assert(self.upcoming(0) == old(self).upcoming(2).skip(2));
                    assert(s1.current() == u2[1]);
                    assert(s1.upcoming(1)[1] == u2[2]);
                    assert(s1.upcoming(1)[2] == u2[3]);
                    let ex = *left_expr->Loc_expr;
                    assert(spec_unwrap_loc(left_expr) == spec_unwrap_loc(ex));
                    assert(ex is Infix);
                    assert(spec_unwrap_loc(ex) == ex);
                    assert(binary_of(left_expr, u2[0], u2[1], u2[2]));
                    assert(self.errors_seq() == old(self).errors_seq());
                    assert(self.peek() == u2[3]);
                    rounds = rounds + 1;
                }
            }
        }
        Some(left_expr)
    }

    /// `:name`, an atom; `:true` and `:false` too, though `true` and `false`
    /// are keywords.
    fn parse_atom_literal(&mut self) -> (r: Option<Expression>)
        requires
            old(self).wf(),
            !(old(self).current() is EOF),
        ensures
            final(self).advanced(old(self)),
            r is None ==> final(self).errors_seq().len() > old(self).errors_seq().len(),
            r is Some ==> !(final(self).current() is EOF),
            match old(self).peek() {
                TokenView::Ident(n) => r matches Some(e)
                    && placed(e, old(self).place(), |x: Expression| x matches Expression::Atom(a) && a@ == n),
                TokenView::True => r matches Some(e)
                    && placed(e, old(self).place(), |x: Expression| x matches Expression::Atom(a) && a@ == "true"@),
                TokenView::False => r matches Some(e)
                    && placed(e, old(self).place(), |x: Expression| x matches Expression::Atom(a) && a@ == "false"@),
                _ => r is None && final(self).errors_seq().len() == old(self).errors_seq().len() + 1,
            },
    {
        let line = self.cur_line;
        let col = self.cur_col;
        self.next_token();
        let expr = match &self.current_token {
            Token::Ident(name) => Some(Expression::Atom(name.clone())),
            Token::True => Some(Expression::Atom(owned("true"))),
            Token::False => Some(Expression::Atom(owned("false"))),
            _ => {
                let msg = join2("Expected identifier after ':', got ", self.current_token.debug_text().as_str());
                self.report_error_with_hint(msg, owned("Atoms must be valid names"));
                None
            },
        };
        wrap(expr, line, col)
    }

    /// `[a, b, ...]`, an array.
    fn parse_array_literal(&mut self) -> (r: Option<Expression>)
        requires
            old(self).wf(),
            !(old(self).current() is EOF),
        ensures
            final(self).advanced(old(self)),
            r is None ==> final(self).errors_seq().len() > old(self).errors_seq().len(),
            r is Some ==> !(final(self).current() is EOF),
            r matches Some(e) ==> placed(e, old(self).place(), |x: Expression| x is Array),
            old(self).peek() is RBracket ==> (r matches Some(e)
                && placed(e, old(self).place(), |x: Expression| x matches Expression::Array(v) && v@.len() == 0)),
        decreases old(self).measure(), 4nat,
    {
        let line = self.cur_line;
        let col = self.cur_col;
        let mut elements: Vec<Expression> = Vec::new();
        if matches!(self.peek_token, Token::RBracket) {
            self.next_token();
            return wrap(Some(Expression::Array(elements)), line, col);
        }
        self.next_token();
        match self.parse_expression(Precedence::Lowest) {
            Some(e) => { elements.push(e); },
            None => { return None; },
        }
        while matches!(self.peek_token, Token::Comma)
            invariant
                self.advanced(old(self)),
                self.measure() < old(self).measure(),
                !(old(self).peek() is RBracket),
            decreases self.measure(),
        {
            self.next_token();
            self.next_token();
            match self.parse_expression(Precedence::Lowest) {
                Some(e) => { elements.push(e); },
                None => { return None; },
            }
        }
        if !self.expect_peek(Token::RBracket) {
            return None;
        }
        wrap(Some(Expression::Array(elements)), line, col)
    }

    /// `{ key: value, ... }`, a record.
    fn parse_hash_literal(&mut self) -> (r: Option<Expression>)
        requires
            old(self).wf(),
            !(old(self).current() is EOF),
        ensures
            final(self).advanced(old(self)),
            r is None ==> final(self).errors_seq().len() > old(self).errors_seq().len(),
            r is Some ==> !(final(self).current() is EOF),
            r matches Some(e) ==> placed(e, old(self).place(), |x: Expression| x is Hash),
            old(self).peek() is RBrace ==> (r matches Some(e)
                && placed(e, old(self).place(), |x: Expression| x matches Expression::Hash(p) && p@.len() == 0)),
        decreases old(self).measure(), 4nat,
    {
        let line = self.cur_line;
        let col = self.cur_col;
        self.next_token();
        let mut pairs: Vec<(String, Expression)> = Vec::new();
        if matches!(self.current_token, Token::RBrace) {
            return wrap(Some(Expression::Hash(pairs)), line, col);
        }
        loop
            invariant
                self.advanced(old(self)),
                self.measure() < old(self).measure(),
                !(old(self).peek() is RBrace),
            ensures
                self.advanced(old(self)),
                self.current() is RBrace,
            decreases self.measure(),
        {
            let key = match &self.current_token {
                Token::Ident(name) => name.clone(),
                _ => {
                    let msg = join2("Expected identifier for object key, got ", self.current_token.debug_text().as_str());
                    self.report_error_with_hint(msg,
                        owned("Object keys can only be unquoted identifiers, e.g., '{ x: 10 }'"));
                    return None;
                },
            };
            if !self.expect_peek(Token::Colon) {
                self.report_error_with_hint(owned("Expected ':'"), owned("Use 'key: value' inside objects"));
                return None;
            }
            self.next_token();
            let value = match self.parse_expression(Precedence::Lowest) {
                Some(e) => e,
                None => { return None; },
            };
            pairs.push((key, value));
            if matches!(self.peek_token, Token::Comma) {
                self.next_token();
                self.next_token();
                if matches!(self.current_token, Token::RBrace) {
                    break;
                }
            } else if matches!(self.peek_token, Token::RBrace) {
                self.next_token();
                break;
            } else {
                let msg = join2("Expected ',' or '}', got ", self.peek_token.debug_text().as_str());
                self.report_error_with_hint(msg, owned("Separate object properties with commas"));
                return None;
            }
        }
        wrap(Some(Expression::Hash(pairs)), line, col)
    }

    /// `left[index]`.
    fn parse_index_expression(&mut self, left: Expression) -> (r: Option<Expression>)
        requires
            old(self).wf(),
            !(old(self).current() is EOF),
        ensures
            final(self).advanced(old(self)),
            r is None ==> final(self).errors_seq().len() > old(self).errors_seq().len(),
            r is Some ==> !(final(self).current() is EOF),
            r matches Some(e) ==> placed(e, old(self).place(),
                |x: Expression| x matches Expression::Index { left: l, .. } && *l == left),
        decreases old(self).measure(), 3nat,
    {
        let line = self.cur_line;
        let col = self.cur_col;
        self.next_token();
        let index = match self.parse_expression(Precedence::Lowest) {
            Some(e) => e,
            None => { return None; },
        };
        if !self.expect_peek(Token::RBracket) {
            return None;
        }
        wrap(Some(Expression::Index { left: Box::new(left), index: Box::new(index) }), line, col)
    }

    /// `left.name`: indexing by the atom `:name`.
    fn parse_dot_expression(&mut self, left: Expression) -> (r: Option<Expression>)
        requires
            old(self).wf(),
            !(old(self).current() is EOF),
        ensures
            final(self).advanced(old(self)),
            r is None ==> final(self).errors_seq().len() > old(self).errors_seq().len(),
            r is Some ==> !(final(self).current() is EOF),
            match old(self).peek() {
                TokenView::Ident(n) => r matches Some(e) && placed(e, old(self).place(),
                    |x: Expression| x matches Expression::Index { left: l, index } && *l == left
                        && placed(*index, old(self).place(), |y: Expression| y matches Expression::Atom(a) && a@ == n)),
                _ => r is None && final(self).errors_seq().len() == old(self).errors_seq().len() + 1
                    && final(self).errors_seq().last().message@ == "Expected property name after '.'"@,
            },
    {
        let line = self.cur_line;
        let col = self.cur_col;
        self.next_token();
        let name = match &self.current_token {
            Token::Ident(name) => name.clone(),
            _ => {
                self.report_error_with_hint(owned("Expected property name after '.'"),
                    owned("Use identifiers like 'obj.name'"));
                return None;
            },
        };
        let index = Expression::Loc { line, col, expr: Box::new(Expression::Atom(name)) };
        wrap(Some(Expression::Index { left: Box::new(left), index: Box::new(index) }), line, col)
    }
}

impl Parser {
    /// `let name = value` or `let name: T = value`.
    fn parse_let_expression(&mut self) -> (r: Option<Expression>)
        requires
            old(self).wf(),
            !(old(self).current() is EOF),
        ensures
            final(self).advanced(old(self)),
            r is None ==> final(self).errors_seq().len() > old(self).errors_seq().len(),
            r is Some ==> !(final(self).current() is EOF),
            r matches Some(e) ==> placed(e, old(self).place(), |x: Expression|
                x matches Expression::Let { name, .. } && old(self).peek() == TokenView::Ident(name@)),
            !(old(self).peek() is Ident) ==> r is None
                && final(self).errors_seq().len() == old(self).errors_seq().len() + 1,
        decreases old(self).measure(), 4nat,
    {
        let line = self.cur_line;
        let col = self.cur_col;
        self.next_token();
        let name = match &self.current_token {
            Token::Ident(name) => name.clone(),
            _ => {
                let msg = join2("Expected variable name after 'let', got ", self.current_token.debug_text().as_str());
                self.report_error_with_msg(msg);
                return None;
            },
        };
        let mut type_ann: Option<TypeAnn> = None;
        if matches!(self.peek_token, Token::Colon) {
            self.next_token();
            type_ann = self.parse_type_annotation();
        }
        if !self.expect_peek(Token::Assign) {
            let msg = join3("Expected '=' after variable name '", name.as_str(), "'");
            self.report_error_with_hint(msg, owned("Try adding '=' followed by a value, e.g., 'let x = 5'"));
            return None;
        }
        self.next_token();
        let value = match self.parse_expression(Precedence::Lowest) {
            Some(e) => e,
            None => { return None; },
        };
        wrap(Some(Expression::Let { name, type_ann, value: Box::new(value) }), line, col)
    }

    /// `const name = value` or `const name: T = value`.
    fn parse_const_expression(&mut self) -> (r: Option<Expression>)
        requires
            old(self).wf(),
            !(old(self).current() is EOF),
        ensures
            final(self).advanced(old(self)),
            r is None ==> final(self).errors_seq().len() > old(self).errors_seq().len(),
            r is Some ==> !(final(self).current() is EOF),
            r matches Some(e) ==> placed(e, old(self).place(), |x: Expression|
                x matches Expression::Const { name, .. } && old(self).peek() == TokenView::Ident(name@)),
            !(old(self).peek() is Ident) ==> r is None
                && final(self).errors_seq().len() == old(self).errors_seq().len() + 1,
        decreases old(self).measure(), 4nat,
    {
        let line = self.cur_line;
        let col = self.cur_col;
        self.next_token();
        let name = match &self.current_token {
            Token::Ident(name) => name.clone(),
            _ => {
                let msg = join2("Expected constant name after 'const', got ", self.current_token.debug_text().as_str());
                self.report_error_with_msg(msg);
                return None;
            },
        };
        let mut type_ann: Option<TypeAnn> = None;
        if matches!(self.peek_token, Token::Colon) {
            self.next_token();
            type_ann = self.parse_type_annotation();
        }
        if !self.expect_peek(Token::Assign) {
            let msg = join3("Expected '=' after constant name '", name.as_str(), "'");
            self.report_error_with_hint(msg, owned("Constants must be initialized immediately. Try adding '= <value>'"));
            return None;
        }
        self.next_token();
        let value = match self.parse_expression(Precedence::Lowest) {
            Some(e) => e,
            None => { return None; },
        };
        wrap(Some(Expression::Const { name, type_ann, value: Box::new(value) }), line, col)
    }

    /// `return value`.
    fn parse_return_expression(&mut self) -> (r: Option<Expression>)
        requires
            old(self).wf(),
            !(old(self).current() is EOF),
        ensures
            final(self).advanced(old(self)),
            r is None ==> final(self).errors_seq().len() > old(self).errors_seq().len(),
            r is Some ==> !(final(self).current() is EOF),
            r matches Some(e) ==> placed(e, old(self).place(), |x: Expression| x is Return),
        decreases old(self).measure(), 4nat,
    {
        let line = self.cur_line;
        let col = self.cur_col;
        self.next_token();
        let value = match self.parse_expression(Precedence::Lowest) {
            Some(e) => e,
            None => { return None; },
        };
        wrap(Some(Expression::Return(Box::new(value))), line, col)
    }

    /// The expressions from the current token up to `end`, `else` or the
    /// end of input, skipping past each error.
    fn parse_block_expressions(&mut self) -> (exprs: Vec<Expression>)
        requires
            old(self).wf(),
        ensures
            final(self).advanced(old(self)),
            final(self).current() is End || final(self).current() is Else || final(self).current() is EOF,
            old(self).current() is End || old(self).current() is Else || old(self).current() is EOF
                ==> exprs@.len() == 0 && *final(self) == *old(self),
            ({
                let u = old(self).upcoming(1);
                (u[0] is Ident || u[0] is Number || u[0] is StringLiteral) && (u[1] is End || u[1] is Else)
                ==> exprs@.len() == 1 && leaf_of(spec_unwrap_loc(exprs@[0]), u[0])
                    && final(self).errors_seq() == old(self).errors_seq()
                    && forall|n: nat| #[trigger] final(self).upcoming(n) == old(self).upcoming(n + 1).drop_first()
            }),
        decreases old(self).measure(), 6nat,
    {
        let mut expressions: Vec<Expression> = Vec::new();
        let ghost u = old(self).upcoming(1);
        let ghost single = (u[0] is Ident || u[0] is Number || u[0] is StringLiteral) && (u[1] is End || u[1] is Else);
        let ghost mut iters: nat = 0;
        while !matches!(self.current_token, Token::End | Token::Else | Token::EOF)
            invariant
                self.advanced(old(self)),
                u == old(self).upcoming(1),
                single == ((u[0] is Ident || u[0] is Number || u[0] is StringLiteral) && (u[1] is End || u[1] is Else)),
                iters == 0 ==> *self == *old(self) && expressions@.len() == 0,
                old(self).current() is End || old(self).current() is Else || old(self).current() is EOF ==> iters == 0,
                single && iters > 0 ==> expressions@.len() == 1 && leaf_of(spec_unwrap_loc(expressions@[0]), u[0])
                    && self.errors_seq() == old(self).errors_seq()
                    && self.current() == u[1]
                    && forall|n: nat| #[trigger] self.upcoming(n) == old(self).upcoming(n + 1).drop_first(),
            decreases 2 * self.measure() + (if self.current() is EOF { 0nat } else { 1nat }),
        {
            let ghost start = *self;
            match self.parse_expression(Precedence::Lowest) {
                Some(e) => {
                    proof {
                        if single && iters == 0 {
                            assert(start.current() == u[0] && start.peek() == u[1]);
                            let inner = *e->Loc_expr;
                            assert(spec_unwrap_loc(e) == spec_unwrap_loc(inner));
                            assert(spec_unwrap_loc(inner) == inner);
                        }
                    }
                    expressions.push(e);
                },
                None => {},
            }
            let ghost mid = *self;
            self.next_token();
            proof {
                if single && iters == 0 {
                    assert forall|n: nat| #[trigger] self.upcoming(n) == old(self).upcoming(n + 1).drop_first() by {
                        assert(self.upcoming(n) == mid.upcoming(n + 1).drop_first());
                    }
                    assert(self.current() == u[1]);
                }
                iters = iters + 1;
            }
        }
        expressions
    }

    /// `do ... end`.
    fn parse_block_expression(&mut self) -> (r: Option<Expression>)
        requires
            old(self).wf(),
            !(old(self).current() is EOF),
        ensures
            final(self).advanced(old(self)),
            r is None ==> final(self).errors_seq().len() > old(self).errors_seq().len(),
            r is Some ==> !(final(self).current() is EOF),
            r matches Some(e) ==> placed(e, old(self).place(), |x: Expression| x matches Expression::Block(_, b) && !b),
        decreases old(self).measure(), 4nat,
    {
        let line = self.cur_line;
        let col = self.cur_col;
        self.next_token();
        let exprs = self.parse_block_expressions();
        if !matches!(self.current_token, Token::End) {
            let msg = join2("Expected 'end' to close block, got ", self.current_token.debug_text().as_str());
            self.report_error_with_hint(msg, owned("Blocks started with 'do' must explicitly end with 'end'"));
            return None;
        }
        wrap(Some(Expression::Block(exprs, false)), line, col)
    }

    /// `fn name(params) body`: a function; with a name, a constant bound to it.
    fn parse_function_expression(&mut self) -> (r: Option<Expression>)
        requires
            old(self).wf(),
            !(old(self).current() is EOF),
        ensures
            final(self).advanced(old(self)),
            r is None ==> final(self).errors_seq().len() > old(self).errors_seq().len(),
            r is Some ==> !(final(self).current() is EOF),
            r matches Some(e) ==> placed(e, old(self).place(), |x: Expression| match old(self).peek() {
                TokenView::Ident(n) => x matches Expression::Const { name, type_ann, value }
                    && name@ == n && type_ann is None && *value is Function,
                _ => x is Function,
            }),
        decreases old(self).measure(), 4nat,
    {
        let line = self.cur_line;
        let col = self.cur_col;
        let mut name: Option<String> = None;
        let ghost entry = *self;
        if let Token::Ident(n) = &self.peek_token {
            let n2 = n.clone();
            self.next_token();
            name = Some(n2);
        }
        if !self.expect_peek(Token::LParen) {
            return None;
        }
        let parameters = match self.parse_function_parameters() {
            Some(p) => p,
            None => { return None; },
        };
        let mut return_type: Option<TypeAnn> = None;
        if matches!(self.peek_token, Token::Colon) {
            self.next_token();
            return_type = self.parse_type_annotation();
        }
        let body = if matches!(self.peek_token, Token::Do) {
            self.next_token();
            self.next_token();
            let exprs = self.parse_block_expressions();
            if !matches!(self.current_token, Token::End) {
                let msg = join2("Expected 'end' to close function body, got ", self.current_token.debug_text().as_str());
                self.report_error_with_hint(msg,
                    owned("Function bodies starting with 'do' must explicitly end with 'end'"));
                return None;
            }
            exprs
        } else {
            self.next_token();
            match self.parse_expression(Precedence::Lowest) {
                Some(e) => {
                    let mut v: Vec<Expression> = Vec::new();
                    v.push(e);
                    v
                },
                None => { return None; },
            }
        };
        let func = Expression::Function { parameters, return_type, body };
        let expr = match name {
            Some(n) => Expression::Const { name: n, type_ann: None, value: Box::new(func) },
            None => func,
        };
        wrap(Some(expr), line, col)
    }

    /// `(name, name: T, ...)`, the parameters of a function; the current
    /// token is `(`.
    fn parse_function_parameters(&mut self) -> (r: Option<Vec<(String, Option<TypeAnn>)>>)
        requires
            old(self).wf(),
            !(old(self).current() is EOF),
        ensures
            final(self).advanced(old(self)),
            r is None ==> final(self).errors_seq().len() > old(self).errors_seq().len(),
            r is Some ==> !(final(self).current() is EOF),
            final(self).measure() < old(self).measure(),
    {
        let mut identifiers: Vec<(String, Option<TypeAnn>)> = Vec::new();
        if matches!(self.peek_token, Token::RParen) {
            self.next_token();
            return Some(identifiers);
        }
        self.next_token();
        if let Token::Ident(name) = &self.current_token {
            let name_str = name.clone();
            let mut type_ann: Option<TypeAnn> = None;
            if matches!(self.peek_token, Token::Colon) {
                self.next_token();
                type_ann = self.parse_type_annotation();
            }
            identifiers.push((name_str, type_ann));
        }
        while matches!(self.peek_token, Token::Comma)
            invariant
                self.advanced(old(self)),
                self.measure() < old(self).measure(),
            decreases self.measure(),
        {
            self.next_token();
            self.next_token();
            if let Token::Ident(name) = &self.current_token {
                let name_str = name.clone();
                let mut type_ann: Option<TypeAnn> = None;
                if matches!(self.peek_token, Token::Colon) {
                    self.next_token();
                    type_ann = self.parse_type_annotation();
                }
                identifiers.push((name_str, type_ann));
            }
        }
        if !self.expect_peek(Token::RParen) {
            self.report_error_with_hint(owned("Expected ')'"), owned("Function parameters must be closed"));
            return None;
        }
        Some(identifiers)
    }

    /// `function(arguments)`; the current token is `(`.
    fn parse_call_expression(&mut self, function: Expression) -> (r: Option<Expression>)
        requires
            old(self).wf(),
            !(old(self).current() is EOF),
        ensures
            final(self).advanced(old(self)),
            r is None ==> final(self).errors_seq().len() > old(self).errors_seq().len(),
            r is Some ==> !(final(self).current() is EOF),
            r matches Some(e) ==> placed(e, old(self).place(),
                |x: Expression| x matches Expression::Call { function: f, .. } && *f == function),
        decreases old(self).measure(), 3nat,
    {
        let line = self.cur_line;
        let col = self.cur_col;
        let arguments = match self.parse_call_arguments() {
            Some(a) => a,
            None => { return None; },
        };
        wrap(Some(Expression::Call { function: Box::new(function), arguments }), line, col)
    }

    /// `(a, b, ...)`, the arguments of a call; the current token is `(`.
    fn parse_call_arguments(&mut self) -> (r: Option<Vec<Expression>>)
        requires
            old(self).wf(),
            !(old(self).current() is EOF),
        ensures
            final(self).advanced(old(self)),
            r is None ==> final(self).errors_seq().len() > old(self).errors_seq().len(),
            r is Some ==> !(final(self).current() is EOF),
            old(self).peek() == TokenView::RParen ==> (r matches Some(a) && a@.len() == 0),
            r is Some ==> final(self).current() == TokenView::RParen,
            old(self).peek() != TokenView::RParen && !prefix_token(old(self).peek()) ==> r is None,
        decreases old(self).measure(), 2nat,
    {
        let mut args: Vec<Expression> = Vec::new();
        if matches!(self.peek_token, Token::RParen) {
            self.next_token();
            return Some(args);
        }
        proof { assert(old(self).peek() != TokenView::RParen); }
        self.next_token();
        match self.parse_expression(Precedence::Lowest) {
            Some(e) => { args.push(e); },
            None => { return None; },
        }
        while matches!(self.peek_token, Token::Comma)
            invariant
                self.advanced(old(self)),
                self.measure() < old(self).measure(),
                old(self).peek() != TokenView::RParen,
            decreases self.measure(),
        {
            self.next_token();
            self.next_token();
            match self.parse_expression(Precedence::Lowest) {
                Some(e) => { args.push(e); },
                None => { return None; },
            }
        }
        if !self.expect_peek(Token::RParen) {
            return None;
        }
        Some(args)
    }

    /// `if c do ... else ... end` or `if c a else b`.
    fn parse_if_expression(&mut self) -> (r: Option<Expression>)
        requires
            old(self).wf(),
            !(old(self).current() is EOF),
        ensures
            final(self).advanced(old(self)),
            r is None ==> final(self).errors_seq().len() > old(self).errors_seq().len(),
            r is Some ==> !(final(self).current() is EOF),
            r matches Some(e) ==> placed(e, old(self).place(), |x: Expression| x is If),
            ({
                let u = old(self).upcoming(5);
                leaf_token(u[1]) && u[2] is Do && leaf_token(u[3]) && u[4] is End ==> (r matches Some(e)
                    && placed(e, old(self).place(), |x: Expression| x matches Expression::If { condition, consequence, alternative }
                        && leaf_of(spec_unwrap_loc(*condition), u[1]) && leaf_block(*consequence, u[3]) && alternative is None)
                    && final(self).errors_seq() == old(self).errors_seq())
            }),
            ({
                let u = old(self).upcoming(5);
                leaf_token(u[1]) && u[2] is Do && leaf_token(u[3]) && u[4] is Else && leaf_token(u[5]) && u[6] is End
                ==> (r matches Some(e)
                    && placed(e, old(self).place(), |x: Expression| x matches Expression::If { condition, consequence, alternative }
                        && leaf_of(spec_unwrap_loc(*condition), u[1]) && leaf_block(*consequence, u[3])
                        && (alternative matches Some(a) && leaf_block(*a, u[5])))
                    && final(self).errors_seq() == old(self).errors_seq())
            }),
        decreases old(self).measure(), 4nat,
    {
        let line = self.cur_line;
        let col = self.cur_col;
        let ghost u = old(self).upcoming(5);
        let ghost simple = leaf_token(u[1]) && u[2] is Do && leaf_token(u[3]) && (u[4] is End
            || (u[4] is Else && leaf_token(u[5]) && u[6] is End));
        self.next_token();
        proof {
            old(self).lemma_upcoming(5, 5);
            self.lemma_upcoming(4, 4);
            assert(self.upcoming(4) == old(self).upcoming(5).drop_first());
            assert(self.current() == u[1] && self.peek() == u[2]);
        }
        let ghost s1 = *self;
        let condition = match self.parse_expression(Precedence::Lowest) {
            Some(e) => e,
            None => { return None; },
        };
        proof {
            if simple {
                assert(*self == s1);
                let inner = *condition->Loc_expr;
                assert(spec_unwrap_loc(condition) == spec_unwrap_loc(inner));
                assert(spec_unwrap_loc(inner) == inner);
            }
        }
        if matches!(self.peek_token, Token::Do) {
            let ghost s2 = *self;
            self.next_token();
            let ghost s3 = *self;
            self.next_token();
            proof {
                if simple {
                    s1.lemma_upcoming(4, 4);
                    s3.lemma_upcoming(3, 3);
                    self.lemma_upcoming(1, 2);
                    assert(s3.upcoming(3) == s2.upcoming(4).drop_first());
                    assert(self.upcoming(2) == s3.upcoming(3).drop_first());
                    assert(self.upcoming(1)[0] == u[3] && self.upcoming(1)[1] == u[4]);
                    assert(self.upcoming(2)[2] == u[5] && self.upcoming(2)[3] == u[6]);
                }
            }
            let ghost s4 = *self;
            let consequence_exprs = self.parse_block_expressions();
            proof {
                if simple {
                    s4.lemma_upcoming(1, 2);
                    self.lemma_upcoming(1, 1);
                    assert(self.upcoming(1) == s4.upcoming(2).drop_first());
                    assert(self.current() == u[4] && self.peek() == u[5] && self.upcoming(1)[2] == u[6]);
                }
            }
            let consequence = Expression::Block(consequence_exprs, false);
            let mut alternative: Option<Box<Expression>> = None;
            if matches!(self.current_token, Token::Else) {
                let ghost s5 = *self;
                self.next_token();
                proof {
                    if simple {
                        s5.lemma_upcoming(1, 1);
                        self.lemma_upcoming(0, 1);
                        assert(self.upcoming(0) == s5.upcoming(1).drop_first());
                        assert(self.current() == u[5] && self.peek() == u[6]);
                        assert(self.upcoming(1)[0] == u[5] && self.upcoming(1)[1] == u[6]);
                    }
                }
                let ghost s6 = *self;
                let alt_exprs = self.parse_block_expressions();
                proof {
                    if simple {
                        s6.lemma_upcoming(1, 1);
                        self.lemma_upcoming(0, 0);
                        assert(self.upcoming(0) == s6.upcoming(1).drop_first());
                        assert(self.current() == u[6]);
                    }
                }
                alternative = Some(Box::new(Expression::Block(alt_exprs, false)));
            }
            if !matches!(self.current_token, Token::End) {
                let msg = join2("Expected 'end' for if expression, got ", self.current_token.debug_text().as_str());
                self.report_error_with_hint(msg,
                    owned("If expressions starting with 'do' must explicitly end with 'end'"));
                return None;
            }
            wrap(Some(Expression::If { condition: Box::new(condition), consequence: Box::new(consequence), alternative }),
                line, col)
        } else {
            self.next_token();
            let consequence = match self.parse_expression(Precedence::Lowest) {
                Some(e) => e,
                None => { return None; },
            };
            if !matches!(self.peek_token, Token::Else) {
                self.report_error_with_hint(owned("Inline 'if' expression is missing an 'else' branch"),
                    owned("Try adding 'else <value>' or format it as a block: 'if <cond> do <val> end'"));
                return None;
            }
            self.next_token();
            self.next_token();
            let alternative = match self.parse_expression(Precedence::Lowest) {
                Some(e) => e,
                None => { return None; },
            };
            wrap(Some(Expression::If {
                condition: Box::new(condition),
                consequence: Box::new(consequence),
                alternative: Some(Box::new(alternative)),
            }), line, col)
        }
    }

    /// `(expr)`.
    fn parse_grouped_expression(&mut self) -> (r: Option<Expression>)
        requires
            old(self).wf(),
            !(old(self).current() is EOF),
        ensures
            final(self).advanced(old(self)),
            r is None ==> final(self).errors_seq().len() > old(self).errors_seq().len(),
            r is Some ==> !(final(self).current() is EOF),
            r is Some ==> final(self).current() == TokenView::RParen,
            !prefix_token(old(self).peek()) ==> r is None
                && final(self).errors_seq().last().message@ == unexpected_message(old(self).peek()),
            ({
                let u = old(self).upcoming(1);
                leaf_token(u[1]) && u[2] is RParen ==> (r matches Some(e) && leaf_of(spec_unwrap_loc(e), u[1])
                    && final(self).errors_seq() == old(self).errors_seq()
                    && forall|n: nat| #[trigger] final(self).upcoming(n) == old(self).upcoming(n + 2).skip(2))
            }),
        decreases old(self).measure(), 4nat,
    {
        let ghost u = old(self).upcoming(1);
        proof { old(self).lemma_upcoming(1, 1); }
        self.next_token();
        let ghost mid = *self;
        proof { self.lemma_upcoming(0, 0); }
        let expr = match self.parse_expression(Precedence::Lowest) {
            Some(e) => e,
            None => { return None; },
        };
        let ghost mid2 = *self;
        if !self.expect_peek(Token::RParen) {
            return None;
        }
        proof {
            if leaf_token(u[1]) && u[2] is RParen {
                let inner = *expr->Loc_expr;
                assert(spec_unwrap_loc(expr) == spec_unwrap_loc(inner));
                assert(spec_unwrap_loc(inner) == inner);
                assert forall|n: nat| #[trigger] self.upcoming(n) == old(self).upcoming(n + 2).skip(2) by {
                    assert(self.upcoming(n) == mid2.upcoming(n + 1).drop_first());
                    assert(mid.upcoming(n + 1) == old(self).upcoming(n + 2).drop_first());
                    old(self).lemma_upcoming(n + 2, n + 2);
                    assert(old(self).upcoming(n + 2).skip(2) =~= old(self).upcoming(n + 2).drop_first().drop_first());
                }
            }
        }
        Some(expr)
    }

    /// `!x` or `-x`.
    fn parse_prefix_expression(&mut self) -> (r: Option<Expression>)
        requires
            old(self).wf(),
            old(self).current() is Bang || old(self).current() is Minus,
        ensures
            final(self).advanced(old(self)),
            r is None ==> final(self).errors_seq().len() > old(self).errors_seq().len(),
            r is Some ==> !(final(self).current() is EOF),
            r matches Some(e) ==> placed(e, old(self).place(), |x: Expression|
                x matches Expression::Prefix { operator, .. }
                    && operator@ == (if old(self).current() is Bang { "!"@ } else { "-"@ })),
        decreases old(self).measure(), 4nat,
    {
        let line = self.cur_line;
        let col = self.cur_col;
        let operator = if matches!(self.current_token, Token::Bang) { owned("!") } else { owned("-") };
        self.next_token();
        let right = match self.parse_expression(Precedence::Prefix) {
            Some(e) => e,
            None => { return None; },
        };
        wrap(Some(Expression::Prefix { operator, right: Box::new(right) }), line, col)
    }

    /// Continues `left` with the operator at the current token: a call, an
    /// index, a field, a method call, an assignment or a binary operator.
    fn parse_infix_expression(&mut self, left: Expression) -> (r: Option<Expression>)
        requires
            old(self).wf(),
            infix_token(old(self).current()),
        ensures
            final(self).advanced(old(self)),
            r is None ==> final(self).errors_seq().len() > old(self).errors_seq().len(),
            r is Some ==> !(final(self).current() is EOF),
            infix_text(old(self).current()) matches Some(t) ==> (r matches Some(e) ==> placed(e, old(self).place(),
                |x: Expression| x matches Expression::Infix { left: l, operator, .. } && *l == left && operator@ == t)),
            old(self).current() is LParen ==> (r matches Some(e) ==> placed(e, old(self).place(),
                |x: Expression| x matches Expression::Call { function: f, .. } && *f == left)),
            old(self).current() is LBracket ==> (r matches Some(e) ==> placed(e, old(self).place(),
                |x: Expression| x matches Expression::Index { left: l, .. } && *l == left)),
            old(self).current() is Colon ==> (r matches Some(e) ==> placed(e, old(self).place(),
                |x: Expression| x matches Expression::MethodCall { left: l, method, .. } && *l == left
                    && old(self).peek() == TokenView::Ident(method@))),
            old(self).current() is Colon && !(old(self).peek() is Ident) ==> r is None
                && final(self).errors_seq().len() == old(self).errors_seq().len() + 1
                && final(self).errors_seq().last().message@ == "Expected method name after ':'"@,
            old(self).current() is Assign ==> (r matches Some(e) ==> placed(e, old(self).place(),
                |x: Expression| match spec_unwrap_loc(left) {
                    Expression::Identifier(n) => x matches Expression::Assign { name, .. } && name == n,
                    Expression::Index { left: o, index: i } =>
                        x matches Expression::IndexAssign { left: o2, index: i2, .. } && o2 == o && i2 == i,
                    _ => false,
                })),
            infix_text(old(self).current()) matches Some(t) ==> ({
                let u = old(self).upcoming(1);
                (u[1] is Ident || u[1] is Number || u[1] is StringLiteral) && (u[2] is EOF
                    || precedence_rank(spec_token_precedence(u[2])) <= precedence_rank(spec_token_precedence(u[0])))
                ==> (r matches Some(e) && placed(e, old(self).place(), |x: Expression| x matches Expression::Infix {
                        left: l, operator, right } && *l == left && operator@ == t
                        && leaf_of(spec_unwrap_loc(*right), u[1]))
                    && final(self).errors_seq() == old(self).errors_seq()
                    && forall|n: nat| #[trigger] final(self).upcoming(n) == old(self).upcoming(n + 1).drop_first())
            }),
            infix_text(old(self).current()) matches Some(t) ==> (
                binary_run(old(self).upcoming(3).drop_first(), spec_token_precedence(old(self).current())) ==> ({
                    let u = old(self).upcoming(3);
                    &&& r matches Some(e) && placed(e, old(self).place(), |x: Expression| x matches Expression::Infix {
                        left: l, operator, right } && *l == left && operator@ == t && binary_of(*right, u[1], u[2], u[3]))
                    &&& final(self).errors_seq() == old(self).errors_seq()
                    &&& forall|n: nat| #[trigger] final(self).upcoming(n) == old(self).upcoming(n + 3).skip(3)
                })),
            infix_text(old(self).current()) matches Some(t) ==> ({
                let u = old(self).upcoming(3);
                u[1] is LParen && leaf_token(u[2]) && u[3] is RParen && (u[4] is EOF
                    || precedence_rank(spec_token_precedence(u[4])) <= precedence_rank(spec_token_precedence(u[0])))
                ==> (r matches Some(e) && placed(e, old(self).place(), |x: Expression| x matches Expression::Infix {
                        left: l, operator, right } && *l == left && operator@ == t
                        && leaf_of(spec_unwrap_loc(*right), u[2]))
                    && final(self).errors_seq() == old(self).errors_seq()
                    && forall|n: nat| #[trigger] final(self).upcoming(n) == old(self).upcoming(n + 3).skip(3))
            }),
        decreases old(self).measure(), 4nat,
    {
        let line = self.cur_line;
        let col = self.cur_col;
        if matches!(self.current_token, Token::LParen) {
            return self.parse_call_expression(left);
        }
        if matches!(self.current_token, Token::LBracket) {
            return self.parse_index_expression(left);
        }
        if matches!(self.current_token, Token::Dot) {
            return self.parse_dot_expression(left);
        }
        if matches!(self.current_token, Token::Colon) {
            self.next_token();
            let method = match &self.current_token {
                Token::Ident(name) => name.clone(),
                _ => {
                    self.report_error_with_hint(owned("Expected method name after ':'"),
                        owned("Method calls use the format object:method()"));
                    return None;
                },
            };
            if !self.expect_peek(Token::LParen) {
                return None;
            }
            let arguments = match self.parse_call_arguments() {
                Some(a) => a,
                None => { return None; },
            };
            return wrap(Some(Expression::MethodCall { left: Box::new(left), method, arguments }), line, col);
        }
        if matches!(self.current_token, Token::Assign) {
            self.next_token();
            let value = match self.parse_expression(Precedence::Lowest) {
                Some(e) => e,
                None => { return None; },
            };
            let unwrapped_left = unwrap_loc_owned(left);
            match unwrapped_left {
                Expression::Identifier(name) => {
                    return wrap(Some(Expression::Assign { name, value: Box::new(value) }), line, col);
                },
                Expression::Index { left: obj, index } => {
                    return wrap(Some(Expression::IndexAssign { left: obj, index, value: Box::new(value) }), line, col);
                },
                _ => {
                    self.report_error_with_hint(owned("Invalid assignment target"),
                        owned("You can only assign values to variables or object properties"));
                    return None;
                },
            }
        }
        let operator = match &self.current_token {
            Token::Plus => owned("+"),
            Token::Minus => owned("-"),
            Token::Star => owned("*"),
            Token::Slash => owned("/"),
            Token::Eq => owned("=="),
            Token::NotEq => owned("!="),
            Token::Greater => owned(">"),
            Token::Less => owned("<"),
            _ => { return None; },
        };
        let precedence = self.current_precedence();
        let ghost before = *self;
        self.next_token();
        proof {
            assert(self.upcoming(0) == before.upcoming(1).drop_first());
            assert(self.upcoming(0)[1] == self.peek());
            assert(before.upcoming(1)[0] == before.current());
        }
        let ghost mid = *self;
        proof {
            before.lemma_upcoming(3, 3);
            mid.lemma_upcoming(2, 2);
            assert(mid.upcoming(2) == before.upcoming(3).drop_first());
        }
        let right = match self.parse_expression(precedence) {
            Some(e) => e,
            None => { return None; },
        };
        proof {
            let u = before.upcoming(1);
            if (u[1] is Ident || u[1] is Number || u[1] is StringLiteral) && (u[2] is EOF
                || precedence_rank(spec_token_precedence(u[2])) <= precedence_rank(spec_token_precedence(u[0]))) {
                assert(mid.current() == u[1]);
                assert(mid.peek() == u[2]);
                assert(placed(right, mid.place(), |x: Expression| leaf_of(x, mid.current())));
                let inner = *right->Loc_expr;
                assert(leaf_of(inner, u[1]));
                assert(spec_unwrap_loc(right) == spec_unwrap_loc(inner));
                assert(spec_unwrap_loc(inner) == inner);
                assert(*self == mid);
                assert forall|n: nat| #[trigger] self.upcoming(n) == before.upcoming(n + 1).drop_first() by {
                    assert(mid.upcoming(n) == before.upcoming(n + 1).drop_first());
                }
            }
            {
                let u = before.upcoming(3);
                if u[1] is LParen && leaf_token(u[2]) && u[3] is RParen && (u[4] is EOF
                    || precedence_rank(spec_token_precedence(u[4])) <= precedence_rank(spec_token_precedence(u[0]))) {
                    assert forall|n: nat| #[trigger] self.upcoming(n) == before.upcoming(n + 3).skip(3) by {
                        assert(self.upcoming(n) == mid.upcoming(n + 2).skip(2));
                        assert(mid.upcoming(n + 2) == before.upcoming(n + 3).drop_first());
                        before.lemma_upcoming(n + 3, n + 3);
                        assert(before.upcoming(n + 3).skip(3) =~= before.upcoming(n + 3).drop_first().skip(2));
                    }
                }
            }
            if binary_run(before.upcoming(3).drop_first(), spec_token_precedence(before.current())) {
                before.lemma_upcoming(3, 3);
                mid.lemma_upcoming(2, 2);
                assert(mid.upcoming(2) == before.upcoming(3).drop_first());
                assert forall|n: nat| #[trigger] self.upcoming(n) == before.upcoming(n + 3).skip(3) by {
                    assert(self.upcoming(n) == mid.upcoming(n + 2).skip(2));
                    assert(mid.upcoming(n + 2) == before.upcoming(n + 3).drop_first());
                    assert(before.upcoming(n + 3).skip(3) =~= before.upcoming(n + 3).drop_first().skip(2));
                }
            }
        }
        wrap(Some(Expression::Infix { left: Box::new(left), operator, right: Box::new(right) }), line, col)
    }

    /// The body of a loop: `do ... end`, or one expression.
    fn parse_loop_body(&mut self) -> (r: Option<Expression>)
        requires
            old(self).wf(),
            !(old(self).current() is EOF),
        ensures
            final(self).advanced(old(self)),
            r is None ==> final(self).errors_seq().len() > old(self).errors_seq().len(),
            r is Some ==> !(final(self).current() is EOF),
            old(self).peek() is Do ==> (r matches Some(e) ==> spec_unwrap_loc(e) is Block
                && final(self).current() == TokenView::End),
            !(old(self).peek() is Do) && !prefix_token(old(self).peek()) ==> r is None,
            ({
                let u = old(self).upcoming(2);
                u[1] is Do && leaf_token(u[2]) && u[3] is End ==> (r matches Some(e) && leaf_block(spec_unwrap_loc(e), u[2])
                    && final(self).errors_seq() == old(self).errors_seq())
            }),
        decreases old(self).measure(), 3nat,
    {
        let line = self.cur_line;
        let col = self.cur_col;
        let ghost u = old(self).upcoming(2);
        if matches!(self.peek_token, Token::Do) {
            self.next_token();
            let ghost s1 = *self;
            self.next_token();
            proof {
                old(self).lemma_upcoming(2, 2);
                s1.lemma_upcoming(1, 1);
                self.lemma_upcoming(0, 0);
                assert(s1.upcoming(1) == old(self).upcoming(2).drop_first());
                assert(self.upcoming(0) == s1.upcoming(1).drop_first());
                assert(self.current() == u[2] && self.peek() == u[3]);
                assert(self.upcoming(0)[0] == u[2]);
                self.lemma_upcoming(1, 1);
            }
            let ghost s2 = *self;
            let exprs = self.parse_block_expressions();
            proof {
                if u[1] is Do && leaf_token(u[2]) && u[3] is End {
                    s2.lemma_upcoming(1, 1);
                    self.lemma_upcoming(0, 0);
                    assert(self.upcoming(0) == s2.upcoming(1).drop_first());
                    assert(self.current() == u[3]);
                }
            }
            if !matches!(self.current_token, Token::End) {
                let msg = join2("Expected 'end' to close loop body, got ", self.current_token.debug_text().as_str());
                self.report_error_with_hint(msg,
                    owned("Loop bodies starting with 'do' must explicitly end with 'end'"));
                return None;
            }
            proof { assert(self.current() == TokenView::End); }
            let r = wrap(Some(Expression::Block(exprs, false)), line, col);
            proof { assert(spec_unwrap_loc(r->0) == spec_unwrap_loc(Expression::Block(exprs, false))); }
            r
        } else {
            self.next_token();
            self.parse_expression(Precedence::Lowest)
        }
    }

    /// `loop body`.
    fn parse_loop_expression(&mut self) -> (r: Option<Expression>)
        requires
            old(self).wf(),
            !(old(self).current() is EOF),
        ensures
            final(self).advanced(old(self)),
            r is None ==> final(self).errors_seq().len() > old(self).errors_seq().len(),
            r is Some ==> !(final(self).current() is EOF),
            r matches Some(e) ==> placed(e, old(self).place(), |x: Expression| x is Loop),
        decreases old(self).measure(), 4nat,
    {
        let line = self.cur_line;
        let col = self.cur_col;
        let body = match self.parse_loop_body() {
            Some(e) => e,
            None => { return None; },
        };
        wrap(Some(Expression::Loop { body: Box::new(body) }), line, col)
    }

    /// `while condition body`.
    fn parse_while_expression(&mut self) -> (r: Option<Expression>)
        requires
            old(self).wf(),
            !(old(self).current() is EOF),
        ensures
            final(self).advanced(old(self)),
            r is None ==> final(self).errors_seq().len() > old(self).errors_seq().len(),
            r is Some ==> !(final(self).current() is EOF),
            r matches Some(e) ==> placed(e, old(self).place(), |x: Expression| x is While),
        decreases old(self).measure(), 4nat,
    {
        let line = self.cur_line;
        let col = self.cur_col;
        self.next_token();
        let condition = match self.parse_expression(Precedence::Lowest) {
            Some(e) => e,
            None => { return None; },
        };
        let body = match self.parse_loop_body() {
            Some(e) => e,
            None => { return None; },
        };
        wrap(Some(Expression::While { condition: Box::new(condition), body: Box::new(body) }), line, col)
    }

    /// `for x in array body` or `for key, value in record body`.
    fn parse_for_expression(&mut self) -> (r: Option<Expression>)
        requires
            old(self).wf(),
            !(old(self).current() is EOF),
        ensures
            final(self).advanced(old(self)),
            r is None ==> final(self).errors_seq().len() > old(self).errors_seq().len(),
            r is Some ==> !(final(self).current() is EOF),
            r matches Some(e) ==> placed(e, old(self).place(), |x: Expression| match old(self).peek() {
                TokenView::Ident(n) => (x matches Expression::For { element, .. } && element@ == n)
                    || (x matches Expression::ForHash { key, .. } && key@ == n),
                _ => false,
            }),
            !(old(self).peek() is Ident) ==> r is None
                && final(self).errors_seq().len() == old(self).errors_seq().len() + 1
                && final(self).errors_seq().last().message@ == "Expected identifier after 'for'"@,
            ({
                let u = old(self).upcoming(5);
                u[1] is Ident && u[2] is In && leaf_token(u[3]) && u[4] is Do && leaf_token(u[5]) && u[6] is End
                ==> (r matches Some(e) && placed(e, old(self).place(), |x: Expression| x matches Expression::For {
                        element, iterable, body } && element@ == u[1]->Ident_0 && leaf_of(spec_unwrap_loc(*iterable), u[3])
                        && leaf_block(spec_unwrap_loc(*body), u[5]))
                    && final(self).errors_seq() == old(self).errors_seq())
            }),
        decreases old(self).measure(), 4nat,
    {
        let line = self.cur_line;
        let col = self.cur_col;
        let ghost u = old(self).upcoming(5);
        let ghost simple = u[1] is Ident && u[2] is In && leaf_token(u[3]) && u[4] is Do && leaf_token(u[5]) && u[6] is End;
        self.next_token();
        proof {
            old(self).lemma_upcoming(5, 5);
            self.lemma_upcoming(4, 4);
            assert(self.upcoming(4) == old(self).upcoming(5).drop_first());
            assert(self.current() == u[1] && self.peek() == u[2]);
        }
        let first_id = match &self.current_token {
            Token::Ident(name) => name.clone(),
            _ => {
                self.report_error_with_msg(owned("Expected identifier after 'for'"));
                return None;
            },
        };
        if matches!(self.peek_token, Token::Comma) {
            self.next_token();
            self.next_token();
            let second_id = match &self.current_token {
                Token::Ident(name) => name.clone(),
                _ => {
                    self.report_error_with_msg(owned("Expected second identifier after ',' in 'for'"));
                    return None;
                },
            };
            if !self.expect_peek(Token::In) {
                self.report_error_with_msg(owned("Expected 'in' after loop variables"));
                return None;
            }
            self.next_token();
            let iterable = match self.parse_expression(Precedence::Lowest) {
                Some(e) => e,
                None => { return None; },
            };
            let body = match self.parse_loop_body() {
                Some(e) => e,
                None => { return None; },
            };
            wrap(Some(Expression::ForHash { key: first_id, value: second_id, iterable: Box::new(iterable),
                body: Box::new(body) }), line, col)
        } else {
            let ghost s1 = *self;
            if !self.expect_peek(Token::In) {
                self.report_error_with_msg(owned("Expected 'in' after loop variable"));
                return None;
            }
            let ghost s2 = *self;
            self.next_token();
            let ghost s3 = *self;
            proof {
                if simple {
                    s1.lemma_upcoming(4, 4);
                    s2.lemma_upcoming(3, 3);
                    s3.lemma_upcoming(2, 2);
                    assert(s2.upcoming(3) == s1.upcoming(4).drop_first());
                    assert(s3.upcoming(2) == s2.upcoming(3).drop_first());
                    assert(s3.current() == u[3] && s3.peek() == u[4]);
                    assert(s3.upcoming(2)[2] == u[5] && s3.upcoming(2)[3] == u[6]);
                }
            }
            let iterable = match self.parse_expression(Precedence::Lowest) {
                Some(e) => e,
                None => { return None; },
            };
            proof {
                if simple {
                    assert(*self == s3);
                    let inner = *iterable->Loc_expr;
                    assert(spec_unwrap_loc(iterable) == spec_unwrap_loc(inner));
                    assert(spec_unwrap_loc(inner) == inner);
                }
            }
            let body = match self.parse_loop_body() {
                Some(e) => e,
                None => { return None; },
            };
            wrap(Some(Expression::For { element: first_id, iterable: Box::new(iterable), body: Box::new(body) }),
                line, col)
        }
    }

}

} // verus!
