//! The lexer: turns source text into tokens, skipping white space and `--`
//! comments, and reports for each token the line and column where it starts.
use vstd::prelude::*;
use vstd::slice::{slice_subrange, slice_to_vec};
use crate::text::{chars_of, string_from_chars, join3, owned, is_whitespace, is_alphabetic, is_numeric, is_alphanumeric, unicode_whitespace, unicode_alphabetic, unicode_numeric};

verus! {

/// A token of the language. A number is kept as the text it was written in.
#[derive(Debug)]
pub enum Token {
    Fn,
    Let,
    Const,
    If,
    Else,
    End,
    Return,
    Do,
    True,
    False,
    Loop,
    While,
    For,
    In,
    Ident(String),
    Number(String),
    StringLiteral(String),
    Plus,
    Minus,
    Star,
    Slash,
    Assign,
    Eq,
    NotEq,
    Greater,
    Less,
    Bang,
    LParen,
    RParen,
    LBrace,
    RBrace,
    LBracket,
    RBracket,
    Comma,
    Dot,
    Colon,
    Illegal(char),
    EOF,
}

/// A token with its text as a character sequence.
pub enum TokenView {
    Fn,
    Let,
    Const,
    If,
    Else,
    End,
    Return,
    Do,
    True,
    False,
    Loop,
    While,
    For,
    In,
    Ident(Seq<char>),
    Number(Seq<char>),
    StringLiteral(Seq<char>),
    Plus,
    Minus,
    Star,
    Slash,
    Assign,
    Eq,
    NotEq,
    Greater,
    Less,
    Bang,
    LParen,
    RParen,
    LBrace,
    RBrace,
    LBracket,
    RBracket,
    Comma,
    Dot,
    Colon,
    Illegal(char),
    EOF,
}

impl View for Token {
    type V = TokenView;

    open spec fn view(&self) -> TokenView {
        match self {
            Token::Fn => TokenView::Fn,
            Token::Let => TokenView::Let,
            Token::Const => TokenView::Const,
            Token::If => TokenView::If,
            Token::Else => TokenView::Else,
            Token::End => TokenView::End,
            Token::Return => TokenView::Return,
            Token::Do => TokenView::Do,
            Token::True => TokenView::True,
            Token::False => TokenView::False,
            Token::Loop => TokenView::Loop,
            Token::While => TokenView::While,
            Token::For => TokenView::For,
            Token::In => TokenView::In,
            Token::Ident(s) => TokenView::Ident(s@),
            Token::Number(s) => TokenView::Number(s@),
            Token::StringLiteral(s) => TokenView::StringLiteral(s@),
            Token::Plus => TokenView::Plus,
            Token::Minus => TokenView::Minus,
            Token::Star => TokenView::Star,
            Token::Slash => TokenView::Slash,
            Token::Assign => TokenView::Assign,
            Token::Eq => TokenView::Eq,
            Token::NotEq => TokenView::NotEq,
            Token::Greater => TokenView::Greater,
            Token::Less => TokenView::Less,
            Token::Bang => TokenView::Bang,
            Token::LParen => TokenView::LParen,
            Token::RParen => TokenView::RParen,
            Token::LBrace => TokenView::LBrace,
            Token::RBrace => TokenView::RBrace,
            Token::LBracket => TokenView::LBracket,
            Token::RBracket => TokenView::RBracket,
            Token::Comma => TokenView::Comma,
            Token::Dot => TokenView::Dot,
            Token::Colon => TokenView::Colon,
            Token::Illegal(c) => TokenView::Illegal(*c),
            Token::EOF => TokenView::EOF,
        }
    }
}

impl Token {
    /// A copy of this token.
    pub fn duplicate(&self) -> (r: Token)
        ensures
            r@ == self@,
    {
        match self {
            Token::Fn => Token::Fn,
            Token::Let => Token::Let,
            Token::Const => Token::Const,
            Token::If => Token::If,
            Token::Else => Token::Else,
            Token::End => Token::End,
            Token::Return => Token::Return,
            Token::Do => Token::Do,
            Token::True => Token::True,
            Token::False => Token::False,
            Token::Loop => Token::Loop,
            Token::While => Token::While,
            Token::For => Token::For,
            Token::In => Token::In,
            Token::Ident(s) => Token::Ident(s.clone()),
            Token::Number(s) => Token::Number(s.clone()),
            Token::StringLiteral(s) => Token::StringLiteral(s.clone()),
            Token::Plus => Token::Plus,
            Token::Minus => Token::Minus,
            Token::Star => Token::Star,
            Token::Slash => Token::Slash,
            Token::Assign => Token::Assign,
            Token::Eq => Token::Eq,
            Token::NotEq => Token::NotEq,
            Token::Greater => Token::Greater,
            Token::Less => Token::Less,
            Token::Bang => Token::Bang,
            Token::LParen => Token::LParen,
            Token::RParen => Token::RParen,
            Token::LBrace => Token::LBrace,
            Token::RBrace => Token::RBrace,
            Token::LBracket => Token::LBracket,
            Token::RBracket => Token::RBracket,
            Token::Comma => Token::Comma,
            Token::Dot => Token::Dot,
            Token::Colon => Token::Colon,
            Token::Illegal(c) => Token::Illegal(*c),
            Token::EOF => Token::EOF,
        }
    }

    /// Whether this is the end-of-input token.
    pub fn is_eof(&self) -> (r: bool)
        ensures
            r == (self@ is EOF),
    {
        matches!(self, Token::EOF)
    }
}

/// The character at index `i`, or `'\0'` past the end of the input.
pub open spec fn char_at(input: Seq<char>, i: int) -> char {
    if 0 <= i < input.len() { input[i] } else { '\0' }
}

/// Adds one, stopping at the largest `usize`.
pub open spec fn sat_inc(x: usize) -> usize {
    if x == usize::MAX { x } else { (x + 1) as usize }
}

/// Line and column after reading the first `n` characters (those past the end
/// read as `'\0'`): a line feed starts a new line at column 0, any other
/// character moves one column right.
pub open spec fn line_col(input: Seq<char>, n: nat) -> (usize, usize)
    decreases n,
{
    if n == 0 {
        (1, 0)
    } else {
        let (line, col) = line_col(input, (n - 1) as nat);
        if char_at(input, n - 1) == '\n' {
            (sat_inc(line), 0)
        } else {
            (line, sat_inc(col))
        }
    }
}

/// The first index at or after `i` that holds a line feed or `'\0'`.
pub open spec fn comment_end(input: Seq<char>, i: int) -> int
    decreases input.len() - i,
{
    if i >= input.len() || input[i] == '\n' || input[i] == '\0' {
        i
    } else {
        comment_end(input, i + 1)
    }
}

/// The index of the first character at or after `i` that is neither white
/// space nor the start of a `--` comment.
pub open spec fn skip_end(input: Seq<char>, i: int) -> int
    decreases input.len() - i,
{
    if i < 0 || i >= input.len() {
        i
    } else if unicode_whitespace(input[i]) {
        skip_end(input, i + 1)
    } else if input[i] == '-' && char_at(input, i + 1) == '-' {
        if comment_end(input, i) > i {
            proof { lemma_comment_end_bounds(input, i); }
            skip_end(input, comment_end(input, i))
        } else {
            i
        }
    } else {
        i
    }
}

/// The end of an identifier that starts at `i`: the first index that holds
/// neither a letter, a digit nor `_`.
pub open spec fn ident_end(input: Seq<char>, i: int) -> int
    decreases input.len() - i,
{
    if i >= input.len() || !(unicode_alphabetic(input[i]) || unicode_numeric(input[i])
        || input[i] == '_') {
        i
    } else {
        ident_end(input, i + 1)
    }
}

/// The end of a number that starts at `i`: the first index that holds neither
/// a digit nor `.`.
pub open spec fn number_end(input: Seq<char>, i: int) -> int
    decreases input.len() - i,
{
    if i >= input.len() || !(unicode_numeric(input[i]) || input[i] == '.') {
        i
    } else {
        number_end(input, i + 1)
    }
}

/// The index of the closing quote of a string whose text starts at `i`: the
/// first index at or after `i` holding `"` or `'\0'`, or the end of input.
pub open spec fn string_end(input: Seq<char>, i: int) -> int
    decreases input.len() - i,
{
    if i >= input.len() || input[i] == '"' || input[i] == '\0' {
        i
    } else {
        string_end(input, i + 1)
    }
}

/// The token that a word stands for: a keyword, or an identifier.
pub open spec fn keyword_or_ident(w: Seq<char>) -> TokenView {
    if w == seq!['f', 'n'] || w == seq!['d', 'e', 'f'] { TokenView::Fn }
    else if w == seq!['l', 'e', 't'] { TokenView::Let }
    else if w == seq!['c', 'o', 'n', 's', 't'] { TokenView::Const }
    else if w == seq!['i', 'f'] { TokenView::If }
    else if w == seq!['e', 'l', 's', 'e'] { TokenView::Else }
    else if w == seq!['e', 'n', 'd'] { TokenView::End }
    else if w == seq!['r', 'e', 't', 'u', 'r', 'n'] { TokenView::Return }
    else if w == seq!['d', 'o'] { TokenView::Do }
    else if w == seq!['t', 'r', 'u', 'e'] { TokenView::True }
    else if w == seq!['f', 'a', 'l', 's', 'e'] { TokenView::False }
    else if w == seq!['l', 'o', 'o', 'p'] { TokenView::Loop }
    else if w == seq!['w', 'h', 'i', 'l', 'e'] { TokenView::While }
    else if w == seq!['f', 'o', 'r'] { TokenView::For }
    else if w == seq!['i', 'n'] { TokenView::In }
    else { TokenView::Ident(w) }
}

/// The token that one character stands for on its own, if any.
pub open spec fn single_char_token(c: char) -> Option<TokenView> {
    if c == '+' { Some(TokenView::Plus) }
    else if c == '-' { Some(TokenView::Minus) }
    else if c == '*' { Some(TokenView::Star) }
    else if c == '/' { Some(TokenView::Slash) }
    else if c == '(' { Some(TokenView::LParen) }
    else if c == ')' { Some(TokenView::RParen) }
    else if c == '{' { Some(TokenView::LBrace) }
    else if c == '}' { Some(TokenView::RBrace) }
    else if c == '[' { Some(TokenView::LBracket) }
    else if c == ']' { Some(TokenView::RBracket) }
    else if c == ',' { Some(TokenView::Comma) }
    else if c == '.' { Some(TokenView::Dot) }
    else if c == ':' { Some(TokenView::Colon) }
    else if c == '>' { Some(TokenView::Greater) }
    else if c == '<' { Some(TokenView::Less) }
    else { None }
}

/// The token that starts at index `q` (past any white space and comments),
/// and the index just after it.
pub open spec fn scan_token(input: Seq<char>, q: int) -> (TokenView, int) {
    let c = char_at(input, q);
    if single_char_token(c) is Some {
        (single_char_token(c)->0, q + 1)
    } else if c == '=' {
        if char_at(input, q + 1) == '=' { (TokenView::Eq, q + 2) } else { (TokenView::Assign, q + 1) }
    } else if c == '!' {
        if char_at(input, q + 1) == '=' { (TokenView::NotEq, q + 2) } else { (TokenView::Bang, q + 1) }
    } else if c == '"' {
        let e = string_end(input, q + 1);
        (TokenView::StringLiteral(input.subrange(q + 1, e)), e + 1)
    } else if c == '\0' {
        (TokenView::EOF, q + 1)
    } else if unicode_alphabetic(c) {
        let e = ident_end(input, q);
        (keyword_or_ident(input.subrange(q, e)), e)
    } else if unicode_numeric(c) {
        let e = number_end(input, q);
        (TokenView::Number(input.subrange(q, e)), e)
    } else {
        (TokenView::Illegal(c), q + 1)
    }
}

/// The lexer's state: the input and a cursor on it. `line` and `col` give the
/// place of the current character.
pub struct Lexer {
    input: Vec<char>,
    position: usize,
    read_position: usize,
    ch: char,
    pub line: usize,
    pub col: usize,
    /// How many characters have been read, minus one; past the end of input
    /// the reads go on (as `'\0'`) while `position` stays at the end.
    cursor: Ghost<nat>,
}

impl Lexer {
    /// The input characters.
    pub closed spec fn input(&self) -> Seq<char> {
        self.input@
    }

    /// The index of the current character; past the end it keeps counting.
    pub closed spec fn cursor(&self) -> nat {
        self.cursor@
    }

    /// The line and column of the current character.
    pub closed spec fn place(&self) -> (usize, usize) {
        (self.line, self.col)
    }

    /// The lexer's state matches its cursor.
    pub closed spec fn wf(&self) -> bool {
        &&& self.position as int == if self.cursor@ < self.input@.len() { self.cursor@ as int } else { self.input@.len() as int }
        &&& self.read_position == self.position + 1
        &&& self.ch == char_at(self.input@, self.cursor@ as int)
        &&& (self.line, self.col) == line_col(self.input@, self.cursor@ + 1)
        &&& self.input@.len() < usize::MAX
    }

    /// A lexer at the start of `input`, with its first character read.
    pub fn new(input: &str) -> (lexer: Self)
        requires
            input@.len() < usize::MAX,
        ensures
            lexer.wf(),
            lexer.input() == input@,
            lexer.cursor() == 0,
            lexer.place() == line_col(input@, 1),
            lexer.place() == (if input@.len() > 0 && input@[0] == '\n' { (2usize, 0usize) } else { (1usize, 1usize) }),
    {
        let chars = chars_of(input);
        let mut lexer = Lexer {
            input: chars,
            position: 0,
            read_position: 0,
            ch: '\0',
            line: 1,
            col: 0,
            cursor: Ghost(0),
        };
        lexer.read_first_char();
        proof { reveal_with_fuel(line_col, 2); }
        lexer
    }

    fn read_first_char(&mut self)
        requires
            old(self).position == 0,
            old(self).read_position == 0,
            old(self).line == 1,
            old(self).col == 0,
            old(self).cursor@ == 0,
            old(self).input@.len() < usize::MAX,
        ensures
            final(self).wf(),
            final(self).input@ == old(self).input@,
            final(self).cursor@ == 0,
    {
        if self.input.len() == 0 {
            self.ch = '\0';
        } else {
            self.ch = self.input[0];
        }
        if self.ch == '\n' {
            self.line = 2;
            self.col = 0;
        } else {
            self.col = 1;
        }
        self.position = 0;
        self.read_position = 1;
        assert(line_col(self.input@, 1) == (self.line, self.col)) by {
            reveal_with_fuel(line_col, 2);
        }
    }

    /// Reads the next character: the cursor moves one step.
    fn read_char(&mut self)
        requires
            old(self).wf(),
        ensures
            final(self).wf(),
            final(self).input@ == old(self).input@,
            final(self).cursor@ == old(self).cursor@ as int + 1,
    {
        let ghost next = (self.cursor@ + 1) as nat;
        if self.read_position >= self.input.len() {
            self.ch = '\0';
        } else {
            self.ch = self.input[self.read_position];
        }
        if self.ch == '\n' {
            self.line = self.line.saturating_add(1);
            self.col = 0;
        } else {
            self.col = self.col.saturating_add(1);
        }
        if self.read_position <= self.input.len() {
            self.position = self.read_position;
            self.read_position = self.read_position + 1;
        }
        self.cursor = Ghost(next);
    }

    /// The character after the current one, or `'\0'` past the end.
    fn peek_char(&self) -> (c: char)
        requires
            self.wf(),
        ensures
            c == char_at(self.input@, self.cursor@ as int + 1),
    {
        if self.read_position >= self.input.len() {
            '\0'
        } else {
            self.input[self.read_position]
        }
    }

    /// Skips white space and `--` comments.
    fn skip_ignored(&mut self)
        requires
            old(self).wf(),
        ensures
            final(self).wf(),
            final(self).input@ == old(self).input@,
            final(self).cursor@ == if old(self).cursor@ < old(self).input@.len() {
                skip_end(old(self).input@, old(self).cursor@ as int)
            } else {
                old(self).cursor@ as int
            },
    {
        let ghost input = self.input@;
        let ghost start = self.cursor@;
        loop
            invariant
                self.wf(),
                self.input@ == input,
                start < input.len() ==> start <= self.cursor@ <= input.len(),
                start < input.len() ==> skip_end(input, start as int) == skip_end(input, self.cursor@ as int),
                start >= input.len() ==> self.cursor@ == start,
            ensures
                self.wf(),
                self.input@ == input,
                start < input.len() ==> self.cursor@ == skip_end(input, start as int),
                start >= input.len() ==> self.cursor@ == start,
            decreases input.len() + 1 - self.cursor@,
        {
            let ws = is_whitespace(self.ch);
            if ws {
                assert(self.cursor@ < input.len());
                self.read_char();
            } else if self.ch == '-' && self.peek_char() == '-' {
                let ghost from = self.cursor@;
                assert(from < input.len());
                proof { lemma_comment_end_bounds(input, from as int + 1); }
                assert(comment_end(input, from as int) > from);
                while self.ch != '\n' && self.ch != '\0'
                    invariant
                        self.wf(),
                        self.input@ == input,
                        from < input.len(),
                        from <= self.cursor@ <= comment_end(input, from as int),
                        comment_end(input, from as int) <= input.len(),
                        comment_end(input, from as int) == comment_end(input, self.cursor@ as int),
                    ensures
                        self.wf(),
                        self.input@ == input,
                        self.cursor@ == comment_end(input, from as int),
                    decreases input.len() - self.cursor@,
                {
                    proof { lemma_comment_end_bounds(input, self.cursor@ as int + 1); }
                    self.read_char();
                }
            } else {
                break;
            }
        }
    }

    /// Reads a string's text; the current character is its opening quote.
    /// Stops on the closing quote, or at the end of input.
    fn read_string(&mut self) -> (s: String)
        requires
            old(self).wf(),
            old(self).cursor@ < old(self).input@.len(),
        ensures
            final(self).wf(),
            final(self).input@ == old(self).input@,
            final(self).cursor@ == string_end(old(self).input@, old(self).cursor@ as int + 1),
            s@ == old(self).input@.subrange(old(self).cursor@ as int + 1,
                string_end(old(self).input@, old(self).cursor@ as int + 1)),
    {
        let ghost input = self.input@;
        let ghost first: int = self.cursor@ as int + 1;
        proof { lemma_string_end_bounds(input, first); }
        let pos = self.position + 1;
        loop
            invariant_except_break
                self.cursor@ + 1 <= string_end(input, first),
                string_end(input, first) == string_end(input, self.cursor@ as int + 1),
            invariant
                self.wf(),
                self.input@ == input,
                pos == first,
                first <= input.len(),
                first <= self.cursor@ + 1,
                string_end(input, first) <= input.len(),
            ensures
                self.wf(),
                self.input@ == input,
                self.cursor@ == string_end(input, first),
            decreases string_end(input, first) - self.cursor@,
        {
            proof { lemma_string_end_bounds(input, self.cursor@ as int + 1); }
            self.read_char();
            if self.ch == '"' || self.ch == '\0' {
                break;
            }
            proof { lemma_string_end_bounds(input, self.cursor@ as int + 1); }
        }
        string_from_chars(slice_subrange(self.input.as_slice(), pos, self.position))
    }
    /// Reads an identifier; the current character is a letter.
    fn read_identifier(&mut self) -> (s: Vec<char>)
        requires
            old(self).wf(),
            old(self).cursor@ < old(self).input@.len(),
        ensures
            final(self).wf(),
            final(self).input@ == old(self).input@,
            final(self).cursor@ == ident_end(old(self).input@, old(self).cursor@ as int),
            s@ == old(self).input@.subrange(old(self).cursor@ as int,
                ident_end(old(self).input@, old(self).cursor@ as int)),
    {
        let ghost input = self.input@;
        let ghost first: int = self.cursor@ as int;
        proof { lemma_ident_end_bounds(input, first); }
        let pos = self.position;
        while is_alphanumeric(self.ch) || self.ch == '_'
            invariant
                self.wf(),
                self.input@ == input,
                pos == first,
                first <= self.cursor@ <= ident_end(input, first),
                ident_end(input, first) <= input.len(),
                ident_end(input, first) == ident_end(input, self.cursor@ as int),
            decreases ident_end(input, first) - self.cursor@,
        {
            proof { lemma_ident_end_bounds(input, self.cursor@ as int + 1); }
            self.read_char();
        }
        slice_to_vec(slice_subrange(self.input.as_slice(), pos, self.position))
    }

    /// Reads the text of a number; the current character is a digit.
    fn read_number(&mut self) -> (s: String)
        requires
            old(self).wf(),
            old(self).cursor@ < old(self).input@.len(),
        ensures
            final(self).wf(),
            final(self).input@ == old(self).input@,
            final(self).cursor@ == number_end(old(self).input@, old(self).cursor@ as int),
            s@ == old(self).input@.subrange(old(self).cursor@ as int,
                number_end(old(self).input@, old(self).cursor@ as int)),
    {
        let ghost input = self.input@;
        let ghost first: int = self.cursor@ as int;
        proof { lemma_number_end_bounds(input, first); }
        let pos = self.position;
        while is_numeric(self.ch) || self.ch == '.'
            invariant
                self.wf(),
                self.input@ == input,
                pos == first,
                first <= self.cursor@ <= number_end(input, first),
                number_end(input, first) <= input.len(),
                number_end(input, first) == number_end(input, self.cursor@ as int),
            decreases number_end(input, first) - self.cursor@,
        {
            proof { lemma_number_end_bounds(input, self.cursor@ as int + 1); }
            self.read_char();
        }
        string_from_chars(slice_subrange(self.input.as_slice(), pos, self.position))
    }

    /// The next token, with the line and column where it starts.
    pub fn next_token(&mut self) -> (r: (Token, usize, usize))
        requires
            old(self).wf(),
        ensures
            final(self).wf(),
            final(self).input() == old(self).input(),
            ({
                let input = old(self).input();
                let c0 = old(self).cursor() as int;
                let q = if c0 < input.len() { skip_end(input, c0) } else { c0 };
                let (tok, e) = scan_token(input, q);
                &&& r.0@ == tok
                &&& (r.1, r.2) == line_col(input, (q + 1) as nat)
                &&& final(self).cursor() == e
            }),
    {
        self.skip_ignored();
        let tok_line = self.line;
        let tok_col = self.col;
        let ghost q = self.cursor@ as int;
        let token = match self.ch {
            '+' => Token::Plus,
            '-' => Token::Minus,
            '*' => Token::Star,
            '/' => Token::Slash,
            '(' => Token::LParen,
            ')' => Token::RParen,
            '{' => Token::LBrace,
            '}' => Token::RBrace,
            '[' => Token::LBracket,
            ']' => Token::RBracket,
            ',' => Token::Comma,
            '.' => Token::Dot,
            ':' => Token::Colon,
            '>' => Token::Greater,
            '<' => Token::Less,
            '=' => {
                if self.peek_char() == '=' {
                    self.read_char();
                    Token::Eq
                } else {
                    Token::Assign
                }
            },
            '!' => {
                if self.peek_char() == '=' {
                    self.read_char();
                    Token::NotEq
                } else {
                    Token::Bang
                }
            },
            '"' => Token::StringLiteral(self.read_string()),
            '\0' => Token::EOF,
            _ => {
                if is_alphabetic(self.ch) {
                    let ident = self.read_identifier();
                    return (lookup_ident(&ident), tok_line, tok_col);
                } else if is_numeric(self.ch) {
                    let text = self.read_number();
                    return (Token::Number(text), tok_line, tok_col);
                } else {
                    let t = Token::Illegal(self.ch);
                    self.read_char();
                    return (t, tok_line, tok_col);
                }
            },
        };
        self.read_char();
        (token, tok_line, tok_col)
    }
}

/// Whether the characters of `s` are exactly those of `w`.
fn word_is(s: &[char], w: &[char]) -> (r: bool)
    ensures
        r == (s@ == w@),
{
    if s.len() != w.len() {
        return false;
    }
    let mut i: usize = 0;
    while i < s.len()
        invariant
            s@.len() == w@.len(),
            i <= s@.len(),
            forall|j: int| 0 <= j < i ==> s@[j] == w@[j],
        decreases s@.len() - i,
    {
        if s[i] != w[i] {
            return false;
        }
        i += 1;
    }
    assert(s@ =~= w@);
    true
}

/// The token for a word: a keyword, or else an identifier.
fn lookup_ident(ident: &Vec<char>) -> (t: Token)
    ensures
        t@ == keyword_or_ident(ident@),
{
    let w = ident.as_slice();
    if word_is(w, &['f', 'n']) || word_is(w, &['d', 'e', 'f']) {
        Token::Fn
    } else if word_is(w, &['l', 'e', 't']) {
        Token::Let
    } else if word_is(w, &['c', 'o', 'n', 's', 't']) {
        Token::Const
    } else if word_is(w, &['i', 'f']) {
        Token::If
    } else if word_is(w, &['e', 'l', 's', 'e']) {
        Token::Else
    } else if word_is(w, &['e', 'n', 'd']) {
        Token::End
    } else if word_is(w, &['r', 'e', 't', 'u', 'r', 'n']) {
        Token::Return
    } else if word_is(w, &['d', 'o']) {
        Token::Do
    } else if word_is(w, &['t', 'r', 'u', 'e']) {
        Token::True
    } else if word_is(w, &['f', 'a', 'l', 's', 'e']) {
        Token::False
    } else if word_is(w, &['l', 'o', 'o', 'p']) {
        Token::Loop
    } else if word_is(w, &['w', 'h', 'i', 'l', 'e']) {
        Token::While
    } else if word_is(w, &['f', 'o', 'r']) {
        Token::For
    } else if word_is(w, &['i', 'n']) {
        Token::In
    } else {
        Token::Ident(string_from_chars(w))
    }
}


/// `comment_end` lies between its start and the end of input.
pub proof fn lemma_comment_end_bounds(input: Seq<char>, i: int)
    requires
        0 <= i <= input.len(),
    ensures
        i <= comment_end(input, i) <= input.len(),
    decreases input.len() - i,
{
    if i < input.len() && input[i] != '\n' && input[i] != '\0' {
        lemma_comment_end_bounds(input, i + 1);
    }
}

/// `string_end` lies between its start and the end of input.
pub proof fn lemma_string_end_bounds(input: Seq<char>, i: int)
    requires
        0 <= i <= input.len(),
    ensures
        i <= string_end(input, i) <= input.len(),
    decreases input.len() - i,
{
    if i < input.len() && input[i] != '"' && input[i] != '\0' {
        lemma_string_end_bounds(input, i + 1);
    }
}

/// `ident_end` lies between its start and the end of input.
pub proof fn lemma_ident_end_bounds(input: Seq<char>, i: int)
    requires
        0 <= i <= input.len(),
    ensures
        i <= ident_end(input, i) <= input.len(),
    decreases input.len() - i,
{
    if i < input.len() && (unicode_alphabetic(input[i]) || unicode_numeric(input[i]) || input[i] == '_') {
        lemma_ident_end_bounds(input, i + 1);
    }
}

/// `number_end` lies between its start and the end of input.
pub proof fn lemma_number_end_bounds(input: Seq<char>, i: int)
    requires
        0 <= i <= input.len(),
    ensures
        i <= number_end(input, i) <= input.len(),
    decreases input.len() - i,
{
    if i < input.len() && (unicode_numeric(input[i]) || input[i] == '.') {
        lemma_number_end_bounds(input, i + 1);
    }
}

/// `skip_end` lies between its start and the end of input.
pub proof fn lemma_skip_end_bounds(input: Seq<char>, i: int)
    requires
        0 <= i <= input.len(),
    ensures
        i <= skip_end(input, i) <= input.len(),
    decreases input.len() - i,
{
    if i < input.len() {
        if unicode_whitespace(input[i]) {
            lemma_skip_end_bounds(input, i + 1);
        } else if input[i] == '-' && char_at(input, i + 1) == '-' {
            lemma_comment_end_bounds(input, i);
            if comment_end(input, i) > i {
                lemma_skip_end_bounds(input, comment_end(input, i));
            }
        }
    }
}


/// Each token moves the cursor forward; a token other than the end of input
/// starts inside the input and ends at most one past its end.
pub proof fn lemma_next_token_progress(input: Seq<char>, c0: int)
    requires
        0 <= c0,
    ensures
        ({
            let q = if c0 < input.len() { skip_end(input, c0) } else { c0 };
            let (tok, e) = scan_token(input, q);
            &&& e > c0
            &&& !(tok is EOF) ==> c0 < input.len() && e <= input.len() + 1
        }),
{
    let q = if c0 < input.len() { skip_end(input, c0) } else { c0 };
    if c0 < input.len() {
        lemma_skip_end_bounds(input, c0);
    }
    let c = char_at(input, q);
    if q < input.len() {
        if c == '"' {
            lemma_string_end_bounds(input, q + 1);
        } else if c != '\0' && unicode_alphabetic(c) {
            lemma_ident_end_bounds(input, q + 1);
            assert(ident_end(input, q) == ident_end(input, q + 1));
        } else if c != '\0' && unicode_numeric(c) {
            lemma_number_end_bounds(input, q + 1);
            assert(number_end(input, q) == number_end(input, q + 1));
        }
    }
}


/// A number for each kind of token, whatever its text.
pub open spec fn token_kind(t: TokenView) -> u8 {
    match t {
        TokenView::Fn => 0,
        TokenView::Let => 1,
        TokenView::Const => 2,
        TokenView::If => 3,
        TokenView::Else => 4,
        TokenView::End => 5,
        TokenView::Return => 6,
        TokenView::Do => 7,
        TokenView::True => 8,
        TokenView::False => 9,
        TokenView::Loop => 10,
        TokenView::While => 11,
        TokenView::For => 12,
        TokenView::In => 13,
        TokenView::Ident(_) => 14,
        TokenView::Number(_) => 15,
        TokenView::StringLiteral(_) => 16,
        TokenView::Plus => 17,
        TokenView::Minus => 18,
        TokenView::Star => 19,
        TokenView::Slash => 20,
        TokenView::Assign => 21,
        TokenView::Eq => 22,
        TokenView::NotEq => 23,
        TokenView::Greater => 24,
        TokenView::Less => 25,
        TokenView::Bang => 26,
        TokenView::LParen => 27,
        TokenView::RParen => 28,
        TokenView::LBrace => 29,
        TokenView::RBrace => 30,
        TokenView::LBracket => 31,
        TokenView::RBracket => 32,
        TokenView::Comma => 33,
        TokenView::Dot => 34,
        TokenView::Colon => 35,
        TokenView::Illegal(_) => 36,
        TokenView::EOF => 37,
    }
}

/// A token that carries no text.
pub open spec fn plain_token(t: TokenView) -> bool {
    !(t is Ident || t is Number || t is StringLiteral || t is Illegal)
}

/// The escape of `c` as `{:?}` writes it inside quotes: quotes of the kind
/// that delimit it (`"` in a string, `'` in a character), backslashes and
/// control characters are escaped.
pub open spec fn escape_char(c: char, in_str: bool) -> Seq<char> {
    if c == '\0' { seq!['\\', '0'] }
    else if c == '\t' { seq!['\\', 't'] }
    else if c == '\r' { seq!['\\', 'r'] }
    else if c == '\n' { seq!['\\', 'n'] }
    else if c == '\\' { seq!['\\', '\\'] }
    else if c == '"' && in_str { seq!['\\', '"'] }
    else if c == '\'' && !in_str { seq!['\\', '\''] }
    else if (c as u32) < 32 || (c as u32) == 127 {
        seq!['\\', 'u', '{'] + hex_text(c as u32 as nat) + seq!['}']
    } else { seq![c] }
}

/// The lowercase hexadecimal digits of `n`, for `n` below 256.
pub open spec fn hex_text(n: nat) -> Seq<char> {
    if n < 16 { seq![hex_digit(n)] } else { seq![hex_digit(n / 16), hex_digit(n % 16)] }
}

/// The lowercase hexadecimal digit for `d`, for `d` below 16.
pub open spec fn hex_digit(d: nat) -> char {
    if d < 10 { (('0' as u32) + d) as char } else { (('a' as u32) + d - 10) as char }
}

/// The escapes of the characters of `s`, in order.
pub open spec fn escape_all(s: Seq<char>) -> Seq<char>
    decreases s.len(),
{
    if s.len() == 0 { seq![] } else { escape_all(s.drop_last()) + escape_char(s.last(), true) }
}

/// A string as `{:?}` writes it.
pub open spec fn debug_str(s: Seq<char>) -> Seq<char> {
    seq!['"'] + escape_all(s) + seq!['"']
}

/// A character as `{:?}` writes it.
pub open spec fn debug_char(c: char) -> Seq<char> {
    seq!['\''] + escape_char(c, false) + seq!['\'']
}

/// A token as `{:?}` writes it; a number shows its text as written.
pub open spec fn token_debug(t: TokenView) -> Seq<char> {
    match t {
        TokenView::Fn => "Fn"@,
        TokenView::Let => "Let"@,
        TokenView::Const => "Const"@,
        TokenView::If => "If"@,
        TokenView::Else => "Else"@,
        TokenView::End => "End"@,
        TokenView::Return => "Return"@,
        TokenView::Do => "Do"@,
        TokenView::True => "True"@,
        TokenView::False => "False"@,
        TokenView::Loop => "Loop"@,
        TokenView::While => "While"@,
        TokenView::For => "For"@,
        TokenView::In => "In"@,
        TokenView::Ident(s) => "Ident("@ + debug_str(s) + ")"@,
        TokenView::Number(s) => "Number("@ + s + ")"@,
        TokenView::StringLiteral(s) => "StringLiteral("@ + debug_str(s) + ")"@,
        TokenView::Plus => "Plus"@,
        TokenView::Minus => "Minus"@,
        TokenView::Star => "Star"@,
        TokenView::Slash => "Slash"@,
        TokenView::Assign => "Assign"@,
        TokenView::Eq => "Eq"@,
        TokenView::NotEq => "NotEq"@,
        TokenView::Greater => "Greater"@,
        TokenView::Less => "Less"@,
        TokenView::Bang => "Bang"@,
        TokenView::LParen => "LParen"@,
        TokenView::RParen => "RParen"@,
        TokenView::LBrace => "LBrace"@,
        TokenView::RBrace => "RBrace"@,
        TokenView::LBracket => "LBracket"@,
        TokenView::RBracket => "RBracket"@,
        TokenView::Comma => "Comma"@,
        TokenView::Dot => "Dot"@,
        TokenView::Colon => "Colon"@,
        TokenView::Illegal(c) => "Illegal("@ + debug_char(c) + ")"@,
        TokenView::EOF => "EOF"@,
    }
}

/// The escape of one character (see `escape_char`).
fn escape_char_into(out: &mut Vec<char>, c: char, in_str: bool)
    ensures
        final(out)@ == old(out)@ + escape_char(c, in_str),
{
    let ghost start = out@;
    if c == '\0' { out.push('\\'); out.push('0'); }
    else if c == '\t' { out.push('\\'); out.push('t'); }
    else if c == '\r' { out.push('\\'); out.push('r'); }
    else if c == '\n' { out.push('\\'); out.push('n'); }
    else if c == '\\' { out.push('\\'); out.push('\\'); }
    else if c == '"' && in_str { out.push('\\'); out.push('"'); }
    else if c == '\'' && !in_str { out.push('\\'); out.push('\''); }
    else if (c as u32) < 32 || (c as u32) == 127 {
        let n = c as u32;
        out.push('\\');
        out.push('u');
        out.push('{');
        if n >= 16 {
            out.push(hex_char(n / 16));
        }
        out.push(hex_char(n % 16));
        out.push('}');
    } else {
        out.push(c);
    }
    assert(out@ =~= start + escape_char(c, in_str));
}

/// The lowercase hexadecimal digit for `d`.
fn hex_char(d: u32) -> (c: char)
    requires
        d < 16,
    ensures
        c == hex_digit(d as nat),
{
    if d < 10 {
        char_of(48 + d)
    } else {
        char_of(87 + d)
    }
}

/// The character with code `n` (an ASCII code).
fn char_of(n: u32) -> (c: char)
    requires
        n < 128,
    ensures
        c as u32 == n,
{
    let b: u8 = n as u8;
    b as char
}

/// A string as `{:?}` writes it.
pub fn debug_str_text(s: &str) -> (r: String)
    ensures
        r@ == debug_str(s@),
{
    let cs = chars_of(s);
    let mut out: Vec<char> = Vec::new();
    out.push('"');
    let mut i: usize = 0;
    while i < cs.len()
        invariant
            i <= cs@.len(),
            cs@ == s@,
            out@ == seq!['"'] + escape_all(cs@.take(i as int)),
        decreases cs@.len() - i,
    {
        escape_char_into(&mut out, cs[i], true);
        proof {
            assert(cs@.take(i as int + 1).drop_last() =~= cs@.take(i as int));
        }
        i += 1;
    }
    out.push('"');
    assert(cs@.take(cs@.len() as int) =~= cs@);
    assert(out@ =~= debug_str(s@));
    string_from_chars(out.as_slice())
}

/// A character as `{:?}` writes it.
pub fn debug_char_text(c: char) -> (r: String)
    ensures
        r@ == debug_char(c),
{
    let mut out: Vec<char> = Vec::new();
    out.push('\'');
    escape_char_into(&mut out, c, false);
    out.push('\'');
    assert(out@ =~= debug_char(c));
    string_from_chars(out.as_slice())
}

impl Token {
    /// The number of this token's kind (see `token_kind`).
    pub fn kind(&self) -> (k: u8)
        ensures
            k == token_kind(self@),
    {
        match self {
            Token::Fn => 0,
            Token::Let => 1,
            Token::Const => 2,
            Token::If => 3,
            Token::Else => 4,
            Token::End => 5,
            Token::Return => 6,
            Token::Do => 7,
            Token::True => 8,
            Token::False => 9,
            Token::Loop => 10,
            Token::While => 11,
            Token::For => 12,
            Token::In => 13,
            Token::Ident(_) => 14,
            Token::Number(_) => 15,
            Token::StringLiteral(_) => 16,
            Token::Plus => 17,
            Token::Minus => 18,
            Token::Star => 19,
            Token::Slash => 20,
            Token::Assign => 21,
            Token::Eq => 22,
            Token::NotEq => 23,
            Token::Greater => 24,
            Token::Less => 25,
            Token::Bang => 26,
            Token::LParen => 27,
            Token::RParen => 28,
            Token::LBrace => 29,
            Token::RBrace => 30,
            Token::LBracket => 31,
            Token::RBracket => 32,
            Token::Comma => 33,
            Token::Dot => 34,
            Token::Colon => 35,
            Token::Illegal(_) => 36,
            Token::EOF => 37,
        }
    }

    /// Whether two tokens have the same kind; for tokens without text,
    /// whether they are the same token.
    pub fn same_kind(&self, other: &Token) -> (r: bool)
        ensures
            r == (token_kind(self@) == token_kind(other@)),
            plain_token(other@) ==> (r == (self@ == other@)),
    {
        self.kind() == other.kind()
    }

    /// The token as `{:?}` writes it; a number shows its text as written.
    pub fn debug_text(&self) -> (r: String)
        ensures
            r@ == token_debug(self@),
    {
        match self {
            Token::Fn => owned("Fn"),
            Token::Let => owned("Let"),
            Token::Const => owned("Const"),
            Token::If => owned("If"),
            Token::Else => owned("Else"),
            Token::End => owned("End"),
            Token::Return => owned("Return"),
            Token::Do => owned("Do"),
            Token::True => owned("True"),
            Token::False => owned("False"),
            Token::Loop => owned("Loop"),
            Token::While => owned("While"),
            Token::For => owned("For"),
            Token::In => owned("In"),
            Token::Ident(s) => join3("Ident(", debug_str_text(s.as_str()).as_str(), ")"),
            Token::Number(s) => join3("Number(", s.as_str(), ")"),
            Token::StringLiteral(s) => join3("StringLiteral(", debug_str_text(s.as_str()).as_str(), ")"),
            Token::Plus => owned("Plus"),
            Token::Minus => owned("Minus"),
            Token::Star => owned("Star"),
            Token::Slash => owned("Slash"),
            Token::Assign => owned("Assign"),
            Token::Eq => owned("Eq"),
            Token::NotEq => owned("NotEq"),
            Token::Greater => owned("Greater"),
            Token::Less => owned("Less"),
            Token::Bang => owned("Bang"),
            Token::LParen => owned("LParen"),
            Token::RParen => owned("RParen"),
            Token::LBrace => owned("LBrace"),
            Token::RBrace => owned("RBrace"),
            Token::LBracket => owned("LBracket"),
            Token::RBracket => owned("RBracket"),
            Token::Comma => owned("Comma"),
            Token::Dot => owned("Dot"),
            Token::Colon => owned("Colon"),
            Token::Illegal(c) => join3("Illegal(", debug_char_text(*c).as_str(), ")"),
            Token::EOF => owned("EOF"),
        }
    }
}

} // verus!
