//! Lexical analysis (scanning) for the Lox language.
//!
//! The scanner turns a character sequence into tokens: keywords, identifiers,
//! literals, operators and punctuation. Whitespace and `//` comments are
//! skipped. Keywords are recognised by maximal munch: a word is scanned as far
//! as identifier characters go, and only then compared with the keywords.
//!
//! The meaning of the scanner is the spec function [`scan_token`]; the
//! executable [`Lexer`] is proved to follow it.
use vstd::prelude::*;

verus! {

/// A token of Lox source code.
///
/// The type parameter is the representation of text payloads: `String` for
/// the tokens that the scanner hands out, `Seq<char>` for their mathematical
/// view. A numeric literal is kept as the characters that spell it (for
/// example `42`, `1.25` or `7.`); turning that spelling into a number is left
/// to the consumer.
#[derive(Debug, PartialEq)]
pub enum Token<S = String> {
    Error,
    /// A string literal, e.g. `"hello"` (the payload excludes the quotes).
    String(S),
    /// An identifier or variable name, e.g. `foo`, `_x`, `myVar123`.
    Identifier(S),
    /// A numeric literal, e.g. `42`, `3.14`, kept as its spelling.
    Number(S),
    // Symbols and operators
    LBrace,
    RBrace,
    LParens,
    RParens,
    Comma,
    Minus,
    Plus,
    Semicolon,
    Star,
    Bang,
    BangEqual,
    Equal,
    EqualEqual,
    Less,
    LessEqual,
    Greater,
    GreaterEqual,
    Slash,
    // Keywords
    And,
    Class,
    Else,
    False,
    For,
    Fun,
    If,
    Nil,
    Or,
    Print,
    Return,
    Super,
    This,
    True,
    Var,
    While,
}

/// The mathematical form of a token: text payloads as character sequences.
pub type SpecToken = Token<Seq<char>>;

impl View for Token<String> {
    type V = SpecToken;

    closed spec fn view(&self) -> SpecToken {
        match self {
            Token::Error => Token::Error,
            Token::String(s) => Token::String(s@),
            Token::Identifier(s) => Token::Identifier(s@),
            Token::Number(s) => Token::Number(s@),
            Token::LBrace => Token::LBrace,
            Token::RBrace => Token::RBrace,
            Token::LParens => Token::LParens,
            Token::RParens => Token::RParens,
            Token::Comma => Token::Comma,
            Token::Minus => Token::Minus,
            Token::Plus => Token::Plus,
            Token::Semicolon => Token::Semicolon,
            Token::Star => Token::Star,
            Token::Bang => Token::Bang,
            Token::BangEqual => Token::BangEqual,
            Token::Equal => Token::Equal,
            Token::EqualEqual => Token::EqualEqual,
            Token::Less => Token::Less,
            Token::LessEqual => Token::LessEqual,
            Token::Greater => Token::Greater,
            Token::GreaterEqual => Token::GreaterEqual,
            Token::Slash => Token::Slash,
            Token::And => Token::And,
            Token::Class => Token::Class,
            Token::Else => Token::Else,
            Token::False => Token::False,
            Token::For => Token::For,
            Token::Fun => Token::Fun,
            Token::If => Token::If,
            Token::Nil => Token::Nil,
            Token::Or => Token::Or,
            Token::Print => Token::Print,
            Token::Return => Token::Return,
            Token::Super => Token::Super,
            Token::This => Token::This,
            Token::True => Token::True,
            Token::Var => Token::Var,
            Token::While => Token::While,
        }
    }
}

/// A token and its view are the same variant, and a text payload's view is
/// the view's payload.
#[verifier::spinoff_prover]
pub proof fn lemma_token_view(t: Token)
    ensures
        (t@ is Error) == (t is Error),
        (t@ is String) == (t is String),
        (t@ is Identifier) == (t is Identifier),
        (t@ is Number) == (t is Number),
        (t@ is LBrace) == (t is LBrace),
        (t@ is RBrace) == (t is RBrace),
        (t@ is LParens) == (t is LParens),
        (t@ is RParens) == (t is RParens),
        (t@ is Comma) == (t is Comma),
        (t@ is Minus) == (t is Minus),
        (t@ is Plus) == (t is Plus),
        (t@ is Semicolon) == (t is Semicolon),
        (t@ is Star) == (t is Star),
        (t@ is Bang) == (t is Bang),
        (t@ is BangEqual) == (t is BangEqual),
        (t@ is Equal) == (t is Equal),
        (t@ is EqualEqual) == (t is EqualEqual),
        (t@ is Less) == (t is Less),
        (t@ is LessEqual) == (t is LessEqual),
        (t@ is Greater) == (t is Greater),
        (t@ is GreaterEqual) == (t is GreaterEqual),
        (t@ is Slash) == (t is Slash),
        (t@ is And) == (t is And),
        (t@ is Class) == (t is Class),
        (t@ is Else) == (t is Else),
        (t@ is False) == (t is False),
        (t@ is For) == (t is For),
        (t@ is Fun) == (t is Fun),
        (t@ is If) == (t is If),
        (t@ is Nil) == (t is Nil),
        (t@ is Or) == (t is Or),
        (t@ is Print) == (t is Print),
        (t@ is Return) == (t is Return),
        (t@ is Super) == (t is Super),
        (t@ is This) == (t is This),
        (t@ is True) == (t is True),
        (t@ is Var) == (t is Var),
        (t@ is While) == (t is While),
        t is String ==> t@ == Token::String(t->String_0@),
        t is Identifier ==> t@ == Token::Identifier(t->Identifier_0@),
        t is Number ==> t@ == Token::Number(t->Number_0@),
{
}

/// The mathematical form of a token sequence.
pub open spec fn view_tokens(s: Seq<Token>) -> Seq<SpecToken> {
    s.map_values(|t: Token| t@)
}

/// A decimal digit `0`..`9`.
pub open spec fn is_digit(c: char) -> bool {
    '0' <= c && c <= '9'
}

/// A character that may start an identifier: an ASCII letter or `_`.
pub open spec fn is_ident_start(c: char) -> bool {
    ('a' <= c && c <= 'z') || ('A' <= c && c <= 'Z') || c == '_'
}

/// A character that may continue an identifier: ASCII alphanumeric or `_`.
pub open spec fn is_ident_char(c: char) -> bool {
    is_ident_start(c) || is_digit(c)
}

/// The whitespace that separates tokens: space, newline, tab, carriage return.
pub open spec fn is_whitespace(c: char) -> bool {
    c == ' ' || c == '\n' || c == '\t' || c == '\r'
}

/// The first index at or after `i` that does not hold a digit.
pub open spec fn digits_end(s: Seq<char>, i: int) -> int
    decreases s.len() - i,
{
    if 0 <= i < s.len() && is_digit(s[i]) {
        digits_end(s, i + 1)
    } else {
        i
    }
}

/// The first index at or after `i` that does not hold an identifier character.
pub open spec fn ident_end(s: Seq<char>, i: int) -> int
    decreases s.len() - i,
{
    if 0 <= i < s.len() && is_ident_char(s[i]) {
        ident_end(s, i + 1)
    } else {
        i
    }
}

/// The index of the first `c` at or after `i`, or the length of `s` if none.
pub open spec fn find_char(s: Seq<char>, i: int, c: char) -> int
    decreases s.len() - i,
{
    if i < 0 || i >= s.len() {
        s.len() as int
    } else if s[i] == c {
        i
    } else {
        find_char(s, i + 1, c)
    }
}

/// `find_char` stays within `i ..= s.len()`, and everything it skips differs from `c`.
#[verifier::spinoff_prover]
pub proof fn lemma_find_char_bounds(s: Seq<char>, i: int, c: char)
    requires
        0 <= i <= s.len(),
    ensures
        i <= find_char(s, i, c) <= s.len(),
        find_char(s, i, c) < s.len() ==> s[find_char(s, i, c)] == c,
        forall|k: int| i <= k < find_char(s, i, c) ==> s[k] != c,
    decreases s.len() - i,
{
    if i < s.len() && s[i] != c {
        lemma_find_char_bounds(s, i + 1, c);
    }
}

/// Where scanning resumes after a comment whose text starts at `i`: just past
/// the end of the line, or at the end of the input.
pub open spec fn comment_resume(s: Seq<char>, i: int) -> int {
    let e = find_char(s, i, '\n');
    if e < s.len() {
        e + 1
    } else {
        s.len() as int
    }
}

/// The keyword spelled by `w`, if it is one.
pub open spec fn keyword(w: Seq<char>) -> Option<SpecToken> {
    if w == seq!['a', 'n', 'd'] {
        Some(Token::And)
    } else if w == seq!['c', 'l', 'a', 's', 's'] {
        Some(Token::Class)
    } else if w == seq!['e', 'l', 's', 'e'] {
        Some(Token::Else)
    } else if w == seq!['f', 'a', 'l', 's', 'e'] {
        Some(Token::False)
    } else if w == seq!['f', 'o', 'r'] {
        Some(Token::For)
    } else if w == seq!['f', 'u', 'n'] {
        Some(Token::Fun)
    } else if w == seq!['i', 'f'] {
        Some(Token::If)
    } else if w == seq!['n', 'i', 'l'] {
        Some(Token::Nil)
    } else if w == seq!['o', 'r'] {
        Some(Token::Or)
    } else if w == seq!['p', 'r', 'i', 'n', 't'] {
        Some(Token::Print)
    } else if w == seq!['r', 'e', 't', 'u', 'r', 'n'] {
        Some(Token::Return)
    } else if w == seq!['s', 'u', 'p', 'e', 'r'] {
        Some(Token::Super)
    } else if w == seq!['t', 'h', 'i', 's'] {
        Some(Token::This)
    } else if w == seq!['t', 'r', 'u', 'e'] {
        Some(Token::True)
    } else if w == seq!['v', 'a', 'r'] {
        Some(Token::Var)
    } else if w == seq!['w', 'h', 'i', 'l', 'e'] {
        Some(Token::While)
    } else {
        None
    }
}

/// The token for a scanned word: its keyword, or else an identifier.
pub open spec fn word_token(w: Seq<char>) -> SpecToken {
    match keyword(w) {
        Some(k) => k,
        None => Token::Identifier(w),
    }
}

/// The token for a numeric literal that starts with the digit at `i`, and the
/// index where scanning resumes.
///
/// The integer digits are taken; a following `.` is taken; then, if the next
/// character exists and is not a digit, the literal is an error, and otherwise
/// the fraction digits are taken. At the end of the input a trailing `.` is
/// part of the literal.
pub open spec fn scan_number(s: Seq<char>, i: int) -> (SpecToken, int) {
    let j = digits_end(s, i + 1);
    if j < s.len() && s[j] != '.' {
        (Token::Number(s.subrange(i, j)), j)
    } else if j >= s.len() {
        (Token::Number(s.subrange(i, j)), j)
    } else if j + 1 < s.len() && !is_digit(s[j + 1]) {
        (Token::Error, j + 1)
    } else {
        let m = digits_end(s, j + 1);
        (Token::Number(s.subrange(i, m)), m)
    }
}

/// The token scanned at `i` when `s[i]` is neither whitespace nor the start of
/// a comment, and the index where scanning resumes.
pub open spec fn scan_at(s: Seq<char>, i: int) -> (SpecToken, int)
    recommends
        0 <= i < s.len(),
{
    let c = s[i];
    let next_is_eq = i + 1 < s.len() && s[i + 1] == '=';
    if c == '"' {
        let j = find_char(s, i + 1, '"');
        if j < s.len() {
            (Token::String(s.subrange(i + 1, j)), j + 1)
        } else {
            (Token::Error, s.len() as int)
        }
    } else if c == '(' {
        (Token::LParens, i + 1)
    } else if c == ')' {
        (Token::RParens, i + 1)
    } else if c == '{' {
        (Token::LBrace, i + 1)
    } else if c == '}' {
        (Token::RBrace, i + 1)
    } else if c == ',' {
        (Token::Comma, i + 1)
    } else if c == '-' {
        (Token::Minus, i + 1)
    } else if c == '+' {
        (Token::Plus, i + 1)
    } else if c == ';' {
        (Token::Semicolon, i + 1)
    } else if c == '*' {
        (Token::Star, i + 1)
    } else if c == '!' {
        if next_is_eq {
            (Token::BangEqual, i + 2)
        } else {
            (Token::Bang, i + 1)
        }
    } else if c == '=' {
        if next_is_eq {
            (Token::EqualEqual, i + 2)
        } else {
            (Token::Equal, i + 1)
        }
    } else if c == '<' {
        if next_is_eq {
            (Token::LessEqual, i + 2)
        } else {
            (Token::Less, i + 1)
        }
    } else if c == '>' {
        if next_is_eq {
            (Token::GreaterEqual, i + 2)
        } else {
            (Token::Greater, i + 1)
        }
    } else if c == '/' {
        (Token::Slash, i + 1)
    } else if is_digit(c) {
        scan_number(s, i)
    } else if is_ident_start(c) {
        let j = ident_end(s, i + 1);
        (word_token(s.subrange(i, j)), j)
    } else {
        (Token::Error, i + 1)
    }
}

/// Whether a comment starts at `i`: two slashes.
pub open spec fn comment_at(s: Seq<char>, i: int) -> bool {
    0 <= i && i + 1 < s.len() && s[i] == '/' && s[i + 1] == '/'
}

/// The next token of `s` at or after index `i`, with the index where scanning
/// resumes; `None` when only whitespace and comments remain.
pub open spec fn scan_token(s: Seq<char>, i: int) -> Option<(SpecToken, int)>
    decreases s.len() - i,
{
    if i < 0 || i >= s.len() {
        None
    } else if is_whitespace(s[i]) {
        scan_token(s, i + 1)
    } else if comment_at(s, i) {
        proof {
            lemma_find_char_bounds(s, i + 1, '\n');
        }
        scan_token(s, comment_resume(s, i + 1))
    } else {
        Some(scan_at(s, i))
    }
}

/// All tokens of `s` from index `i` on.
pub open spec fn scan_all(s: Seq<char>, i: int) -> Seq<SpecToken>
    decreases s.len() - i,
{
    match scan_token(s, i) {
        None => seq![],
        Some((t, j)) => if i < j <= s.len() {
            seq![t] + scan_all(s, j)
        } else {
            seq![t]
        },
    }
}

/// The tokens of a whole source text.
#[verifier::opaque]
pub open spec fn tokens_of(s: Seq<char>) -> Seq<SpecToken> {
    scan_all(s, 0)
}


/// Executable `is_digit`.
fn digit(c: char) -> (b: bool)
    ensures
        b == is_digit(c),
{
    '0' <= c && c <= '9'
}

/// Executable `is_ident_start`.
fn ident_start(c: char) -> (b: bool)
    ensures
        b == is_ident_start(c),
{
    ('a' <= c && c <= 'z') || ('A' <= c && c <= 'Z') || c == '_'
}

/// Executable `is_ident_char`.
fn ident_char(c: char) -> (b: bool)
    ensures
        b == is_ident_char(c),
{
    ident_start(c) || digit(c)
}

/// The characters of a string, in order.
fn chars_of(s: &str) -> (v: Vec<char>)
    ensures
        v@ == s@,
{
    let n = s.unicode_len();
    let mut v: Vec<char> = Vec::new();
    let mut i: usize = 0;
    while i < n
        invariant
            n == s@.len(),
            i <= n,
            v@ == s@.subrange(0, i as int),
        decreases n - i,
    {
        v.push(s.get_char(i));
        i = i + 1;
    }
    v
}

/// Executable `digits_end`.
fn skip_digits(chars: &Vec<char>, i: usize) -> (j: usize)
    requires
        i <= chars@.len(),
    ensures
        j == digits_end(chars@, i as int),
        i <= j <= chars@.len(),
{
    let mut j = i;
    while j < chars.len() && digit(chars[j])
        invariant
            i <= j <= chars@.len(),
            digits_end(chars@, j as int) == digits_end(chars@, i as int),
        decreases chars@.len() - j,
    {
        j = j + 1;
    }
    j
}

/// Executable `ident_end`.
fn skip_ident(chars: &Vec<char>, i: usize) -> (j: usize)
    requires
        i <= chars@.len(),
    ensures
        j == ident_end(chars@, i as int),
        i <= j <= chars@.len(),
{
    let mut j = i;
    while j < chars.len() && ident_char(chars[j])
        invariant
            i <= j <= chars@.len(),
            ident_end(chars@, j as int) == ident_end(chars@, i as int),
        decreases chars@.len() - j,
    {
        j = j + 1;
    }
    j
}

/// Executable `find_char`.
fn seek_char(chars: &Vec<char>, i: usize, c: char) -> (j: usize)
    requires
        i <= chars@.len(),
    ensures
        j == find_char(chars@, i as int, c),
        i <= j <= chars@.len(),
{
    let mut j = i;
    while j < chars.len() && chars[j] != c
        invariant
            i <= j <= chars@.len(),
            find_char(chars@, j as int, c) == find_char(chars@, i as int, c),
        decreases chars@.len() - j,
    {
        j = j + 1;
    }
    j
}

/// Skips a comment whose text (after the first `/`) starts at `start`: the
/// rest of the line is consumed, including the newline that ends it. Returns
/// the index where scanning resumes.
pub fn scan_comment(chars: &Vec<char>, start: usize) -> (resume: usize)
    requires
        start <= chars@.len(),
    ensures
        resume == comment_resume(chars@, start as int),
        start <= resume <= chars@.len(),
{
    let e = seek_char(chars, start, '\n');
    if e < chars.len() {
        e + 1
    } else {
        e
    }
}

/// Whether the characters `start..end` of `chars` spell `w`.
fn spells(chars: &Vec<char>, start: usize, end: usize, w: &[char]) -> (b: bool)
    requires
        start <= end <= chars@.len(),
    ensures
        b == (chars@.subrange(start as int, end as int) == w@),
{
    if end - start != w.len() {
        return false;
    }
    let mut k: usize = 0;
    while k < w.len()
        invariant
            end - start == w@.len(),
            start <= end <= chars@.len(),
            k <= w@.len(),
            forall|m: int| 0 <= m < k ==> chars@[start + m] == w@[m],
        decreases w@.len() - k,
    {
        if chars[start + k] != w[k] {
            assert(chars@.subrange(start as int, end as int)[k as int] != w@[k as int]);
            return false;
        }
        k = k + 1;
    }
    assert(chars@.subrange(start as int, end as int) =~= w@);
    true
}

/// A scanner over Lox source text.
///
/// The lexer holds the characters of the source and the index where scanning
/// resumes. [`Lexer::next`] hands out one token at a time and
/// [`Lexer::tokens`] all that remain.
pub struct Lexer {
    source: String,
    chars: Vec<char>,
    pos: usize,
}

impl Lexer {
    #[verifier::type_invariant]
    spec fn inv(self) -> bool {
        &&& self.chars@ == self.source@
        &&& self.pos <= self.chars@.len()
    }

    /// The source text being scanned.
    pub closed spec fn text(self) -> Seq<char> {
        self.chars@
    }

    /// The index in [`Lexer::text`] where scanning resumes.
    pub closed spec fn position(self) -> int {
        self.pos as int
    }

    /// Creates a lexer at the start of `source`.
    pub fn new(source: &str) -> (lexer: Lexer)
        ensures
            lexer.text() == source@,
            lexer.position() == 0,
    {
        let chars = chars_of(source);
        Lexer { source: String::from_str(source), chars, pos: 0 }
    }

    /// The word token for the characters `start..end`.
    fn word(&self, start: usize, end: usize) -> (t: Token)
        requires
            start <= end <= self.text().len(),
        ensures
            t@ == word_token(self.text().subrange(start as int, end as int)),
    {
        proof {
            use_type_invariant(self);
        }
        let w = self.text_between(start, end);
        let ghost ws = self.text().subrange(start as int, end as int);
        if spells(&self.chars, start, end, &['a', 'n', 'd']) {
            assert(ws == seq!['a', 'n', 'd']);
            Token::And
        } else if spells(&self.chars, start, end, &['c', 'l', 'a', 's', 's']) {
            Token::Class
        } else if spells(&self.chars, start, end, &['e', 'l', 's', 'e']) {
            Token::Else
        } else if spells(&self.chars, start, end, &['f', 'a', 'l', 's', 'e']) {
            Token::False
        } else if spells(&self.chars, start, end, &['f', 'o', 'r']) {
            Token::For
        } else if spells(&self.chars, start, end, &['f', 'u', 'n']) {
            Token::Fun
        } else if spells(&self.chars, start, end, &['i', 'f']) {
            Token::If
        } else if spells(&self.chars, start, end, &['n', 'i', 'l']) {
            Token::Nil
        } else if spells(&self.chars, start, end, &['o', 'r']) {
            Token::Or
        } else if spells(&self.chars, start, end, &['p', 'r', 'i', 'n', 't']) {
            Token::Print
        } else if spells(&self.chars, start, end, &['r', 'e', 't', 'u', 'r', 'n']) {
            Token::Return
        } else if spells(&self.chars, start, end, &['s', 'u', 'p', 'e', 'r']) {
            Token::Super
        } else if spells(&self.chars, start, end, &['t', 'h', 'i', 's']) {
            Token::This
        } else if spells(&self.chars, start, end, &['t', 'r', 'u', 'e']) {
            Token::True
        } else if spells(&self.chars, start, end, &['v', 'a', 'r']) {
            Token::Var
        } else if spells(&self.chars, start, end, &['w', 'h', 'i', 'l', 'e']) {
            Token::While
        } else {
            Token::Identifier(w)
        }
    }

    /// The characters `start..end` of the source as a `String`.
    fn text_between(&self, start: usize, end: usize) -> (w: String)
        requires
            start <= end <= self.text().len(),
        ensures
            w@ == self.text().subrange(start as int, end as int),
    {
        proof {
            use_type_invariant(self);
        }
        String::from_str(self.source.as_str().substring_char(start, end))
    }

    /// The token that starts at `i`, which holds neither whitespace nor the
    /// start of a comment, and the index where scanning resumes.
    fn scan_at(&self, i: usize) -> (r: (Token, usize))
        requires
            i < self.text().len(),
        ensures
            (r.0@, r.1 as int) == scan_at(self.text(), i as int),
            i < r.1 <= self.text().len(),
    {
        proof {
            use_type_invariant(self);
        }
        let ghost s = self.text();
        let n = self.chars.len();
        let c = self.chars[i];
        let next_is_eq = i + 1 < n && self.chars[i + 1] == '=';
        if c == '"' {
            let j = seek_char(&self.chars, i + 1, '"');
            if j < n {
                (Token::String(self.text_between(i + 1, j)), j + 1)
            } else {
                (Token::Error, n)
            }
        } else if c == '(' {
            (Token::LParens, i + 1)
        } else if c == ')' {
            (Token::RParens, i + 1)
        } else if c == '{' {
            (Token::LBrace, i + 1)
        } else if c == '}' {
            (Token::RBrace, i + 1)
        } else if c == ',' {
            (Token::Comma, i + 1)
        } else if c == '-' {
            (Token::Minus, i + 1)
        } else if c == '+' {
            (Token::Plus, i + 1)
        } else if c == ';' {
            (Token::Semicolon, i + 1)
        } else if c == '*' {
            (Token::Star, i + 1)
        } else if c == '!' {
            if next_is_eq {
                (Token::BangEqual, i + 2)
            } else {
                (Token::Bang, i + 1)
            }
        } else if c == '=' {
            if next_is_eq {
                (Token::EqualEqual, i + 2)
            } else {
                (Token::Equal, i + 1)
            }
        } else if c == '<' {
            if next_is_eq {
                (Token::LessEqual, i + 2)
            } else {
                (Token::Less, i + 1)
            }
        } else if c == '>' {
            if next_is_eq {
                (Token::GreaterEqual, i + 2)
            } else {
                (Token::Greater, i + 1)
            }
        } else if c == '/' {
            (Token::Slash, i + 1)
        } else if digit(c) {
            self.number_at(i)
        } else if ident_start(c) {
            let j = skip_ident(&self.chars, i + 1);
            (self.word(i, j), j)
        } else {
            (Token::Error, i + 1)
        }
    }

    /// The numeric literal (or error) that starts with the digit at `i`.
    fn number_at(&self, i: usize) -> (r: (Token, usize))
        requires
            i < self.text().len(),
            is_digit(self.text()[i as int]),
        ensures
            (r.0@, r.1 as int) == scan_number(self.text(), i as int),
            i < r.1 <= self.text().len(),
    {
        proof {
            use_type_invariant(self);
        }
        let n = self.chars.len();
        let j = skip_digits(&self.chars, i + 1);
        if j < n && self.chars[j] != '.' {
            (Token::Number(self.text_between(i, j)), j)
        } else if j >= n {
            (Token::Number(self.text_between(i, j)), j)
        } else if j + 1 < n && !digit(self.chars[j + 1]) {
            (Token::Error, j + 1)
        } else {
            let m = skip_digits(&self.chars, j + 1);
            (Token::Number(self.text_between(i, m)), m)
        }
    }

    /// Scans the next token, skipping whitespace and comments before it.
    ///
    /// Returns `None` once only whitespace and comments remain; the lexer is
    /// then at the end of its text.
    pub fn next(&mut self) -> (r: Option<Token>)
        ensures
            final(self).text() == old(self).text(),
            match scan_token(old(self).text(), old(self).position()) {
                None => r is None && final(self).position() == old(self).text().len(),
                Some((t, j)) => r is Some && r->0@ == t && final(self).position() == j,
            },
    {
        proof {
            use_type_invariant(&*self);
        }
        let ghost s = self.text();
        let ghost start = self.pos as int;
        loop
            invariant
                self.text() == s,
                s == old(self).text(),
                start == old(self).position(),
                self.pos <= s.len(),
                self.chars@ == s,
                scan_token(s, self.pos as int) == scan_token(s, start),
            decreases s.len() - self.pos,
        {
            proof {
                use_type_invariant(&*self);
            }
            let n = self.chars.len();
            if self.pos >= n {
                return None;
            }
            let c = self.chars[self.pos];
            if c == ' ' || c == '\n' || c == '\t' || c == '\r' {
                self.pos = self.pos + 1;
            } else if c == '/' && self.pos + 1 < n && self.chars[self.pos + 1] == '/' {
                proof {
                    lemma_find_char_bounds(s, self.pos + 1, '\n');
                }
                self.pos = scan_comment(&self.chars, self.pos + 1);
            } else {
                let (t, j) = self.scan_at(self.pos);
                self.pos = j;
                return Some(t);
            }
        }
    }

    /// Scans all remaining tokens, leaving the lexer at the end of its text.
    pub fn tokens(&mut self) -> (v: Vec<Token>)
        ensures
            final(self).text() == old(self).text(),
            final(self).position() == old(self).text().len(),
            view_tokens(v@) == scan_all(old(self).text(), old(self).position()),
    {
        proof {
            use_type_invariant(&*self);
        }
        let ghost s = self.text();
        let ghost start = self.pos as int;
        let mut v: Vec<Token> = Vec::new();
        loop
            invariant
                self.text() == s,
                s == old(self).text(),
                start == old(self).position(),
                0 <= self.position() <= s.len(),
                view_tokens(v@) + scan_all(s, self.position()) == scan_all(s, start),
            decreases s.len() - self.position(),
        {
            let ghost before = self.position();
            proof {
                lemma_scan_token_advances(s, before);
            }
            match self.next() {
                None => {
                    assert(view_tokens(v@) =~= scan_all(s, start));
                    return v;
                },
                Some(t) => {
                    let ghost old_v = v@;
                    v.push(t);
                    assert(view_tokens(v@) =~= view_tokens(old_v).push(t@));
                    assert(scan_all(s, before) == seq![t@] + scan_all(s, self.position()));
                    assert(view_tokens(v@) + scan_all(s, self.position())
                        =~= view_tokens(old_v) + scan_all(s, before));
                },
            }
        }
    }
} // impl Lexer

/// A token found by `scan_token` ends after where the search started.
#[verifier::spinoff_prover]
pub proof fn lemma_scan_token_advances(s: Seq<char>, i: int)
    requires
        0 <= i <= s.len(),
    ensures
        scan_token(s, i) matches Some((t, j)) ==> i < j <= s.len(),
    decreases s.len() - i,
{
    if i < s.len() {
        if is_whitespace(s[i]) {
            lemma_scan_token_advances(s, i + 1);
        } else if comment_at(s, i) {
            lemma_find_char_bounds(s, i + 1, '\n');
            lemma_scan_token_advances(s, comment_resume(s, i + 1));
        } else {
            lemma_scan_at_advances(s, i);
        }
    }
}

/// `scan_at` consumes at least one character and stays within the text.
#[verifier::spinoff_prover]
pub proof fn lemma_scan_at_advances(s: Seq<char>, i: int)
    requires
        0 <= i < s.len(),
    ensures
        i < scan_at(s, i).1 <= s.len(),
{
    lemma_find_char_bounds(s, i + 1, '"');
    lemma_digits_end_bounds(s, i + 1);
    lemma_ident_end_bounds(s, i + 1);
    let j = digits_end(s, i + 1);
    if j + 1 <= s.len() {
        lemma_digits_end_bounds(s, j + 1);
    }
}

/// `digits_end` stays within `i ..= s.len()` and skips only digits.
#[verifier::spinoff_prover]
pub proof fn lemma_digits_end_bounds(s: Seq<char>, i: int)
    requires
        0 <= i <= s.len(),
    ensures
        i <= digits_end(s, i) <= s.len(),
        forall|k: int| i <= k < digits_end(s, i) ==> is_digit(#[trigger] s[k]),
    decreases s.len() - i,
{
    if i < s.len() && is_digit(s[i]) {
        lemma_digits_end_bounds(s, i + 1);
    }
}

/// `ident_end` stays within `i ..= s.len()` and skips only identifier characters.
#[verifier::spinoff_prover]
pub proof fn lemma_ident_end_bounds(s: Seq<char>, i: int)
    requires
        0 <= i <= s.len(),
    ensures
        i <= ident_end(s, i) <= s.len(),
        forall|k: int| i <= k < ident_end(s, i) ==> is_ident_char(#[trigger] s[k]),
    decreases s.len() - i,
{
    if i < s.len() && is_ident_char(s[i]) {
        lemma_ident_end_bounds(s, i + 1);
    }
}


/// Whitespace between tokens is skipped: the tokens from `i` on are the
/// tokens from `j` on when everything in between is whitespace.
#[verifier::spinoff_prover]
pub proof fn law_whitespace_skipped(s: Seq<char>, i: int, j: int)
    requires
        0 <= i <= j <= s.len(),
        forall|k: int| i <= k < j ==> is_whitespace(#[trigger] s[k]),
    ensures
        scan_all(s, i) == scan_all(s, j),
    decreases j - i,
{
    if i < j {
        law_whitespace_skipped(s, i + 1, j);
        assert(is_whitespace(s[i]));
        lemma_scan_token_advances(s, i + 1);
        assert(scan_token(s, i) == scan_token(s, i + 1));
    }
}

/// A `//` comment is skipped up to the end of its line: the tokens from the
/// comment on are the tokens after the line break.
#[verifier::spinoff_prover]
pub proof fn law_comment_skipped(s: Seq<char>, i: int)
    requires
        comment_at(s, i),
    ensures
        scan_all(s, i) == scan_all(s, comment_resume(s, i + 1)),
{
    lemma_find_char_bounds(s, i + 1, '\n');
    let r = comment_resume(s, i + 1);
    lemma_scan_token_advances(s, r);
    assert(scan_token(s, i) == scan_token(s, r));
}


/// `digits_end` depends only on the text from where it starts.
#[verifier::spinoff_prover]
proof fn lemma_shift_digits_end(p: Seq<char>, s: Seq<char>, i: int)
    requires
        0 <= i <= s.len(),
    ensures
        digits_end(p + s, i + p.len()) == digits_end(s, i) + p.len(),
    decreases s.len() - i,
{
    if i < s.len() {
        assert((p + s)[i + p.len()] == s[i]);
        lemma_shift_digits_end(p, s, i + 1);
    }
}

/// `ident_end` depends only on the text from where it starts.
#[verifier::spinoff_prover]
proof fn lemma_shift_ident_end(p: Seq<char>, s: Seq<char>, i: int)
    requires
        0 <= i <= s.len(),
    ensures
        ident_end(p + s, i + p.len()) == ident_end(s, i) + p.len(),
    decreases s.len() - i,
{
    if i < s.len() {
        assert((p + s)[i + p.len()] == s[i]);
        lemma_shift_ident_end(p, s, i + 1);
    }
}

/// `find_char` depends only on the text from where it starts.
#[verifier::spinoff_prover]
proof fn lemma_shift_find_char(p: Seq<char>, s: Seq<char>, i: int, c: char)
    requires
        0 <= i <= s.len(),
    ensures
        find_char(p + s, i + p.len(), c) == find_char(s, i, c) + p.len(),
    decreases s.len() - i,
{
    if i < s.len() {
        assert((p + s)[i + p.len()] == s[i]);
        lemma_shift_find_char(p, s, i + 1, c);
    }
}

/// A subrange of `p + s` past `p` is the same subrange of `s`.
#[verifier::spinoff_prover]
proof fn lemma_shift_subrange(p: Seq<char>, s: Seq<char>, i: int, j: int)
    requires
        0 <= i <= j <= s.len(),
    ensures
        (p + s).subrange(i + p.len(), j + p.len()) == s.subrange(i, j),
{
    assert((p + s).subrange(i + p.len(), j + p.len()) =~= s.subrange(i, j));
}

/// The token scanned at a position depends only on the text from there on.
#[verifier::spinoff_prover]
proof fn lemma_shift_scan_at(p: Seq<char>, s: Seq<char>, i: int)
    requires
        0 <= i < s.len(),
    ensures
        scan_at(p + s, i + p.len()) == (scan_at(s, i).0, scan_at(s, i).1 + p.len()),
{
    let t = p + s;
    let d = p.len() as int;
    assert(t[i + d] == s[i]);
    if i + 1 < s.len() {
        assert(t[i + 1 + d] == s[i + 1]);
    }
    lemma_find_char_bounds(s, i + 1, '"');
    lemma_shift_find_char(p, s, i + 1, '"');
    let q = find_char(s, i + 1, '"');
    lemma_shift_subrange(p, s, i + 1, q);
    lemma_digits_end_bounds(s, i + 1);
    lemma_shift_digits_end(p, s, i + 1);
    let j = digits_end(s, i + 1);
    lemma_shift_subrange(p, s, i, j);
    if j < s.len() {
        assert(t[j + d] == s[j]);
    }
    if j + 1 < s.len() {
        assert(t[j + 1 + d] == s[j + 1]);
    }
    if j + 1 <= s.len() {
        lemma_digits_end_bounds(s, j + 1);
        lemma_shift_digits_end(p, s, j + 1);
        lemma_shift_subrange(p, s, i, digits_end(s, j + 1));
    }
    lemma_ident_end_bounds(s, i + 1);
    lemma_shift_ident_end(p, s, i + 1);
    lemma_shift_subrange(p, s, i, ident_end(s, i + 1));
}

/// The next token from a position depends only on the text from there on.
#[verifier::spinoff_prover]
proof fn lemma_shift_scan_token(p: Seq<char>, s: Seq<char>, i: int)
    requires
        0 <= i <= s.len(),
    ensures
        scan_token(p + s, i + p.len()) == match scan_token(s, i) {
            Some((tok, j)) => Some((tok, j + p.len())),
            None => None,
        },
    decreases s.len() - i,
{
    let t = p + s;
    let d = p.len() as int;
    if i < s.len() {
        assert(t[i + d] == s[i]);
        if i + 1 < s.len() {
            assert(t[i + 1 + d] == s[i + 1]);
        }
        if is_whitespace(s[i]) {
            lemma_shift_scan_token(p, s, i + 1);
        } else if comment_at(s, i) {
            lemma_find_char_bounds(s, i + 1, '\n');
            lemma_shift_find_char(p, s, i + 1, '\n');
            lemma_shift_scan_token(p, s, comment_resume(s, i + 1));
        } else {
            lemma_shift_scan_at(p, s, i);
        }
    }
}

/// The tokens from a position depend only on the text from there on: what
/// comes before a position never changes how the rest is scanned.
#[verifier::spinoff_prover]
pub proof fn law_scan_is_local(p: Seq<char>, s: Seq<char>, i: int)
    requires
        0 <= i <= s.len(),
    ensures
        scan_all(p + s, i + p.len()) == scan_all(s, i),
    decreases s.len() - i,
{
    lemma_shift_scan_token(p, s, i);
    lemma_scan_token_advances(s, i);
    if let Some((tok, j)) = scan_token(s, i) {
        law_scan_is_local(p, s, j);
    }
}

/// Whitespace in front of a text does not change its tokens.
#[verifier::spinoff_prover]
pub proof fn law_whitespace_prefix(w: Seq<char>, s: Seq<char>)
    requires
        forall|k: int|
            0 <= k < w.len() ==> #[trigger] w[k] == ' ' || w[k] == '\n' || w[k] == '\t' || w[k]
                == '\r',
    ensures
        tokens_of(w + s) == tokens_of(s),
{
    reveal(tokens_of);
    let t = w + s;
    assert forall|k: int| 0 <= k < w.len() implies is_whitespace(#[trigger] t[k]) by {
        assert(t[k] == w[k]);
    }
    law_whitespace_skipped(t, 0, w.len() as int);
    law_scan_is_local(w, s, 0);
}


/// `digits_end` within `a` is the same when whitespace follows `a`.
#[verifier::spinoff_prover]
proof fn lemma_digits_end_before_space(a: Seq<char>, r: Seq<char>, k: int)
    requires
        0 <= k <= a.len(),
        r.len() > 0,
        is_whitespace(r[0]),
    ensures
        digits_end(a + r, k) == digits_end(a, k),
    decreases a.len() - k,
{
    let t = a + r;
    if k < a.len() {
        assert(t[k] == a[k]);
        lemma_digits_end_before_space(a, r, k + 1);
    } else {
        assert(t[k] == r[0]);
    }
}

/// `ident_end` within `a` is the same when whitespace follows `a`.
#[verifier::spinoff_prover]
proof fn lemma_ident_end_before_space(a: Seq<char>, r: Seq<char>, k: int)
    requires
        0 <= k <= a.len(),
        r.len() > 0,
        is_whitespace(r[0]),
    ensures
        ident_end(a + r, k) == ident_end(a, k),
    decreases a.len() - k,
{
    let t = a + r;
    if k < a.len() {
        assert(t[k] == a[k]);
        lemma_ident_end_before_space(a, r, k + 1);
    } else {
        assert(t[k] == r[0]);
    }
}

/// A `c` found within `a` is found at the same place in `a + r`.
#[verifier::spinoff_prover]
proof fn lemma_find_char_within(a: Seq<char>, r: Seq<char>, k: int, c: char)
    requires
        0 <= k <= a.len(),
        find_char(a, k, c) < a.len(),
    ensures
        find_char(a + r, k, c) == find_char(a, k, c),
    decreases a.len() - k,
{
    let t = a + r;
    if k < a.len() {
        assert(t[k] == a[k]);
        if a[k] != c {
            lemma_find_char_within(a, r, k + 1, c);
        }
    }
}

/// A text that is exactly one token, with nothing around it, which whitespace
/// after it cannot change: not a number that ends in `.`, and not an
/// unterminated string.
pub open spec fn one_token_text(a: Seq<char>) -> bool {
    &&& a.len() > 0
    &&& !is_whitespace(a[0])
    &&& !comment_at(a, 0)
    &&& scan_at(a, 0).1 == a.len()
    &&& a[a.len() - 1] != '.'
    &&& (a[0] == '"' ==> a.len() >= 2 && a[a.len() - 1] == '"')
}

/// The token of a one-token text is scanned the same when whitespace follows.
#[verifier::spinoff_prover]
#[verifier::rlimit(30)]
proof fn lemma_scan_at_before_space(a: Seq<char>, r: Seq<char>)
    requires
        one_token_text(a),
        r.len() > 0,
        is_whitespace(r[0]),
    ensures
        scan_at(a + r, 0) == scan_at(a, 0),
{
    let t = a + r;
    let n = a.len() as int;
    assert(t[0] == a[0]);
    if n > 1 {
        assert(t[1] == a[1]);
    } else {
        assert(t[1] == r[0]);
    }
    assert forall|x: int, y: int| 0 <= x <= y <= n implies #[trigger] t.subrange(x, y) == a.subrange(
        x,
        y,
    ) by {
        assert(t.subrange(x, y) =~= a.subrange(x, y));
    }
    if a[0] == '"' {
        lemma_find_char_bounds(a, 1, '"');
        let q = find_char(a, 1, '"');
        if q >= n {
            assert(a[n - 1] != '"');
        }
        lemma_find_char_within(a, r, 1, '"');
    }
    lemma_digits_end_bounds(a, 1);
    lemma_digits_end_before_space(a, r, 1);
    let j = digits_end(a, 1);
    if j < n {
        assert(t[j] == a[j]);
    } else {
        assert(t[j] == r[0]);
    }
    if j + 1 < n {
        assert(t[j + 1] == a[j + 1]);
        lemma_digits_end_bounds(a, j + 1);
        lemma_digits_end_before_space(a, r, j + 1);
    }
    lemma_ident_end_bounds(a, 1);
    lemma_ident_end_before_space(a, r, 1);
}

/// Whitespace never yields a token and only separates tokens: a text of
/// whitespace has no tokens, and whitespace after a one-token text `a` splits
/// the token of `a` from the tokens of whatever follows.
#[verifier::spinoff_prover]
pub proof fn law_whitespace_separates(a: Seq<char>, w: Seq<char>, b: Seq<char>)
    requires
        w.len() > 0,
        forall|k: int| 0 <= k < w.len() ==> is_whitespace(#[trigger] w[k]),
        one_token_text(a),
    ensures
        tokens_of(w) == Seq::<SpecToken>::empty(),
        tokens_of(a) == seq![scan_at(a, 0).0],
        tokens_of(a + w + b) == tokens_of(a) + tokens_of(b),
{
    reveal(tokens_of);
    let e = Seq::<char>::empty();
    law_whitespace_prefix(w, e);
    assert(w + e =~= w);
    lemma_scan_at_advances(a, 0);
    assert(scan_token(a, 0) == Some(scan_at(a, 0)));
    assert(scan_all(a, a.len() as int) == Seq::<SpecToken>::empty());
    let r = w + b;
    let t = a + r;
    assert(a + w + b =~= t);
    assert(r[0] == w[0]);
    lemma_scan_at_before_space(a, r);
    assert(t[0] == a[0]);
    if a.len() > 1 {
        assert(t[1] == a[1]);
    } else {
        assert(t[1] == r[0]);
    }
    assert(scan_token(t, 0) == Some(scan_at(a, 0)));
    law_scan_is_local(a, r, 0);
    law_whitespace_prefix(w, b);
}


/// `find_char` runs to the end when no `c` follows `i`.
#[verifier::spinoff_prover]
proof fn lemma_find_char_absent(s: Seq<char>, i: int, c: char)
    requires
        0 <= i <= s.len(),
        forall|k: int| i <= k < s.len() ==> s[k] != c,
    ensures
        find_char(s, i, c) == s.len(),
    decreases s.len() - i,
{
    if i < s.len() {
        lemma_find_char_absent(s, i + 1, c);
    }
}

/// `ident_end` runs to the end over identifier characters.
#[verifier::spinoff_prover]
proof fn lemma_ident_end_all(s: Seq<char>, i: int)
    requires
        0 <= i <= s.len(),
        forall|k: int| i <= k < s.len() ==> is_ident_char(#[trigger] s[k]),
    ensures
        ident_end(s, i) == s.len(),
    decreases s.len() - i,
{
    if i < s.len() {
        lemma_ident_end_all(s, i + 1);
    }
}

/// `digits_end` runs to the end over digits.
#[verifier::spinoff_prover]
proof fn lemma_digits_end_all(s: Seq<char>, i: int)
    requires
        0 <= i <= s.len(),
        forall|k: int| i <= k < s.len() ==> is_digit(#[trigger] s[k]),
    ensures
        digits_end(s, i) == s.len(),
    decreases s.len() - i,
{
    if i < s.len() {
        lemma_digits_end_all(s, i + 1);
    }
}

/// `digits_end` stops at the first non-digit after a run of digits.
#[verifier::spinoff_prover]
proof fn lemma_digits_end_stop(s: Seq<char>, i: int, j: int)
    requires
        0 <= i <= j < s.len(),
        forall|k: int| i <= k < j ==> is_digit(#[trigger] s[k]),
        !is_digit(s[j]),
    ensures
        digits_end(s, i) == j,
    decreases j - i,
{
    if i < j {
        lemma_digits_end_stop(s, i + 1, j);
    }
}

/// A text whose first token takes the whole text has that token alone.
#[verifier::spinoff_prover]
proof fn lemma_whole_text_token(s: Seq<char>, tok: SpecToken)
    requires
        s.len() > 0,
        !is_whitespace(s[0]),
        !comment_at(s, 0),
        scan_at(s, 0) == (tok, s.len() as int),
    ensures
        tokens_of(s) == seq![tok],
{
    reveal(tokens_of);
    assert(scan_token(s, 0) == Some((tok, s.len() as int)));
    assert(scan_all(s, s.len() as int) == Seq::<SpecToken>::empty());
    assert(seq![tok] + Seq::<SpecToken>::empty() =~= seq![tok]);
}

/// A word starting with a letter or `_` and made of letters, digits and `_`.
pub open spec fn is_word(w: Seq<char>) -> bool {
    &&& w.len() > 0
    &&& (('a' <= w[0] && w[0] <= 'z') || ('A' <= w[0] && w[0] <= 'Z') || w[0] == '_')
    &&& forall|k: int|
        0 <= k < w.len() ==> #[trigger] w[k] == '_' || ('a' <= w[k] && w[k] <= 'z') || ('A'
            <= w[k] && w[k] <= 'Z') || ('0' <= w[k] && w[k] <= '9')
}

/// A word is scanned whole, as the token for that word.
#[verifier::spinoff_prover]
proof fn lemma_word_scan(w: Seq<char>)
    requires
        is_word(w),
    ensures
        tokens_of(w) == seq![word_token(w)],
{
    assert forall|k: int| 1 <= k < w.len() implies is_ident_char(#[trigger] w[k]) by {
        assert(w[k] == '_' || ('a' <= w[k] && w[k] <= 'z') || ('A' <= w[k] && w[k] <= 'Z') || (
        '0' <= w[k] && w[k] <= '9'));
    }
    lemma_ident_end_all(w, 1);
    assert(w.subrange(0, w.len() as int) =~= w);
    lemma_whole_text_token(w, word_token(w));
}

/// Every word that is not one of the sixteen reserved words is one
/// identifier holding the word unchanged, whatever the case of its letters.
#[verifier::spinoff_prover]
pub proof fn law_identifier_word(w: Seq<char>)
    requires
        is_word(w),
        w != seq!['a', 'n', 'd'],
        w != seq!['c', 'l', 'a', 's', 's'],
        w != seq!['e', 'l', 's', 'e'],
        w != seq!['f', 'a', 'l', 's', 'e'],
        w != seq!['f', 'o', 'r'],
        w != seq!['f', 'u', 'n'],
        w != seq!['i', 'f'],
        w != seq!['n', 'i', 'l'],
        w != seq!['o', 'r'],
        w != seq!['p', 'r', 'i', 'n', 't'],
        w != seq!['r', 'e', 't', 'u', 'r', 'n'],
        w != seq!['s', 'u', 'p', 'e', 'r'],
        w != seq!['t', 'h', 'i', 's'],
        w != seq!['t', 'r', 'u', 'e'],
        w != seq!['v', 'a', 'r'],
        w != seq!['w', 'h', 'i', 'l', 'e'],
    ensures
        tokens_of(w) == seq![SpecToken::Identifier(w)],
{
    lemma_word_scan(w);
}

/// Each reserved word, spelled in lower case, is its keyword token.
#[verifier::spinoff_prover]
pub proof fn law_reserved_words()
    ensures
        tokens_of(seq!['a', 'n', 'd']) == seq![SpecToken::And],
        tokens_of(seq!['c', 'l', 'a', 's', 's']) == seq![SpecToken::Class],
        tokens_of(seq!['e', 'l', 's', 'e']) == seq![SpecToken::Else],
        tokens_of(seq!['f', 'a', 'l', 's', 'e']) == seq![SpecToken::False],
        tokens_of(seq!['f', 'o', 'r']) == seq![SpecToken::For],
        tokens_of(seq!['f', 'u', 'n']) == seq![SpecToken::Fun],
        tokens_of(seq!['i', 'f']) == seq![SpecToken::If],
        tokens_of(seq!['n', 'i', 'l']) == seq![SpecToken::Nil],
        tokens_of(seq!['o', 'r']) == seq![SpecToken::Or],
        tokens_of(seq!['p', 'r', 'i', 'n', 't']) == seq![SpecToken::Print],
        tokens_of(seq!['r', 'e', 't', 'u', 'r', 'n']) == seq![SpecToken::Return],
        tokens_of(seq!['s', 'u', 'p', 'e', 'r']) == seq![SpecToken::Super],
        tokens_of(seq!['t', 'h', 'i', 's']) == seq![SpecToken::This],
        tokens_of(seq!['t', 'r', 'u', 'e']) == seq![SpecToken::True],
        tokens_of(seq!['v', 'a', 'r']) == seq![SpecToken::Var],
        tokens_of(seq!['w', 'h', 'i', 'l', 'e']) == seq![SpecToken::While],
{
    lemma_word_scan(seq!['a', 'n', 'd']);
    lemma_word_scan(seq!['c', 'l', 'a', 's', 's']);
    lemma_word_scan(seq!['e', 'l', 's', 'e']);
    lemma_word_scan(seq!['f', 'a', 'l', 's', 'e']);
    lemma_word_scan(seq!['f', 'o', 'r']);
    lemma_word_scan(seq!['f', 'u', 'n']);
    lemma_word_scan(seq!['i', 'f']);
    lemma_word_scan(seq!['n', 'i', 'l']);
    lemma_word_scan(seq!['o', 'r']);
    lemma_word_scan(seq!['p', 'r', 'i', 'n', 't']);
    lemma_word_scan(seq!['r', 'e', 't', 'u', 'r', 'n']);
    lemma_word_scan(seq!['s', 'u', 'p', 'e', 'r']);
    lemma_word_scan(seq!['t', 'h', 'i', 's']);
    lemma_word_scan(seq!['t', 'r', 'u', 'e']);
    lemma_word_scan(seq!['v', 'a', 'r']);
    lemma_word_scan(seq!['w', 'h', 'i', 'l', 'e']);
}

/// A quote, any characters other than a quote, and a closing quote are one
/// string literal holding exactly those characters, the empty string too.
#[verifier::spinoff_prover]
pub proof fn law_string_literal(s: Seq<char>)
    requires
        forall|k: int| 0 <= k < s.len() ==> s[k] != '"',
    ensures
        tokens_of(seq!['"'] + s + seq!['"']) == seq![SpecToken::String(s)],
{
    let t = seq!['"'] + s + seq!['"'];
    let n = s.len() as int;
    assert(t[0] == '"');
    assert(t[n + 1] == '"');
    assert forall|k: int| 1 <= k < n + 1 implies t[k] != '"' by {
        assert(t[k] == s[k - 1]);
    }
    lemma_find_char_bounds(t, 1, '"');
    if find_char(t, 1, '"') < n + 1 {
        assert(t[find_char(t, 1, '"')] != '"');
    }
    assert(t.subrange(1, n + 1) =~= s);
    lemma_whole_text_token(t, SpecToken::String(s));
}

/// A quote with no closing quote after it is an error that takes the rest
/// of the text.
#[verifier::spinoff_prover]
pub proof fn law_unterminated_string(s: Seq<char>)
    requires
        forall|k: int| 0 <= k < s.len() ==> s[k] != '"',
    ensures
        tokens_of(seq!['"'] + s) == seq![SpecToken::Error],
{
    let t = seq!['"'] + s;
    assert(t[0] == '"');
    assert forall|k: int| 1 <= k < t.len() implies t[k] != '"' by {
        assert(t[k] == s[k - 1]);
    }
    lemma_find_char_absent(t, 1, '"');
    lemma_whole_text_token(t, SpecToken::Error);
}

/// A run of digits is one number literal spelled by those digits.
#[verifier::spinoff_prover]
pub proof fn law_integer_literal(d: Seq<char>)
    requires
        d.len() > 0,
        forall|k: int| 0 <= k < d.len() ==> is_digit(#[trigger] d[k]),
    ensures
        tokens_of(d) == seq![SpecToken::Number(d)],
{
    lemma_digits_end_all(d, 1);
    assert(d.subrange(0, d.len() as int) =~= d);
    lemma_whole_text_token(d, SpecToken::Number(d));
}

/// Digits, a `.` and more digits are one number literal spelled by them all.
#[verifier::spinoff_prover]
pub proof fn law_decimal_literal(d: Seq<char>, f: Seq<char>)
    requires
        d.len() > 0,
        f.len() > 0,
        forall|k: int| 0 <= k < d.len() ==> is_digit(#[trigger] d[k]),
        forall|k: int| 0 <= k < f.len() ==> is_digit(#[trigger] f[k]),
    ensures
        tokens_of(d + seq!['.'] + f) == seq![SpecToken::Number(d + seq!['.'] + f)],
{
    let t = d + seq!['.'] + f;
    let n = d.len() as int;
    assert forall|k: int| 0 <= k < n implies is_digit(#[trigger] t[k]) by {
        assert(t[k] == d[k]);
    }
    assert(t[n] == '.');
    assert(t[n + 1] == f[0]);
    lemma_digits_end_stop(t, 1, n);
    assert forall|k: int| n + 1 <= k < t.len() implies is_digit(#[trigger] t[k]) by {
        assert(t[k] == f[k - n - 1]);
    }
    lemma_digits_end_all(t, n + 1);
    assert(t.subrange(0, t.len() as int) =~= t);
    lemma_whole_text_token(t, SpecToken::Number(t));
}

/// The punctuation of Lox: at each of these characters the next token is the
/// one it stands for, read by maximal munch for `!=`, `==`, `<=` and `>=`.
#[verifier::spinoff_prover]
pub proof fn law_punctuation(s: Seq<char>, i: int)
    requires
        0 <= i < s.len(),
    ensures
        s[i] == '(' ==> scan_token(s, i) == Some((SpecToken::LParens, i + 1)),
        s[i] == ')' ==> scan_token(s, i) == Some((SpecToken::RParens, i + 1)),
        s[i] == '{' ==> scan_token(s, i) == Some((SpecToken::LBrace, i + 1)),
        s[i] == '}' ==> scan_token(s, i) == Some((SpecToken::RBrace, i + 1)),
        s[i] == ',' ==> scan_token(s, i) == Some((SpecToken::Comma, i + 1)),
        s[i] == '-' ==> scan_token(s, i) == Some((SpecToken::Minus, i + 1)),
        s[i] == '+' ==> scan_token(s, i) == Some((SpecToken::Plus, i + 1)),
        s[i] == ';' ==> scan_token(s, i) == Some((SpecToken::Semicolon, i + 1)),
        s[i] == '*' ==> scan_token(s, i) == Some((SpecToken::Star, i + 1)),
        s[i] == '/' && !(i + 1 < s.len() && s[i + 1] == '/') ==> scan_token(s, i) == Some(
            (SpecToken::Slash, i + 1),
        ),
        s[i] == '!' && i + 1 < s.len() && s[i + 1] == '=' ==> scan_token(s, i) == Some(
            (SpecToken::BangEqual, i + 2),
        ),
        s[i] == '!' && !(i + 1 < s.len() && s[i + 1] == '=') ==> scan_token(s, i) == Some(
            (SpecToken::Bang, i + 1),
        ),
        s[i] == '=' && i + 1 < s.len() && s[i + 1] == '=' ==> scan_token(s, i) == Some(
            (SpecToken::EqualEqual, i + 2),
        ),
        s[i] == '=' && !(i + 1 < s.len() && s[i + 1] == '=') ==> scan_token(s, i) == Some(
            (SpecToken::Equal, i + 1),
        ),
        s[i] == '<' && i + 1 < s.len() && s[i + 1] == '=' ==> scan_token(s, i) == Some(
            (SpecToken::LessEqual, i + 2),
        ),
        s[i] == '<' && !(i + 1 < s.len() && s[i + 1] == '=') ==> scan_token(s, i) == Some(
            (SpecToken::Less, i + 1),
        ),
        s[i] == '>' && i + 1 < s.len() && s[i + 1] == '=' ==> scan_token(s, i) == Some(
            (SpecToken::GreaterEqual, i + 2),
        ),
        s[i] == '>' && !(i + 1 < s.len() && s[i + 1] == '=') ==> scan_token(s, i) == Some(
            (SpecToken::Greater, i + 1),
        ),
{
}


/// A `//` comment runs to the end of its line and yields nothing: the
/// tokens after a comment line are the tokens of what follows the line
/// break, and a comment that ends the text yields no token.
#[verifier::spinoff_prover]
pub proof fn law_comment_line(c: Seq<char>, s: Seq<char>)
    requires
        forall|k: int| 0 <= k < c.len() ==> c[k] != '\n',
    ensures
        tokens_of(seq!['/', '/'] + c + seq!['\n'] + s) == tokens_of(s),
        tokens_of(seq!['/', '/'] + c) == Seq::<SpecToken>::empty(),
{
    reveal(tokens_of);
    let p = seq!['/', '/'] + c + seq!['\n'];
    let t = p + s;
    let n = c.len() as int;
    assert(seq!['/', '/'] + c + seq!['\n'] + s =~= t);
    assert(t[0] == '/' && t[1] == '/');
    assert(t[n + 2] == '\n');
    assert forall|k: int| 1 <= k < n + 2 implies t[k] != '\n' by {
        if k >= 2 {
            assert(t[k] == c[k - 2]);
        }
    }
    lemma_find_char_bounds(t, 1, '\n');
    if find_char(t, 1, '\n') < n + 2 {
        assert(t[find_char(t, 1, '\n')] != '\n');
    }
    law_comment_skipped(t, 0);
    law_scan_is_local(p, s, 0);
    let u = seq!['/', '/'] + c;
    assert(u[0] == '/' && u[1] == '/');
    assert forall|k: int| 1 <= k < u.len() implies u[k] != '\n' by {
        if k >= 2 {
            assert(u[k] == c[k - 2]);
        }
    }
    lemma_find_char_absent(u, 1, '\n');
    law_comment_skipped(u, 0);
}

/// A character that starts no token is an error token of its own, and
/// scanning goes on right after it.
#[verifier::spinoff_prover]
pub proof fn law_unknown_character(c: char, s: Seq<char>)
    requires
        !(c == ' ' || c == '\n' || c == '\t' || c == '\r' || c == '"' || c == '(' || c == ')'
            || c == '{' || c == '}' || c == ',' || c == '-' || c == '+' || c == ';' || c == '*'
            || c == '!' || c == '=' || c == '<' || c == '>' || c == '/' || c == '_' || ('0' <= c
            && c <= '9') || ('a' <= c && c <= 'z') || ('A' <= c && c <= 'Z')),
    ensures
        tokens_of(seq![c] + s) == seq![SpecToken::Error] + tokens_of(s),
{
    reveal(tokens_of);
    let t = seq![c] + s;
    assert(t[0] == c);
    assert(scan_token(t, 0) == Some((SpecToken::Error, 1int)));
    law_scan_is_local(seq![c], s, 0);
}

/// Digits and a `.` that ends the text are one number literal spelled with
/// the `.`; digits and a `.` followed by a character that is not a digit are
/// an error token, and scanning goes on at that character.
#[verifier::spinoff_prover]
pub proof fn law_number_with_bare_dot(d: Seq<char>, c: char, s: Seq<char>)
    requires
        d.len() > 0,
        forall|k: int| 0 <= k < d.len() ==> is_digit(#[trigger] d[k]),
        !('0' <= c && c <= '9'),
    ensures
        tokens_of(d + seq!['.']) == seq![SpecToken::Number(d + seq!['.'])],
        tokens_of(d + seq!['.'] + seq![c] + s) == seq![SpecToken::Error] + tokens_of(
            seq![c] + s,
        ),
{
    reveal(tokens_of);
    let n = d.len() as int;
    let a = d + seq!['.'];
    assert forall|k: int| 0 <= k < n implies is_digit(#[trigger] a[k]) by {
        assert(a[k] == d[k]);
    }
    assert(a[n] == '.');
    lemma_digits_end_stop(a, 1, n);
    lemma_digits_end_all(a, n + 1);
    assert(a.subrange(0, n + 1) =~= a);
    lemma_whole_text_token(a, SpecToken::Number(a));
    let r = seq![c] + s;
    let t = a + r;
    assert(d + seq!['.'] + seq![c] + s =~= t);
    assert forall|k: int| 0 <= k < n implies is_digit(#[trigger] t[k]) by {
        assert(t[k] == d[k]);
    }
    assert(t[n] == '.');
    assert(t[n + 1] == c);
    lemma_digits_end_stop(t, 1, n);
    assert(scan_token(t, 0) == Some((SpecToken::Error, n + 1)));
    law_scan_is_local(a, r, 0);
}

/// Scans all tokens of `source`.
pub fn tokenize(source: &str) -> (v: Vec<Token>)
    ensures
        view_tokens(v@) == tokens_of(source@),
{
    proof {
        reveal(tokens_of);
    }
    let mut lexer = Lexer::new(source);
    lexer.tokens()
}

} // verus!
