use vstd::prelude::*;

use crate::parser::ParseError;

verus! {

/// A token of the language. Operator tokens carry their character, which is
/// also the key of the operator precedence table.
#[derive(Debug, PartialEq)]
pub enum Token {
    Eof,
    Def,
    Extern,
    Identifier(String),
    /// A number literal as written: digits with at most one dot.
    Number(String),
    LParen(char),
    RParen(char),
    Plus(char),
    Minus(char),
    Star(char),
    Slash(char),
    Comma(char),
    Less(char),
    Greater(char),
    If,
    Else,
    Var,
    Then,
    For,
    In,
    Assign(char),
    Bang(char),
    Pipe(char),
    Ampersand(char),
    Caret(char),
    Percent(char),
    Dollar(char),
    At(char),
    Tilde(char),
    Binary(char),
    Unary(char),
}

impl Clone for Token {
    fn clone(&self) -> (r: Self)
        ensures
            r == *self,
    {
        match self {
            Token::Eof => Token::Eof,
            Token::Def => Token::Def,
            Token::Extern => Token::Extern,
            Token::Identifier(s) => Token::Identifier(s.clone()),
            Token::Number(s) => Token::Number(s.clone()),
            Token::LParen(c) => Token::LParen(*c),
            Token::RParen(c) => Token::RParen(*c),
            Token::Plus(c) => Token::Plus(*c),
            Token::Minus(c) => Token::Minus(*c),
            Token::Star(c) => Token::Star(*c),
            Token::Slash(c) => Token::Slash(*c),
            Token::Comma(c) => Token::Comma(*c),
            Token::Less(c) => Token::Less(*c),
            Token::Greater(c) => Token::Greater(*c),
            Token::If => Token::If,
            Token::Else => Token::Else,
            Token::Var => Token::Var,
            Token::Then => Token::Then,
            Token::For => Token::For,
            Token::In => Token::In,
            Token::Assign(c) => Token::Assign(*c),
            Token::Bang(c) => Token::Bang(*c),
            Token::Pipe(c) => Token::Pipe(*c),
            Token::Ampersand(c) => Token::Ampersand(*c),
            Token::Caret(c) => Token::Caret(*c),
            Token::Percent(c) => Token::Percent(*c),
            Token::Dollar(c) => Token::Dollar(*c),
            Token::At(c) => Token::At(*c),
            Token::Tilde(c) => Token::Tilde(*c),
            Token::Binary(c) => Token::Binary(*c),
            Token::Unary(c) => Token::Unary(*c),
        }
    }
}

/// The variant of a token, ignoring what it carries.
pub open spec fn kind(t: Token) -> int {
    match t {
        Token::Eof => 0,
        Token::Def => 1,
        Token::Extern => 2,
        Token::Identifier(_) => 3,
        Token::Number(_) => 4,
        Token::LParen(_) => 5,
        Token::RParen(_) => 6,
        Token::Plus(_) => 7,
        Token::Minus(_) => 8,
        Token::Star(_) => 9,
        Token::Slash(_) => 10,
        Token::Comma(_) => 11,
        Token::Less(_) => 12,
        Token::Greater(_) => 13,
        Token::If => 14,
        Token::Else => 15,
        Token::Var => 16,
        Token::Then => 17,
        Token::For => 18,
        Token::In => 19,
        Token::Assign(_) => 20,
        Token::Bang(_) => 21,
        Token::Pipe(_) => 22,
        Token::Ampersand(_) => 23,
        Token::Caret(_) => 24,
        Token::Percent(_) => 25,
        Token::Dollar(_) => 26,
        Token::At(_) => 27,
        Token::Tilde(_) => 28,
        Token::Binary(_) => 29,
        Token::Unary(_) => 30,
    }
}

impl Token {
    /// Whether two tokens are of the same variant.
    pub fn same_kind(&self, other: &Token) -> (r: bool)
        ensures
            r == (kind(*self) == kind(*other)),
    {
        self.kind_index() == other.kind_index()
    }

    fn kind_index(&self) -> (r: u8)
        ensures
            r as int == kind(*self),
    {
        match self {
            Token::Eof => 0,
            Token::Def => 1,
            Token::Extern => 2,
            Token::Identifier(_) => 3,
            Token::Number(_) => 4,
            Token::LParen(_) => 5,
            Token::RParen(_) => 6,
            Token::Plus(_) => 7,
            Token::Minus(_) => 8,
            Token::Star(_) => 9,
            Token::Slash(_) => 10,
            Token::Comma(_) => 11,
            Token::Less(_) => 12,
            Token::Greater(_) => 13,
            Token::If => 14,
            Token::Else => 15,
            Token::Var => 16,
            Token::Then => 17,
            Token::For => 18,
            Token::In => 19,
            Token::Assign(_) => 20,
            Token::Bang(_) => 21,
            Token::Pipe(_) => 22,
            Token::Ampersand(_) => 23,
            Token::Caret(_) => 24,
            Token::Percent(_) => 25,
            Token::Dollar(_) => 26,
            Token::At(_) => 27,
            Token::Tilde(_) => 28,
            Token::Binary(_) => 29,
            Token::Unary(_) => 30,
        }
    }
}

/// Whether `c` has Unicode's White_Space property.
pub uninterp spec fn white_space(c: char) -> bool;

/// Whether `c` has Unicode's Alphabetic property.
pub uninterp spec fn alphabetic(c: char) -> bool;

/// Whether `c` is alphabetic or numeric in Unicode's sense.
pub uninterp spec fn alphanumeric(c: char) -> bool;

/// Relies on `char::is_whitespace`.
#[verifier::external_body]
fn is_white_space(c: char) -> (r: bool)
    ensures
        r == white_space(c),
{
    c.is_whitespace()
}

/// Relies on `char::is_alphabetic`.
#[verifier::external_body]
fn is_alphabetic(c: char) -> (r: bool)
    ensures
        r == alphabetic(c),
{
    c.is_alphabetic()
}

/// Relies on `char::is_alphanumeric`.
#[verifier::external_body]
fn is_alphanumeric(c: char) -> (r: bool)
    ensures
        r == alphanumeric(c),
{
    c.is_alphanumeric()
}

/// Relies on `str::chars`: the characters of `s`, in order.
#[verifier::external_body]
pub(crate) fn chars_of(s: &str) -> (r: Vec<char>)
    ensures
        r@ == s@,
{
    s.chars().collect()
}

pub open spec fn is_digit(c: char) -> bool {
    '0' <= c && c <= '9'
}

/// The token that a character stands for on its own, if any.
pub open spec fn single_char_token(c: char) -> Option<Token> {
    if c == '(' {
        Some(Token::LParen(c))
    } else if c == ')' {
        Some(Token::RParen(c))
    } else if c == '+' {
        Some(Token::Plus(c))
    } else if c == ',' {
        Some(Token::Comma(c))
    } else if c == '-' {
        Some(Token::Minus(c))
    } else if c == '/' {
        Some(Token::Slash(c))
    } else if c == '*' {
        Some(Token::Star(c))
    } else if c == '>' {
        Some(Token::Greater(c))
    } else if c == '<' {
        Some(Token::Less(c))
    } else if c == '=' {
        Some(Token::Assign(c))
    } else if c == '!' {
        Some(Token::Bang(c))
    } else if c == '|' {
        Some(Token::Pipe(c))
    } else if c == '&' {
        Some(Token::Ampersand(c))
    } else if c == '^' {
        Some(Token::Caret(c))
    } else if c == '%' {
        Some(Token::Percent(c))
    } else if c == '$' {
        Some(Token::Dollar(c))
    } else if c == '@' {
        Some(Token::At(c))
    } else if c == '~' {
        Some(Token::Tilde(c))
    } else {
        None
    }
}

/// How many characters from `i` on continue a number literal: digits, and
/// one dot unless `dot` says that the literal already has one.
pub open spec fn number_len(s: Seq<char>, i: int, dot: bool) -> nat
    decreases s.len() - i,
{
    if 0 <= i < s.len() && is_digit(s[i]) {
        1 + number_len(s, i + 1, dot)
    } else if 0 <= i < s.len() && s[i] == '.' && !dot {
        1 + number_len(s, i + 1, true)
    } else {
        0
    }
}

/// How many alphanumeric characters follow from `i` on.
pub open spec fn word_len(s: Seq<char>, i: int) -> nat
    decreases s.len() - i,
{
    if 0 <= i < s.len() && alphanumeric(s[i]) {
        1 + word_len(s, (i + 1) as int)
    } else {
        0
    }
}

pub proof fn lemma_number_len_bound(s: Seq<char>, i: int, dot: bool)
    requires
        0 <= i,
    ensures
        i + number_len(s, i, dot) <= if i <= s.len() { s.len() as int } else { i },
    decreases s.len() - i,
{
    if 0 <= i < s.len() && is_digit(s[i]) {
        lemma_number_len_bound(s, i + 1, dot);
    } else if 0 <= i < s.len() && s[i] == '.' && !dot {
        lemma_number_len_bound(s, i + 1, true);
    }
}

pub proof fn lemma_word_len_bound(s: Seq<char>, i: int)
    requires
        0 <= i,
    ensures
        i + word_len(s, i) <= if i <= s.len() { s.len() as int } else { i },
    decreases s.len() - i,
{
    if 0 <= i < s.len() && alphanumeric(s[i]) {
        lemma_word_len_bound(s, (i + 1) as int);
    }
}

/// The keyword token that a word spells, if any.
pub open spec fn keyword(w: Seq<char>) -> Option<Token> {
    if w == "extern"@ {
        Some(Token::Extern)
    } else if w == "var"@ {
        Some(Token::Var)
    } else if w == "def"@ {
        Some(Token::Def)
    } else if w == "if"@ {
        Some(Token::If)
    } else if w == "else"@ {
        Some(Token::Else)
    } else if w == "then"@ {
        Some(Token::Then)
    } else if w == "for"@ {
        Some(Token::For)
    } else if w == "in"@ {
        Some(Token::In)
    } else {
        None
    }
}

/// Whether token `t` is what the word `w` lexes to (a keyword or an identifier).
pub open spec fn word_token(w: Seq<char>, t: Token) -> bool {
    match keyword(w) {
        Some(k) => t == k,
        None => t is Identifier && t->Identifier_0@ == w,
    }
}

/// Whether `w` is one of the words that declare an operator; the character
/// right after the word is the operator.
pub open spec fn is_operator_word(w: Seq<char>) -> bool {
    w == "binary"@ || w == "unary"@
}

pub open spec fn operator_decl_token(w: Seq<char>, c: char) -> Token {
    if w == "binary"@ {
        Token::Binary(c)
    } else {
        Token::Unary(c)
    }
}

/// Whether `toks` is the token sequence of `s` from character `i` on,
/// closed by `Eof`.
pub open spec fn scan_ok(s: Seq<char>, i: nat, toks: Seq<Token>) -> bool
    decreases s.len() - i, 1nat,
{
    if i >= s.len() {
        toks == seq![Token::Eof]
    } else {
        let c = s[i as int];
        if white_space(c) {
            scan_ok(s, i + 1, toks)
        } else if c == '#' {
            scan_comment_ok(s, i + 1, toks)
        } else if single_char_token(c) is Some {
            &&& toks.len() > 0
            &&& toks[0] == single_char_token(c)->Some_0
            &&& scan_ok(s, i + 1, toks.drop_first())
        } else if is_digit(c) {
            proof {
                lemma_number_len_bound(s, (i + 1) as int, false);
            }
            let e = i + 1 + number_len(s, (i + 1) as int, false);
            &&& toks.len() > 0
            &&& toks[0] is Number
            &&& toks[0]->Number_0@ == s.subrange(i as int, e as int)
            &&& scan_ok(s, e, toks.drop_first())
        } else if alphabetic(c) {
            proof {
                lemma_word_len_bound(s, (i + 1) as int);
            }
            let e = i + 1 + word_len(s, (i + 1) as int);
            let w = s.subrange(i as int, e as int);
            if is_operator_word(w) {
                &&& e < s.len()
                &&& toks.len() > 0
                &&& toks[0] == operator_decl_token(w, s[e as int])
                &&& scan_ok(s, e + 1, toks.drop_first())
            } else {
                &&& toks.len() > 0
                &&& word_token(w, toks[0])
                &&& scan_ok(s, e, toks.drop_first())
            }
        } else {
            scan_ok(s, i + 1, toks)
        }
    }
}

/// Like `scan_ok`, inside a comment that runs to the end of the line.
pub open spec fn scan_comment_ok(s: Seq<char>, i: nat, toks: Seq<Token>) -> bool
    decreases s.len() - i, 0nat,
{
    if i >= s.len() {
        toks == seq![Token::Eof]
    } else if s[i as int] == '\n' {
        scan_ok(s, i + 1, toks)
    } else {
        scan_comment_ok(s, i + 1, toks)
    }
}

/// Whether lexing `s` from character `i` on fails: an operator-declaring word
/// stands at the very end of the input, with no operator character after it.
pub open spec fn scan_fails(s: Seq<char>, i: nat) -> bool
    decreases s.len() - i, 1nat,
{
    if i >= s.len() {
        false
    } else {
        let c = s[i as int];
        if white_space(c) {
            scan_fails(s, i + 1)
        } else if c == '#' {
            scan_comment_fails(s, i + 1)
        } else if single_char_token(c) is Some {
            scan_fails(s, i + 1)
        } else if is_digit(c) {
            proof {
                lemma_number_len_bound(s, (i + 1) as int, false);
            }
            scan_fails(s, i + 1 + number_len(s, (i + 1) as int, false))
        } else if alphabetic(c) {
            proof {
                lemma_word_len_bound(s, (i + 1) as int);
            }
            let e = i + 1 + word_len(s, (i + 1) as int);
            let w = s.subrange(i as int, e as int);
            if is_operator_word(w) {
                e >= s.len() || scan_fails(s, e + 1)
            } else {
                scan_fails(s, e)
            }
        } else {
            scan_fails(s, i + 1)
        }
    }
}

pub open spec fn scan_comment_fails(s: Seq<char>, i: nat) -> bool
    decreases s.len() - i, 0nat,
{
    if i >= s.len() {
        false
    } else if s[i as int] == '\n' {
        scan_fails(s, i + 1)
    } else {
        scan_comment_fails(s, i + 1)
    }
}

/// The error of lexing.
#[derive(Debug, PartialEq, Eq, Structural)]
pub enum LexError {
    /// `binary` or `unary` ends the input, without the operator character.
    MissingOperatorChar,
}

/// A token sequence and a read position in it.
pub struct LexerContext {
    pub tokens: Vec<Token>,
    pub position: usize,
}

/// The token at position `p`, or `Eof` past the end.
pub open spec fn token_at(t: Seq<Token>, p: int) -> Token {
    if 0 <= p < t.len() {
        t[p]
    } else {
        Token::Eof
    }
}

fn single_token(c: char) -> (r: Option<Token>)
    ensures
        r == single_char_token(c),
{
    match c {
        '(' => Some(Token::LParen(c)),
        ')' => Some(Token::RParen(c)),
        '+' => Some(Token::Plus(c)),
        ',' => Some(Token::Comma(c)),
        '-' => Some(Token::Minus(c)),
        '/' => Some(Token::Slash(c)),
        '*' => Some(Token::Star(c)),
        '>' => Some(Token::Greater(c)),
        '<' => Some(Token::Less(c)),
        '=' => Some(Token::Assign(c)),
        '!' => Some(Token::Bang(c)),
        '|' => Some(Token::Pipe(c)),
        '&' => Some(Token::Ampersand(c)),
        '^' => Some(Token::Caret(c)),
        '%' => Some(Token::Percent(c)),
        '$' => Some(Token::Dollar(c)),
        '@' => Some(Token::At(c)),
        '~' => Some(Token::Tilde(c)),
        _ => None,
    }
}

/// Whether the characters `chars[start..end]` spell `word`.
fn spells(chars: &Vec<char>, start: usize, end: usize, word: &str) -> (r: bool)
    requires
        start <= end <= chars@.len(),
    ensures
        r == (chars@.subrange(start as int, end as int) == word@),
{
    let n = word.unicode_len();
    if end - start != n {
        return false;
    }
    let mut j: usize = 0;
    while j < n
        invariant
            start <= end <= chars@.len(),
            end - start == n,
            n == word@.len(),
            j <= n,
            forall|k: int| 0 <= k < j ==> chars@[start + k] == word@[k],
        decreases n - j,
    {
        if chars[start + j] != word.get_char(j) {
            assert(chars@.subrange(start as int, end as int)[j as int] != word@[j as int]);
            return false;
        }
        j += 1;
    }
    assert(chars@.subrange(start as int, end as int) =~= word@);
    true
}

fn keyword_token(chars: &Vec<char>, start: usize, end: usize) -> (r: Option<Token>)
    requires
        start <= end <= chars@.len(),
    ensures
        r == keyword(chars@.subrange(start as int, end as int)),
{
    if spells(chars, start, end, "extern") {
        Some(Token::Extern)
    } else if spells(chars, start, end, "var") {
        Some(Token::Var)
    } else if spells(chars, start, end, "def") {
        Some(Token::Def)
    } else if spells(chars, start, end, "if") {
        Some(Token::If)
    } else if spells(chars, start, end, "else") {
        Some(Token::Else)
    } else if spells(chars, start, end, "then") {
        Some(Token::Then)
    } else if spells(chars, start, end, "for") {
        Some(Token::For)
    } else if spells(chars, start, end, "in") {
        Some(Token::In)
    } else {
        None
    }
}

/// The position after reading one token at `p`: reading past the end stays put.
pub open spec fn advance(t: Seq<Token>, p: int) -> int {
    if p < t.len() {
        p + 1
    } else {
        p
    }
}

impl LexerContext {
    pub fn new() -> (r: Self)
        ensures
            r.tokens@ == Seq::<Token>::empty(),
            r.position == 0,
    {
        LexerContext { tokens: Vec::new(), position: 0 }
    }

    /// Turns `input` into tokens, closed by `Eof`; the read position is kept.
    /// Whitespace, `#` comments up to the end of the line, and characters that
    /// start no token are skipped.
    pub fn lex(&mut self, input: &str) -> (r: Result<(), LexError>)
        ensures
            r is Err <==> scan_fails(input@, 0),
            r is Ok ==> scan_ok(input@, 0, final(self).tokens@),
            r is Err ==> final(self).tokens@ == old(self).tokens@,
            final(self).position == old(self).position,
    {
        let s = chars_of(input);
        let n = s.len();
        let mut tokens: Vec<Token> = Vec::new();
        let mut cursor: usize = 0;
        while cursor < n
            invariant
                s@ == input@,
                n == s@.len(),
                cursor <= n,
                forall|rest: Seq<Token>|
                    scan_ok(s@, cursor as nat, rest) ==> #[trigger] scan_ok(s@, 0, tokens@ + rest),
                scan_fails(s@, 0) == scan_fails(s@, cursor as nat),
            decreases n - cursor,
        {
            let c = s[cursor];
            if is_white_space(c) {
                cursor += 1;
                continue;
            }
            if c == '#' {
                let mut j: usize = cursor + 1;
                while j < n && s[j] != '\n'
                    invariant
                        cursor < j <= n,
                        n == s@.len(),
                        forall|rest: Seq<Token>|
                            #[trigger] scan_comment_ok(s@, j as nat, rest) == scan_comment_ok(
                                s@,
                                (cursor + 1) as nat,
                                rest,
                            ),
                        scan_comment_fails(s@, j as nat) == scan_comment_fails(
                            s@,
                            (cursor + 1) as nat,
                        ),
                    decreases n - j,
                {
                    assert forall|rest: Seq<Token>|
                        #[trigger] scan_comment_ok(s@, (j + 1) as nat, rest) == scan_comment_ok(
                            s@,
                            j as nat,
                            rest,
                        ) by {}
                    j += 1;
                }
                let next = if j < n {
                    j + 1
                } else {
                    n
                };
                assert forall|rest: Seq<Token>| scan_ok(s@, next as nat, rest) implies #[trigger] scan_ok(
                    s@,
                    0,
                    tokens@ + rest,
                ) by {
                    assert(scan_comment_ok(s@, j as nat, rest));
                }
                cursor = next;
                continue;
            }
            let single = single_token(c);
            if let Some(tok) = single {
                let ghost t = tok;
                let ghost old_tokens = tokens@;
                tokens.push(tok);
                assert forall|rest: Seq<Token>| scan_ok(s@, (cursor + 1) as nat, rest) implies #[trigger] scan_ok(
                    s@,
                    0,
                    tokens@ + rest,
                ) by {
                    assert((seq![t] + rest).drop_first() =~= rest);
                    assert(scan_ok(s@, cursor as nat, seq![t] + rest));
                    assert(old_tokens + (seq![t] + rest) =~= tokens@ + rest);
                }
                cursor += 1;
                continue;
            }
            if '0' <= c && c <= '9' {
                let start = cursor;
                let mut j: usize = cursor + 1;
                let mut dot = false;
                while j < n && (('0' <= s[j] && s[j] <= '9') || (s[j] == '.' && !dot))
                    invariant
                        start < j <= n,
                        n == s@.len(),
                        start + 1 + number_len(s@, start + 1, false) == j + number_len(
                            s@,
                            j as int,
                            dot,
                        ),
                    decreases n - j,
                {
                    if s[j] == '.' {
                        dot = true;
                    }
                    j += 1;
                }
                let text = input.substring_char(start, j).to_owned();
                let tok = Token::Number(text);
                let ghost t = tok;
                let ghost old_tokens = tokens@;
                tokens.push(tok);
                assert forall|rest: Seq<Token>| scan_ok(s@, j as nat, rest) implies #[trigger] scan_ok(
                    s@,
                    0,
                    tokens@ + rest,
                ) by {
                    assert((seq![t] + rest).drop_first() =~= rest);
                    assert(scan_ok(s@, cursor as nat, seq![t] + rest));
                    assert(old_tokens + (seq![t] + rest) =~= tokens@ + rest);
                }
                cursor = j;
                continue;
            }
            if is_alphabetic(c) {
                let start = cursor;
                let mut j: usize = cursor + 1;
                while j < n && is_alphanumeric(s[j])
                    invariant
                        start < j <= n,
                        n == s@.len(),
                        start + 1 + word_len(s@, start + 1) == j + word_len(s@, j as int),
                    decreases n - j,
                {
                    j += 1;
                }
                let ghost w = s@.subrange(start as int, j as int);
                let binary = spells(&s, start, j, "binary");
                if binary || spells(&s, start, j, "unary") {
                    if j >= n {
                        return Err(LexError::MissingOperatorChar);
                    }
                    let op = s[j];
                    let tok = if binary {
                        Token::Binary(op)
                    } else {
                        Token::Unary(op)
                    };
                    let ghost t = tok;
                    let ghost old_tokens = tokens@;
                    assert(w == s@.subrange(cursor as int, (cursor + 1 + word_len(s@, cursor + 1)) as int));
                    assert(is_operator_word(w));
                    assert(t == operator_decl_token(w, s@[j as int]));
                    tokens.push(tok);
                    assert forall|rest: Seq<Token>| scan_ok(s@, (j + 1) as nat, rest) implies #[trigger] scan_ok(
                        s@,
                        0,
                        tokens@ + rest,
                    ) by {
                        assert((seq![t] + rest).drop_first() =~= rest);
                        assert(scan_ok(s@, cursor as nat, seq![t] + rest));
                        assert(old_tokens + (seq![t] + rest) =~= tokens@ + rest);
                    }
                    cursor = j + 1;
                    continue;
                }
                let tok = match keyword_token(&s, start, j) {
                    Some(k) => k,
                    None => Token::Identifier(input.substring_char(start, j).to_owned()),
                };
                let ghost t = tok;
                let ghost old_tokens = tokens@;
                tokens.push(tok);
                assert forall|rest: Seq<Token>| scan_ok(s@, j as nat, rest) implies #[trigger] scan_ok(
                    s@,
                    0,
                    tokens@ + rest,
                ) by {
                    assert((seq![t] + rest).drop_first() =~= rest);
                    assert(scan_ok(s@, cursor as nat, seq![t] + rest));
                    assert(old_tokens + (seq![t] + rest) =~= tokens@ + rest);
                }
                cursor = j;
                continue;
            }
            cursor += 1;
        }
        let ghost old_tokens = tokens@;
        tokens.push(Token::Eof);
        assert(scan_ok(s@, cursor as nat, seq![Token::Eof]));
        assert(old_tokens + seq![Token::Eof] =~= tokens@);
        self.tokens = tokens;
        Ok(())
    }

    /// Reads the token at the position and moves past it; past the end it
    /// reads `Eof` and stays.
    pub fn next_token(&mut self) -> (r: Token)
        ensures
            r == token_at(old(self).tokens@, old(self).position as int),
            final(self).tokens@ == old(self).tokens@,
            final(self).position as int == advance(old(self).tokens@, old(self).position as int),
    {
        if self.position < self.tokens.len() {
            let tok = self.tokens[self.position].clone();
            self.position += 1;
            tok
        } else {
            Token::Eof
        }
    }

    /// The token at the position, or `Eof` past the end.
    pub fn peek_token(&self) -> (r: Token)
        ensures
            r == token_at(self.tokens@, self.position as int),
    {
        if self.position < self.tokens.len() {
            self.tokens[self.position].clone()
        } else {
            Token::Eof
        }
    }

    /// Reads the next token, which must be of the same variant as `expected`.
    pub fn consume_assert_next_token(&mut self, expected: Token) -> (r: Result<Token, ParseError>)
        ensures
            ({
                let t = token_at(old(self).tokens@, old(self).position as int);
                r == if kind(t) == kind(expected) {
                    Ok::<Token, ParseError>(t)
                } else {
                    Err(ParseError::Expected { expected, found: t })
                }
            }),
            final(self).tokens@ == old(self).tokens@,
            final(self).position as int == advance(old(self).tokens@, old(self).position as int),
    {
        let tok = self.next_token();
        if tok.same_kind(&expected) {
            Ok(tok)
        } else {
            Err(ParseError::Expected { expected, found: tok })
        }
    }

    /// Reads the next token only if it is of the same variant as `expected`.
    pub fn consume_opt_next_token(&mut self, expected: Token) -> (r: Result<Option<Token>, ParseError>)
        ensures
            ({
                let t = token_at(old(self).tokens@, old(self).position as int);
                if kind(t) == kind(expected) {
                    &&& r == Ok::<Option<Token>, ParseError>(Some(t))
                    &&& final(self).position as int == advance(
                        old(self).tokens@,
                        old(self).position as int,
                    )
                } else {
                    &&& r == Ok::<Option<Token>, ParseError>(None)
                    &&& final(self).position == old(self).position
                }
            }),
            final(self).tokens@ == old(self).tokens@,
    {
        let tok = self.peek_token();
        if tok.same_kind(&expected) {
            let t = self.next_token();
            Ok(Some(t))
        } else {
            Ok(None)
        }
    }
}

} // verus!
