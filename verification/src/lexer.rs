//! The lexer: source text in, tokens out, one at a time.
//!
//! [`scan`] states which token a text starts with and what text follows it;
//! [`tokens`] is the whole token sequence of a text. [`Lexer::next_token`] is
//! proved to compute [`scan`] on the text it has not yet read.

use crate::token::{Tok, Token};
use vstd::prelude::*;
use vstd::utf8::is_ascii_chars;

verus! {

/// A letter of an identifier's first position: an ASCII letter or `_`.
pub open spec fn is_letter(c: char) -> bool {
    ('a' <= c && c <= 'z') || ('A' <= c && c <= 'Z') || c == '_'
}

/// An ASCII decimal digit.
pub open spec fn is_digit(c: char) -> bool {
    '0' <= c && c <= '9'
}

/// A character that may continue an identifier or a keyword.
pub open spec fn is_word_char(c: char) -> bool {
    is_letter(c) || is_digit(c)
}

/// The token that a single punctuation character stands for, if any. For `=`
/// and `!` this is the token they give when no `=` follows.
pub open spec fn punctuation(c: char) -> Option<Tok> {
    if c == '=' {
        Some(Tok::Assign)
    } else if c == '+' {
        Some(Tok::Plus)
    } else if c == '-' {
        Some(Tok::Minus)
    } else if c == '!' {
        Some(Tok::Bang)
    } else if c == '*' {
        Some(Tok::Asterisk)
    } else if c == '/' {
        Some(Tok::Slash)
    } else if c == '<' {
        Some(Tok::LT)
    } else if c == '>' {
        Some(Tok::GT)
    } else if c == ',' {
        Some(Tok::Comma)
    } else if c == ';' {
        Some(Tok::Semicolon)
    } else if c == '(' {
        Some(Tok::LParen)
    } else if c == ')' {
        Some(Tok::RParen)
    } else if c == '{' {
        Some(Tok::LBrace)
    } else if c == '}' {
        Some(Tok::RBrace)
    } else {
        None
    }
}

/// A character that starts no token: white space, and any character the
/// language does not know. The lexer passes over it silently.
pub open spec fn is_skipped(c: char) -> bool {
    !is_letter(c) && !is_digit(c) && punctuation(c) is None
}

/// The length of the longest prefix of `text` made of word characters.
pub open spec fn word_length(text: Seq<char>) -> nat
    decreases text.len(),
{
    if text.len() > 0 && is_word_char(text[0]) {
        1 + word_length(text.skip(1))
    } else {
        0
    }
}

/// The length of the longest prefix of `text` made of digits.
pub open spec fn digits_length(text: Seq<char>) -> nat
    decreases text.len(),
{
    if text.len() > 0 && is_digit(text[0]) {
        1 + digits_length(text.skip(1))
    } else {
        0
    }
}

/// The token that a complete word denotes: its keyword if it is one, else an
/// identifier carrying the word.
pub open spec fn word_token(word: Seq<char>) -> Tok {
    if word == "let"@ {
        Tok::Let
    } else if word == "fn"@ {
        Tok::Function
    } else if word == "if"@ {
        Tok::If
    } else if word == "else"@ {
        Tok::Else
    } else if word == "return"@ {
        Tok::Return
    } else if word == "true"@ {
        Tok::True
    } else if word == "false"@ {
        Tok::False
    } else {
        Tok::Identifier(word)
    }
}

/// The first token of `text`, and the text that follows it. On a text with no
/// further token the token is the end marker and nothing follows.
pub open spec fn scan(text: Seq<char>) -> (Tok, Seq<char>)
    decreases text.len(),
{
    if text.len() == 0 {
        (Tok::EOF, text)
    } else if is_letter(text[0]) {
        let n = word_length(text) as int;
        (word_token(text.take(n)), text.skip(n))
    } else if is_digit(text[0]) {
        let n = digits_length(text) as int;
        (Tok::Integer(text.take(n)), text.skip(n))
    } else if text[0] == '=' && text.len() > 1 && text[1] == '=' {
        (Tok::Eq, text.skip(2))
    } else if text[0] == '!' && text.len() > 1 && text[1] == '=' {
        (Tok::NotEq, text.skip(2))
    } else {
        match punctuation(text[0]) {
            Some(token) => (token, text.skip(1)),
            None => scan(text.skip(1)),
        }
    }
}

/// All the tokens of `text`, in order, without the end marker.
pub open spec fn tokens(text: Seq<char>) -> Seq<Tok>
    decreases text.len(),
{
    let (token, rest) = scan(text);
    if token is EOF {
        Seq::empty()
    } else {
        proof {
            lemma_scan_consumes(text);
        }
        seq![token] + tokens(rest)
    }
}

/// A run of word characters is no longer than the text.
pub proof fn lemma_word_length_bound(text: Seq<char>)
    ensures
        word_length(text) <= text.len(),
        text.len() > 0 && is_word_char(text[0]) ==> word_length(text) >= 1,
    decreases text.len(),
{
    if text.len() > 0 && is_word_char(text[0]) {
        lemma_word_length_bound(text.skip(1));
    }
}

/// A run of digits is no longer than the text.
pub proof fn lemma_digits_length_bound(text: Seq<char>)
    ensures
        digits_length(text) <= text.len(),
        text.len() > 0 && is_digit(text[0]) ==> digits_length(text) >= 1,
    decreases text.len(),
{
    if text.len() > 0 && is_digit(text[0]) {
        lemma_digits_length_bound(text.skip(1));
    }
}

/// Scanning never yields text longer than it was given, and whenever it finds
/// a token it has consumed at least one character.
pub proof fn lemma_scan_consumes(text: Seq<char>)
    ensures
        scan(text).1.len() <= text.len(),
        !(scan(text).0 is EOF) ==> scan(text).1.len() < text.len(),
        scan(text).0 is EOF ==> scan(text).1.len() == 0,
    decreases text.len(),
{
    if text.len() == 0 {
    } else if is_letter(text[0]) {
        lemma_word_length_bound(text);
    } else if is_digit(text[0]) {
        lemma_digits_length_bound(text);
    } else if text[0] == '=' && text.len() > 1 && text[1] == '=' {
    } else if text[0] == '!' && text.len() > 1 && text[1] == '=' {
    } else {
        match punctuation(text[0]) {
            Some(token) => {},
            None => {
                lemma_scan_consumes(text.skip(1));
            },
        }
    }
}

/// The lexer never goes back: what follows the first token of a text is that
/// text from some position on.
pub proof fn law_scan_moves_forward(text: Seq<char>)
    ensures
        scan(text).1 == text.skip(text.len() - scan(text).1.len()),
    decreases text.len(),
{
    lemma_scan_consumes(text);
    if text.len() == 0 {
        assert(text.skip(0) =~= text);
    } else if is_letter(text[0]) {
        lemma_word_length_bound(text);
    } else if is_digit(text[0]) {
        lemma_digits_length_bound(text);
    } else if text[0] == '=' && text.len() > 1 && text[1] == '=' {
    } else if text[0] == '!' && text.len() > 1 && text[1] == '=' {
    } else if punctuation(text[0]) is None {
        let rest = text.skip(1);
        law_scan_moves_forward(rest);
        lemma_scan_consumes(rest);
        assert(rest.skip(rest.len() - scan(rest).1.len()) =~= text.skip(
            text.len() - scan(text).1.len(),
        ));
    }
}

/// Once the end marker has come, it comes again and again: scanning what
/// follows the end marker gives the end marker and the same nothing.
pub proof fn law_end_marker_repeats(text: Seq<char>)
    requires
        scan(text).0 is EOF,
    ensures
        scan(scan(text).1) == scan(text),
{
    lemma_scan_consumes(text);
    law_scan_moves_forward(text);
    assert(scan(text).1 =~= Seq::<char>::empty());
}

/// The end marker is no token of any text: it only marks the end.
pub proof fn law_no_end_marker_among_tokens(text: Seq<char>)
    ensures
        forall|i: int| 0 <= i < tokens(text).len() ==> !(#[trigger] tokens(text)[i] is EOF),
    decreases text.len(),
{
    if !(scan(text).0 is EOF) {
        lemma_scan_consumes(text);
        law_no_end_marker_among_tokens(scan(text).1);
    }
}

/// A text has no tokens exactly if scanning it gives the end marker.
pub proof fn lemma_tokens_empty(text: Seq<char>)
    ensures
        tokens(text).len() == 0 <==> scan(text).0 is EOF,
        scan(text).0 is EOF ==> tokens(scan(text).1).len() == 0,
{
    lemma_scan_consumes(text);
    if scan(text).0 is EOF {
        assert(scan(text).1.len() == 0);
        assert(scan(scan(text).1).0 is EOF);
    }
}

/// A text that starts with a character that starts a token has a token.
pub proof fn lemma_token_ahead(text: Seq<char>)
    requires
        text.len() > 0,
        !is_skipped(text[0]),
    ensures
        !(scan(text).0 is EOF),
{
}

/// A cursor over a source text that hands out its tokens one by one. The
/// text is held twice: as characters, to be scanned from any position, and
/// as a string, to cut the text of a token out of it.
pub struct Lexer {
    source: String,
    chars: Vec<char>,
    position: usize,
    /// Whether the text is known to be ASCII, which makes cutting cheap.
    ascii: bool,
}

impl View for Lexer {
    type V = Seq<char>;

    /// The text that the lexer has not read yet.
    closed spec fn view(&self) -> Seq<char> {
        self.chars@.skip(self.position as int)
    }
}

fn letter(c: char) -> (yes: bool)
    ensures
        yes == is_letter(c),
{
    (c >= 'a' && c <= 'z') || (c >= 'A' && c <= 'Z') || c == '_'
}

fn digit(c: char) -> (yes: bool)
    ensures
        yes == is_digit(c),
{
    c >= '0' && c <= '9'
}

/// The token of a punctuation character that stands alone.
fn punctuation_token(c: char) -> (token: Option<Token>)
    ensures
        token is Some == punctuation(c) is Some,
        token matches Some(t) ==> Some(t@) == punctuation(c),
{
    if c == '=' {
        Some(Token::Assign)
    } else if c == '+' {
        Some(Token::Plus)
    } else if c == '-' {
        Some(Token::Minus)
    } else if c == '!' {
        Some(Token::Bang)
    } else if c == '*' {
        Some(Token::Asterisk)
    } else if c == '/' {
        Some(Token::Slash)
    } else if c == '<' {
        Some(Token::LT)
    } else if c == '>' {
        Some(Token::GT)
    } else if c == ',' {
        Some(Token::Comma)
    } else if c == ';' {
        Some(Token::Semicolon)
    } else if c == '(' {
        Some(Token::LParen)
    } else if c == ')' {
        Some(Token::RParen)
    } else if c == '{' {
        Some(Token::LBrace)
    } else if c == '}' {
        Some(Token::RBrace)
    } else {
        None
    }
}

/// Whether the characters of `chars` from `start` up to `end` spell `word`.
fn spells(chars: &Vec<char>, start: usize, end: usize, word: &str) -> (yes: bool)
    requires
        start <= end <= chars.len(),
    ensures
        yes == (chars@.subrange(start as int, end as int) == word@),
{
    let mut i: usize = start;
    for c in it: word.chars()
        invariant
            start <= i <= end <= chars.len(),
            i == start + it.index(),
            it.seq() == word@,
            chars@.subrange(start as int, i as int) == word@.take(it.index() as int),
    {
        if i >= end || chars[i] != c {
            let ghost part = chars@.subrange(start as int, end as int);
            assert(part != word@) by {
                if part == word@ {
                    assert(part[i - start] == chars@[i as int]);
                }
            }
            return false;
        }
        assert(chars@.subrange(start as int, i + 1) == word@.take(it.index() + 1)) by {
            assert(chars@.subrange(start as int, i + 1) =~= chars@.subrange(
                start as int,
                i as int,
            ).push(chars@[i as int]));
            assert(word@.take(it.index() + 1) =~= word@.take(it.index() as int).push(c));
        }
        i += 1;
    }
    assert(word@.take(word@.len() as int) =~= word@);
    i == end
}

impl Lexer {
    #[verifier::type_invariant]
    spec fn consistent(self) -> bool {
        &&& self.position <= self.chars.len()
        &&& self.chars@ == self.source@
        &&& self.ascii ==> is_ascii_chars(self.source@)
    }

    /// The characters from `start` up to `end`, as a string.
    fn text_between(&self, start: usize, end: usize) -> (text: String)
        requires
            start <= end <= self.chars.len(),
        ensures
            text@ == self.chars@.subrange(start as int, end as int),
    {
        proof {
            use_type_invariant(self);
        }
        let source = self.source.as_str();
        if self.ascii {
            source.substring_ascii(start, end).to_owned()
        } else {
            source.substring_char(start, end).to_owned()
        }
    }

    /// The token for the word from `start` up to `end`.
    fn word(&self, start: usize, end: usize) -> (token: Token)
        requires
            start <= end <= self.chars.len(),
        ensures
            token@ == word_token(self.chars@.subrange(start as int, end as int)),
    {
        if spells(&self.chars, start, end, "let") {
            Token::Let
        } else if spells(&self.chars, start, end, "fn") {
            Token::Function
        } else if spells(&self.chars, start, end, "if") {
            Token::If
        } else if spells(&self.chars, start, end, "else") {
            Token::Else
        } else if spells(&self.chars, start, end, "return") {
            Token::Return
        } else if spells(&self.chars, start, end, "true") {
            Token::True
        } else if spells(&self.chars, start, end, "false") {
            Token::False
        } else {
            Token::Identifier(self.text_between(start, end))
        }
    }

    /// A lexer at the start of `input`.
    pub fn new(input: &str) -> (lexer: Lexer)
        ensures
            lexer@ == input@,
    {
        let mut chars: Vec<char> = Vec::new();
        for c in it: input.chars()
            invariant
                it.seq() == input@,
                chars@ == input@.take(it.index() as int),
        {
            chars.push(c);
            assert(input@.take(it.index() + 1) =~= input@.take(it.index() as int).push(c));
        }
        assert(input@.take(input@.len() as int) =~= input@);
        assert(chars@.skip(0) =~= chars@);
        Lexer { source: input.to_owned(), chars, position: 0, ascii: input.is_ascii() }
    }

    /// Whether no token is left: nothing lies ahead but characters that
    /// start none.
    pub fn is_exhausted(&self) -> (yes: bool)
        ensures
            yes == (tokens(self@).len() == 0),
    {
        proof {
            use_type_invariant(self);
        }
        let mut i: usize = self.position;
        while i < self.chars.len() && skipped(self.chars[i])
            invariant
                self.position <= i <= self.chars.len(),
                scan(self.chars@.skip(i as int)) == scan(self@),
            decreases self.chars.len() - i,
        {
            assert(self.chars@.skip(i as int).skip(1) =~= self.chars@.skip(i + 1));
            i += 1;
        }
        proof {
            lemma_tokens_empty(self@);
            if i < self.chars.len() {
                lemma_token_ahead(self.chars@.skip(i as int));
            }
        }
        i >= self.chars.len()
    }

    /// Reads the next token and moves past it. Characters that start no
    /// token are passed over. Once the text is exhausted every call returns
    /// the end marker.
    pub fn next_token(&mut self) -> (token: Token)
        ensures
            token@ == scan(old(self)@).0,
            final(self)@ == scan(old(self)@).1,
    {
        proof {
            use_type_invariant(&*self);
        }
        loop
            invariant
                self.position <= self.chars.len(),
                self.chars == old(self).chars,
                self.chars@ == self.source@,
                self.ascii ==> is_ascii_chars(self.source@),
                scan(self@) == scan(old(self)@),
            decreases self.chars.len() - self.position,
        {
            let ghost text = self@;
            if self.position >= self.chars.len() {
                return Token::EOF;
            }
            let start = self.position;
            let c = self.chars[start];
            assert(text[0] == c);
            if letter(c) {
                self.skip_word();
                assert(text.take(word_length(text) as int) =~= self.chars@.subrange(
                    start as int,
                    self.position as int,
                ));
                assert(self@ =~= text.skip(word_length(text) as int));
                return self.word(start, self.position);
            }
            if digit(c) {
                self.skip_digits();
                assert(text.take(digits_length(text) as int) =~= self.chars@.subrange(
                    start as int,
                    self.position as int,
                ));
                assert(self@ =~= text.skip(digits_length(text) as int));
                return Token::Integer(self.text_between(start, self.position));
            }
            let followed_by_equals = start + 1 < self.chars.len() && self.chars[start + 1] == '=';
            assert(followed_by_equals == (text.len() > 1 && text[1] == '='));
            if c == '=' && followed_by_equals {
                self.position += 2;
                assert(self@ =~= text.skip(2));
                return Token::Eq;
            }
            if c == '!' && followed_by_equals {
                self.position += 2;
                assert(self@ =~= text.skip(2));
                return Token::NotEq;
            }
            self.position += 1;
            assert(self@ =~= text.skip(1));
            match punctuation_token(c) {
                Some(token) => {
                    return token;
                },
                None => {},
            }
        }
    }

    /// Moves the cursor past the longest run of word characters.
    fn skip_word(&mut self)
        ensures
            final(self).chars == old(self).chars,
            final(self).position == old(self).position + word_length(old(self)@),
            final(self).position <= final(self).chars.len(),
    {
        proof {
            use_type_invariant(&*self);
        }
        while self.position < self.chars.len() && word_char(self.chars[self.position])
            invariant
                old(self).position <= self.position <= self.chars.len(),
                self.chars == old(self).chars,
                self.chars@ == self.source@,
                self.ascii ==> is_ascii_chars(self.source@),
                word_length(old(self)@) == (self.position - old(self).position) + word_length(
                    self@,
                ),
            decreases self.chars.len() - self.position,
        {
            assert(self@.skip(1) =~= self.chars@.skip(self.position + 1));
            self.position += 1;
        }
    }

    /// Moves the cursor past the longest run of digits.
    fn skip_digits(&mut self)
        ensures
            final(self).chars == old(self).chars,
            final(self).position == old(self).position + digits_length(old(self)@),
            final(self).position <= final(self).chars.len(),
    {
        proof {
            use_type_invariant(&*self);
        }
        while self.position < self.chars.len() && digit(self.chars[self.position])
            invariant
                old(self).position <= self.position <= self.chars.len(),
                self.chars == old(self).chars,
                self.chars@ == self.source@,
                self.ascii ==> is_ascii_chars(self.source@),
                digits_length(old(self)@) == (self.position - old(self).position) + digits_length(
                    self@,
                ),
            decreases self.chars.len() - self.position,
        {
            assert(self@.skip(1) =~= self.chars@.skip(self.position + 1));
            self.position += 1;
        }
    }
}

fn word_char(c: char) -> (yes: bool)
    ensures
        yes == is_word_char(c),
{
    letter(c) || digit(c)
}

fn skipped(c: char) -> (yes: bool)
    ensures
        yes == is_skipped(c),
{
    !letter(c) && !digit(c) && punctuation_token(c).is_none()
}

} // verus!
