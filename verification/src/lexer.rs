//! The lexer: a cursor over the source characters that hands out one token
//! per call, looking one character ahead for `==` and `!=`.
use crate::text::{chars_of, is_blank, is_letter, is_numeral, same_text, text_of};
use crate::token::{bare_token, token, Token, TokenType, TokenView};
use vstd::prelude::*;

verus! {

/// The kind of a delimiter or operator that is always a single character.
pub open spec fn symbol_kind(c: char) -> Option<TokenType> {
    if c == '+' {
        Some(TokenType::PLUS)
    } else if c == '/' {
        Some(TokenType::SLASH)
    } else if c == '*' {
        Some(TokenType::ASTERISK)
    } else if c == '-' {
        Some(TokenType::MINUS)
    } else if c == '>' {
        Some(TokenType::GT)
    } else if c == '<' {
        Some(TokenType::LT)
    } else if c == '(' {
        Some(TokenType::LPAREN)
    } else if c == ')' {
        Some(TokenType::RPAREN)
    } else if c == '{' {
        Some(TokenType::LBRACE)
    } else if c == '}' {
        Some(TokenType::RBRACE)
    } else if c == ',' {
        Some(TokenType::COMMA)
    } else if c == ';' {
        Some(TokenType::SEMICOLON)
    } else {
        None
    }
}

/// The kind of a word: one of the seven keywords, or an identifier.
pub open spec fn word_kind(word: Seq<char>) -> TokenType {
    if word == "let"@ {
        TokenType::LET
    } else if word == "fn"@ {
        TokenType::FUNCTION
    } else if word == "if"@ {
        TokenType::IF
    } else if word == "else"@ {
        TokenType::ELSE
    } else if word == "return"@ {
        TokenType::RETURN
    } else if word == "true"@ {
        TokenType::TRUE
    } else if word == "false"@ {
        TokenType::FALSE
    } else {
        TokenType::IDENT
    }
}

/// The first index at or after `pos` that holds no whitespace; the length of
/// the input when there is none.
pub open spec fn skip_blanks(input: Seq<char>, pos: int) -> int
    decreases input.len() - pos,
{
    if 0 <= pos < input.len() && is_blank(input[pos]) {
        skip_blanks(input, pos + 1)
    } else {
        pos
    }
}

/// Whether `c` can be part of a word.
pub open spec fn in_word(c: char) -> bool {
    is_letter(c) && !is_blank(c)
}

/// Whether `c` can be part of a number.
pub open spec fn in_number(c: char) -> bool {
    is_numeral(c) && !is_blank(c)
}

/// The end of the run of word characters that starts at `pos`.
pub open spec fn word_end(input: Seq<char>, pos: int) -> int
    decreases input.len() - pos,
{
    if 0 <= pos < input.len() && in_word(input[pos]) {
        word_end(input, pos + 1)
    } else {
        pos
    }
}

/// The end of the run of numeric characters that starts at `pos`.
pub open spec fn number_end(input: Seq<char>, pos: int) -> int
    decreases input.len() - pos,
{
    if 0 <= pos < input.len() && in_number(input[pos]) {
        number_end(input, pos + 1)
    } else {
        pos
    }
}

/// The delimiter or operator that starts at index `p`, with the index just
/// past it. `=` and `!` join a directly following `=`.
pub open spec fn symbol_at(input: Seq<char>, p: int) -> Option<(TokenView, int)>
    recommends
        0 <= p < input.len(),
{
    let c = input[p];
    let joined = p + 1 < input.len() && input[p + 1] == '=';
    if c == '=' {
        if joined {
            Some((token(TokenType::EQ, seq!['=', '=']), p + 2))
        } else {
            Some((token(TokenType::ASSIGN, seq!['=']), p + 1))
        }
    } else if c == '!' {
        if joined {
            Some((token(TokenType::NEQ, seq!['!', '=']), p + 2))
        } else {
            Some((token(TokenType::BANG, seq!['!']), p + 1))
        }
    } else {
        match symbol_kind(c) {
            Some(kind) => Some((token(kind, seq![c]), p + 1)),
            None => None,
        }
    }
}

/// The token that starts at index `p`, which holds no whitespace, with the
/// index just past it.
pub open spec fn token_at(input: Seq<char>, p: int) -> (TokenView, int)
    recommends
        0 <= p < input.len(),
{
    match symbol_at(input, p) {
        Some(found) => found,
        None => {
            if in_word(input[p]) {
                let end = word_end(input, p);
                let word = input.subrange(p, end);
                (token(word_kind(word), word), end)
            } else if in_number(input[p]) {
                let end = number_end(input, p);
                (token(TokenType::INT, input.subrange(p, end)), end)
            } else {
                (bare_token(TokenType::ILLEGAL), p + 1)
            }
        },
    }
}

/// The cursor after one more character is read: one further, up to the
/// greatest index that the machine can hold.
pub open spec fn moved_on(cursor: int) -> int {
    if cursor < usize::MAX {
        cursor + 1
    } else {
        cursor
    }
}

/// The next token for a lexer whose cursor stands at `pos`, with the cursor
/// after it. Whitespace before the token is skipped; at the end of the input
/// the token is `EOF`, without a literal, and the cursor moves on by one all
/// the same, as it does for every character that the lexer reads.
pub open spec fn scan(input: Seq<char>, pos: int) -> (TokenView, int) {
    let p = skip_blanks(input, pos);
    if 0 <= p < input.len() {
        token_at(input, p)
    } else {
        (bare_token(TokenType::EOF), moved_on(p))
    }
}

/// The tokens a lexer hands out from cursor `pos` on, up to and including the
/// first `EOF`.
pub open spec fn all_tokens(input: Seq<char>, pos: int) -> Seq<TokenView>
    decreases input.len() - pos,
{
    let (t, next) = scan(input, pos);
    if 0 <= pos <= input.len() && t.token_type != TokenType::EOF {
        proof {
            lemma_scan_advances(input, pos);
        }
        seq![t] + all_tokens(input, next)
    } else {
        seq![t]
    }
}

/// What `skip_blanks` skips is whitespace, all of it up to the next character
/// that is none.
pub proof fn lemma_skip_blanks(input: Seq<char>, pos: int)
    requires
        0 <= pos <= input.len(),
    ensures
        pos <= skip_blanks(input, pos) <= input.len(),
        skip_blanks(input, pos) < input.len() ==> !is_blank(input[skip_blanks(input, pos)]),
        forall|i: int| pos <= i < skip_blanks(input, pos) ==> is_blank(#[trigger] input[i]),
    decreases input.len() - pos,
{
    if pos < input.len() && is_blank(input[pos]) {
        lemma_skip_blanks(input, pos + 1);
    }
}

/// A word runs over word characters, up to the first character that is none.
pub proof fn lemma_word_end(input: Seq<char>, pos: int)
    requires
        0 <= pos <= input.len(),
    ensures
        pos <= word_end(input, pos) <= input.len(),
        word_end(input, pos) < input.len() ==> !in_word(input[word_end(input, pos)]),
        forall|i: int| pos <= i < word_end(input, pos) ==> in_word(#[trigger] input[i]),
        pos < input.len() && in_word(input[pos]) ==> pos < word_end(input, pos),
    decreases input.len() - pos,
{
    if pos < input.len() && in_word(input[pos]) {
        lemma_word_end(input, pos + 1);
    }
}

/// A number runs over numeric characters, up to the first character that is
/// none.
pub proof fn lemma_number_end(input: Seq<char>, pos: int)
    requires
        0 <= pos <= input.len(),
    ensures
        pos <= number_end(input, pos) <= input.len(),
        number_end(input, pos) < input.len() ==> !in_number(input[number_end(input, pos)]),
        forall|i: int| pos <= i < number_end(input, pos) ==> in_number(#[trigger] input[i]),
        pos < input.len() && in_number(input[pos]) ==> pos < number_end(input, pos),
    decreases input.len() - pos,
{
    if pos < input.len() && in_number(input[pos]) {
        lemma_number_end(input, pos + 1);
    }
}

/// A token other than `EOF` uses up at least one character, and the cursor
/// never leaves the input.
pub proof fn lemma_scan_advances(input: Seq<char>, pos: int)
    requires
        0 <= pos,
    ensures
        pos <= scan(input, pos).1,
        scan(input, pos).0.token_type != TokenType::EOF ==> pos < scan(input, pos).1
            <= input.len(),
        scan(input, pos).0.token_type == TokenType::EOF ==> input.len() <= scan(input, pos).1,
        pos > input.len() ==> scan(input, pos) == (bare_token(TokenType::EOF), moved_on(pos)),
{
    if pos <= input.len() {
        lemma_skip_blanks(input, pos);
    }
    let p = skip_blanks(input, pos);
    if p < input.len() {
        lemma_word_end(input, p);
        lemma_number_end(input, p);
        lemma_word_kind_not_eof(input.subrange(p, word_end(input, p)));
    }
}

/// A word is never `EOF` nor `ILLEGAL`.
proof fn lemma_word_kind_not_eof(word: Seq<char>)
    ensures
        word_kind(word) != TokenType::EOF,
        word_kind(word) != TokenType::ILLEGAL,
{
}

/// What is left of `s` when its whitespace is taken out.
pub open spec fn without_blanks(s: Seq<char>) -> Seq<char>
    decreases s.len(),
{
    if s.len() == 0 {
        Seq::empty()
    } else if is_blank(s[0]) {
        without_blanks(s.drop_first())
    } else {
        seq![s[0]] + without_blanks(s.drop_first())
    }
}

/// The literals of `tokens`, one after the other.
pub open spec fn literals(tokens: Seq<TokenView>) -> Seq<char>
    decreases tokens.len(),
{
    if tokens.len() == 0 {
        Seq::empty()
    } else {
        tokens[0].text() + literals(tokens.drop_first())
    }
}

/// Whether none of `tokens` is `ILLEGAL`.
pub open spec fn all_legal(tokens: Seq<TokenView>) -> bool {
    forall|i: int| 0 <= i < tokens.len() ==> (#[trigger] tokens[i]).token_type != TokenType::ILLEGAL
}

/// A stretch without whitespace stays as it is when whitespace is taken out.
proof fn lemma_without_blanks_run(input: Seq<char>, from: int, to: int)
    requires
        0 <= from <= to <= input.len(),
        forall|i: int| from <= i < to ==> !is_blank(#[trigger] input[i]),
    ensures
        without_blanks(input.skip(from)) == input.subrange(from, to) + without_blanks(
            input.skip(to),
        ),
    decreases to - from,
{
    if from < to {
        lemma_without_blanks_run(input, from + 1, to);
        assert(!is_blank(input[from]));
        assert(input.skip(from).drop_first() =~= input.skip(from + 1));
        assert(input.skip(from)[0] == input[from]);
        assert(seq![input[from]] + input.subrange(from + 1, to) =~= input.subrange(from, to));
        assert(seq![input[from]] + (input.subrange(from + 1, to) + without_blanks(
            input.skip(to),
        )) =~= input.subrange(from, to) + without_blanks(input.skip(to)));
    } else {
        assert(input.subrange(from, to) + without_blanks(input.skip(to)) =~= without_blanks(
            input.skip(to),
        ));
    }
}

/// A stretch of whitespace is gone when whitespace is taken out.
proof fn lemma_without_blanks_skip(input: Seq<char>, from: int, to: int)
    requires
        0 <= from <= to <= input.len(),
        forall|i: int| from <= i < to ==> is_blank(#[trigger] input[i]),
    ensures
        without_blanks(input.skip(from)) == without_blanks(input.skip(to)),
    decreases to - from,
{
    if from < to {
        lemma_without_blanks_skip(input, from + 1, to);
        assert(is_blank(input[from]));
        assert(input.skip(from).drop_first() =~= input.skip(from + 1));
        assert(input.skip(from)[0] == input[from]);
    }
}

/// The literal of a token that is not `ILLEGAL` is the stretch of input that
/// the token stands for, and holds no whitespace.
proof fn lemma_token_text(input: Seq<char>, p: int)
    requires
        0 <= p < input.len(),
        !is_blank(input[p]),
        !is_blank('='),
        token_at(input, p).0.token_type != TokenType::ILLEGAL,
    ensures
        p < token_at(input, p).1 <= input.len(),
        token_at(input, p).0.text() == input.subrange(p, token_at(input, p).1),
        forall|i: int| p <= i < token_at(input, p).1 ==> !is_blank(#[trigger] input[i]),
{
    lemma_word_end(input, p);
    lemma_number_end(input, p);
    let (t, next) = token_at(input, p);
    match symbol_at(input, p) {
        Some(found) => {
            assert(t.text() =~= input.subrange(p, next));
        },
        None => {},
    }
}

/// The lexer loses nothing but whitespace: the input without its whitespace
/// is the literals of its tokens, one after the other. This holds of an input
/// from which the lexer makes no `ILLEGAL` token, whose literal is empty, and
/// given that `=` is no whitespace.
pub proof fn literals_cover_input(input: Seq<char>, pos: int)
    requires
        0 <= pos <= input.len(),
        all_legal(all_tokens(input, pos)),
        !is_blank('='),
    ensures
        without_blanks(input.skip(pos)) == literals(all_tokens(input, pos)),
    decreases input.len() - pos,
{
    lemma_skip_blanks(input, pos);
    lemma_scan_advances(input, pos);
    let p = skip_blanks(input, pos);
    let (t, next) = scan(input, pos);
    let tokens = all_tokens(input, pos);
    lemma_without_blanks_skip(input, pos, p);
    assert(tokens[0] == t);
    if p < input.len() {
        lemma_word_end(input, p);
        lemma_number_end(input, p);
        lemma_word_kind_not_eof(input.subrange(p, word_end(input, p)));
        assert(t.token_type != TokenType::EOF);
        let rest = all_tokens(input, next);
        assert(tokens == seq![t] + rest);
        assert(tokens.drop_first() =~= rest);
        assert forall|i: int| 0 <= i < rest.len() implies (#[trigger] rest[i]).token_type
            != TokenType::ILLEGAL by {
            assert(tokens[i + 1] == rest[i]);
        }
        lemma_token_text(input, p);
        lemma_without_blanks_run(input, p, next);
        literals_cover_input(input, next);
    } else {
        assert(tokens =~= seq![t]);
        assert(tokens.drop_first() =~= Seq::<TokenView>::empty());
        assert(literals(tokens.drop_first()) =~= Seq::<char>::empty());
        assert(t.text() =~= Seq::<char>::empty());
        assert(literals(tokens) =~= Seq::<char>::empty());
        assert(input.skip(p) =~= Seq::<char>::empty());
    }
}

/// A cursor over the characters of a source text.
#[derive(Debug)]
pub struct Lexer {
    input: Vec<char>,
    position: usize,
    read_position: usize,
    ch: Option<char>,
}

impl Lexer {
    /// The characters of the source text.
    pub closed spec fn input(&self) -> Seq<char> {
        self.input@
    }

    /// The index of the next character to read.
    pub closed spec fn cursor(&self) -> int {
        self.read_position as int
    }

    /// The index of the character read last.
    pub closed spec fn position(&self) -> int {
        self.position as int
    }

    /// The character read last: a space before the first read, none at the
    /// end of the input.
    pub closed spec fn current(&self) -> Option<char> {
        self.ch
    }

    /// A lexer at the start of `input`.
    pub fn new(input: String) -> (lexer: Lexer)
        ensures
            lexer.input() == input@,
            lexer.cursor() == 0,
            lexer.position() == 0,
            lexer.current() == Some(' '),
    {
        Lexer { input: chars_of(input.as_str()), position: 0, read_position: 0, ch: Some(' ') }
    }

    /// Reads the character under the cursor and moves the cursor on by one,
    /// also where there is no character to read any more. Only at the
    /// greatest index that the machine can hold does the cursor stay.
    pub fn read_char(&mut self)
        ensures
            final(self).input() == old(self).input(),
            final(self).position() == old(self).cursor(),
            final(self).cursor() == moved_on(old(self).cursor()),
            old(self).cursor() < old(self).input().len() ==> final(self).cursor() == old(
                self,
            ).cursor() + 1,
            final(self).current() == if old(self).cursor() < old(self).input().len() {
                Some(old(self).input()[old(self).cursor()])
            } else {
                None
            },
    {
        if self.read_position >= self.input.len() {
            self.ch = None;
        } else {
            self.ch = Some(self.input[self.read_position]);
        }
        self.position = self.read_position;
        if self.read_position < usize::MAX {
            self.read_position += 1;
        }
    }

    /// The character under the cursor, which stays where it is.
    pub fn peek_char(&mut self) -> (c: Option<char>)
        ensures
            *final(self) == *old(self),
            c == if old(self).cursor() < old(self).input().len() {
                Some(old(self).input()[old(self).cursor()])
            } else {
                None
            },
    {
        if self.read_position >= self.input.len() {
            None
        } else {
            Some(self.input[self.read_position])
        }
    }

    /// Whether the lexer has just read the character at index `p`.
    spec fn reading(&self, p: int) -> bool {
        &&& 0 <= p < self.input@.len()
        &&& self.position == p
        &&& self.read_position == p + 1
        &&& self.ch == Some(self.input@[p])
    }

    /// Whether the character read last is whitespace.
    fn at_blank(&self) -> (r: bool)
        ensures
            r == match self.ch {
                Some(c) => is_blank(c),
                None => false,
            },
    {
        match self.ch {
            Some(c) => c.is_whitespace(),
            None => false,
        }
    }

    /// Whether the character read last can be part of a word.
    fn at_word_char(&self) -> (r: bool)
        ensures
            r == match self.ch {
                Some(c) => in_word(c),
                None => false,
            },
    {
        match self.ch {
            Some(c) => c.is_alphabetic() && !c.is_whitespace(),
            None => false,
        }
    }

    /// Whether the character read last can be part of a number.
    fn at_number_char(&self) -> (r: bool)
        ensures
            r == match self.ch {
                Some(c) => in_number(c),
                None => false,
            },
    {
        match self.ch {
            Some(c) => c.is_numeric() && !c.is_whitespace(),
            None => false,
        }
    }

    /// The delimiter or operator that starts with the character read last, if
    /// there is one.
    fn match_char(&mut self) -> (found: Option<Token>)
        requires
            old(self).reading(old(self).position as int),
        ensures
            final(self).input@ == old(self).input@,
            match symbol_at(old(self).input@, old(self).position as int) {
                Some((t, next)) => found.is_some() && found.unwrap()@ == t
                    && final(self).read_position == next,
                None => found.is_none() && final(self).reading(old(self).position as int),
            },
    {
        let c = match self.ch {
            Some(c) => c,
            None => {
                return None;
            },
        };
        if c == '=' || c == '!' {
            let joined = match self.peek_char() {
                Some(next) => next == '=',
                None => false,
            };
            let mut literal = String::new();
            literal.push(c);
            proof {
                assert(literal@ =~= seq![c]);
            }
            if joined {
                self.read_char();
                literal.push('=');
                proof {
                    assert(literal@ =~= seq![c, '=']);
                }
                let kind = if c == '=' {
                    TokenType::EQ
                } else {
                    TokenType::NEQ
                };
                Some(Token { token_type: kind, literal: Some(literal) })
            } else {
                let kind = if c == '=' {
                    TokenType::ASSIGN
                } else {
                    TokenType::BANG
                };
                Some(Token { token_type: kind, literal: Some(literal) })
            }
        } else {
            let kind = if c == '+' {
                TokenType::PLUS
            } else if c == '/' {
                TokenType::SLASH
            } else if c == '*' {
                TokenType::ASTERISK
            } else if c == '-' {
                TokenType::MINUS
            } else if c == '>' {
                TokenType::GT
            } else if c == '<' {
                TokenType::LT
            } else if c == '(' {
                TokenType::LPAREN
            } else if c == ')' {
                TokenType::RPAREN
            } else if c == '{' {
                TokenType::LBRACE
            } else if c == '}' {
                TokenType::RBRACE
            } else if c == ',' {
                TokenType::COMMA
            } else if c == ';' {
                TokenType::SEMICOLON
            } else {
                return None;
            };
            let mut literal = String::new();
            literal.push(c);
            proof {
                assert(literal@ =~= seq![c]);
            }
            Some(Token { token_type: kind, literal: Some(literal) })
        }
    }

    /// The word that starts with the character read last, if there is one:
    /// a keyword or an identifier. The cursor ends up right after the word.
    fn match_alphabetic_span(&mut self) -> (found: Option<Token>)
        requires
            old(self).reading(old(self).position as int),
        ensures
            final(self).input@ == old(self).input@,
            ({
                let p = old(self).position as int;
                let end = word_end(old(self).input@, p);
                let word = old(self).input@.subrange(p, end);
                if in_word(old(self).input@[p]) {
                    found.is_some() && found.unwrap()@ == token(word_kind(word), word)
                        && final(self).read_position == end
                } else {
                    found.is_none() && final(self).reading(p)
                }
            }),
    {
        let start = self.position;
        let ghost input = self.input@;
        proof {
            lemma_word_end(input, start as int);
        }
        let mut end: usize = start;
        while self.at_word_char()
            invariant
                self.input@ == input,
                start <= end <= input.len(),
                start < input.len(),
                word_end(input, start as int) == word_end(input, end as int),
                end < input.len() ==> self.reading(end as int),
                end == input.len() ==> self.ch.is_none(),
            decreases input.len() - end,
        {
            end += 1;
            self.read_char();
        }
        if end == start {
            return None;
        }
        let literal = text_of(&self.input, start, end);
        let kind = if same_text(literal.as_str(), "let") {
            TokenType::LET
        } else if same_text(literal.as_str(), "fn") {
            TokenType::FUNCTION
        } else if same_text(literal.as_str(), "if") {
            TokenType::IF
        } else if same_text(literal.as_str(), "else") {
            TokenType::ELSE
        } else if same_text(literal.as_str(), "return") {
            TokenType::RETURN
        } else if same_text(literal.as_str(), "true") {
            TokenType::TRUE
        } else if same_text(literal.as_str(), "false") {
            TokenType::FALSE
        } else {
            TokenType::IDENT
        };
        self.read_position = end;
        self.position = end - 1;
        Some(Token { token_type: kind, literal: Some(literal) })
    }

    /// The number that starts with the character read last, if there is one.
    /// The cursor ends up right after the number.
    fn match_numeric_span(&mut self) -> (found: Option<Token>)
        requires
            old(self).reading(old(self).position as int),
        ensures
            final(self).input@ == old(self).input@,
            ({
                let p = old(self).position as int;
                let end = number_end(old(self).input@, p);
                if in_number(old(self).input@[p]) {
                    found.is_some() && found.unwrap()@ == token(
                        TokenType::INT,
                        old(self).input@.subrange(p, end),
                    ) && final(self).read_position == end
                } else {
                    found.is_none() && final(self).reading(p)
                }
            }),
    {
        let start = self.position;
        let ghost input = self.input@;
        proof {
            lemma_number_end(input, start as int);
        }
        let mut end: usize = start;
        while self.at_number_char()
            invariant
                self.input@ == input,
                start <= end <= input.len(),
                start < input.len(),
                number_end(input, start as int) == number_end(input, end as int),
                end < input.len() ==> self.reading(end as int),
                end == input.len() ==> self.ch.is_none(),
            decreases input.len() - end,
        {
            end += 1;
            self.read_char();
        }
        if end == start {
            return None;
        }
        let literal = text_of(&self.input, start, end);
        self.read_position = end;
        self.position = end - 1;
        Some(Token { token_type: TokenType::INT, literal: Some(literal) })
    }

    /// The next token of the input. Whitespace is skipped; a delimiter or an
    /// operator is matched first, then a word, then a number; any other
    /// character is `ILLEGAL`. At the end of the input every call gives `EOF`.
    pub fn next_token(&mut self) -> (t: Token)
        ensures
            final(self).input() == old(self).input(),
            t@ == scan(old(self).input(), old(self).cursor()).0,
            final(self).cursor() == scan(old(self).input(), old(self).cursor()).1,
            0 <= old(self).cursor() <= final(self).cursor(),
    {
        let ghost input = self.input@;
        let ghost start = self.read_position as int;
        proof {
            if start <= input.len() {
                lemma_skip_blanks(input, start);
            }
            lemma_scan_advances(input, start);
        }
        self.read_char();
        while self.at_blank()
            invariant
                self.input@ == input,
                0 <= start <= self.position,
                skip_blanks(input, start) == skip_blanks(input, self.position as int),
                self.position < input.len() ==> self.reading(self.position as int),
                self.position >= input.len() ==> self.ch.is_none() && self.read_position
                    == moved_on(self.position as int),
            decreases input.len() - self.position,
        {
            self.read_char();
        }
        if self.ch.is_none() {
            return Token { token_type: TokenType::EOF, literal: None };
        }
        match self.match_char() {
            Some(t) => {
                return t;
            },
            None => {},
        }
        match self.match_alphabetic_span() {
            Some(t) => {
                return t;
            },
            None => {},
        }
        match self.match_numeric_span() {
            Some(t) => {
                return t;
            },
            None => {},
        }
        Token { token_type: TokenType::ILLEGAL, literal: None }
    }
}

/// Whether the lexer has a token for `c`: whitespace, a letter, a numeral,
/// or one of the punctuation characters of the language.
pub open spec fn admitted(c: char) -> bool {
    is_blank(c) || is_letter(c) || is_numeral(c) || c == '=' || c == '!' || symbol_kind(
        c,
    ).is_some()
}

/// A text of admitted characters gives no `ILLEGAL` token.
pub proof fn lemma_admitted_is_legal(input: Seq<char>, pos: int)
    requires
        0 <= pos <= input.len(),
        forall|i: int| 0 <= i < input.len() ==> admitted(#[trigger] input[i]),
    ensures
        all_legal(all_tokens(input, pos)),
    decreases input.len() - pos,
{
    lemma_skip_blanks(input, pos);
    lemma_scan_advances(input, pos);
    let p = skip_blanks(input, pos);
    let (t, next) = scan(input, pos);
    let tokens = all_tokens(input, pos);
    if p < input.len() {
        assert(admitted(input[p]));
        lemma_word_kind_not_eof(input.subrange(p, word_end(input, p)));
        assert(t.token_type != TokenType::ILLEGAL);
    }
    if t.token_type != TokenType::EOF {
        lemma_admitted_is_legal(input, next);
        let rest = all_tokens(input, next);
        assert(tokens == seq![t] + rest);
        assert forall|i: int| 0 <= i < tokens.len() implies (#[trigger] tokens[i]).token_type
            != TokenType::ILLEGAL by {
            if i > 0 {
                assert(tokens[i] == rest[i - 1]);
            }
        }
    } else {
        assert(tokens =~= seq![t]);
    }
}

/// The contents of a sequence of tokens, in order.
pub open spec fn token_views(tokens: Seq<Token>) -> Seq<TokenView> {
    tokens.map_values(|t: Token| t@)
}

/// All the tokens of `source`, up to and including `EOF`.
///
/// Where none of them is `ILLEGAL`, nothing of the source but its whitespace
/// is lost: the literals of the tokens, one after the other, are the source
/// without its whitespace. This supposes that `=` is no whitespace. None of
/// them is `ILLEGAL` where the source is made of admitted characters only.
pub fn tokenize(source: String) -> (tokens: Vec<Token>)
    ensures
        token_views(tokens@) == all_tokens(source@, 0),
        !is_blank('=') && all_legal(all_tokens(source@, 0)) ==> without_blanks(source@)
            == literals(all_tokens(source@, 0)),
        (forall|i: int| 0 <= i < source@.len() ==> admitted(#[trigger] source@[i])) ==> all_legal(
            all_tokens(source@, 0),
        ),
{
    let ghost input = source@;
    let mut lexer = Lexer::new(source);
    let mut tokens: Vec<Token> = Vec::new();
    let mut done = false;
    proof {
        assert(token_views(tokens@) + all_tokens(input, 0) =~= all_tokens(input, 0));
    }
    while !done
        invariant
            lexer.input() == input,
            !done ==> 0 <= lexer.cursor() <= input.len(),
            !done ==> token_views(tokens@) + all_tokens(input, lexer.cursor()) == all_tokens(
                input,
                0,
            ),
            done ==> token_views(tokens@) == all_tokens(input, 0),
        decreases
                if done {
                    0
                } else {
                    input.len() - lexer.cursor() + 1
                },
    {
        let ghost cursor = lexer.cursor();
        let ghost before = token_views(tokens@);
        let token = lexer.next_token();
        proof {
            lemma_scan_advances(input, cursor);
            assert(token_views(tokens@.push(token)) =~= before.push(token@));
            if token@.token_type != TokenType::EOF {
                assert(all_tokens(input, cursor) == seq![token@] + all_tokens(
                    input,
                    lexer.cursor(),
                ));
                assert(before.push(token@) + all_tokens(input, lexer.cursor()) =~= before
                    + all_tokens(input, cursor));
            } else {
                assert(all_tokens(input, cursor) =~= seq![token@]);
                assert(before.push(token@) =~= before + all_tokens(input, cursor));
            }
        }
        done = token.token_type == TokenType::EOF;
        tokens.push(token);
    }
    proof {
        if !is_blank('=') && all_legal(all_tokens(input, 0)) {
            literals_cover_input(input, 0);
            assert(input.skip(0) =~= input);
        }
        if forall|i: int| 0 <= i < input.len() ==> admitted(#[trigger] input[i]) {
            lemma_admitted_is_legal(input, 0);
        }
    }
    tokens
}

} // verus!
