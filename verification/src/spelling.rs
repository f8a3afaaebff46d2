//! From the printed form back to tokens: the lexer reads the printed form
//! of a canonical tree as the canonical tokens of that tree.
//!
//! What the lexer does with a character depends on the character's class,
//! and the classes are those of the standard library. The proofs here take as
//! given how the characters of the language's own text are classed: a space
//! is whitespace; punctuation is neither whitespace, letter nor numeral;
//! digits are numerals and nothing else; lower-case letters are letters and
//! no whitespace. `classes_confirmed` asks the standard library whether that
//! is so.
use crate::ast::Parser;
use crate::grammar::{
    equality_with_comparison_prints, expression, expression_statement, grouping, is_binary,
    kind_at, name_token, precedence_decides_grouping, product_with_sum_prints, program,
    statement, sum_with_product_prints, tok, Outline, Parsed, Precedence,
};
use crate::lexer::{
    all_tokens, in_number, in_word, number_end, scan, skip_blanks, symbol_at, symbol_kind,
    token_at, word_end, word_kind, Lexer,
};
use crate::rendering::{
    assign_sign, comma, fn_word, infix_kind, left_brace, left_paren, lemma_stands_first,
    let_word, operator_sign, parser_reads_statements_to_end, plain_expression, plain_name,
    plain_statement, prefix_kind, render, render_list, render_statements, return_word,
    right_brace, right_paren, semicolon,
};
use crate::statements::{lemma_node_views, print, print_list, NodeView};
use crate::text::{
    chars_of, is_blank, is_digit, is_letter, is_numeral, lemma_numeral_reads_back, nat_text,
    owned, same_text,
};
use crate::token::{bare_token, token, TokenType, TokenView};
use vstd::prelude::*;
use vstd::string::StringExecFns;

verus! {

/// Whether `c` is one of the punctuation characters of the language.
pub open spec fn is_mark(c: char) -> bool {
    c == '(' || c == ')' || c == '{' || c == '}' || c == ',' || c == ';' || c == '=' || c == '!'
        || c == '+' || c == '-' || c == '*' || c == '/' || c == '<' || c == '>'
}

/// Whether `c` is a lower-case letter of the basic alphabet.
pub open spec fn is_small(c: char) -> bool {
    'a' <= c <= 'z'
}

/// How the characters of the language's own text are classed.
#[verifier::opaque]
pub open spec fn classes_hold() -> bool {
    &&& is_blank(' ')
    &&& forall|c: char| #[trigger] is_mark(c) ==> !is_blank(c) && !is_letter(c) && !is_numeral(c)
    &&& forall|c: char| #[trigger] is_digit(c) ==> is_numeral(c) && !is_blank(c) && !is_letter(c)
    &&& forall|c: char| #[trigger] is_small(c) ==> is_letter(c) && !is_blank(c)
}

/// Whether every character of `chars` is classed as one of its kind should
/// be: a punctuation character as neither whitespace, letter nor numeral; a
/// digit as a numeral and nothing else; a letter as a letter and no
/// whitespace.
fn classed(chars: &Vec<char>, digits: bool, letters: bool) -> (ok: bool)
    ensures
        ok == forall|i: int|
            0 <= i < chars.len() ==> {
                &&& !is_blank(#[trigger] chars[i])
                &&& is_letter(chars[i]) == letters
                &&& letters || is_numeral(chars[i]) == digits
            },
{
    let mut i: usize = 0;
    while i < chars.len()
        invariant
            i <= chars.len(),
            forall|k: int|
                0 <= k < i ==> {
                    &&& !is_blank(#[trigger] chars[k])
                    &&& is_letter(chars[k]) == letters
                    &&& letters || is_numeral(chars[k]) == digits
                },
        decreases chars.len() - i,
    {
        let c = chars[i];
        if c.is_whitespace() || c.is_alphabetic() != letters {
            proof {
                assert(is_blank(chars[i as int]) || is_letter(chars[i as int]) != letters);
            }
            return false;
        }
        if !letters && c.is_numeric() != digits {
            proof {
                assert(is_numeral(chars[i as int]) != digits);
            }
            return false;
        }
        i += 1;
    }
    true
}

/// Asks the standard library how it classes the characters of the
/// language's own text. The answer is yes where the classes are as
/// `classes_hold` takes them to be.
pub fn classes_confirmed() -> (ok: bool)
    ensures
        ok == classes_hold(),
{
    let marks = vec!['(', ')', '{', '}', ',', ';', '=', '!', '+', '-', '*', '/', '<', '>'];
    let digits = vec!['0', '1', '2', '3', '4', '5', '6', '7', '8', '9'];
    let letters = vec![
        'a',
        'b',
        'c',
        'd',
        'e',
        'f',
        'g',
        'h',
        'i',
        'j',
        'k',
        'l',
        'm',
        'n',
        'o',
        'p',
        'q',
        'r',
        's',
        't',
        'u',
        'v',
        'w',
        'x',
        'y',
        'z',
    ];
    let space = ' ';
    let ok = space.is_whitespace() && classed(&marks, false, false) && classed(
        &digits,
        true,
        false,
    ) && classed(&letters, false, true);
    proof {
        reveal(classes_hold);
        if !ok {
            assert(is_mark(marks[0]) && is_mark(marks[1]) && is_mark(marks[2]) && is_mark(
                marks[3],
            ) && is_mark(marks[4]) && is_mark(marks[5]) && is_mark(marks[6]) && is_mark(marks[7])
                && is_mark(marks[8]) && is_mark(marks[9]) && is_mark(marks[10]) && is_mark(
                marks[11],
            ) && is_mark(marks[12]) && is_mark(marks[13]));
            assert forall|i: int| 0 <= i < marks.len() implies is_mark(#[trigger] marks[i]) by {}
            assert forall|i: int| 0 <= i < digits.len() implies is_digit(#[trigger] digits[i]) by {}
            assert forall|i: int| 0 <= i < letters.len() implies is_small(
                #[trigger] letters[i],
            ) by {}
        }
        if ok {
            assert forall|c: char| #[trigger] is_mark(c) implies !is_blank(c) && !is_letter(c)
                && !is_numeral(c) by {
                let k = choose|k: int| 0 <= k < marks.len() && marks[k] == c;
                assert(marks[0] == '(' && marks[1] == ')' && marks[2] == '{' && marks[3] == '}'
                    && marks[4] == ',' && marks[5] == ';' && marks[6] == '=' && marks[7] == '!'
                    && marks[8] == '+' && marks[9] == '-' && marks[10] == '*' && marks[11]
                    == '/' && marks[12] == '<' && marks[13] == '>');
                assert(0 <= k < marks.len() && marks[k] == c);
            }
            assert forall|c: char| #[trigger] is_digit(c) implies is_numeral(c) && !is_blank(c)
                && !is_letter(c) by {
                let k = c as int - '0' as int;
                assert(digits[0] == '0' && digits[1] == '1' && digits[2] == '2' && digits[3]
                    == '3' && digits[4] == '4' && digits[5] == '5' && digits[6] == '6'
                    && digits[7] == '7' && digits[8] == '8' && digits[9] == '9');
                assert(0 <= k < digits.len() && digits[k] == c);
            }
            assert forall|c: char| #[trigger] is_small(c) implies is_letter(c) && !is_blank(
                c,
            ) by {
                let k = c as int - 'a' as int;
                assert(letters[0] == 'a' && letters[1] == 'b' && letters[2] == 'c' && letters[3]
                    == 'd' && letters[4] == 'e' && letters[5] == 'f' && letters[6] == 'g'
                    && letters[7] == 'h' && letters[8] == 'i' && letters[9] == 'j'
                    && letters[10] == 'k' && letters[11] == 'l' && letters[12] == 'm'
                    && letters[13] == 'n' && letters[14] == 'o' && letters[15] == 'p'
                    && letters[16] == 'q' && letters[17] == 'r' && letters[18] == 's'
                    && letters[19] == 't' && letters[20] == 'u' && letters[21] == 'v'
                    && letters[22] == 'w' && letters[23] == 'x' && letters[24] == 'y'
                    && letters[25] == 'z');
                assert(0 <= k < letters.len() && letters[k] == c);
            }
        }
    }
    ok
}

/// A space is whitespace, and so no part of a word or a number.
proof fn lemma_space()
    requires
        classes_hold(),
    ensures
        is_blank(' '),
        !in_word(' '),
        !in_number(' '),
{
    reveal(classes_hold);
}

/// A punctuation character is no whitespace and no part of a word or a
/// number.
proof fn lemma_mark(c: char)
    requires
        classes_hold(),
        is_mark(c),
    ensures
        !is_blank(c),
        !in_word(c),
        !in_number(c),
{
    reveal(classes_hold);
}

/// A digit is part of a number, and neither whitespace, part of a word nor
/// punctuation.
proof fn lemma_digit(c: char)
    requires
        classes_hold(),
        is_digit(c),
    ensures
        !is_blank(c),
        !in_word(c),
        in_number(c),
        !is_mark(c),
{
    reveal(classes_hold);
}

/// A lower-case letter is part of a word, and neither whitespace nor
/// punctuation.
proof fn lemma_small(c: char)
    requires
        classes_hold(),
        is_small(c),
    ensures
        !is_blank(c),
        in_word(c),
        !is_mark(c),
{
    reveal(classes_hold);
}

/// A character of a word is no punctuation, given the classes.
proof fn lemma_word_char(c: char)
    requires
        classes_hold(),
        in_word(c),
    ensures
        !is_blank(c),
        !is_mark(c),
{
    reveal(classes_hold);
}

/// Whether the characters `piece` stand in `input` from index `a` on.
#[verifier::opaque]
pub open spec fn holds_at(input: Seq<char>, a: int, piece: Seq<char>) -> bool {
    &&& 0 <= a
    &&& a + piece.len() <= input.len()
    &&& forall|k: int| 0 <= k < piece.len() ==> input[a + k] == #[trigger] piece[k]
}

/// Where two pieces of text stand one after the other, each of them
/// stands.
proof fn lemma_holds_split(input: Seq<char>, a: int, x: Seq<char>, y: Seq<char>)
    requires
        holds_at(input, a, x + y),
    ensures
        holds_at(input, a, x),
        holds_at(input, a + x.len(), y),
{
    reveal(holds_at);
    assert forall|k: int| 0 <= k < x.len() implies input[a + k] == #[trigger] x[k] by {
        assert((x + y)[k] == x[k]);
    }
    assert forall|k: int| 0 <= k < y.len() implies input[a + x.len() + k] == #[trigger] y[k] by {
        assert((x + y)[x.len() + k] == y[k]);
    }
}

/// Where a piece of text stands, each of its characters is at its index.
proof fn lemma_holds_index(input: Seq<char>, a: int, piece: Seq<char>, k: int)
    requires
        holds_at(input, a, piece),
        0 <= k < piece.len(),
    ensures
        0 <= a + k < input.len(),
        input[a + k] == piece[k],
{
    reveal(holds_at);
}

/// Where a piece of text stands, it lies within the input.
proof fn lemma_holds_bounds(input: Seq<char>, a: int, piece: Seq<char>)
    requires
        holds_at(input, a, piece),
    ensures
        0 <= a,
        a + piece.len() <= input.len(),
{
    reveal(holds_at);
}

/// A text stands at its own start.
proof fn lemma_holds_whole(input: Seq<char>)
    ensures
        holds_at(input, 0, input),
{
    reveal(holds_at);
}

/// Whether a token that ends right before index `b` cannot run on: the input
/// ends there, or the character there is neither part of a word or a number
/// nor an equals sign.
pub open spec fn breaks_at(input: Seq<char>, b: int) -> bool {
    b >= input.len() || (!in_word(input[b]) && !in_number(input[b]) && input[b] != '=')
}

/// Whether the lexer, set on index `from`, hands out exactly `tokens` and
/// stands on index `to` after them, whitespace before `to` skipped.
#[verifier::opaque]
pub open spec fn scans(input: Seq<char>, from: int, to: int, tokens: Seq<TokenView>) -> bool
    decreases tokens.len(),
{
    if tokens.len() == 0 {
        &&& 0 <= from <= to <= input.len()
        &&& forall|k: int| from <= k < to ==> is_blank(#[trigger] input[k])
    } else {
        let p = skip_blanks(input, from);
        &&& 0 <= from <= p < to <= input.len()
        &&& token_at(input, p).0 == tokens[0]
        &&& p < token_at(input, p).1 <= to
        &&& scans(input, token_at(input, p).1, to, tokens.drop_first())
    }
}

/// Skipping whitespace from the start of a stretch of whitespace is
/// skipping it from the end of the stretch.
proof fn lemma_skip_through(input: Seq<char>, from: int, to: int)
    requires
        0 <= from <= to <= input.len(),
        forall|k: int| from <= k < to ==> is_blank(#[trigger] input[k]),
    ensures
        skip_blanks(input, from) == skip_blanks(input, to),
    decreases to - from,
{
    if from < to {
        assert(is_blank(input[from]));
        lemma_skip_through(input, from + 1, to);
    }
}

/// Nothing but whitespace gives no token.
proof fn lemma_scans_blank(input: Seq<char>, from: int, to: int)
    requires
        0 <= from <= to <= input.len(),
        forall|k: int| from <= k < to ==> is_blank(#[trigger] input[k]),
    ensures
        scans(input, from, to, Seq::empty()),
{
    reveal(scans);
}

/// One token, read from a character that is no whitespace.
proof fn lemma_scans_one(input: Seq<char>, from: int, to: int, t: TokenView)
    requires
        0 <= from < to <= input.len(),
        !is_blank(input[from]),
        token_at(input, from) == (t, to),
    ensures
        scans(input, from, to, seq![t]),
{
    reveal(scans);
    assert(skip_blanks(input, from) == from);
    assert(seq![t].drop_first() =~= Seq::<TokenView>::empty());
    assert(seq![t][0] == t);
    assert(scans(input, to, to, Seq::<TokenView>::empty()));
}

/// What is scanned up to an index and what is scanned from it on make what is
/// scanned over both.
proof fn lemma_scans_join(
    input: Seq<char>,
    a: int,
    b: int,
    c: int,
    first: Seq<TokenView>,
    second: Seq<TokenView>,
)
    requires
        scans(input, a, b, first),
        scans(input, b, c, second),
    ensures
        scans(input, a, c, first + second),
    decreases first.len(),
{
    reveal(scans);
    if first.len() == 0 {
        assert(first + second =~= second);
        if second.len() == 0 {
            assert forall|k: int| a <= k < c implies is_blank(#[trigger] input[k]) by {
                if k < b {
                } else {
                }
            }
        } else {
            lemma_skip_through(input, a, b);
        }
    } else {
        let p = skip_blanks(input, a);
        let q = token_at(input, p).1;
        lemma_scans_join(input, q, b, c, first.drop_first(), second);
        assert((first + second).drop_first() =~= first.drop_first() + second);
        assert((first + second)[0] == first[0]);
        lemma_scans_bounds(input, b, c, second);
    }
}

/// What is scanned lies within the input.
proof fn lemma_scans_bounds(input: Seq<char>, from: int, to: int, tokens: Seq<TokenView>)
    requires
        scans(input, from, to, tokens),
    ensures
        0 <= from <= to <= input.len(),
{
    reveal(scans);
}

/// Whether none of `tokens` is `EOF`.
pub open spec fn none_ends(tokens: Seq<TokenView>) -> bool {
    forall|i: int| 0 <= i < tokens.len() ==> (#[trigger] tokens[i]).token_type != TokenType::EOF
}

/// What is scanned up to the end of the input is all the lexer hands out
/// before `EOF`.
pub proof fn lemma_scans_all(input: Seq<char>, from: int, tokens: Seq<TokenView>)
    requires
        scans(input, from, input.len() as int, tokens),
        none_ends(tokens),
    ensures
        all_tokens(input, from) == tokens + seq![bare_token(TokenType::EOF)],
    decreases tokens.len(),
{
    reveal(scans);
    let end = input.len() as int;
    if tokens.len() == 0 {
        lemma_skip_through(input, from, end);
        assert(skip_blanks(input, end) == end);
        assert(scan(input, from).0 == bare_token(TokenType::EOF));
        assert(all_tokens(input, from) =~= tokens + seq![bare_token(TokenType::EOF)]);
    } else {
        let p = skip_blanks(input, from);
        let q = token_at(input, p).1;
        assert(scan(input, from) == token_at(input, p));
        assert(tokens[0].token_type != TokenType::EOF);
        assert forall|i: int| 0 <= i < tokens.drop_first().len() implies (
        #[trigger] tokens.drop_first()[i]).token_type != TokenType::EOF by {
            assert(tokens.drop_first()[i] == tokens[i + 1]);
        }
        lemma_scans_all(input, q, tokens.drop_first());
        assert(all_tokens(input, from) == seq![tokens[0]] + all_tokens(input, q));
        assert(seq![tokens[0]] + (tokens.drop_first() + seq![bare_token(TokenType::EOF)])
            =~= tokens + seq![bare_token(TokenType::EOF)]);
    }
}

/// A punctuation character that never joins the next one is a token of its
/// own.
proof fn lemma_scans_mark(input: Seq<char>, a: int, c: char, kind: TokenType)
    requires
        classes_hold(),
        0 <= a < input.len(),
        input[a] == c,
        symbol_kind(c) == Some(kind),
    ensures
        scans(input, a, a + 1, seq![token(kind, seq![c])]),
{
    lemma_mark(c);
    assert(symbol_at(input, a) == Some((token(kind, seq![c]), a + 1)));
    lemma_scans_one(input, a, a + 1, token(kind, seq![c]));
}

/// `=` or `!` before anything but `=` is a token of its own.
proof fn lemma_scans_single(input: Seq<char>, a: int, c: char)
    requires
        classes_hold(),
        0 <= a < input.len(),
        input[a] == c,
        c == '=' || c == '!',
        a + 1 < input.len() ==> input[a + 1] != '=',
    ensures
        scans(
            input,
            a,
            a + 1,
            seq![
                token(
                    if c == '=' {
                        TokenType::ASSIGN
                    } else {
                        TokenType::BANG
                    },
                    seq![c],
                ),
            ],
        ),
{
    lemma_mark(c);
    let t = token(
        if c == '=' {
            TokenType::ASSIGN
        } else {
            TokenType::BANG
        },
        seq![c],
    );
    assert(symbol_at(input, a) == Some((t, a + 1)));
    lemma_scans_one(input, a, a + 1, t);
}

/// `=` or `!` right before `=` makes one token with it.
proof fn lemma_scans_double(input: Seq<char>, a: int, c: char)
    requires
        classes_hold(),
        0 <= a,
        a + 1 < input.len(),
        input[a] == c,
        c == '=' || c == '!',
        input[a + 1] == '=',
    ensures
        scans(
            input,
            a,
            a + 2,
            seq![
                token(
                    if c == '=' {
                        TokenType::EQ
                    } else {
                        TokenType::NEQ
                    },
                    seq![c, '='],
                ),
            ],
        ),
{
    lemma_mark(c);
    let t = token(
        if c == '=' {
            TokenType::EQ
        } else {
            TokenType::NEQ
        },
        seq![c, '='],
    );
    assert(symbol_at(input, a) == Some((t, a + 2)));
    lemma_scans_one(input, a, a + 2, t);
}

/// A word ends where its characters end.
proof fn lemma_word_runs(input: Seq<char>, from: int, to: int)
    requires
        0 <= from <= to <= input.len(),
        forall|k: int| from <= k < to ==> in_word(#[trigger] input[k]),
        to < input.len() ==> !in_word(input[to]),
    ensures
        word_end(input, from) == to,
    decreases to - from,
{
    if from < to {
        assert(in_word(input[from]));
        lemma_word_runs(input, from + 1, to);
    }
}

/// A number ends where its characters end.
proof fn lemma_number_runs(input: Seq<char>, from: int, to: int)
    requires
        0 <= from <= to <= input.len(),
        forall|k: int| from <= k < to ==> in_number(#[trigger] input[k]),
        to < input.len() ==> !in_number(input[to]),
    ensures
        number_end(input, from) == to,
    decreases to - from,
{
    if from < to {
        assert(in_number(input[from]));
        lemma_number_runs(input, from + 1, to);
    }
}

/// Whether every character of `word` can be part of a word, and there is at
/// least one.
pub open spec fn is_word(word: Seq<char>) -> bool {
    word.len() > 0 && forall|k: int| 0 <= k < word.len() ==> in_word(#[trigger] word[k])
}

/// A word that stands before a character that is none of a word's is one
/// token.
proof fn lemma_scans_word(input: Seq<char>, a: int, word: Seq<char>)
    requires
        classes_hold(),
        holds_at(input, a, word),
        is_word(word),
        a + word.len() < input.len() ==> !in_word(input[a + word.len()]),
    ensures
        scans(input, a, a + word.len(), seq![token(word_kind(word), word)]),
{
    reveal(holds_at);
    let end = a + word.len();
    assert forall|k: int| a <= k < end implies in_word(#[trigger] input[k]) by {
        assert(input[a + (k - a)] == word[k - a]);
    }
    lemma_word_runs(input, a, end);
    assert(input[a] == word[0]);
    lemma_word_char(input[a]);
    assert(symbol_kind(input[a]).is_some() ==> is_mark(input[a]));
    assert(symbol_at(input, a).is_none());
    assert(input.subrange(a, end) =~= word);
    lemma_scans_one(input, a, end, token(word_kind(word), word));
}

/// Whether every character of `digits` is a decimal digit, and there is at
/// least one.
pub open spec fn is_number(digits: Seq<char>) -> bool {
    digits.len() > 0 && forall|k: int| 0 <= k < digits.len() ==> is_digit(#[trigger] digits[k])
}

/// A run of digits that stands before a character that is none of a
/// number's is one token.
proof fn lemma_scans_number(input: Seq<char>, a: int, digits: Seq<char>)
    requires
        classes_hold(),
        holds_at(input, a, digits),
        is_number(digits),
        a + digits.len() < input.len() ==> !in_number(input[a + digits.len()]),
    ensures
        scans(input, a, a + digits.len(), seq![token(TokenType::INT, digits)]),
{
    reveal(holds_at);
    let end = a + digits.len();
    assert forall|k: int| a <= k < end implies in_number(#[trigger] input[k]) by {
        assert(input[a + (k - a)] == digits[k - a]);
        lemma_digit(digits[k - a]);
    }
    lemma_number_runs(input, a, end);
    assert(input[a] == digits[0]);
    lemma_digit(input[a]);
    assert(symbol_kind(input[a]).is_some() ==> is_mark(input[a]));
    assert(symbol_at(input, a).is_none());
    assert(input.subrange(a, end) =~= digits);
    lemma_scans_one(input, a, end, token(TokenType::INT, digits));
}

/// A space gives no token.
proof fn lemma_scans_space(input: Seq<char>, a: int)
    requires
        classes_hold(),
        0 <= a < input.len(),
        input[a] == ' ',
    ensures
        scans(input, a, a + 1, Seq::empty()),
{
    lemma_space();
    lemma_scans_blank(input, a, a + 1);
}

/// A keyword that stands before a character that is none of a word's is one
/// token of the keyword's kind.
proof fn lemma_scans_keyword(input: Seq<char>, a: int, word: Seq<char>)
    requires
        classes_hold(),
        holds_at(input, a, word),
        word.len() > 0,
        forall|k: int| 0 <= k < word.len() ==> is_small(#[trigger] word[k]),
        a + word.len() < input.len() ==> !in_word(input[a + word.len()]),
    ensures
        scans(input, a, a + word.len(), seq![token(word_kind(word), word)]),
{
    assert forall|k: int| 0 <= k < word.len() implies in_word(#[trigger] word[k]) by {
        lemma_small(word[k]);
    }
    lemma_scans_word(input, a, word);
}

/// The keywords that the printed form uses, as the lexer knows them.
proof fn lemma_keywords()
    ensures
        word_kind("let"@) == TokenType::LET,
        word_kind("fn"@) == TokenType::FUNCTION,
        word_kind("return"@) == TokenType::RETURN,
        word_kind("true"@) == TokenType::TRUE,
        word_kind("false"@) == TokenType::FALSE,
        "let"@.len() == 3,
        "fn"@.len() == 2,
        "return"@.len() == 6,
        "true"@.len() == 4,
        "false"@.len() == 5,
        forall|k: int| 0 <= k < 3 ==> is_small(#[trigger] "let"@[k]),
        forall|k: int| 0 <= k < 2 ==> is_small(#[trigger] "fn"@[k]),
        forall|k: int| 0 <= k < 6 ==> is_small(#[trigger] "return"@[k]),
        forall|k: int| 0 <= k < 4 ==> is_small(#[trigger] "true"@[k]),
        forall|k: int| 0 <= k < 5 ==> is_small(#[trigger] "false"@[k]),
{
    reveal_strlit("let");
    reveal_strlit("fn");
    reveal_strlit("if");
    reveal_strlit("else");
    reveal_strlit("return");
    reveal_strlit("true");
    reveal_strlit("false");
    assert("fn"@.len() != "let"@.len());
    assert("return"@.len() != "let"@.len());
    assert("true"@[0] != "else"@[0]);
    assert("false"@.len() != "let"@.len());
}

/// `(` is the token `(`.
proof fn lemma_spell_left_paren(input: Seq<char>, a: int)
    requires
        classes_hold(),
        holds_at(input, a, "("@),
    ensures
        "("@.len() == 1,
        scans(input, a, a + 1, seq![left_paren()]),
{
    reveal_strlit("(");
    lemma_holds_index(input, a, "("@, 0);
    lemma_scans_mark(input, a, '(', TokenType::LPAREN);
    assert(seq!['('] =~= "("@);
}

/// `)` is the token `)`.
proof fn lemma_spell_right_paren(input: Seq<char>, a: int)
    requires
        classes_hold(),
        holds_at(input, a, ")"@),
    ensures
        ")"@.len() == 1,
        scans(input, a, a + 1, seq![right_paren()]),
{
    reveal_strlit(")");
    lemma_holds_index(input, a, ")"@, 0);
    lemma_scans_mark(input, a, ')', TokenType::RPAREN);
    assert(seq![')'] =~= ")"@);
}

/// `;` is the token `;`.
proof fn lemma_spell_semicolon(input: Seq<char>, a: int)
    requires
        classes_hold(),
        holds_at(input, a, ";"@),
    ensures
        ";"@.len() == 1,
        scans(input, a, a + 1, seq![semicolon()]),
{
    reveal_strlit(";");
    lemma_holds_index(input, a, ";"@, 0);
    lemma_scans_mark(input, a, ';', TokenType::SEMICOLON);
    assert(seq![';'] =~= ";"@);
}

/// A space is no token.
proof fn lemma_spell_space(input: Seq<char>, a: int)
    requires
        classes_hold(),
        holds_at(input, a, " "@),
    ensures
        " "@.len() == 1,
        scans(input, a, a + 1, Seq::empty()),
{
    reveal_strlit(" ");
    lemma_holds_index(input, a, " "@, 0);
    lemma_scans_space(input, a);
}

/// `, ` is the token `,`.
proof fn lemma_spell_comma(input: Seq<char>, a: int)
    requires
        classes_hold(),
        holds_at(input, a, ", "@),
    ensures
        ", "@.len() == 2,
        scans(input, a, a + 2, seq![comma()]),
{
    reveal_strlit(", ");
    reveal_strlit(",");
    lemma_holds_index(input, a, ", "@, 0);
    lemma_holds_index(input, a, ", "@, 1);
    lemma_scans_mark(input, a, ',', TokenType::COMMA);
    lemma_scans_space(input, a + 1);
    assert(seq![','] =~= ","@);
    lemma_scans_join(input, a, a + 1, a + 2, seq![comma()], Seq::empty());
    assert(seq![comma()] + Seq::<TokenView>::empty() =~= seq![comma()]);
}

/// ` = ` is the token `=`.
proof fn lemma_spell_assign(input: Seq<char>, a: int)
    requires
        classes_hold(),
        holds_at(input, a, " = "@),
    ensures
        " = "@.len() == 3,
        scans(input, a, a + 3, seq![assign_sign()]),
{
    reveal_strlit(" = ");
    reveal_strlit("=");
    lemma_holds_index(input, a, " = "@, 0);
    lemma_holds_index(input, a, " = "@, 1);
    lemma_holds_index(input, a, " = "@, 2);
    lemma_scans_space(input, a);
    lemma_scans_single(input, a + 1, '=');
    lemma_scans_space(input, a + 2);
    assert(seq!['='] =~= "="@);
    lemma_scans_join(input, a, a + 1, a + 2, Seq::empty(), seq![assign_sign()]);
    assert(Seq::<TokenView>::empty() + seq![assign_sign()] =~= seq![assign_sign()]);
    lemma_scans_join(input, a, a + 2, a + 3, seq![assign_sign()], Seq::empty());
    assert(seq![assign_sign()] + Seq::<TokenView>::empty() =~= seq![assign_sign()]);
}

/// `fn(` is the tokens `fn` and `(`.
proof fn lemma_spell_fn(input: Seq<char>, a: int)
    requires
        classes_hold(),
        holds_at(input, a, "fn("@),
    ensures
        "fn("@.len() == 3,
        scans(input, a, a + 3, seq![fn_word(), left_paren()]),
{
    reveal_strlit("fn(");
    reveal_strlit("fn");
    reveal_strlit("(");
    lemma_keywords();
    lemma_holds_index(input, a, "fn("@, 0);
    lemma_holds_index(input, a, "fn("@, 1);
    lemma_holds_index(input, a, "fn("@, 2);
    assert(holds_at(input, a, "fn"@)) by {
        reveal(holds_at);
    }
    lemma_mark('(');
    lemma_scans_keyword(input, a, "fn"@);
    lemma_scans_mark(input, a + 2, '(', TokenType::LPAREN);
    assert(seq!['('] =~= "("@);
    lemma_scans_join(input, a, a + 2, a + 3, seq![fn_word()], seq![left_paren()]);
    assert(seq![fn_word()] + seq![left_paren()] =~= seq![fn_word(), left_paren()]);
}

/// `) { ` is the tokens `)` and `{`.
proof fn lemma_spell_opening(input: Seq<char>, a: int)
    requires
        classes_hold(),
        holds_at(input, a, ") { "@),
    ensures
        ") { "@.len() == 4,
        scans(input, a, a + 4, seq![right_paren(), left_brace()]),
{
    reveal_strlit(") { ");
    reveal_strlit(")");
    reveal_strlit("{");
    lemma_holds_index(input, a, ") { "@, 0);
    lemma_holds_index(input, a, ") { "@, 1);
    lemma_holds_index(input, a, ") { "@, 2);
    lemma_holds_index(input, a, ") { "@, 3);
    lemma_scans_mark(input, a, ')', TokenType::RPAREN);
    lemma_scans_space(input, a + 1);
    lemma_scans_mark(input, a + 2, '{', TokenType::LBRACE);
    lemma_scans_space(input, a + 3);
    assert(seq![')'] =~= ")"@);
    assert(seq!['{'] =~= "{"@);
    lemma_scans_join(input, a, a + 1, a + 2, seq![right_paren()], Seq::empty());
    assert(seq![right_paren()] + Seq::<TokenView>::empty() =~= seq![right_paren()]);
    lemma_scans_join(input, a + 2, a + 3, a + 4, seq![left_brace()], Seq::empty());
    assert(seq![left_brace()] + Seq::<TokenView>::empty() =~= seq![left_brace()]);
    lemma_scans_join(input, a, a + 2, a + 4, seq![right_paren()], seq![left_brace()]);
    assert(seq![right_paren()] + seq![left_brace()] =~= seq![right_paren(), left_brace()]);
}

/// ` }` is the token `}`.
proof fn lemma_spell_closing(input: Seq<char>, a: int)
    requires
        classes_hold(),
        holds_at(input, a, " }"@),
    ensures
        " }"@.len() == 2,
        scans(input, a, a + 2, seq![right_brace()]),
{
    reveal_strlit(" }");
    reveal_strlit("}");
    lemma_holds_index(input, a, " }"@, 0);
    lemma_holds_index(input, a, " }"@, 1);
    lemma_scans_space(input, a);
    lemma_scans_mark(input, a + 1, '}', TokenType::RBRACE);
    assert(seq!['}'] =~= "}"@);
    lemma_scans_join(input, a, a + 1, a + 2, Seq::empty(), seq![right_brace()]);
    assert(Seq::<TokenView>::empty() + seq![right_brace()] =~= seq![right_brace()]);
}

/// A prefix operator before anything but `=` is its token.
proof fn lemma_spell_prefix_sign(input: Seq<char>, a: int, operator: Seq<char>)
    requires
        classes_hold(),
        holds_at(input, a, operator),
        prefix_kind(operator).is_some(),
        a + 1 < input.len() ==> input[a + 1] != '=',
    ensures
        operator.len() == 1,
        scans(input, a, a + 1, seq![operator_sign(prefix_kind(operator), operator)]),
{
    reveal_strlit("!");
    reveal_strlit("-");
    lemma_holds_index(input, a, operator, 0);
    if operator == "!"@ {
        lemma_scans_single(input, a, '!');
        assert(seq!['!'] =~= operator);
    } else {
        lemma_scans_mark(input, a, '-', TokenType::MINUS);
        assert(seq!['-'] =~= operator);
    }
}

/// A binary operator before anything but `=` is its token.
proof fn lemma_spell_infix_sign(input: Seq<char>, a: int, operator: Seq<char>)
    requires
        classes_hold(),
        holds_at(input, a, operator),
        infix_kind(operator).is_some(),
        a + operator.len() < input.len() ==> input[a + operator.len()] != '=',
    ensures
        1 <= operator.len() <= 2,
        scans(
            input,
            a,
            a + operator.len(),
            seq![operator_sign(infix_kind(operator), operator)],
        ),
{
    reveal_strlit("+");
    reveal_strlit("-");
    reveal_strlit("*");
    reveal_strlit("/");
    reveal_strlit("<");
    reveal_strlit(">");
    reveal_strlit("==");
    reveal_strlit("!=");
    lemma_holds_index(input, a, operator, 0);
    if operator == "=="@ {
        lemma_holds_index(input, a, operator, 1);
        lemma_scans_double(input, a, '=');
        assert(seq!['=', '='] =~= operator);
    } else if operator == "!="@ {
        lemma_holds_index(input, a, operator, 1);
        lemma_scans_double(input, a, '!');
        assert(seq!['!', '='] =~= operator);
    } else {
        let c = operator[0];
        assert(seq![c] =~= operator);
        lemma_scans_mark(input, a, c, infix_kind(operator).unwrap());
    }
}

/// Whether `name` is a word that the lexer takes for a name, not for a
/// keyword.
pub open spec fn spelled_name(name: Seq<char>) -> bool {
    is_word(name) && word_kind(name) == TokenType::IDENT
}

/// Whether every name in the tree is a word that the lexer takes for a
/// name.
pub open spec fn names_spelled(node: NodeView) -> bool
    decreases node,
{
    match node {
        NodeView::Identifier { value, .. } => spelled_name(value),
        NodeView::Prefix { right, .. } => names_spelled(*right),
        NodeView::Infix { left, right, .. } => names_spelled(*left) && names_spelled(*right),
        NodeView::Call { function, arguments, .. } => names_spelled(*function) && forall|i: int|
            0 <= i < arguments.len() ==> names_spelled(#[trigger] arguments[i]),
        NodeView::Function { parameters, body, .. } => (forall|i: int|
            0 <= i < parameters.len() ==> names_spelled(#[trigger] parameters[i]))
            && names_spelled(*body),
        NodeView::Block { statements, .. } => forall|i: int|
            0 <= i < statements.len() ==> names_spelled(#[trigger] statements[i]),
        NodeView::Let { name, value, .. } => names_spelled(*name) && names_spelled(*value),
        NodeView::Return { value, .. } => names_spelled(*value),
        NodeView::Expression { expression, .. } => names_spelled(*expression),
        _ => true,
    }
}

/// The printed form of a canonical expression starts with a character that
/// is no equals sign.
proof fn lemma_print_head(e: NodeView)
    requires
        classes_hold(),
        plain_expression(e),
        names_spelled(e),
    ensures
        print(e).len() >= 1,
        print(e)[0] != '=',
    decreases e,
{
    reveal_strlit("(");
    reveal_strlit("fn(");
    reveal_strlit("true");
    reveal_strlit("false");
    match e {
        NodeView::Identifier { value, .. } => {
            lemma_word_char(value[0]);
        },
        NodeView::Integer { value, .. } => {
            lemma_numeral_reads_back(value as nat);
            assert(is_digit(nat_text(value as nat)[0]));
        },
        NodeView::Call { function, .. } => {
            lemma_print_head(*function);
        },
        _ => {},
    }
}

/// A punctuation character breaks off whatever token stands before it,
/// unless it is `=`.
proof fn lemma_mark_breaks(input: Seq<char>, b: int, c: char)
    requires
        classes_hold(),
        0 <= b < input.len(),
        input[b] == c,
        is_mark(c),
        c != '=',
    ensures
        breaks_at(input, b),
{
    lemma_mark(c);
}

/// A space breaks off whatever token stands before it.
proof fn lemma_space_breaks(input: Seq<char>, b: int)
    requires
        classes_hold(),
        0 <= b < input.len(),
        input[b] == ' ',
    ensures
        breaks_at(input, b),
{
    lemma_space();
}

/// The lexer reads the printed form of a canonical expression as the
/// expression's canonical tokens, where the printed form stands before
/// something that breaks off its last token.
proof fn lemma_spell_expression(e: NodeView, input: Seq<char>, a: int)
    requires
        classes_hold(),
        plain_expression(e),
        names_spelled(e),
        holds_at(input, a, print(e)),
        breaks_at(input, a + print(e).len()),
    ensures
        scans(input, a, a + print(e).len(), render(e)),
    decreases e, 1int,
{
    lemma_holds_bounds(input, a, print(e));
    match e {
        NodeView::Identifier { value, .. } => {
            lemma_scans_word(input, a, value);
        },
        NodeView::Integer { value, .. } => {
            lemma_numeral_reads_back(value as nat);
            assert(is_number(nat_text(value as nat)));
            lemma_scans_number(input, a, nat_text(value as nat));
        },
        NodeView::Boolean { value, .. } => {
            lemma_keywords();
            if value {
                lemma_scans_keyword(input, a, "true"@);
            } else {
                lemma_scans_keyword(input, a, "false"@);
            }
        },
        NodeView::Prefix { .. } => {
            lemma_spell_prefix_case(e, input, a);
        },
        NodeView::Infix { .. } => {
            lemma_spell_infix_case(e, input, a);
        },
        NodeView::Call { .. } => {
            lemma_spell_call_case(e, input, a);
        },
        NodeView::Function { .. } => {
            lemma_spell_function_case(e, input, a);
        },
        _ => {},
    }
}

/// The same of a prefix node.
proof fn lemma_spell_prefix_case(e: NodeView, input: Seq<char>, a: int)
    requires
        e is Prefix,
        classes_hold(),
        plain_expression(e),
        names_spelled(e),
        holds_at(input, a, print(e)),
    ensures
        scans(input, a, a + print(e).len(), render(e)),
    decreases e, 0int,
{
    let operator = e->Prefix_operator;
    let right = *e->Prefix_right;
    let sign = operator_sign(prefix_kind(operator), operator);
    let pr = print(right);
    let n = pr.len() as int;
    reveal_strlit("!");
    reveal_strlit("-");
    assert(operator.len() == 1);
    assert(print(e) == "("@ + operator + pr + ")"@);
    lemma_holds_split(input, a, "("@ + operator + pr, ")"@);
    lemma_holds_split(input, a, "("@ + operator, pr);
    lemma_holds_split(input, a, "("@, operator);
    lemma_spell_left_paren(input, a);
    lemma_spell_right_paren(input, a + 2 + n);
    lemma_print_head(right);
    lemma_holds_index(input, a + 2, pr, 0);
    lemma_spell_prefix_sign(input, a + 1, operator);
    reveal_strlit(")");
    lemma_holds_index(input, a + 2 + n, ")"@, 0);
    lemma_mark_breaks(input, a + 2 + n, ')');
    lemma_spell_expression(right, input, a + 2);
    lemma_scans_join(input, a, a + 1, a + 2, seq![left_paren()], seq![sign]);
    lemma_scans_join(input, a, a + 2, a + 2 + n, seq![left_paren()] + seq![sign], render(right));
    lemma_scans_join(
        input,
        a,
        a + 2 + n,
        a + 3 + n,
        seq![left_paren()] + seq![sign] + render(right),
        seq![right_paren()],
    );
    assert(seq![left_paren()] + seq![sign] + render(right) + seq![right_paren()] =~= render(e));
}

/// The same of an infix node.
proof fn lemma_spell_infix_case(e: NodeView, input: Seq<char>, a: int)
    requires
        e is Infix,
        classes_hold(),
        plain_expression(e),
        names_spelled(e),
        holds_at(input, a, print(e)),
    ensures
        scans(input, a, a + print(e).len(), render(e)),
    decreases e, 0int,
{
    let operator = e->Infix_operator;
    let left = *e->Infix_left;
    let right = *e->Infix_right;
    let sign = operator_sign(infix_kind(operator), operator);
    let pl = print(left);
    let pr = print(right);
    let m = pl.len() as int;
    let n = pr.len() as int;
    let w = operator.len() as int;
    assert(print(e) == "("@ + pl + " "@ + operator + " "@ + pr + ")"@);
    lemma_holds_split(input, a, "("@ + pl + " "@ + operator + " "@ + pr, ")"@);
    lemma_holds_split(input, a, "("@ + pl + " "@ + operator + " "@, pr);
    lemma_holds_split(input, a, "("@ + pl + " "@ + operator, " "@);
    lemma_holds_split(input, a, "("@ + pl + " "@, operator);
    lemma_holds_split(input, a, "("@ + pl, " "@);
    lemma_holds_split(input, a, "("@, pl);
    lemma_spell_left_paren(input, a);
    lemma_spell_space(input, a + 1 + m);
    lemma_spell_space(input, a + 2 + m + w);
    lemma_spell_right_paren(input, a + 3 + m + w + n);
    reveal_strlit(" ");
    reveal_strlit(")");
    lemma_holds_index(input, a + 1 + m, " "@, 0);
    lemma_holds_index(input, a + 2 + m + w, " "@, 0);
    lemma_holds_index(input, a + 3 + m + w + n, ")"@, 0);
    lemma_space_breaks(input, a + 1 + m);
    lemma_mark_breaks(input, a + 3 + m + w + n, ')');
    lemma_spell_infix_sign(input, a + 2 + m, operator);
    lemma_spell_expression(left, input, a + 1);
    lemma_spell_expression(right, input, a + 3 + m + w);
    let none = Seq::<TokenView>::empty();
    lemma_scans_join(input, a, a + 1, a + 1 + m, seq![left_paren()], render(left));
    lemma_scans_join(input, a, a + 1 + m, a + 2 + m, seq![left_paren()] + render(left), none);
    lemma_scans_join(
        input,
        a,
        a + 2 + m,
        a + 2 + m + w,
        seq![left_paren()] + render(left) + none,
        seq![sign],
    );
    lemma_scans_join(
        input,
        a,
        a + 2 + m + w,
        a + 3 + m + w,
        seq![left_paren()] + render(left) + none + seq![sign],
        none,
    );
    lemma_scans_join(
        input,
        a,
        a + 3 + m + w,
        a + 3 + m + w + n,
        seq![left_paren()] + render(left) + none + seq![sign] + none,
        render(right),
    );
    lemma_scans_join(
        input,
        a,
        a + 3 + m + w + n,
        a + 4 + m + w + n,
        seq![left_paren()] + render(left) + none + seq![sign] + none + render(right),
        seq![right_paren()],
    );
    assert(seq![left_paren()] + render(left) + none + seq![sign] + none + render(right)
        + seq![right_paren()] =~= render(e));
}

/// The same of a call.
proof fn lemma_spell_call_case(e: NodeView, input: Seq<char>, a: int)
    requires
        e is Call,
        classes_hold(),
        plain_expression(e),
        names_spelled(e),
        holds_at(input, a, print(e)),
    ensures
        scans(input, a, a + print(e).len(), render(e)),
    decreases e, 0int,
{
    let callee = *e->Call_function;
    let items = e->Call_arguments;
    let pf = print(callee);
    let pa = print_list(items, 0, Seq::empty(), ", "@);
    let m = pf.len() as int;
    let n = pa.len() as int;
    assert(print(e) == pf + "("@ + pa + ")"@);
    lemma_holds_split(input, a, pf + "("@ + pa, ")"@);
    lemma_holds_split(input, a, pf + "("@, pa);
    lemma_holds_split(input, a, pf, "("@);
    lemma_spell_left_paren(input, a + m);
    lemma_spell_right_paren(input, a + m + 1 + n);
    reveal_strlit("(");
    reveal_strlit(")");
    lemma_holds_index(input, a + m, "("@, 0);
    lemma_holds_index(input, a + m + 1 + n, ")"@, 0);
    lemma_mark_breaks(input, a + m, '(');
    lemma_spell_expression(callee, input, a);
    lemma_spell_list(items, 0, input, a + m + 1);
    lemma_scans_join(input, a, a + m, a + m + 1, render(callee), seq![left_paren()]);
    lemma_scans_join(
        input,
        a,
        a + m + 1,
        a + m + 1 + n,
        render(callee) + seq![left_paren()],
        render_list(items, 0),
    );
    lemma_scans_join(
        input,
        a,
        a + m + 1 + n,
        a + m + 2 + n,
        render(callee) + seq![left_paren()] + render_list(items, 0),
        seq![right_paren()],
    );
    assert(render(callee) + seq![left_paren()] + render_list(items, 0) + seq![right_paren()]
        =~= render(e));
}

/// The lexer reads a printed list of canonical expressions, commas between
/// them, as their canonical tokens with commas between them, where the list
/// stands before a closing parenthesis.
proof fn lemma_spell_list(items: Seq<NodeView>, from: int, input: Seq<char>, a: int)
    requires
        classes_hold(),
        0 <= from <= items.len(),
        forall|k: int|
            0 <= k < items.len() ==> plain_expression(#[trigger] items[k]) && names_spelled(
                items[k],
            ),
        holds_at(input, a, print_list(items, from, Seq::empty(), ", "@)),
        a + print_list(items, from, Seq::empty(), ", "@).len() < input.len(),
        input[a + print_list(items, from, Seq::empty(), ", "@).len()] == ')',
    ensures
        scans(
            input,
            a,
            a + print_list(items, from, Seq::empty(), ", "@).len(),
            render_list(items, from),
        ),
    decreases items, items.len() - from,
{
    let none = Seq::<char>::empty();
    let whole = print_list(items, from, none, ", "@);
    lemma_holds_bounds(input, a, whole);
    if from < items.len() {
        let item = items[from];
        let pi = print(item);
        let m = pi.len() as int;
        assert(pi + none =~= pi);
        if from + 1 < items.len() {
            let rest = print_list(items, from + 1, none, ", "@);
            assert(whole == pi + ", "@ + rest);
            lemma_holds_split(input, a, pi + ", "@, rest);
            lemma_holds_split(input, a, pi, ", "@);
            lemma_spell_comma(input, a + m);
            reveal_strlit(", ");
            lemma_holds_index(input, a + m, ", "@, 0);
            lemma_mark_breaks(input, a + m, ',');
            lemma_spell_expression(item, input, a);
            lemma_spell_list(items, from + 1, input, a + m + 2);
            lemma_scans_join(input, a, a + m, a + m + 2, render(item), seq![comma()]);
            lemma_scans_join(
                input,
                a,
                a + m + 2,
                a + m + 2 + rest.len(),
                render(item) + seq![comma()],
                render_list(items, from + 1),
            );
        } else {
            assert(whole == pi);
            lemma_mark_breaks(input, a + m, ')');
            lemma_spell_expression(item, input, a);
        }
    } else {
        lemma_scans_blank(input, a, a);
    }
}

/// The same of a function literal.
proof fn lemma_spell_function_case(e: NodeView, input: Seq<char>, a: int)
    requires
        e is Function,
        classes_hold(),
        plain_expression(e),
        names_spelled(e),
        holds_at(input, a, print(e)),
    ensures
        scans(input, a, a + print(e).len(), render(e)),
    decreases e, 0int,
{
    let names = e->Function_parameters;
    let body = *e->Function_body;
    let statements = body->Block_statements;
    let pn = print_list(names, 0, Seq::empty(), ", "@);
    let pb = print_list(statements, 0, ";"@, " "@);
    let m = pn.len() as int;
    let n = pb.len() as int;
    let rn = render_list(names, 0);
    let rs = render_statements(statements, 0);
    assert(print(body) == pb);
    assert(print(e) == "fn("@ + pn + ") { "@ + pb + " }"@);
    lemma_holds_split(input, a, "fn("@ + pn + ") { "@ + pb, " }"@);
    lemma_holds_split(input, a, "fn("@ + pn + ") { "@, pb);
    lemma_holds_split(input, a, "fn("@ + pn, ") { "@);
    lemma_holds_split(input, a, "fn("@, pn);
    lemma_spell_fn(input, a);
    lemma_spell_opening(input, a + 3 + m);
    lemma_spell_closing(input, a + 7 + m + n);
    reveal_strlit(") { ");
    lemma_holds_index(input, a + 3 + m, ") { "@, 0);
    assert forall|k: int| 0 <= k < names.len() implies plain_expression(#[trigger] names[k])
        && names_spelled(names[k]) by {
        assert(plain_name(names[k]));
    }
    lemma_spell_list(names, 0, input, a + 3);
    assert(names_spelled(body));
    assert forall|k: int| 0 <= k < statements.len() implies plain_statement(
        #[trigger] statements[k],
    ) && names_spelled(statements[k]) by {
        assert(body is Block);
    }
    lemma_spell_statements(statements, 0, input, a + 7 + m);
    let opening = seq![fn_word(), left_paren()];
    let middle = seq![right_paren(), left_brace()];
    lemma_scans_join(input, a, a + 3, a + 3 + m, opening, rn);
    lemma_scans_join(input, a, a + 3 + m, a + 7 + m, opening + rn, middle);
    lemma_scans_join(input, a, a + 7 + m, a + 7 + m + n, opening + rn + middle, rs);
    lemma_scans_join(
        input,
        a,
        a + 7 + m + n,
        a + 9 + m + n,
        opening + rn + middle + rs,
        seq![right_brace()],
    );
    assert(render(body) == seq![left_brace()] + rs + seq![right_brace()]);
    assert(render(e) == opening + rn + seq![right_paren()] + render(body));
    assert(opening + rn + middle + rs + seq![right_brace()] =~= render(e));
}

/// The lexer reads the printed form of a canonical statement as the
/// statement's canonical tokens, where the printed form stands before
/// something that breaks off its last token.
proof fn lemma_spell_statement(st: NodeView, input: Seq<char>, a: int)
    requires
        classes_hold(),
        plain_statement(st),
        names_spelled(st),
        holds_at(input, a, print(st)),
        breaks_at(input, a + print(st).len()),
    ensures
        scans(input, a, a + print(st).len(), render(st)),
    decreases st, 2int,
{
    match st {
        NodeView::Let { .. } => {
            lemma_spell_let_case(st, input, a);
        },
        NodeView::Return { .. } => {
            lemma_spell_return_case(st, input, a);
        },
        NodeView::Expression { expression, .. } => {
            lemma_spell_expression(*expression, input, a);
        },
        _ => {},
    }
}

/// The same of a `let`.
proof fn lemma_spell_let_case(st: NodeView, input: Seq<char>, a: int)
    requires
        st is Let,
        classes_hold(),
        plain_statement(st),
        names_spelled(st),
        holds_at(input, a, print(st)),
        breaks_at(input, a + print(st).len()),
    ensures
        scans(input, a, a + print(st).len(), render(st)),
    decreases st, 1int,
{
    let name = *st->Let_name;
    let value = *st->Let_value;
    let pn = print(name);
    let pv = print(value);
    let m = pn.len() as int;
    let n = pv.len() as int;
    let none = Seq::<TokenView>::empty();
    lemma_keywords();
    assert(st->Let_token.text() == "let"@);
    assert(print(st) == "let"@ + " "@ + pn + " = "@ + pv);
    lemma_holds_split(input, a, "let"@ + " "@ + pn + " = "@, pv);
    lemma_holds_split(input, a, "let"@ + " "@ + pn, " = "@);
    lemma_holds_split(input, a, "let"@ + " "@, pn);
    lemma_holds_split(input, a, "let"@, " "@);
    lemma_spell_space(input, a + 3);
    lemma_spell_assign(input, a + 4 + m);
    reveal_strlit(" ");
    reveal_strlit(" = ");
    lemma_holds_index(input, a + 3, " "@, 0);
    lemma_holds_index(input, a + 4 + m, " = "@, 0);
    lemma_space();
    lemma_scans_keyword(input, a, "let"@);
    lemma_space_breaks(input, a + 4 + m);
    assert(plain_expression(name));
    lemma_spell_expression(name, input, a + 4);
    lemma_spell_expression(value, input, a + 7 + m);
    lemma_scans_join(input, a, a + 3, a + 4, seq![let_word()], none);
    lemma_scans_join(input, a, a + 4, a + 4 + m, seq![let_word()] + none, render(name));
    lemma_scans_join(
        input,
        a,
        a + 4 + m,
        a + 7 + m,
        seq![let_word()] + none + render(name),
        seq![assign_sign()],
    );
    lemma_scans_join(
        input,
        a,
        a + 7 + m,
        a + 7 + m + n,
        seq![let_word()] + none + render(name) + seq![assign_sign()],
        render(value),
    );
    assert(seq![let_word()] + none + render(name) + seq![assign_sign()] + render(value)
        =~= render(st));
}

/// The same of a `return`.
proof fn lemma_spell_return_case(st: NodeView, input: Seq<char>, a: int)
    requires
        st is Return,
        classes_hold(),
        plain_statement(st),
        names_spelled(st),
        holds_at(input, a, print(st)),
    ensures
        scans(input, a, a + print(st).len(), render(st)),
    decreases st, 1int,
{
    let value = *st->Return_value;
    let pv = print(value);
    let n = pv.len() as int;
    let none = Seq::<TokenView>::empty();
    lemma_keywords();
    assert(st->Return_token.text() == "return"@);
    assert(print(st) == "return"@ + " "@ + pv + ";"@);
    lemma_holds_split(input, a, "return"@ + " "@ + pv, ";"@);
    lemma_holds_split(input, a, "return"@ + " "@, pv);
    lemma_holds_split(input, a, "return"@, " "@);
    lemma_spell_space(input, a + 6);
    lemma_spell_semicolon(input, a + 7 + n);
    reveal_strlit(" ");
    reveal_strlit(";");
    lemma_holds_index(input, a + 6, " "@, 0);
    lemma_holds_index(input, a + 7 + n, ";"@, 0);
    lemma_space();
    lemma_scans_keyword(input, a, "return"@);
    lemma_mark_breaks(input, a + 7 + n, ';');
    lemma_spell_expression(value, input, a + 7);
    lemma_scans_join(input, a, a + 6, a + 7, seq![return_word()], none);
    lemma_scans_join(input, a, a + 7, a + 7 + n, seq![return_word()] + none, render(value));
    lemma_scans_join(
        input,
        a,
        a + 7 + n,
        a + 8 + n,
        seq![return_word()] + none + render(value),
        seq![semicolon()],
    );
    assert(seq![return_word()] + none + render(value) + seq![semicolon()] =~= render(st));
}

/// The lexer reads a printed list of canonical statements, a semicolon
/// after each, as their canonical tokens with a semicolon after each.
proof fn lemma_spell_statements(items: Seq<NodeView>, from: int, input: Seq<char>, a: int)
    requires
        classes_hold(),
        0 <= from <= items.len(),
        forall|k: int|
            0 <= k < items.len() ==> plain_statement(#[trigger] items[k]) && names_spelled(
                items[k],
            ),
        holds_at(input, a, print_list(items, from, ";"@, " "@)),
    ensures
        scans(
            input,
            a,
            a + print_list(items, from, ";"@, " "@).len(),
            render_statements(items, from),
        ),
    decreases items, items.len() - from,
{
    let whole = print_list(items, from, ";"@, " "@);
    lemma_holds_bounds(input, a, whole);
    if from < items.len() {
        let st = items[from];
        let ps = print(st);
        let m = ps.len() as int;
        let none = Seq::<TokenView>::empty();
        reveal_strlit(";");
        if from + 1 < items.len() {
            let rest = print_list(items, from + 1, ";"@, " "@);
            assert(whole == ps + ";"@ + " "@ + rest);
            lemma_holds_split(input, a, ps + ";"@ + " "@, rest);
            lemma_holds_split(input, a, ps + ";"@, " "@);
            lemma_holds_split(input, a, ps, ";"@);
            lemma_spell_semicolon(input, a + m);
            lemma_spell_space(input, a + m + 1);
            lemma_holds_index(input, a + m, ";"@, 0);
            lemma_mark_breaks(input, a + m, ';');
            lemma_spell_statement(st, input, a);
            lemma_spell_statements(items, from + 1, input, a + m + 2);
            lemma_scans_join(input, a, a + m, a + m + 1, render(st), seq![semicolon()]);
            lemma_scans_join(input, a, a + m + 1, a + m + 2, render(st) + seq![semicolon()], none);
            lemma_scans_join(
                input,
                a,
                a + m + 2,
                a + m + 2 + rest.len(),
                render(st) + seq![semicolon()] + none,
                render_statements(items, from + 1),
            );
            assert(render(st) + seq![semicolon()] + none + render_statements(items, from + 1)
                =~= render_statements(items, from));
        } else {
            assert(whole == ps + ";"@);
            lemma_holds_split(input, a, ps, ";"@);
            lemma_spell_semicolon(input, a + m);
            lemma_holds_index(input, a + m, ";"@, 0);
            lemma_mark_breaks(input, a + m, ';');
            lemma_spell_statement(st, input, a);
            lemma_scans_join(input, a, a + m, a + m + 1, render(st), seq![semicolon()]);
            assert(render_statements(items, from + 1) =~= Seq::<TokenView>::empty());
            assert(render(st) + seq![semicolon()] =~= render_statements(items, from));
        }
    } else {
        lemma_scans_blank(input, a, a);
    }
}

/// What the lexer hands out is never `EOF` before the end.
proof fn lemma_scans_none_ends(input: Seq<char>, from: int, to: int, tokens: Seq<TokenView>)
    requires
        scans(input, from, to, tokens),
    ensures
        none_ends(tokens),
    decreases tokens.len(),
{
    reveal(scans);
    if tokens.len() > 0 {
        let p = skip_blanks(input, from);
        let q = token_at(input, p).1;
        lemma_scans_none_ends(input, q, to, tokens.drop_first());
        assert(tokens[0].token_type != TokenType::EOF);
        assert forall|i: int| 0 <= i < tokens.len() implies (#[trigger] tokens[i]).token_type
            != TokenType::EOF by {
            if i > 0 {
                assert(tokens.drop_first()[i - 1] == tokens[i]);
            }
        }
    }
}

/// The tokens of the printed form of canonical statements, printed one after
/// the other as a block prints them, are the statements' canonical tokens,
/// and `EOF`.
pub proof fn printed_statements_tokens(statements: Seq<NodeView>)
    requires
        classes_hold(),
        forall|k: int|
            0 <= k < statements.len() ==> plain_statement(#[trigger] statements[k])
                && names_spelled(statements[k]),
    ensures
        all_tokens(print_list(statements, 0, ";"@, " "@), 0) == render_statements(statements, 0)
            + seq![bare_token(TokenType::EOF)],
{
    let text = print_list(statements, 0, ";"@, " "@);
    lemma_holds_whole(text);
    lemma_spell_statements(statements, 0, text, 0);
    lemma_scans_none_ends(text, 0, text.len() as int, render_statements(statements, 0));
    lemma_scans_all(text, 0, render_statements(statements, 0));
}

/// Printing and parsing are inverse on canonical statements: the parser
/// makes of the tokens of their printed form, one statement after the other as
/// a block prints them, those same statements, tokens and all, and has
/// nothing to complain about.
pub proof fn printed_statements_parse_back(statements: Seq<NodeView>)
    requires
        classes_hold(),
        forall|k: int|
            0 <= k < statements.len() ==> plain_statement(#[trigger] statements[k])
                && names_spelled(statements[k]),
    ensures
        program(all_tokens(print_list(statements, 0, ";"@, " "@), 0), 0, Seq::empty()) == (Outline {
            statements,
            failure: None,
            used: render_statements(statements, 0).len(),
        }),
{
    let end = seq![bare_token(TokenType::EOF)];
    let canonical = render_statements(statements, 0);
    printed_statements_tokens(statements);
    lemma_stands_first(canonical, end);
    assert((canonical + end)[canonical.len() as int] == bare_token(TokenType::EOF));
    parser_reads_statements_to_end(statements, canonical + end);
}

/// The binary operators, as `infix_kind` knows them.
proof fn lemma_operators()
    ensures
        infix_kind("+"@) == Some(TokenType::PLUS),
        infix_kind("-"@) == Some(TokenType::MINUS),
        infix_kind("*"@) == Some(TokenType::ASTERISK),
        infix_kind("/"@) == Some(TokenType::SLASH),
        infix_kind("<"@) == Some(TokenType::LT),
        infix_kind(">"@) == Some(TokenType::GT),
        infix_kind("=="@) == Some(TokenType::EQ),
        infix_kind("!="@) == Some(TokenType::NEQ),
{
    reveal_strlit("+");
    reveal_strlit("-");
    reveal_strlit("*");
    reveal_strlit("/");
    reveal_strlit("<");
    reveal_strlit(">");
    reveal_strlit("==");
    reveal_strlit("!=");
    let plus = "+"@[0];
    let minus = "-"@[0];
    let times = "*"@[0];
    let over = "/"@[0];
    let less = "<"@[0];
    let more = ">"@[0];
    let same = "=="@[0];
    let other = "!="@[0];
    assert("=="@.len() == 2 && "!="@.len() == 2 && "+"@.len() == 1);
}

/// The source text of three names with two binary operators between them,
/// a space on either side of each operator.
pub open spec fn chain_text(
    a: Seq<char>,
    first: Seq<char>,
    b: Seq<char>,
    second: Seq<char>,
    c: Seq<char>,
) -> Seq<char> {
    a + " "@ + first + " "@ + b + " "@ + second + " "@ + c
}

/// The tokens of three names with two binary operators between them.
pub open spec fn chain_tokens(
    a: Seq<char>,
    first: Seq<char>,
    b: Seq<char>,
    second: Seq<char>,
    c: Seq<char>,
) -> Seq<TokenView> {
    seq![
        name_token(a),
        operator_sign(infix_kind(first), first),
        name_token(b),
        operator_sign(infix_kind(second), second),
        name_token(c),
    ]
}

/// The lexer reads three names with two binary operators between them as
/// five tokens, where no more of a word follows.
proof fn lemma_chain_scans(
    text: Seq<char>,
    a: Seq<char>,
    first: Seq<char>,
    b: Seq<char>,
    second: Seq<char>,
    c: Seq<char>,
)
    requires
        classes_hold(),
        spelled_name(a),
        spelled_name(b),
        spelled_name(c),
        infix_kind(first).is_some(),
        infix_kind(second).is_some(),
        holds_at(text, 0, chain_text(a, first, b, second, c)),
        chain_text(a, first, b, second, c).len() < text.len() ==> !in_word(
            text[chain_text(a, first, b, second, c).len() as int],
        ),
    ensures
        scans(
            text,
            0,
            chain_text(a, first, b, second, c).len() as int,
            chain_tokens(a, first, b, second, c),
        ),
{
    let none = Seq::<TokenView>::empty();
    let one = operator_sign(infix_kind(first), first);
    let two = operator_sign(infix_kind(second), second);
    let la = a.len() as int;
    let lf = first.len() as int;
    let lb = b.len() as int;
    let ls = second.len() as int;
    let lc = c.len() as int;
    lemma_holds_split(text, 0, a + " "@ + first + " "@ + b + " "@ + second + " "@, c);
    lemma_holds_split(text, 0, a + " "@ + first + " "@ + b + " "@ + second, " "@);
    lemma_holds_split(text, 0, a + " "@ + first + " "@ + b + " "@, second);
    lemma_holds_split(text, 0, a + " "@ + first + " "@ + b, " "@);
    lemma_holds_split(text, 0, a + " "@ + first + " "@, b);
    lemma_holds_split(text, 0, a + " "@ + first, " "@);
    lemma_holds_split(text, 0, a + " "@, first);
    lemma_holds_split(text, 0, a, " "@);
    reveal_strlit(" ");
    let p1 = la;
    let p2 = la + 1;
    let p3 = la + 1 + lf;
    let p4 = la + 2 + lf;
    let p5 = la + 2 + lf + lb;
    let p6 = la + 3 + lf + lb;
    let p7 = la + 3 + lf + lb + ls;
    let p8 = la + 4 + lf + lb + ls;
    let p9 = la + 4 + lf + lb + ls + lc;
    lemma_holds_index(text, p1, " "@, 0);
    lemma_holds_index(text, p3, " "@, 0);
    lemma_holds_index(text, p5, " "@, 0);
    lemma_holds_index(text, p7, " "@, 0);
    lemma_space();
    lemma_scans_word(text, 0, a);
    lemma_spell_space(text, p1);
    lemma_spell_infix_sign(text, p2, first);
    lemma_spell_space(text, p3);
    lemma_scans_word(text, p4, b);
    lemma_spell_space(text, p5);
    lemma_spell_infix_sign(text, p6, second);
    lemma_spell_space(text, p7);
    lemma_scans_word(text, p8, c);
    lemma_scans_join(text, 0, p1, p2, seq![name_token(a)], none);
    lemma_scans_join(text, 0, p2, p3, seq![name_token(a)] + none, seq![one]);
    lemma_scans_join(text, 0, p3, p4, seq![name_token(a)] + none + seq![one], none);
    lemma_scans_join(
        text,
        0,
        p4,
        p5,
        seq![name_token(a)] + none + seq![one] + none,
        seq![name_token(b)],
    );
    lemma_scans_join(
        text,
        0,
        p5,
        p6,
        seq![name_token(a)] + none + seq![one] + none + seq![name_token(b)],
        none,
    );
    lemma_scans_join(
        text,
        0,
        p6,
        p7,
        seq![name_token(a)] + none + seq![one] + none + seq![name_token(b)] + none,
        seq![two],
    );
    lemma_scans_join(
        text,
        0,
        p7,
        p8,
        seq![name_token(a)] + none + seq![one] + none + seq![name_token(b)] + none + seq![two],
        none,
    );
    lemma_scans_join(
        text,
        0,
        p8,
        p9,
        seq![name_token(a)] + none + seq![one] + none + seq![name_token(b)] + none + seq![two]
            + none,
        seq![name_token(c)],
    );
    let tokens = seq![name_token(a), one, name_token(b), two, name_token(c)];
    assert(seq![name_token(a)] + none + seq![one] + none + seq![name_token(b)] + none + seq![two]
        + none + seq![name_token(c)] =~= tokens);
}

/// The statement `a first b second c;`, as the parser builds it.
pub open spec fn chain_statement(
    a: Seq<char>,
    first: Seq<char>,
    b: Seq<char>,
    second: Seq<char>,
    c: Seq<char>,
) -> NodeView {
    NodeView::Expression {
        token: name_token(a),
        expression: Box::new(
            grouping(
                name_token(a),
                operator_sign(infix_kind(first), first),
                name_token(b),
                operator_sign(infix_kind(second), second),
                name_token(c),
            ),
        ),
    }
}

/// Precedence decides how operators group, from the source text on: of the
/// source `a first b second c;`, with names for `a`, `b` and `c` and binary
/// operators for `first` and `second`, the parser makes one statement and no
/// diagnostic, and the statement holds the tree that `grouping` describes.
pub proof fn precedence_in_source(
    a: Seq<char>,
    first: Seq<char>,
    b: Seq<char>,
    second: Seq<char>,
    c: Seq<char>,
)
    requires
        classes_hold(),
        spelled_name(a),
        spelled_name(b),
        spelled_name(c),
        infix_kind(first).is_some(),
        infix_kind(second).is_some(),
    ensures
        program(all_tokens(chain_text(a, first, b, second, c) + ";"@, 0), 0, Seq::empty()) == (Outline {
            statements: seq![chain_statement(a, first, b, second, c)],
            failure: None,
            used: 6,
        }),
{
    let chain = chain_text(a, first, b, second, c);
    let text = chain + ";"@;
    let end = chain.len() as int;
    let five = chain_tokens(a, first, b, second, c);
    let one = operator_sign(infix_kind(first), first);
    let two = operator_sign(infix_kind(second), second);
    let st = chain_statement(a, first, b, second, c);
    lemma_holds_whole(text);
    lemma_holds_split(text, 0, chain, ";"@);
    reveal_strlit(";");
    lemma_holds_index(text, end, ";"@, 0);
    lemma_mark(';');
    lemma_chain_scans(text, a, first, b, second, c);
    lemma_spell_semicolon(text, end);
    lemma_scans_join(text, 0, end, end + 1, five, seq![semicolon()]);
    let tokens = five + seq![semicolon()];
    lemma_scans_none_ends(text, 0, end + 1, tokens);
    lemma_scans_all(text, 0, tokens);
    let s = all_tokens(text, 0);
    assert(s == tokens + seq![bare_token(TokenType::EOF)]);
    assert(is_binary(one.token_type));
    assert(is_binary(two.token_type));
    assert(tok(s, 0) == name_token(a));
    assert(tok(s, 1) == one);
    assert(tok(s, 2) == name_token(b));
    assert(tok(s, 3) == two);
    assert(tok(s, 4) == name_token(c));
    assert(tok(s, 5) == semicolon());
    assert(tok(s, 6) == bare_token(TokenType::EOF));
    precedence_decides_grouping(s, name_token(a), one, name_token(b), two, name_token(c));
    lemma_single_statement(s, st);
}

/// Where the parser reads an expression statement over the first five
/// tokens and a semicolon and the end of the input follow, the program is
/// that one statement.
proof fn lemma_single_statement(s: Seq<TokenView>, st: NodeView)
    requires
        st is Expression,
        st->Expression_token == tok(s, 0),
        kind_at(s, 0) == TokenType::IDENT,
        expression(s, 0, Precedence::LOWEST) == (Parsed::Done {
            value: *st->Expression_expression,
            used: 4,
        }),
        kind_at(s, 5) == TokenType::SEMICOLON,
        kind_at(s, 6) == TokenType::EOF,
    ensures
        program(s, 0, Seq::empty()) == (Outline { statements: seq![st], failure: None, used: 6 }),
{
    let none = Seq::<NodeView>::empty();
    assert(expression_statement(s, 0) == (Parsed::Done { value: st, used: 4 }));
    assert(statement(s, 0) == expression_statement(s, 0));
    assert(none.push(st) =~= seq![st]);
    assert(program(s, 6, seq![st]) == (Outline { statements: seq![st], failure: None, used: 0 }));
    assert(program(s, 5, seq![st]) == program(s, 6, seq![st]).later(1));
    assert(program(s, 0, none) == program(s, 5, none.push(st)).later(5));
}

/// The source `a + b * c;` is one statement that prints as `(a + (b * c))`,
/// whatever the names.
pub proof fn sum_with_product_in_source(a: Seq<char>, b: Seq<char>, c: Seq<char>)
    requires
        classes_hold(),
        spelled_name(a),
        spelled_name(b),
        spelled_name(c),
    ensures
        a + " + "@ + b + " * "@ + c + ";"@ == chain_text(a, "+"@, b, "*"@, c) + ";"@,
        ({
            let outline = program(
                all_tokens(a + " + "@ + b + " * "@ + c + ";"@, 0),
                0,
                Seq::empty(),
            );
            &&& outline.failure.is_none()
            &&& outline.statements.len() == 1
            &&& print(outline.statements[0]) == "("@ + a + " + ("@ + b + " * "@ + c + "))"@
        }),
{
    reveal_strlit(" ");
    reveal_strlit("+");
    reveal_strlit("*");
    reveal_strlit(" + ");
    reveal_strlit(" * ");
    lemma_operators();
    let one = token(TokenType::PLUS, "+"@);
    let two = token(TokenType::ASTERISK, "*"@);
    let short = seq![name_token(a), one, name_token(b), two, name_token(c)];
    assert(chain_text(a, "+"@, b, "*"@, c) + ";"@ =~= a + " + "@ + b + " * "@ + c + ";"@);
    assert(operator_sign(infix_kind("+"@), "+"@) == one);
    assert(operator_sign(infix_kind("*"@), "*"@) == two);
    precedence_in_source(a, "+"@, b, "*"@, c);
    precedence_decides_grouping(short, name_token(a), one, name_token(b), two, name_token(c));
    sum_with_product_prints(a, b, c);
    let st = chain_statement(a, "+"@, b, "*"@, c);
    assert(seq![st][0] == st);
    assert(print(st) == print(*st->Expression_expression));
}

/// The source `a * b + c;` is one statement that prints as `((a * b) + c)`,
/// whatever the names.
pub proof fn product_with_sum_in_source(a: Seq<char>, b: Seq<char>, c: Seq<char>)
    requires
        classes_hold(),
        spelled_name(a),
        spelled_name(b),
        spelled_name(c),
    ensures
        a + " * "@ + b + " + "@ + c + ";"@ == chain_text(a, "*"@, b, "+"@, c) + ";"@,
        ({
            let outline = program(
                all_tokens(a + " * "@ + b + " + "@ + c + ";"@, 0),
                0,
                Seq::empty(),
            );
            &&& outline.failure.is_none()
            &&& outline.statements.len() == 1
            &&& print(outline.statements[0]) == "(("@ + a + " * "@ + b + ") + "@ + c + ")"@
        }),
{
    reveal_strlit(" ");
    reveal_strlit("+");
    reveal_strlit("*");
    reveal_strlit(" + ");
    reveal_strlit(" * ");
    lemma_operators();
    let one = token(TokenType::ASTERISK, "*"@);
    let two = token(TokenType::PLUS, "+"@);
    let short = seq![name_token(a), one, name_token(b), two, name_token(c)];
    assert(chain_text(a, "*"@, b, "+"@, c) + ";"@ =~= a + " * "@ + b + " + "@ + c + ";"@);
    assert(operator_sign(infix_kind("*"@), "*"@) == one);
    assert(operator_sign(infix_kind("+"@), "+"@) == two);
    precedence_in_source(a, "*"@, b, "+"@, c);
    precedence_decides_grouping(short, name_token(a), one, name_token(b), two, name_token(c));
    product_with_sum_prints(a, b, c);
    let st = chain_statement(a, "*"@, b, "+"@, c);
    assert(seq![st][0] == st);
    assert(print(st) == print(*st->Expression_expression));
}

/// The source `a == b < c;` is one statement that prints as
/// `(a == (b < c))`, whatever the names.
pub proof fn equality_with_comparison_in_source(a: Seq<char>, b: Seq<char>, c: Seq<char>)
    requires
        classes_hold(),
        spelled_name(a),
        spelled_name(b),
        spelled_name(c),
    ensures
        a + " == "@ + b + " < "@ + c + ";"@ == chain_text(a, "=="@, b, "<"@, c) + ";"@,
        ({
            let outline = program(
                all_tokens(a + " == "@ + b + " < "@ + c + ";"@, 0),
                0,
                Seq::empty(),
            );
            &&& outline.failure.is_none()
            &&& outline.statements.len() == 1
            &&& print(outline.statements[0]) == "("@ + a + " == ("@ + b + " < "@ + c + "))"@
        }),
{
    reveal_strlit(" ");
    reveal_strlit("==");
    reveal_strlit("<");
    reveal_strlit(" == ");
    reveal_strlit(" < ");
    lemma_operators();
    let one = token(TokenType::EQ, "=="@);
    let two = token(TokenType::LT, "<"@);
    let short = seq![name_token(a), one, name_token(b), two, name_token(c)];
    assert(chain_text(a, "=="@, b, "<"@, c) + ";"@ =~= a + " == "@ + b + " < "@ + c + ";"@);
    assert(operator_sign(infix_kind("=="@), "=="@) == one);
    assert(operator_sign(infix_kind("<"@), "<"@) == two);
    precedence_in_source(a, "=="@, b, "<"@, c);
    precedence_decides_grouping(short, name_token(a), one, name_token(b), two, name_token(c));
    equality_with_comparison_prints(a, b, c);
    let st = chain_statement(a, "=="@, b, "<"@, c);
    assert(seq![st][0] == st);
    assert(print(st) == print(*st->Expression_expression));
}

/// Whether `text` is a word that the lexer takes for a name: letters only,
/// at least one, and no keyword.
pub fn is_name(text: &str) -> (r: bool)
    ensures
        r == spelled_name(text@),
{
    let chars = chars_of(text);
    if chars.len() == 0 {
        return false;
    }
    let mut i: usize = 0;
    while i < chars.len()
        invariant
            i <= chars.len(),
            chars@ == text@,
            forall|k: int| 0 <= k < i ==> in_word(#[trigger] chars[k]),
        decreases chars.len() - i,
    {
        let c = chars[i];
        if !(c.is_alphabetic() && !c.is_whitespace()) {
            proof {
                assert(!in_word(text@[i as int]));
            }
            return false;
        }
        i += 1;
    }
    !(same_text(text, "let") || same_text(text, "fn") || same_text(text, "if") || same_text(
        text,
        "else",
    ) || same_text(text, "return") || same_text(text, "true") || same_text(text, "false"))
}

/// Whether `text` is one of the eight binary operators.
pub fn is_operator(text: &str) -> (r: bool)
    ensures
        r == infix_kind(text@).is_some(),
{
    same_text(text, "+") || same_text(text, "-") || same_text(text, "*") || same_text(text, "/")
        || same_text(text, "<") || same_text(text, ">") || same_text(text, "==") || same_text(
        text,
        "!=",
    )
}

/// The fully parenthesised form of `a first b second c`, as the parser
/// groups it: the source `a first b second c;` is parsed, and the one
/// statement that comes of it is printed.
///
/// There is a result where `a`, `b` and `c` are names, `first` and `second`
/// are binary operators, and the standard library classes the characters of
/// the language as `classes_hold` says; and then the result is the printed
/// form of the tree that `grouping` describes. So `a + b * c` gives
/// `(a + (b * c))`, `a * b + c` gives `((a * b) + c)`, and `a == b < c` gives
/// `(a == (b < c))`.
pub fn regroup(a: &str, first: &str, b: &str, second: &str, c: &str) -> (text: Option<String>)
    ensures
        text.is_some() == (classes_hold() && spelled_name(a@) && spelled_name(b@)
            && spelled_name(c@) && infix_kind(first@).is_some() && infix_kind(
            second@,
        ).is_some()),
        match text {
            Some(t) => {
                &&& t@ == print(chain_statement(a@, first@, b@, second@, c@))
                &&& first@ == "+"@ && second@ == "*"@ ==> t@ == "("@ + a@ + " + ("@ + b@
                    + " * "@ + c@ + "))"@
                &&& first@ == "*"@ && second@ == "+"@ ==> t@ == "(("@ + a@ + " * "@ + b@
                    + ") + "@ + c@ + ")"@
                &&& first@ == "=="@ && second@ == "<"@ ==> t@ == "("@ + a@ + " == ("@ + b@
                    + " < "@ + c@ + "))"@
            },
            None => true,
        },
{
    if !classes_confirmed() || !is_name(a) || !is_name(b) || !is_name(c) || !is_operator(first)
        || !is_operator(second) {
        return None;
    }
    let mut source = owned(a);
    source.append(" ");
    source.append(first);
    source.append(" ");
    source.append(b);
    source.append(" ");
    source.append(second);
    source.append(" ");
    source.append(c);
    source.append(";");
    proof {
        assert(source@ == chain_text(a@, first@, b@, second@, c@) + ";"@);
        precedence_in_source(a@, first@, b@, second@, c@);
        if first@ == "+"@ && second@ == "*"@ {
            sum_with_product_in_source(a@, b@, c@);
        }
        if first@ == "*"@ && second@ == "+"@ {
            product_with_sum_in_source(a@, b@, c@);
        }
        if first@ == "=="@ && second@ == "<"@ {
            equality_with_comparison_in_source(a@, b@, c@);
        }
    }
    let mut parser = Parser::new(Lexer::new(source));
    let statements = parser.parse();
    proof {
        lemma_node_views(statements@);
        let st = chain_statement(a@, first@, b@, second@, c@);
        assert(seq![st].len() == 1);
        assert(seq![st][0] == st);
    }
    Some(statements[0].to_string())
}

} // verus!
