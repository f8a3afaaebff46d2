//! The parser: a Pratt parser that pulls tokens from a lexer, two at a time
//! in view, and builds the syntax tree.
use crate::grammar::{
    alternative, arguments, arguments_rest, block, block_rest, branches, call, conditional,
    expression, expression_statement, function, grouped, identifier_at, infix, kind_at,
    let_statement, mismatch, operators, parameters, parameters_rest, precedence_of, prefix,
    prefix_operator, program, remaining, return_statement, statement, tok, Parsed, Precedence,
};
use crate::lexer::{all_tokens, lemma_scan_advances, scan, Lexer};
use crate::statements::{
    lemma_node_views_push, node_views, BlockStatement, BooleanExpression, CallExpression,
    ExpressionStatement, FunctionLiteralExpression, IdentifierExpression, IfExpression,
    InfixExpression, IntegerLiteralExpression, LetStatement, NodeView, PrefixExpression,
    ProgramNode, ReturnStatement,
};
use crate::text::{owned, parse_decimal};
use crate::token::{Token, TokenType, TokenView};
use vstd::prelude::*;
use vstd::string::StringExecFns;

verus! {

/// The character sequences of a sequence of strings.
pub open spec fn texts(strings: Seq<String>) -> Seq<Seq<char>> {
    strings.map_values(|s: String| s@)
}

/// The token stream of a lexer moves on by one token with each scan: its
/// first token is the scanned one, and the rest is the stream from the new
/// cursor. After `EOF` the stream stays `EOF`.
pub proof fn lemma_all_tokens_step(input: Seq<char>, pos: int)
    requires
        0 <= pos,
    ensures
        tok(all_tokens(input, pos), 0) == scan(input, pos).0,
        forall|k: int|
            k >= 0 ==> #[trigger] tok(all_tokens(input, scan(input, pos).1), k) == tok(
                all_tokens(input, pos),
                k + 1,
            ),
{
    let (t, next) = scan(input, pos);
    lemma_scan_advances(input, pos);
    if t.token_type != TokenType::EOF {
        assert forall|k: int| k >= 0 implies #[trigger] tok(all_tokens(input, next), k) == tok(
            all_tokens(input, pos),
            k + 1,
        ) by {
            assert(all_tokens(input, pos) == seq![t] + all_tokens(input, next));
        }
    } else {
        lemma_scan_past_end(input, next);
        assert(all_tokens(input, pos) =~= seq![t]);
        assert(all_tokens(input, next) =~= seq![scan(input, next).0]);
    }
}

/// At the end of the input and past it the scanned token is `EOF`.
pub proof fn lemma_scan_past_end(input: Seq<char>, pos: int)
    requires
        pos >= input.len(),
    ensures
        scan(input, pos).0 == crate::token::bare_token(TokenType::EOF),
{
}

/// The binding strength of a token in infix position.
pub fn precedence(kind: TokenType) -> (p: Precedence)
    ensures
        p == precedence_of(kind),
{
    match kind {
        TokenType::EQ => Precedence::EQUALS,
        TokenType::NEQ => Precedence::EQUALS,
        TokenType::LT => Precedence::LESSGREATER,
        TokenType::GT => Precedence::LESSGREATER,
        TokenType::PLUS => Precedence::SUM,
        TokenType::MINUS => Precedence::SUM,
        TokenType::SLASH => Precedence::PRODUCT,
        TokenType::ASTERISK => Precedence::PRODUCT,
        TokenType::LPAREN => Precedence::CALL,
        _ => Precedence::LOWEST,
    }
}

impl Precedence {
    /// The position of this strength in the order.
    pub fn level(&self) -> (l: u8)
        ensures
            l == self.rank(),
    {
        match self {
            Precedence::LOWEST => 0,
            Precedence::EQUALS => 1,
            Precedence::LESSGREATER => 2,
            Precedence::SUM => 3,
            Precedence::PRODUCT => 4,
            Precedence::PREFIX => 5,
            Precedence::CALL => 6,
        }
    }
}

/// A parser over the tokens of a lexer. It keeps the current token and the
/// one after it, and collects a diagnostic for each failure.
pub struct Parser {
    lexer: Lexer,
    current_token: Token,
    peek_token: Token,
    errors: Vec<String>,
    tokens: Ghost<Seq<TokenView>>,
    index: Ghost<int>,
}

impl Parser {
    /// The tokens that the parser reads, from the first one it saw up to and
    /// including the first `EOF`.
    pub closed spec fn tokens(&self) -> Seq<TokenView> {
        self.tokens@
    }

    /// The position of the current token in `tokens()`.
    pub closed spec fn index(&self) -> int {
        self.index@
    }

    /// The diagnostics collected so far.
    pub closed spec fn messages(&self) -> Seq<Seq<char>> {
        texts(self.errors@)
    }

    /// The parser's two tokens in view are those at its position, and its
    /// lexer stands right after them.
    #[verifier::opaque]
    pub closed spec fn wf(&self) -> bool {
        &&& self.index@ >= 0
        &&& self.current_token@ == tok(self.tokens@, self.index@)
        &&& self.peek_token@ == tok(self.tokens@, self.index@ + 1)
        &&& 0 <= self.lexer.cursor()
        &&& forall|k: int|
            k >= 0 ==> #[trigger] tok(all_tokens(self.lexer.input(), self.lexer.cursor()), k)
                == tok(self.tokens@, self.index@ + 2 + k)
    }

    /// Whether `after` is `before` having moved to position `index` without a
    /// new diagnostic.
    pub open spec fn moved(before: Parser, index: int, after: Parser) -> bool {
        &&& after.wf()
        &&& after.tokens() == before.tokens()
        &&& after.index() == index
        &&& after.messages() == before.messages()
    }

    /// Whether `after` is `before` having given up at position `index` with
    /// the diagnostic `message`.
    pub open spec fn gave_up(before: Parser, index: int, message: Seq<char>, after: Parser) -> bool {
        &&& after.wf()
        &&& after.tokens() == before.tokens()
        &&& after.index() == index
        &&& after.messages() == before.messages().push(message)
    }

    /// Whether `after` and `result` are what `parsed` describes for a parser
    /// that started as `before`.
    pub open spec fn achieved(
        before: Parser,
        parsed: Parsed<NodeView>,
        result: Option<ProgramNode>,
        after: Parser,
    ) -> bool {
        match parsed {
            Parsed::Done { value, used } => {
                &&& result.is_some()
                &&& result.unwrap()@ == value
                &&& Self::moved(before, before.index() + used, after)
            },
            Parsed::Failed { message, used } => {
                &&& result.is_none()
                &&& Self::gave_up(before, before.index() + used, message, after)
            },
        }
    }

    /// As `achieved`, for a step that builds a list of nodes.
    pub open spec fn achieved_all(
        before: Parser,
        parsed: Parsed<Seq<NodeView>>,
        result: Option<Vec<ProgramNode>>,
        after: Parser,
    ) -> bool {
        match parsed {
            Parsed::Done { value, used } => {
                &&& result.is_some()
                &&& node_views(result.unwrap()@) == value
                &&& Self::moved(before, before.index() + used, after)
            },
            Parsed::Failed { message, used } => {
                &&& result.is_none()
                &&& Self::gave_up(before, before.index() + used, message, after)
            },
        }
    }

    /// A parser at the first token of what `lexer` has left to read.
    pub fn new(lexer: Lexer) -> (parser: Parser)
        ensures
            parser.wf(),
            parser.tokens() == all_tokens(lexer.input(), lexer.cursor()),
            parser.index() == 0,
            parser.messages() == Seq::<Seq<char>>::empty(),
    {
        proof {
            reveal(Parser::wf);
        }
        let mut lexer = lexer;
        let ghost input = lexer.input();
        let ghost start = lexer.cursor();
        let current_token = lexer.next_token();
        let ghost middle = lexer.cursor();
        let peek_token = lexer.next_token();
        proof {
            lemma_all_tokens_step(input, start);
            lemma_all_tokens_step(input, middle);
            assert(tok(all_tokens(input, middle), 0) == tok(all_tokens(input, start), 1));
            assert forall|k: int| k >= 0 implies #[trigger] tok(
                all_tokens(input, lexer.cursor()),
                k,
            ) == tok(all_tokens(input, start), 2 + k) by {
                assert(tok(all_tokens(input, middle), k + 1) == tok(
                    all_tokens(input, start),
                    k + 1 + 1,
                ));
            }
        }
        let errors: Vec<String> = Vec::new();
        proof {
            assert(texts(errors@) =~= Seq::<Seq<char>>::empty());
        }
        Parser {
            lexer,
            current_token,
            peek_token,
            errors,
            tokens: Ghost(all_tokens(input, start)),
            index: Ghost(0),
        }
    }

    /// The diagnostics collected so far.
    pub fn errors(&self) -> (errors: &Vec<String>)
        ensures
            texts(errors@) == self.messages(),
    {
        &self.errors
    }

    /// Moves on by one token: the token after the current one becomes the
    /// current one, and the lexer hands out a new one after it.
    fn next_token(&mut self)
        requires
            old(self).wf(),
        ensures
            Self::moved(*old(self), old(self).index() + 1, *final(self)),
    {
        proof {
            reveal(Parser::wf);
        }
        let ghost input = self.lexer.input();
        let ghost cursor = self.lexer.cursor();
        let next = self.lexer.next_token();
        proof {
            lemma_all_tokens_step(input, cursor);
            assert(tok(all_tokens(input, cursor), 0) == tok(self.tokens@, self.index@ + 2 + 0));
            assert forall|k: int| k >= 0 implies #[trigger] tok(
                all_tokens(input, self.lexer.cursor()),
                k,
            ) == tok(self.tokens@, self.index@ + 1 + 2 + k) by {
                assert(tok(all_tokens(input, cursor), k + 1) == tok(
                    self.tokens@,
                    self.index@ + 2 + (k + 1),
                ));
            }
        }
        self.current_token = self.peek_token.clone();
        self.peek_token = next;
        self.index = Ghost(self.index@ + 1);
    }

    /// Whether the current token is of kind `token_type`.
    fn current_token_is(&self, token_type: &TokenType) -> (r: bool)
        requires
            self.wf(),
        ensures
            r == (kind_at(self.tokens(), self.index()) == *token_type),
    {
        proof {
            reveal(Parser::wf);
        }
        self.current_token.token_type == *token_type
    }

    /// Whether the token after the current one is of kind `token_type`.
    fn peek_token_is(&self, token_type: &TokenType) -> (r: bool)
        requires
            self.wf(),
        ensures
            r == (kind_at(self.tokens(), self.index() + 1) == *token_type),
    {
        proof {
            reveal(Parser::wf);
        }
        self.peek_token.token_type == *token_type
    }

    /// Records a diagnostic.
    fn fail(&mut self, message: String)
        requires
            old(self).wf(),
        ensures
            Self::gave_up(*old(self), old(self).index(), message@, *final(self)),
    {
        proof {
            reveal(Parser::wf);
        }
        proof {
            assert(texts(self.errors@.push(message)) =~= texts(self.errors@).push(message@));
        }
        self.errors.push(message);
    }

    /// Moves on to the next token where it is of kind `token_type`; records a
    /// diagnostic and stays where it is not.
    fn expect_peek(&mut self, token_type: &TokenType) -> (r: bool)
        requires
            old(self).wf(),
        ensures
            r == (kind_at(old(self).tokens(), old(self).index() + 1) == *token_type),
            r ==> Self::moved(*old(self), old(self).index() + 1, *final(self)),
            !r ==> Self::gave_up(
                *old(self),
                old(self).index(),
                mismatch(kind_at(old(self).tokens(), old(self).index() + 1), *token_type),
                *final(self),
            ),
    {
        proof {
            reveal(Parser::wf);
        }
        if self.peek_token_is(token_type) {
            self.next_token();
            true
        } else {
            let mut message = owned("Expected next token to be ");
            message.append(self.peek_token.token_type.name());
            message.append(", got ");
            message.append(token_type.name());
            message.append(" instead");
            self.fail(message);
            false
        }
    }

    /// The binding strength of the current token.
    fn current_precedence(&self) -> (p: Precedence)
        requires
            self.wf(),
        ensures
            p == precedence_of(kind_at(self.tokens(), self.index())),
    {
        proof {
            reveal(Parser::wf);
        }
        precedence(self.current_token.token_type)
    }

    /// The binding strength of the token after the current one.
    fn peek_precedence(&self) -> (p: Precedence)
        requires
            self.wf(),
        ensures
            p == precedence_of(kind_at(self.tokens(), self.index() + 1)),
    {
        proof {
            reveal(Parser::wf);
        }
        precedence(self.peek_token.token_type)
    }

    /// The integer literal of the current token, where its text is a decimal
    /// number that fits.
    fn parse_integer_expression(&mut self) -> (result: Option<ProgramNode>)
        requires
            old(self).wf(),
            kind_at(old(self).tokens(), old(self).index()) == TokenType::INT,
        ensures
            Self::achieved(
                *old(self),
                prefix(old(self).tokens(), old(self).index()),
                result,
                *final(self),
            ),
    {
        proof {
            reveal(Parser::wf);
        }
        let literal = self.current_token.text();
        match parse_decimal(literal.as_str()) {
            Some(value) => Some(
                ProgramNode::Integer(
                    IntegerLiteralExpression::new(self.current_token.clone(), value),
                ),
            ),
            None => {
                let mut message = owned("Could not parse ");
                message.append(literal.as_str());
                message.append(" as integer");
                self.fail(message);
                None
            },
        }
    }

    /// The name of the current token.
    fn parse_identifier_expression(&self) -> (node: ProgramNode)
        requires
            self.wf(),
        ensures
            node@ == identifier_at(self.tokens(), self.index()),
    {
        proof {
            reveal(Parser::wf);
        }
        ProgramNode::Identifier(
            IdentifierExpression::new(self.current_token.clone(), self.current_token.text()),
        )
    }

    /// The boolean literal of the current token.
    fn parse_boolean_expression(&self) -> (node: ProgramNode)
        requires
            self.wf(),
        ensures
            node@ == (NodeView::Boolean {
                token: tok(self.tokens(), self.index()),
                value: kind_at(self.tokens(), self.index()) == TokenType::TRUE,
            }),
    {
        proof {
            reveal(Parser::wf);
        }
        ProgramNode::Boolean(
            BooleanExpression::new(
                self.current_token.clone(),
                self.current_token.token_type == TokenType::TRUE,
            ),
        )
    }
    /// A copy of the current token.
    fn current(&self) -> (t: Token)
        requires
            self.wf(),
        ensures
            t@ == tok(self.tokens(), self.index()),
    {
        proof {
            reveal(Parser::wf);
        }
        self.current_token.clone()
    }

    /// The kind of the current token.
    fn current_kind(&self) -> (kind: TokenType)
        requires
            self.wf(),
        ensures
            kind == kind_at(self.tokens(), self.index()),
    {
        proof {
            reveal(Parser::wf);
        }
        self.current_token.token_type
    }

    /// A statement: a `let`, a `return`, or an expression.
    fn parse_statement(&mut self) -> (result: Option<ProgramNode>)
        requires
            old(self).wf(),
        ensures
            Self::achieved(
                *old(self),
                statement(old(self).tokens(), old(self).index()),
                result,
                *final(self),
            ),
        decreases remaining(old(self).tokens(), old(self).index()), 10int,
    {
        match self.current_kind() {
            TokenType::LET => self.parse_let_statement(),
            TokenType::RETURN => self.parse_return_statement(),
            _ => self.parse_expression_statement(),
        }
    }

    /// `let IDENT = EXPRESSION`.
    fn parse_let_statement(&mut self) -> (result: Option<ProgramNode>)
        requires
            old(self).wf(),
        ensures
            Self::achieved(
                *old(self),
                let_statement(old(self).tokens(), old(self).index()),
                result,
                *final(self),
            ),
        decreases remaining(old(self).tokens(), old(self).index()), 9int,
    {
        let og_token = self.current();
        if !self.expect_peek(&TokenType::IDENT) {
            return None;
        }
        let name = self.parse_identifier_expression();
        if !self.expect_peek(&TokenType::ASSIGN) {
            return None;
        }
        self.next_token();
        match self.parse_expression(Precedence::LOWEST) {
            Some(value) => Some(
                ProgramNode::Let(LetStatement::new(og_token, Box::new(name), Box::new(value))),
            ),
            None => None,
        }
    }

    /// `return EXPRESSION`.
    fn parse_return_statement(&mut self) -> (result: Option<ProgramNode>)
        requires
            old(self).wf(),
        ensures
            Self::achieved(
                *old(self),
                return_statement(old(self).tokens(), old(self).index()),
                result,
                *final(self),
            ),
        decreases remaining(old(self).tokens(), old(self).index()), 9int,
    {
        let og_token = self.current();
        self.next_token();
        match self.parse_expression(Precedence::LOWEST) {
            Some(value) => Some(ProgramNode::Return(ReturnStatement::new(og_token, Box::new(value)))),
            None => None,
        }
    }

    /// An expression in statement position.
    fn parse_expression_statement(&mut self) -> (result: Option<ProgramNode>)
        requires
            old(self).wf(),
        ensures
            Self::achieved(
                *old(self),
                expression_statement(old(self).tokens(), old(self).index()),
                result,
                *final(self),
            ),
        decreases remaining(old(self).tokens(), old(self).index()), 9int,
    {
        let first = self.current();
        match self.parse_expression(Precedence::LOWEST) {
            Some(value) => Some(
                ProgramNode::Expression(ExpressionStatement::new(first, Box::new(value))),
            ),
            None => None,
        }
    }

    /// A block, from its opening brace to its closing brace or to the end of
    /// the input.
    fn parse_block_statement(&mut self) -> (result: Option<ProgramNode>)
        requires
            old(self).wf(),
        ensures
            Self::achieved(
                *old(self),
                block(old(self).tokens(), old(self).index()),
                result,
                *final(self),
            ),
        decreases remaining(old(self).tokens(), old(self).index()), 12int,
    {
        let og_token = self.current();
        let mut statements: Vec<ProgramNode> = Vec::new();
        let ghost tokens = self.tokens();
        let ghost start = self.index();
        let ghost messages = self.messages();
        self.next_token();
        while !self.current_token_is(&TokenType::RBRACE) && !self.current_token_is(
            &TokenType::EOF,
        )
            invariant
                self.wf(),
                self.tokens() == tokens,
                self.messages() == messages,
                tokens == old(self).tokens(),
                start == old(self).index(),
                messages == old(self).messages(),
                start < self.index(),
                og_token@ == tok(tokens, start),
                block_rest(tokens, start + 1, Seq::empty()) == block_rest(
                    tokens,
                    self.index(),
                    node_views(statements@),
                ).later((self.index() - start - 1) as nat),
            decreases remaining(tokens, self.index()),
        {
            if !self.current_token_is(&TokenType::SEMICOLON) {
                match self.parse_statement() {
                    Some(node) => {
                        proof {
                            lemma_node_views_push(statements@, node);
                        }
                        statements.push(node);
                    },
                    None => {
                        return None;
                    },
                }
            }
            self.next_token();
        }
        Some(ProgramNode::Block(BlockStatement::new(og_token, statements)))
    }

    /// An expression whose operators all bind more strongly than
    /// `precedence`: an operand, and then, while the next token binds more
    /// strongly, that token with what was built so far on its left.
    fn parse_expression(&mut self, precedence: Precedence) -> (result: Option<ProgramNode>)
        requires
            old(self).wf(),
        ensures
            Self::achieved(
                *old(self),
                expression(old(self).tokens(), old(self).index(), precedence),
                result,
                *final(self),
            ),
        decreases remaining(old(self).tokens(), old(self).index()), 8int,
    {
        let ghost tokens = self.tokens();
        let ghost start = self.index();
        let ghost messages = self.messages();
        let left = match self.current_kind() {
            TokenType::INT => self.parse_integer_expression(),
            TokenType::BANG => self.parse_prefix_expression(),
            TokenType::MINUS => self.parse_prefix_expression(),
            TokenType::FUNCTION => self.parse_function_expression(),
            TokenType::IDENT => Some(self.parse_identifier_expression()),
            TokenType::TRUE => Some(self.parse_boolean_expression()),
            TokenType::FALSE => Some(self.parse_boolean_expression()),
            TokenType::LPAREN => self.parse_grouped_expression(),
            TokenType::IF => self.parse_if_expression(),
            _ => {
                let mut message = owned("No prefix parse function for ");
                message.append(self.current_kind().name());
                message.append(" found");
                self.fail(message);
                None
            },
        };
        let mut expr = match left {
            Some(node) => node,
            None => {
                return None;
            },
        };
        let ghost first = self.index();
        while !self.peek_token_is(&TokenType::SEMICOLON) && precedence.level()
            < self.peek_precedence().level()
            invariant
                self.wf(),
                self.tokens() == tokens,
                self.messages() == messages,
                tokens == old(self).tokens(),
                start == old(self).index(),
                messages == old(self).messages(),
                start <= first <= self.index(),
                operators(tokens, first, prefix(tokens, start)->Done_value, precedence)
                    == operators(tokens, self.index(), expr@, precedence).later(
                    (self.index() - first) as nat,
                ),
                prefix(tokens, start) is Done,
                prefix(tokens, start)->Done_used == first - start,
            decreases remaining(tokens, self.index()),
        {
            self.next_token();
            let step = if self.current_token_is(&TokenType::LPAREN) {
                self.parse_call_expression(expr)
            } else {
                self.parse_infix_expression(expr)
            };
            match step {
                Some(node) => {
                    expr = node;
                },
                None => {
                    return None;
                },
            }
        }
        Some(expr)
    }

    /// A prefix operator with its operand.
    fn parse_prefix_expression(&mut self) -> (result: Option<ProgramNode>)
        requires
            old(self).wf(),
            kind_at(old(self).tokens(), old(self).index()) == TokenType::BANG || kind_at(
                old(self).tokens(),
                old(self).index(),
            ) == TokenType::MINUS,
        ensures
            Self::achieved(
                *old(self),
                prefix_operator(old(self).tokens(), old(self).index()),
                result,
                *final(self),
            ),
        decreases remaining(old(self).tokens(), old(self).index()), 6int,
    {
        let og_token = self.current();
        self.next_token();
        match self.parse_expression(Precedence::PREFIX) {
            Some(right) => {
                let operator = og_token.text();
                Some(ProgramNode::Prefix(PrefixExpression::new(og_token, operator, Box::new(right))))
            },
            None => None,
        }
    }

    /// A binary operator with `left` as its left operand; the right operand
    /// binds at the operator's own strength.
    fn parse_infix_expression(&mut self, left: ProgramNode) -> (result: Option<ProgramNode>)
        requires
            old(self).wf(),
            kind_at(old(self).tokens(), old(self).index()) != TokenType::EOF,
        ensures
            Self::achieved(
                *old(self),
                infix(old(self).tokens(), old(self).index(), left@),
                result,
                *final(self),
            ),
        decreases remaining(old(self).tokens(), old(self).index()), 9int,
    {
        let og_token = self.current();
        let precedence = self.current_precedence();
        self.next_token();
        match self.parse_expression(precedence) {
            Some(right) => {
                let operator = og_token.text();
                Some(
                    ProgramNode::Infix(
                        InfixExpression::new(og_token, Box::new(left), operator, Box::new(right)),
                    ),
                )
            },
            None => None,
        }
    }

    /// `( EXPRESSION )`.
    fn parse_grouped_expression(&mut self) -> (result: Option<ProgramNode>)
        requires
            old(self).wf(),
            kind_at(old(self).tokens(), old(self).index()) == TokenType::LPAREN,
        ensures
            Self::achieved(
                *old(self),
                grouped(old(self).tokens(), old(self).index()),
                result,
                *final(self),
            ),
        decreases remaining(old(self).tokens(), old(self).index()), 6int,
    {
        self.next_token();
        let expr = match self.parse_expression(Precedence::LOWEST) {
            Some(node) => node,
            None => {
                return None;
            },
        };
        if !self.expect_peek(&TokenType::RPAREN) {
            return None;
        }
        Some(expr)
    }

    /// The optional `else BLOCK`.
    fn parse_alternative(&mut self) -> (result: Option<Option<ProgramNode>>)
        requires
            old(self).wf(),
        ensures
            match alternative(old(self).tokens(), old(self).index()) {
                Parsed::Done { value, used } => {
                    &&& result.is_some()
                    &&& match value {
                        Some(node) => result.unwrap().is_some() && result.unwrap().unwrap()@
                            == node,
                        None => result.unwrap().is_none(),
                    }
                    &&& Self::moved(*old(self), old(self).index() + used, *final(self))
                },
                Parsed::Failed { message, used } => {
                    &&& result.is_none()
                    &&& Self::gave_up(*old(self), old(self).index() + used, message, *final(self))
                },
            },
        decreases remaining(old(self).tokens(), old(self).index()), 13int,
    {
        if !self.peek_token_is(&TokenType::ELSE) {
            return Some(None);
        }
        self.next_token();
        if !self.expect_peek(&TokenType::LBRACE) {
            return None;
        }
        match self.parse_block_statement() {
            Some(node) => Some(Some(node)),
            None => None,
        }
    }

    /// What follows the condition of an `if`: the closing parenthesis, the
    /// consequence, and the optional alternative.
    #[verifier::rlimit(100)]
    fn parse_branches(&mut self, og_token: Token, condition: ProgramNode) -> (result: Option<
        ProgramNode,
    >)
        requires
            old(self).wf(),
        ensures
            Self::achieved(
                *old(self),
                branches(old(self).tokens(), old(self).index(), og_token@, condition@),
                result,
                *final(self),
            ),
        decreases remaining(old(self).tokens(), old(self).index()), 14int,
    {
        if !self.expect_peek(&TokenType::RPAREN) {
            return None;
        }
        if !self.expect_peek(&TokenType::LBRACE) {
            return None;
        }
        let consequence = match self.parse_block_statement() {
            Some(node) => node,
            None => {
                return None;
            },
        };
        let alternative = match self.parse_alternative() {
            Some(Some(node)) => Some(Box::new(node)),
            Some(None) => None,
            None => {
                return None;
            },
        };
        Some(
            ProgramNode::If(
                IfExpression::new(og_token, Box::new(condition), Box::new(consequence), alternative),
            ),
        )
    }

    /// `if ( CONDITION ) BLOCK`, optionally followed by `else BLOCK`.
    fn parse_if_expression(&mut self) -> (result: Option<ProgramNode>)
        requires
            old(self).wf(),
        ensures
            Self::achieved(
                *old(self),
                conditional(old(self).tokens(), old(self).index()),
                result,
                *final(self),
            ),
        decreases remaining(old(self).tokens(), old(self).index()), 6int,
    {
        let og_token = self.current();
        if !self.expect_peek(&TokenType::LPAREN) {
            return None;
        }
        self.next_token();
        let condition = match self.parse_expression(Precedence::LOWEST) {
            Some(node) => node,
            None => {
                return None;
            },
        };
        self.parse_branches(og_token, condition)
    }

    /// `fn ( PARAMETERS ) BLOCK`.
    fn parse_function_expression(&mut self) -> (result: Option<ProgramNode>)
        requires
            old(self).wf(),
        ensures
            Self::achieved(
                *old(self),
                function(old(self).tokens(), old(self).index()),
                result,
                *final(self),
            ),
        decreases remaining(old(self).tokens(), old(self).index()), 6int,
    {
        let og_token = self.current();
        if !self.expect_peek(&TokenType::LPAREN) {
            return None;
        }
        let params = match self.parse_function_parameters() {
            Some(nodes) => nodes,
            None => {
                return None;
            },
        };
        if !self.expect_peek(&TokenType::LBRACE) {
            return None;
        }
        match self.parse_block_statement() {
            Some(body) => Some(
                ProgramNode::Function(FunctionLiteralExpression::new(og_token, params, Box::new(body))),
            ),
            None => None,
        }
    }

    /// A parameter list, from its opening to its closing parenthesis.
    fn parse_function_parameters(&mut self) -> (result: Option<Vec<ProgramNode>>)
        requires
            old(self).wf(),
        ensures
            Self::achieved_all(
                *old(self),
                parameters(old(self).tokens(), old(self).index()),
                result,
                *final(self),
            ),
    {
        let mut identifiers: Vec<ProgramNode> = Vec::new();
        let ghost tokens = self.tokens();
        let ghost start = self.index();
        let ghost messages = self.messages();
        if self.peek_token_is(&TokenType::RPAREN) {
            self.next_token();
            return Some(identifiers);
        }
        if !self.expect_peek(&TokenType::IDENT) {
            return None;
        }
        let first = self.parse_identifier_expression();
        proof {
            lemma_node_views_push(identifiers@, first);
            assert(node_views(identifiers@.push(first)) =~= seq![first@]);
        }
        identifiers.push(first);
        while self.peek_token_is(&TokenType::COMMA)
            invariant
                self.wf(),
                self.tokens() == tokens,
                self.messages() == messages,
                tokens == old(self).tokens(),
                start == old(self).index(),
                messages == old(self).messages(),
                start < self.index(),
                parameters(tokens, start) == parameters_rest(
                    tokens,
                    self.index(),
                    node_views(identifiers@),
                ).later((self.index() - start) as nat),
            decreases remaining(tokens, self.index()),
        {
            let ghost here = self.index();
            let ghost done = node_views(identifiers@);
            self.next_token();
            if !self.expect_peek(&TokenType::IDENT) {
                proof {
                    assert(parameters_rest(tokens, here, done) == (Parsed::<
                        Seq<NodeView>,
                    >::Failed {
                        message: mismatch(kind_at(tokens, here + 2), TokenType::IDENT),
                        used: 1,
                    }));
                }
                return None;
            }
            let next = self.parse_identifier_expression();
            proof {
                lemma_node_views_push(identifiers@, next);
            }
            identifiers.push(next);
        }
        if !self.expect_peek(&TokenType::RPAREN) {
            return None;
        }
        Some(identifiers)
    }

    /// A call of `func`, from the opening parenthesis of its arguments on.
    fn parse_call_expression(&mut self, func: ProgramNode) -> (result: Option<ProgramNode>)
        requires
            old(self).wf(),
            kind_at(old(self).tokens(), old(self).index()) == TokenType::LPAREN,
        ensures
            Self::achieved(
                *old(self),
                call(old(self).tokens(), old(self).index(), func@),
                result,
                *final(self),
            ),
        decreases remaining(old(self).tokens(), old(self).index()), 11int,
    {
        let og_token = self.current();
        match self.parse_call_arguments() {
            Some(arguments) => Some(
                ProgramNode::Call(CallExpression::new(og_token, Box::new(func), arguments)),
            ),
            None => None,
        }
    }

    /// An argument list, from its opening to its closing parenthesis.
    fn parse_call_arguments(&mut self) -> (result: Option<Vec<ProgramNode>>)
        requires
            old(self).wf(),
            kind_at(old(self).tokens(), old(self).index()) == TokenType::LPAREN,
        ensures
            Self::achieved_all(
                *old(self),
                arguments(old(self).tokens(), old(self).index()),
                result,
                *final(self),
            ),
        decreases remaining(old(self).tokens(), old(self).index()), 10int,
    {
        let mut args: Vec<ProgramNode> = Vec::new();
        let ghost tokens = self.tokens();
        let ghost start = self.index();
        let ghost messages = self.messages();
        if self.peek_token_is(&TokenType::RPAREN) {
            self.next_token();
            return Some(args);
        }
        self.next_token();
        let first = match self.parse_expression(Precedence::LOWEST) {
            Some(node) => node,
            None => {
                return None;
            },
        };
        proof {
            lemma_node_views_push(args@, first);
            assert(node_views(args@.push(first)) =~= seq![first@]);
        }
        args.push(first);
        let ghost after_first = self.index();
        while self.peek_token_is(&TokenType::COMMA)
            invariant
                self.wf(),
                self.tokens() == tokens,
                self.messages() == messages,
                tokens == old(self).tokens(),
                start == old(self).index(),
                messages == old(self).messages(),
                0 <= start < after_first <= self.index(),
                start < tokens.len(),
                arguments(tokens, start) == arguments_rest(
                    tokens,
                    self.index(),
                    node_views(args@),
                ).later((self.index() - start) as nat),
            decreases remaining(tokens, self.index()),
        {
            self.next_token();
            self.next_token();
            match self.parse_expression(Precedence::LOWEST) {
                Some(node) => {
                    proof {
                        lemma_node_views_push(args@, node);
                    }
                    args.push(node);
                },
                None => {
                    return None;
                },
            }
        }
        if !self.expect_peek(&TokenType::RPAREN) {
            return None;
        }
        Some(args)
    }

    /// Parses the input to its end: the top-level statements in order.
    /// Semicolons between statements are skipped. The first statement that
    /// cannot be parsed ends the parse with one new diagnostic; the
    /// statements read before it are returned.
    pub fn parse(&mut self) -> (statements: Vec<ProgramNode>)
        requires
            old(self).wf(),
        ensures
            final(self).wf(),
            final(self).tokens() == old(self).tokens(),
            ({
                let outline = program(old(self).tokens(), old(self).index(), Seq::empty());
                &&& node_views(statements@) == outline.statements
                &&& final(self).index() == old(self).index() + outline.used
                &&& final(self).messages() == match outline.failure {
                    Some(message) => old(self).messages().push(message),
                    None => old(self).messages(),
                }
            }),
    {
        let mut statements: Vec<ProgramNode> = Vec::new();
        let ghost tokens = self.tokens();
        let ghost start = self.index();
        let ghost messages = self.messages();
        while !self.current_token_is(&TokenType::EOF)
            invariant
                self.wf(),
                self.tokens() == tokens,
                self.messages() == messages,
                tokens == old(self).tokens(),
                start == old(self).index(),
                messages == old(self).messages(),
                start <= self.index(),
                program(tokens, start, Seq::empty()) == program(
                    tokens,
                    self.index(),
                    node_views(statements@),
                ).later((self.index() - start) as nat),
            decreases remaining(tokens, self.index()),
        {
            if !self.current_token_is(&TokenType::SEMICOLON) {
                match self.parse_statement() {
                    Some(node) => {
                        proof {
                            lemma_node_views_push(statements@, node);
                        }
                        statements.push(node);
                    },
                    None => {
                        return statements;
                    },
                }
            }
            self.next_token();
        }
        statements
    }
}

} // verus!
