//! The parser: a recursive descent over the stream of tokens and lexing
//! errors that records an error for each declaration it cannot read and
//! carries on after it.
//!
//! The spec functions below say what each rule reads from a given position
//! of the token stream; the executable `Parser` follows them exactly.
use crate::error::{errors_view, Error, ErrorView};
use crate::grammar::{Decl, DeclView, Expr, ExprView, InfixOperator, LitView, Literal, OpView, Program, Stmt, StmtView, decls_view, stmt_view, stmts_view};
use crate::lexer::{
    item_agrees, item_view, items_view, Kind, Lexer, PosView, SpecToken, Token, TokenPos, TokenType,
};
use vstd::prelude::*;
use vstd::string::StringExecFns;

verus! {

/// Where the parser stands: the position of the next item, and the line of
/// the last token it took.
pub struct PState {
    pub pos: nat,
    pub last_line: nat,
}

/// What a `Result` of the parser stands for.
pub open spec fn rview<T: View>(r: Result<T, Error>) -> Result<T::V, ErrorView> {
    match r {
        Ok(v) => Ok(v@),
        Err(e) => Err(e@),
    }
}

/// Whether an item is the end-of-file token.
pub open spec fn is_eof_item(item: Result<SpecToken, ErrorView>) -> bool {
    item matches Ok(t) && t.kind is Eof
}

/// Whether an item stream ends with the end-of-file token, which occurs
/// nowhere else.
pub open spec fn ends_with_eof(items: Seq<Result<SpecToken, ErrorView>>) -> bool {
    &&& items.len() > 0
    &&& is_eof_item(items.last())
    &&& forall|k: int| 0 <= k < items.len() - 1 ==> !is_eof_item(#[trigger] items[k])
}

/// The items `items` followed by the end-of-file token: no text, on line `line`.
pub open spec fn with_eof(items: Seq<Result<SpecToken, ErrorView>>, line: nat) -> Seq<
    Result<SpecToken, ErrorView>,
> {
    items.push(Ok(SpecToken { kind: Kind::Eof, lexeme: Seq::empty(), line }))
}

/// The next item, without taking it; past the end, a parsing error.
pub open spec fn peek_at(toks: Seq<Result<SpecToken, ErrorView>>, st: PState) -> Result<
    SpecToken,
    ErrorView,
> {
    if st.pos < toks.len() {
        toks[st.pos as int]
    } else {
        Err(ErrorView::ParsingError)
    }
}

/// Takes the next item; a token taken becomes the last line read.
pub open spec fn take_at(toks: Seq<Result<SpecToken, ErrorView>>, st: PState) -> (
    Result<SpecToken, ErrorView>,
    PState,
) {
    if st.pos < toks.len() {
        match toks[st.pos as int] {
            Ok(t) => (Ok(t), PState { pos: st.pos + 1, last_line: t.line }),
            Err(e) => (Err(e), PState { pos: st.pos + 1, last_line: st.last_line }),
        }
    } else {
        (Err(ErrorView::ParsingError), st)
    }
}

/// Whether two kinds of token are the same, whatever value they carry.
pub open spec fn same_kind(a: Kind, b: Kind) -> bool {
    match (a, b) {
        (Kind::Plus, Kind::Plus) => true,
        (Kind::Minus, Kind::Minus) => true,
        (Kind::LArrow, Kind::LArrow) => true,
        (Kind::Semicolon, Kind::Semicolon) => true,
        (Kind::LBracket, Kind::LBracket) => true,
        (Kind::RBracket, Kind::RBracket) => true,
        (Kind::NEqual, Kind::NEqual) => true,
        (Kind::Identifier(_), Kind::Identifier(_)) => true,
        (Kind::Number(_), Kind::Number(_)) => true,
        (Kind::Procedure, Kind::Procedure) => true,
        (Kind::While, Kind::While) => true,
        (Kind::Eof, Kind::Eof) => true,
        _ => false,
    }
}

/// Takes a token of the kind `expected`, or fails with a message that names it.
pub open spec fn parse_consume(
    toks: Seq<Result<SpecToken, ErrorView>>,
    st: PState,
    expected: Kind,
    msg: Seq<char>,
) -> (Result<(), ErrorView>, PState) {
    match peek_at(toks, st) {
        Err(e) => (Err(e), st),
        Ok(t) => if same_kind(expected, t.kind) {
            (Ok(()), take_at(toks, st).1)
        } else {
            (Err(ErrorView::ExpectedToken(msg, st.last_line)), st)
        },
    }
}

/// Reads a variable's name.
pub open spec fn parse_var(toks: Seq<Result<SpecToken, ErrorView>>, st: PState) -> (
    Result<Seq<char>, ErrorView>,
    PState,
) {
    match peek_at(toks, st) {
        Err(e) => (Err(e), st),
        Ok(t) => match t.kind {
            Kind::Identifier(n) => (Ok(n), take_at(toks, st).1),
            _ => (Err(ErrorView::NotAVariable(st.last_line)), st),
        },
    }
}

/// Reads a number or a variable.
pub open spec fn parse_literal(toks: Seq<Result<SpecToken, ErrorView>>, st: PState) -> (
    Result<LitView, ErrorView>,
    PState,
) {
    match peek_at(toks, st) {
        Err(e) => (Err(e), st),
        Ok(t) => match t.kind {
            Kind::Identifier(n) => (
                Ok(LitView::Identifier { content: n, pos: PosView { lexeme: t.lexeme, line: t.line } }),
                take_at(toks, st).1,
            ),
            Kind::Number(v) => (
                Ok(LitView::Number { content: v, pos: PosView { lexeme: t.lexeme, line: t.line } }),
                take_at(toks, st).1,
            ),
            _ => (Err(ErrorView::ExpectedExpression(st.last_line)), st),
        },
    }
}

/// Reads `+` or `-`.
pub open spec fn parse_infix(toks: Seq<Result<SpecToken, ErrorView>>, st: PState) -> (
    Result<OpView, ErrorView>,
    PState,
) {
    match peek_at(toks, st) {
        Err(e) => (Err(e), st),
        Ok(t) => match t.kind {
            Kind::Plus => (Ok(OpView::Plus(PosView { lexeme: t.lexeme, line: t.line })), take_at(toks, st).1),
            Kind::Minus => (Ok(OpView::Minus(PosView { lexeme: t.lexeme, line: t.line })), take_at(toks, st).1),
            _ => (Err(ErrorView::ExpectedExpression(st.last_line)), st),
        },
    }
}

/// Reads a literal, then, where an operator follows, the operator and a second literal.
pub open spec fn parse_expression(toks: Seq<Result<SpecToken, ErrorView>>, st: PState) -> (
    Result<ExprView, ErrorView>,
    PState,
) {
    let (l, s1) = parse_literal(toks, st);
    match l {
        Err(e) => (Err(e), s1),
        Ok(left) => {
            let (o, s2) = parse_infix(toks, s1);
            match o {
                Ok(operator) => {
                    let (r, s3) = parse_literal(toks, s2);
                    match r {
                        Err(e) => (Err(e), s3),
                        Ok(right) => (Ok(ExprView::BinaryOp { left, operator, right }), s3),
                    }
                },
                Err(_) => (Ok(ExprView::Literal(left)), s2),
            }
        },
    }
}

/// Reads `name < expression;` or `name;`.
pub open spec fn parse_assignment_or_call(toks: Seq<Result<SpecToken, ErrorView>>, st: PState) -> (
    Result<StmtView, ErrorView>,
    PState,
) {
    let (n, s1) = parse_var(toks, st);
    match n {
        Err(e) => (Err(e), s1),
        Ok(name) => {
            let (a, s2) = parse_consume(toks, s1, Kind::LArrow, "<"@);
            if a is Ok {
                let (x, s3) = parse_expression(toks, s2);
                match x {
                    Err(e) => (Err(e), s3),
                    Ok(expr) => {
                        let (c, s4) = parse_consume(toks, s3, Kind::Semicolon, ";"@);
                        match c {
                            Err(e) => (Err(e), s4),
                            Ok(_) => (Ok(StmtView::VarAssignment { name, expr }), s4),
                        }
                    },
                }
            } else {
                let (c, s3) = parse_consume(toks, s2, Kind::Semicolon, ";"@);
                match c {
                    Err(e) => (Err(e), s3),
                    Ok(_) => (Ok(StmtView::Procedure(name)), s3),
                }
            }
        },
    }
}

/// Whether the statements of a block go on at the next item: they stop at
/// `}` and at the end of the source.
pub open spec fn block_goes_on(toks: Seq<Result<SpecToken, ErrorView>>, st: PState) -> bool {
    match peek_at(toks, st) {
        Ok(t) => !(t.kind is RBracket || t.kind is Eof),
        Err(_) => true,
    }
}

/// Reads a statement: a while loop, a block, an assignment or a call.
pub open spec fn parse_statement(toks: Seq<Result<SpecToken, ErrorView>>, st: PState) -> (
    Result<StmtView, ErrorView>,
    PState,
)
    decreases toks.len() - st.pos, 0int,
{
    let (w, s1) = parse_consume(toks, st, Kind::While, "while"@);
    if w is Ok {
        let (n, s2) = parse_var(toks, s1);
        match n {
            Err(e) => (Err(e), s2),
            Ok(name) => {
                let (c, s3) = parse_consume(toks, s2, Kind::NEqual, "!="@);
                match c {
                    Err(e) => (Err(e), s3),
                    Ok(_) => {
                        let (l, s4) = parse_literal(toks, s3);
                        match l {
                            Err(e) => (Err(e), s4),
                            Ok(lit) => if lit matches LitView::Number { content, .. } && content == 0 {
                                let (b, s5) = parse_statement(toks, s4);
                                match b {
                                    Err(e) => (Err(e), s5),
                                    Ok(body) => (
                                        Ok(StmtView::While { name, statement: Box::new(body) }),
                                        s5,
                                    ),
                                }
                            } else {
                                (Err(ErrorView::ExpectedToken("0"@, s4.last_line)), s4)
                            },
                        }
                    },
                }
            },
        }
    } else {
        let (o, s2) = parse_consume(toks, st, Kind::LBracket, "{"@);
        if o is Ok {
            let (items, s3) = parse_block(toks, s2, Seq::empty());
            match items {
                Err(e) => (Err(e), s3),
                Ok(stmts) => {
                    let (c, s4) = parse_consume(toks, s3, Kind::RBracket, "}"@);
                    match c {
                        Err(e) => (Err(e), s4),
                        Ok(_) => (Ok(StmtView::Block(stmts)), s4),
                    }
                },
            }
        } else {
            parse_assignment_or_call(toks, st)
        }
    }
}

/// Reads the statements of a block, after those in `acc`, up to `}` or the
/// end of the source.
pub open spec fn parse_block(
    toks: Seq<Result<SpecToken, ErrorView>>,
    st: PState,
    acc: Seq<StmtView>,
) -> (Result<Seq<StmtView>, ErrorView>, PState)
    decreases toks.len() - st.pos, 1int,
{
    if !block_goes_on(toks, st) {
        (Ok(acc), st)
    } else {
        let (r, s1) = parse_statement(toks, st);
        match r {
            Err(e) => (Err(e), s1),
            Ok(s) => if st.pos < s1.pos <= toks.len() {
                parse_block(toks, s1, acc.push(s))
            } else {
                (Ok(acc.push(s)), s1)
            },
        }
    }
}

/// Reads a procedure's name and body (after the keyword).
pub open spec fn parse_procedure(toks: Seq<Result<SpecToken, ErrorView>>, st: PState) -> (
    Result<DeclView, ErrorView>,
    PState,
) {
    let (n, s1) = parse_var(toks, st);
    match n {
        Err(e) => (Err(e), s1),
        Ok(name) => {
            let (b, s2) = parse_statement(toks, s1);
            match b {
                Err(e) => (Err(e), s2),
                Ok(statement) => (Ok(DeclView::Procedure { name, statement }), s2),
            }
        },
    }
}

/// Whether error recovery stops in front of a token of this kind.
pub open spec fn sync_stops_before(k: Kind) -> bool {
    k is Eof || k is While || k is Procedure || k is LBracket
}

/// Whether error recovery stops after a token of this kind.
pub open spec fn sync_stops_after(k: Kind) -> bool {
    k is Semicolon || k is RBracket
}

/// Error recovery: skips items up to the start of the next statement, or
/// past the end of the current one.
pub open spec fn synchronized(toks: Seq<Result<SpecToken, ErrorView>>, st: PState) -> PState
    decreases toks.len() - st.pos,
{
    if st.pos >= toks.len() {
        st
    } else {
        match toks[st.pos as int] {
            Err(_) => synchronized(toks, take_at(toks, st).1),
            Ok(t) => if sync_stops_before(t.kind) {
                st
            } else if sync_stops_after(t.kind) {
                take_at(toks, st).1
            } else {
                synchronized(toks, take_at(toks, st).1)
            },
        }
    }
}

/// Reads a declaration; on an error, records it, recovers, and fails.
/// Gives the result, where the parser stands after it, and the errors recorded.
pub open spec fn parse_declaration(toks: Seq<Result<SpecToken, ErrorView>>, st: PState) -> (
    Result<DeclView, ErrorView>,
    PState,
    Seq<ErrorView>,
) {
    let (p, s1) = parse_consume(toks, st, Kind::Procedure, "procedure"@);
    if p is Ok {
        let (d, s2) = parse_procedure(toks, s1);
        match d {
            Ok(decl) => (Ok(decl), s2, Seq::empty()),
            Err(e) => (Err(ErrorView::ParsingError), synchronized(toks, s2), seq![e]),
        }
    } else {
        let (s, s2) = parse_statement(toks, st);
        match s {
            Ok(stmt) => (Ok(DeclView::Statement(stmt)), s2, Seq::empty()),
            Err(e) => (Err(ErrorView::ParsingError), synchronized(toks, s2), seq![e]),
        }
    }
}

/// Whether the program goes on at the next item: it stops at the end of the source.
pub open spec fn program_goes_on(toks: Seq<Result<SpecToken, ErrorView>>, st: PState) -> bool {
    match peek_at(toks, st) {
        Ok(t) => !(t.kind is Eof),
        Err(_) => true,
    }
}

/// Reads the declarations after those in `decls`, with the errors recorded so
/// far in `errors`; gives all declarations read and all errors recorded.
pub open spec fn parse_declarations(
    toks: Seq<Result<SpecToken, ErrorView>>,
    st: PState,
    decls: Seq<DeclView>,
    errors: Seq<ErrorView>,
) -> (Seq<DeclView>, Seq<ErrorView>)
    decreases toks.len() - st.pos,
{
    if !program_goes_on(toks, st) {
        (decls, errors)
    } else {
        let (r, s1, errs) = parse_declaration(toks, st);
        let decls1 = match r {
            Ok(d) => decls.push(d),
            Err(_) => decls,
        };
        if st.pos < s1.pos <= toks.len() {
            parse_declarations(toks, s1, decls1, errors + errs)
        } else {
            (decls1, errors + errs)
        }
    }
}



/// Whether an item is a token that starts a statement with a keyword or a bracket.
pub open spec fn opens_statement(item: Result<SpecToken, ErrorView>) -> bool {
    item matches Ok(t) && (t.kind is While || t.kind is LBracket)
}

impl TokenType {
    /// Whether two token types are of the same kind, whatever value they carry.
    pub fn is_same_kind(&self, other: &TokenType) -> (r: bool)
        ensures
            r == same_kind(self@, other@),
    {
        match (self, other) {
            (TokenType::PLUS, TokenType::PLUS) => true,
            (TokenType::MINUS, TokenType::MINUS) => true,
            (TokenType::LARROW, TokenType::LARROW) => true,
            (TokenType::SEMICOLON, TokenType::SEMICOLON) => true,
            (TokenType::LBRACKET, TokenType::LBRACKET) => true,
            (TokenType::RBRACKET, TokenType::RBRACKET) => true,
            (TokenType::NEQUAL, TokenType::NEQUAL) => true,
            (TokenType::IDENTIFIER(_), TokenType::IDENTIFIER(_)) => true,
            (TokenType::NUMBER(_), TokenType::NUMBER(_)) => true,
            (TokenType::PROCEDURE, TokenType::PROCEDURE) => true,
            (TokenType::WHILE, TokenType::WHILE) => true,
            (TokenType::EOF, TokenType::EOF) => true,
            _ => false,
        }
    }
}

/// The parser: the items of the token stream, where it stands in them, and
/// the errors it has recorded.
pub struct Parser {
    tokens: Vec<Result<Token, Error>>,
    pos: usize,
    errors: Vec<Error>,
    last_line: usize,
}

impl Parser {
    /// The items that the parser reads.
    pub closed spec fn toks(&self) -> Seq<Result<SpecToken, ErrorView>> {
        items_view(self.tokens@)
    }

    /// Where the parser stands.
    pub closed spec fn state(&self) -> PState {
        PState { pos: self.pos as nat, last_line: self.last_line as nat }
    }

    /// The parser's invariant: the items end with the end-of-file token, and
    /// the parser never stands past it.
    pub closed spec fn wf(&self) -> bool {
        &&& ends_with_eof(self.toks())
        &&& self.pos < self.tokens.len()
    }

    /// What the invariant gives: the parser stands on one of the items,
    /// which end with the end-of-file token.
    pub proof fn lemma_wf(&self)
        requires
            self.wf(),
        ensures
            self.state().pos < self.toks().len(),
            ends_with_eof(self.toks()),
    {
    }

    /// What the recorded errors stand for.
    pub closed spec fn errors_view(&self) -> Seq<ErrorView> {
        errors_view(self.errors@)
    }

    /// The errors recorded so far.
    pub fn errors(&self) -> (r: &Vec<Error>)
        ensures
            errors_view(r@) == self.errors_view(),
    {
        &self.errors
    }

    /// Gives up the parser for the errors it has recorded.
    pub fn into_errors(self) -> (r: Vec<Error>)
        ensures
            errors_view(r@) == self.errors_view(),
    {
        self.errors
    }

    /// Whether `other` reads the same items and has recorded the same errors.
    pub closed spec fn same_input(&self, other: &Parser) -> bool {
        &&& self.tokens == other.tokens
        &&& self.errors == other.errors
    }

    /// Two parsers with the same input read the same items and hold the same
    /// errors.
    pub proof fn lemma_same_input(&self, other: &Parser)
        requires
            self.same_input(other),
        ensures
            self.toks() == other.toks(),
            self.errors_view() == other.errors_view(),
    {
    }

    /// A parser over the items that `lexer` has still to meet (the lexing
    /// errors and the tokens, in the order of the source), followed by the
    /// end-of-file token on the line where the source ends. It starts with no
    /// error recorded: a lexing error is reported where the parser meets it.
    pub fn new(lexer: Lexer) -> (r: Parser)
        requires
            lexer.wf(),
        ensures
            r.wf(),
            r.toks() == with_eof(lexer.pending_items(), lexer.pending_end_line()),
            r.state() == (PState { pos: 0, last_line: 1 }),
            r.errors_view() == Seq::<ErrorView>::empty(),
    {
        let mut lexer = lexer;
        proof {
            lexer.lemma_pending_items_agree();
        }
        let mut tokens = lexer.collect_items();
        let line = lexer.line_number();
        let ghost before = tokens@;
        tokens.push(Ok(Token { typ: TokenType::EOF, pos: TokenPos { lexeme: String::new(), line } }));
        proof {
            assert(items_view(tokens@) == items_view(before).push(item_view(tokens@.last())));
            assert(items_view(tokens@) == with_eof(items_view(before), line as nat));
            let ts = items_view(tokens@);
            assert forall|k: int| 0 <= k < ts.len() - 1 implies !is_eof_item(#[trigger] ts[k]) by {
                assert(ts[k] == items_view(before)[k]);
                assert(item_agrees(ts[k]));
            }
        }
        let r = Parser { errors: Vec::new(), tokens, pos: 0, last_line: 1 };
        proof {
            assert(r.errors_view() == Seq::<ErrorView>::empty());
        }
        r
    }

    // The next item, without taking it. A lexing error is handed out as an
    // error and stays where it is: the rule that meets it fails with it, and
    // recovery skips it.
    fn peek(&self) -> (r: Result<&Token, Error>)
        requires
            self.wf(),
        ensures
            rview(r) == peek_at(self.toks(), self.state()),
    {
        match &self.tokens[self.pos] {
            Ok(t) => Ok(t),
            Err(e) => Err(e.duplicate()),
        }
    }

    // Takes the next item; it is never the end-of-file token.
    fn next(&mut self) -> (r: Result<Token, Error>)
        requires
            old(self).wf(),
            !is_eof_item(old(self).toks()[old(self).state().pos as int]),
        ensures
            final(self).wf(),
            final(self).same_input(old(self)),
            (rview(r), final(self).state()) == take_at(old(self).toks(), old(self).state()),
            final(self).state().pos == old(self).state().pos + 1,
    {
        proof {
            assert(self.toks()[self.pos as int] == item_view(self.tokens@[self.pos as int]));
        }
        match &self.tokens[self.pos] {
            Ok(t) => {
                let t2 = t.duplicate();
                self.pos = self.pos + 1;
                self.last_line = t2.pos.line;
                Ok(t2)
            },
            Err(e) => {
                let e2 = e.duplicate();
                self.pos = self.pos + 1;
                Err(e2)
            },
        }
    }

    // Takes a token of the kind `expected`, or fails with a message that names it.
    fn consume(&mut self, expected: TokenType, expect_msg: &str) -> (r: Result<(), Error>)
        requires
            old(self).wf(),
            !(expected@ is Eof),
        ensures
            final(self).wf(),
            final(self).same_input(old(self)),
            (rview(r), final(self).state()) == parse_consume(
                old(self).toks(),
                old(self).state(),
                expected@,
                expect_msg@,
            ),
            old(self).state().pos <= final(self).state().pos,
            r is Ok ==> final(self).state().pos == old(self).state().pos + 1,
            r is Ok ==> same_kind(expected@, old(self).toks()[old(self).state().pos as int]->Ok_0.kind),
    {
        let same = match self.peek() {
            Ok(next) => expected.is_same_kind(&next.typ),
            Err(e) => {
                return Err(e);
            },
        };
        if same {
            let _ = self.next();
            return Ok(());
        }
        Err(Error::ExpectedToken(String::from_str(expect_msg), self.last_line))
    }

    /// Reads a variable's name.
    pub fn var(&mut self) -> (r: Result<String, Error>)
        requires
            old(self).wf(),
        ensures
            final(self).wf(),
            final(self).same_input(old(self)),
            final(self).toks() == old(self).toks(),
            final(self).errors_view() == old(self).errors_view(),
            (rview(r), final(self).state()) == parse_var(old(self).toks(), old(self).state()),
            old(self).state().pos <= final(self).state().pos,
            r is Ok ==> final(self).state().pos == old(self).state().pos + 1,
    {
        let name = match self.peek() {
            Ok(token) => match &token.typ {
                TokenType::IDENTIFIER(n) => n.clone(),
                _ => {
                    return Err(Error::NotAVariable(self.last_line));
                },
            },
            Err(e) => {
                return Err(e);
            },
        };
        let _ = self.next();
        Ok(name)
    }

    // Reads a number or a variable.
    fn literal(&mut self) -> (r: Result<Literal, Error>)
        requires
            old(self).wf(),
        ensures
            final(self).wf(),
            final(self).same_input(old(self)),
            (rview(r), final(self).state()) == parse_literal(old(self).toks(), old(self).state()),
            old(self).state().pos <= final(self).state().pos,
            r is Ok ==> final(self).state().pos == old(self).state().pos + 1,
    {
        let is_number = match self.peek() {
            Ok(token) => match &token.typ {
                TokenType::IDENTIFIER(_) => false,
                TokenType::NUMBER(_) => true,
                _ => {
                    return Err(Error::ExpectedExpression(self.last_line));
                },
            },
            Err(e) => {
                return Err(e);
            },
        };
        let token = match self.next() {
            Ok(t) => t,
            Err(e) => {
                return Err(e);
            },
        };
        match token.typ {
            TokenType::NUMBER(n) => Ok(Literal::Number { content: n, pos: token.pos }),
            TokenType::IDENTIFIER(n) => Ok(Literal::Identifier { content: n, pos: token.pos }),
            _ => Err(Error::ExpectedExpression(self.last_line)),
        }
    }

    /// Reads `+` or `-`.
    pub fn infix_operator(&mut self) -> (r: Result<InfixOperator, Error>)
        requires
            old(self).wf(),
        ensures
            final(self).wf(),
            final(self).same_input(old(self)),
            final(self).toks() == old(self).toks(),
            final(self).errors_view() == old(self).errors_view(),
            (rview(r), final(self).state()) == parse_infix(old(self).toks(), old(self).state()),
            old(self).state().pos <= final(self).state().pos,
    {
        match self.peek() {
            Ok(token) => match &token.typ {
                TokenType::PLUS => {},
                TokenType::MINUS => {},
                _ => {
                    return Err(Error::ExpectedExpression(self.last_line));
                },
            },
            Err(e) => {
                return Err(e);
            },
        }
        let token = match self.next() {
            Ok(t) => t,
            Err(e) => {
                return Err(e);
            },
        };
        match token.typ {
            TokenType::PLUS => Ok(InfixOperator::Plus(token.pos)),
            TokenType::MINUS => Ok(InfixOperator::Minus(token.pos)),
            _ => Err(Error::ExpectedExpression(self.last_line)),
        }
    }

    // Reads a literal, and an operator and a second literal where one follows.
    fn expression(&mut self) -> (r: Result<Expr, Error>)
        requires
            old(self).wf(),
        ensures
            final(self).wf(),
            final(self).same_input(old(self)),
            (rview(r), final(self).state()) == parse_expression(old(self).toks(), old(self).state()),
            old(self).state().pos <= final(self).state().pos,
            r is Ok ==> old(self).state().pos < final(self).state().pos,
    {
        let left = match self.literal() {
            Ok(l) => l,
            Err(e) => {
                return Err(e);
            },
        };
        match self.infix_operator() {
            Ok(operator) => {
                let right = match self.literal() {
                    Ok(l) => l,
                    Err(e) => {
                        return Err(e);
                    },
                };
                Ok(Expr::BinaryOp { left, operator, right })
            },
            Err(_) => Ok(Expr::Literal(left)),
        }
    }

    // Reads `name < expression;` or `name;`.
    fn var_dec_or_proc_call(&mut self) -> (r: Result<Stmt, Error>)
        requires
            old(self).wf(),
        ensures
            final(self).wf(),
            final(self).same_input(old(self)),
            (rview(r), final(self).state()) == parse_assignment_or_call(
                old(self).toks(),
                old(self).state(),
            ),
            old(self).state().pos <= final(self).state().pos,
            r is Ok ==> old(self).state().pos < final(self).state().pos,
            (r is Err && final(self).state().pos == old(self).state().pos) ==> !(old(
                self,
            ).toks()[old(self).state().pos as int] matches Ok(t) && t.kind is Identifier),
    {
        let name = match self.var() {
            Ok(n) => n,
            Err(e) => {
                return Err(e);
            },
        };
        if let Ok(()) = self.consume(TokenType::LARROW, "<") {
            let right = match self.expression() {
                Ok(x) => x,
                Err(e) => {
                    return Err(e);
                },
            };
            match self.consume(TokenType::SEMICOLON, ";") {
                Ok(()) => {},
                Err(e) => {
                    return Err(e);
                },
            }
            return Ok(Stmt::VarAssignment { name, expr: right });
        }
        match self.consume(TokenType::SEMICOLON, ";") {
            Ok(()) => {},
            Err(e) => {
                return Err(e);
            },
        }
        Ok(Stmt::Procedure(name))
    }

    // Whether the statements of a block go on at the next item.
    fn block_goes_on(&self) -> (r: bool)
        requires
            self.wf(),
        ensures
            r == block_goes_on(self.toks(), self.state()),
    {
        match self.peek() {
            Ok(t) => match &t.typ {
                TokenType::RBRACKET => false,
                TokenType::EOF => false,
                _ => true,
            },
            Err(_) => true,
        }
    }

    // Reads a statement: a while loop, a block, an assignment or a call.
    fn statement(&mut self) -> (r: Result<Stmt, Error>)
        requires
            old(self).wf(),
        ensures
            final(self).wf(),
            final(self).same_input(old(self)),
            (rview(r), final(self).state()) == parse_statement(old(self).toks(), old(self).state()),
            old(self).state().pos <= final(self).state().pos,
            r is Ok ==> old(self).state().pos < final(self).state().pos,
            (r is Err && final(self).state().pos == old(self).state().pos) ==> !opens_statement(
                old(self).toks()[old(self).state().pos as int],
            ),
        decreases old(self).tokens.len() - old(self).pos,
    {
        if let Ok(()) = self.consume(TokenType::WHILE, "while") {
            let name = match self.var() {
                Ok(n) => n,
                Err(e) => {
                    return Err(e);
                },
            };
            match self.consume(TokenType::NEQUAL, "!=") {
                Ok(()) => {},
                Err(e) => {
                    return Err(e);
                },
            }
            let lit = match self.literal() {
                Ok(l) => l,
                Err(e) => {
                    return Err(e);
                },
            };
            let is_zero = match &lit {
                Literal::Number { content, .. } => content.is_zero(),
                _ => false,
            };
            if !is_zero {
                return Err(Error::ExpectedToken(String::from_str("0"), self.last_line));
            }
            let stmt = match self.statement() {
                Ok(s) => s,
                Err(e) => {
                    return Err(e);
                },
            };
            return Ok(Stmt::While { name, statement: Box::new(stmt) });
        }
        if let Ok(()) = self.consume(TokenType::LBRACKET, "{") {
            let mut statements: Vec<Stmt> = Vec::new();
            let ghost start = self.state();
            while self.block_goes_on()
                invariant
                    self.wf(),
                    self.same_input(old(self)),
                    old(self).state().pos < self.state().pos,
                    parse_consume(old(self).toks(), old(self).state(), Kind::While, "while"@).0 is Err,
                    parse_consume(old(self).toks(), old(self).state(), Kind::LBracket, "{"@) == (
                    Ok::<(), ErrorView>(()), start),
                    parse_block(self.toks(), self.state(), stmts_view(statements@)) == parse_block(
                        self.toks(),
                        start,
                        Seq::empty(),
                    ),
                decreases self.tokens.len() - self.pos,
            {
                let ghost before = self.state();
                let ghost prev = statements@;
                match self.statement() {
                    Ok(s) => {
                        statements.push(s);
                        proof {
                            assert(statements@.drop_last() == prev);
                            assert(stmts_view(statements@) == stmts_view(prev).push(stmt_view(s)));
                        }
                    },
                    Err(e) => {
                        return Err(e);
                    },
                }
            }
            match self.consume(TokenType::RBRACKET, "}") {
                Ok(()) => {},
                Err(e) => {
                    return Err(e);
                },
            }
            return Ok(Stmt::Block(statements));
        }
        self.var_dec_or_proc_call()
    }

    // Reads a procedure's name and body, after the keyword.
    fn procedure(&mut self) -> (r: Result<Decl, Error>)
        requires
            old(self).wf(),
        ensures
            final(self).wf(),
            final(self).same_input(old(self)),
            (rview(r), final(self).state()) == parse_procedure(old(self).toks(), old(self).state()),
            old(self).state().pos <= final(self).state().pos,
    {
        let name = match self.var() {
            Ok(n) => n,
            Err(e) => {
                return Err(e);
            },
        };
        let stmt = match self.statement() {
            Ok(s) => s,
            Err(e) => {
                return Err(e);
            },
        };
        Ok(Decl::Procedure { name, statement: Box::new(stmt) })
    }

    /// Error recovery: skips items up to the start of the next statement, or
    /// past the end of the current one.
    pub fn synchronize(&mut self)
        requires
            old(self).wf(),
        ensures
            final(self).wf(),
            final(self).same_input(old(self)),
            final(self).toks() == old(self).toks(),
            final(self).errors_view() == old(self).errors_view(),
            final(self).state() == synchronized(old(self).toks(), old(self).state()),
            old(self).state().pos <= final(self).state().pos,
            !(old(self).toks()[old(self).state().pos as int] matches Ok(t) && sync_stops_before(
                t.kind,
            )) ==> old(self).state().pos < final(self).state().pos,
    {
        loop
            invariant
                self.wf(),
                self.same_input(old(self)),
                old(self).state().pos <= self.state().pos,
                synchronized(self.toks(), self.state()) == synchronized(
                    old(self).toks(),
                    old(self).state(),
                ),
                !(old(self).toks()[old(self).state().pos as int] matches Ok(t) && sync_stops_before(
                    t.kind,
                )) && self.state().pos == old(self).state().pos ==> !(self.toks()[self.state().pos as int] matches Ok(t)
                    && sync_stops_before(t.kind)),
            decreases self.tokens.len() - self.pos,
        {
            proof {
                assert(self.toks()[self.pos as int] == item_view(self.tokens@[self.pos as int]));
            }
            let stop = match self.peek() {
                Ok(next) => match &next.typ {
                    TokenType::EOF => true,
                    TokenType::WHILE => true,
                    TokenType::PROCEDURE => true,
                    TokenType::LBRACKET => true,
                    _ => false,
                },
                Err(_) => {
                    let _ = self.next();
                    continue ;
                },
            };
            if stop {
                return ;
            }
            let next = self.next();
            let after = match &next {
                Ok(t) => match &t.typ {
                    TokenType::SEMICOLON => true,
                    TokenType::RBRACKET => true,
                    _ => false,
                },
                Err(_) => false,
            };
            if after {
                return ;
            }
        }
    }

    // Reads a declaration; on an error, records it, recovers, and fails.
    fn declaration(&mut self) -> (r: Result<Decl, Error>)
        requires
            old(self).wf(),
            program_goes_on(old(self).toks(), old(self).state()),
        ensures
            final(self).wf(),
            final(self).toks() == old(self).toks(),
            ({
                let (d, st, errs) = parse_declaration(old(self).toks(), old(self).state());
                &&& rview(r) == d
                &&& final(self).state() == st
                &&& final(self).errors_view() == old(self).errors_view() + errs
            }),
            old(self).state().pos < final(self).state().pos,
    {
        if let Ok(()) = self.consume(TokenType::PROCEDURE, "procedure") {
            match self.procedure() {
                Ok(proc) => {
                    return Ok(proc);
                },
                Err(err) => {
                    let ghost before = self.errors@;
                    self.errors.push(err);
                    proof {
                        assert(self.errors@.map_values(|e: Error| e@) == before.map_values(
                            |e: Error| e@,
                        ).push(err@));
                    }
                    self.synchronize();
                    return Err(Error::ParsingError);
                },
            }
        }
        match self.statement() {
            Ok(stmt) => Ok(Decl::Statement(stmt)),
            Err(err) => {
                let ghost before = self.errors@;
                self.errors.push(err);
                proof {
                    assert(self.errors@.map_values(|e: Error| e@) == before.map_values(
                        |e: Error| e@,
                    ).push(err@));
                }
                self.synchronize();
                Err(Error::ParsingError)
            },
        }
    }

    // Whether the program goes on at the next item.
    fn program_goes_on(&self) -> (r: bool)
        requires
            self.wf(),
        ensures
            r == program_goes_on(self.toks(), self.state()),
    {
        match self.peek() {
            Ok(t) => match &t.typ {
                TokenType::EOF => false,
                _ => true,
            },
            Err(_) => true,
        }
    }

    /// Reads declarations up to the end of the source, recording an error for
    /// each that it cannot read; fails if any error has been recorded.
    pub fn program(&mut self) -> (r: Result<Program, Error>)
        requires
            old(self).wf(),
        ensures
            final(self).wf(),
            final(self).toks() == old(self).toks(),
            ({
                let (decls, errs) = parse_declarations(
                    old(self).toks(),
                    old(self).state(),
                    Seq::empty(),
                    old(self).errors_view(),
                );
                &&& final(self).errors_view() == errs
                &&& errs.len() == 0 ==> rview(r) == Ok::<Seq<DeclView>, ErrorView>(decls)
                &&& errs.len() > 0 ==> rview(r) == Err::<Seq<DeclView>, ErrorView>(
                    ErrorView::ParsingError,
                )
            }),
    {
        let mut declarations: Vec<Decl> = Vec::new();
        let ghost start = self.state();
        let ghost errors0 = self.errors_view();
        assert(decls_view(declarations@) == Seq::<DeclView>::empty());
        while self.program_goes_on()
            invariant
                self.wf(),
                self.toks() == old(self).toks(),
                start == old(self).state(),
                errors0 == old(self).errors_view(),
                parse_declarations(
                    self.toks(),
                    self.state(),
                    decls_view(declarations@),
                    self.errors_view(),
                ) == parse_declarations(self.toks(), start, Seq::empty(), errors0),
            decreases self.tokens.len() - self.pos,
        {
            let ghost prev = declarations@;
            match self.declaration() {
                Ok(decl) => {
                    declarations.push(decl);
                    proof {
                        assert(decls_view(declarations@) == decls_view(prev).push(decl@));
                    }
                },
                Err(_) => {},
            }
        }
        if self.errors.len() > 0 {
            return Err(Error::ParsingError);
        }
        Ok(Program::Declarations(declarations))
    }
}

/// The literal that a number or identifier token stands for.
pub open spec fn token_literal(t: SpecToken) -> LitView {
    match t.kind {
        Kind::Number(v) => LitView::Number { content: v, pos: PosView { lexeme: t.lexeme, line: t.line } },
        Kind::Identifier(n) => LitView::Identifier {
            content: n,
            pos: PosView { lexeme: t.lexeme, line: t.line },
        },
        _ => LitView::Number { content: 0, pos: PosView { lexeme: t.lexeme, line: t.line } },
    }
}

/// The operator that a `+` or `-` token stands for.
pub open spec fn token_operator(t: SpecToken) -> OpView {
    match t.kind {
        Kind::Minus => OpView::Minus(PosView { lexeme: t.lexeme, line: t.line }),
        _ => OpView::Plus(PosView { lexeme: t.lexeme, line: t.line }),
    }
}

/// Whether a token is a number or a variable.
pub open spec fn is_operand(t: SpecToken) -> bool {
    t.kind is Number || t.kind is Identifier
}

/// Whether a token is `+` or `-`.
pub open spec fn is_operator(t: SpecToken) -> bool {
    t.kind is Plus || t.kind is Minus
}

/// An expression keeps all it reads: an operand, an operator and a second
/// operand make the binary operation of exactly these three, whatever the
/// kinds of the operands, and the three tokens are taken.
pub proof fn lemma_binary_expression(
    toks: Seq<Result<SpecToken, ErrorView>>,
    st: PState,
    a: SpecToken,
    o: SpecToken,
    b: SpecToken,
)
    requires
        st.pos + 2 < toks.len(),
        toks[st.pos as int] == Ok::<SpecToken, ErrorView>(a),
        toks[st.pos + 1int] == Ok::<SpecToken, ErrorView>(o),
        toks[st.pos + 2int] == Ok::<SpecToken, ErrorView>(b),
        is_operand(a),
        is_operator(o),
        is_operand(b),
    ensures
        parse_expression(toks, st) == (
            Ok::<ExprView, ErrorView>(
                ExprView::BinaryOp {
                    left: token_literal(a),
                    operator: token_operator(o),
                    right: token_literal(b),
                },
            ),
            PState { pos: st.pos + 3, last_line: b.line },
        ),
{
}

/// An operand that no operator follows is an expression on its own, and
/// only it is taken.
pub proof fn lemma_single_expression(
    toks: Seq<Result<SpecToken, ErrorView>>,
    st: PState,
    a: SpecToken,
    n: SpecToken,
)
    requires
        st.pos + 1 < toks.len(),
        toks[st.pos as int] == Ok::<SpecToken, ErrorView>(a),
        toks[st.pos + 1int] == Ok::<SpecToken, ErrorView>(n),
        is_operand(a),
        !is_operator(n),
    ensures
        parse_expression(toks, st) == (
            Ok::<ExprView, ErrorView>(ExprView::Literal(token_literal(a))),
            PState { pos: st.pos + 1, last_line: a.line },
        ),
{
}

/// The statement `name < a o b;` assigns to `name` the binary operation of
/// exactly `a`, `o` and `b`, and takes its six tokens.
pub proof fn lemma_binary_assignment(
    toks: Seq<Result<SpecToken, ErrorView>>,
    st: PState,
    name: Seq<char>,
    v: SpecToken,
    arrow: SpecToken,
    a: SpecToken,
    o: SpecToken,
    b: SpecToken,
    semi: SpecToken,
)
    requires
        st.pos + 5 < toks.len(),
        v.kind == Kind::Identifier(name),
        arrow.kind is LArrow,
        semi.kind is Semicolon,
        toks[st.pos as int] == Ok::<SpecToken, ErrorView>(v),
        toks[st.pos + 1int] == Ok::<SpecToken, ErrorView>(arrow),
        toks[st.pos + 2int] == Ok::<SpecToken, ErrorView>(a),
        toks[st.pos + 3int] == Ok::<SpecToken, ErrorView>(o),
        toks[st.pos + 4int] == Ok::<SpecToken, ErrorView>(b),
        toks[st.pos + 5int] == Ok::<SpecToken, ErrorView>(semi),
        is_operand(a),
        is_operator(o),
        is_operand(b),
    ensures
        parse_statement(toks, st) == (
            Ok::<StmtView, ErrorView>(
                StmtView::VarAssignment {
                    name,
                    expr: ExprView::BinaryOp {
                        left: token_literal(a),
                        operator: token_operator(o),
                        right: token_literal(b),
                    },
                },
            ),
            PState { pos: st.pos + 6, last_line: semi.line },
        ),
{
    lemma_binary_expression(toks, PState { pos: st.pos + 2, last_line: arrow.line }, a, o, b);
}

/// The statement `name < a;` assigns the single operand `a` to `name`, and
/// takes its four tokens.
pub proof fn lemma_single_assignment(
    toks: Seq<Result<SpecToken, ErrorView>>,
    st: PState,
    name: Seq<char>,
    v: SpecToken,
    arrow: SpecToken,
    a: SpecToken,
    semi: SpecToken,
)
    requires
        st.pos + 3 < toks.len(),
        v.kind == Kind::Identifier(name),
        arrow.kind is LArrow,
        semi.kind is Semicolon,
        toks[st.pos as int] == Ok::<SpecToken, ErrorView>(v),
        toks[st.pos + 1int] == Ok::<SpecToken, ErrorView>(arrow),
        toks[st.pos + 2int] == Ok::<SpecToken, ErrorView>(a),
        toks[st.pos + 3int] == Ok::<SpecToken, ErrorView>(semi),
        is_operand(a),
    ensures
        parse_statement(toks, st) == (
            Ok::<StmtView, ErrorView>(
                StmtView::VarAssignment { name, expr: ExprView::Literal(token_literal(a)) },
            ),
            PState { pos: st.pos + 4, last_line: semi.line },
        ),
{
    lemma_single_expression(toks, PState { pos: st.pos + 2, last_line: arrow.line }, a, semi);
}

/// The statement `name;` calls the procedure `name`, and takes its two tokens.
pub proof fn lemma_call_statement(
    toks: Seq<Result<SpecToken, ErrorView>>,
    st: PState,
    name: Seq<char>,
    v: SpecToken,
    semi: SpecToken,
)
    requires
        st.pos + 1 < toks.len(),
        v.kind == Kind::Identifier(name),
        semi.kind is Semicolon,
        toks[st.pos as int] == Ok::<SpecToken, ErrorView>(v),
        toks[st.pos + 1int] == Ok::<SpecToken, ErrorView>(semi),
    ensures
        parse_statement(toks, st) == (
            Ok::<StmtView, ErrorView>(StmtView::Procedure(name)),
            PState { pos: st.pos + 2, last_line: semi.line },
        ),
{
}

/// A while loop: `while name != 0` followed by a statement loops over that
/// statement; any other operand than the number 0 after `!=` is an error
/// that names the 0, on the line of that operand.
pub proof fn lemma_while_statement(
    toks: Seq<Result<SpecToken, ErrorView>>,
    st: PState,
    name: Seq<char>,
    w: SpecToken,
    v: SpecToken,
    ne: SpecToken,
    z: SpecToken,
)
    requires
        st.pos + 3 < toks.len(),
        w.kind is While,
        v.kind == Kind::Identifier(name),
        ne.kind is NEqual,
        is_operand(z),
        toks[st.pos as int] == Ok::<SpecToken, ErrorView>(w),
        toks[st.pos + 1int] == Ok::<SpecToken, ErrorView>(v),
        toks[st.pos + 2int] == Ok::<SpecToken, ErrorView>(ne),
        toks[st.pos + 3int] == Ok::<SpecToken, ErrorView>(z),
    ensures
        z.kind == Kind::Number(0) ==> parse_statement(toks, st) == match parse_statement(
            toks,
            PState { pos: st.pos + 4, last_line: z.line },
        ) {
            (Ok(body), s) => (
                Ok::<StmtView, ErrorView>(StmtView::While { name, statement: Box::new(body) }),
                s,
            ),
            (Err(e), s) => (Err(e), s),
        },
        z.kind != Kind::Number(0) ==> parse_statement(toks, st) == (
            Err::<StmtView, ErrorView>(ErrorView::ExpectedToken("0"@, z.line)),
            PState { pos: st.pos + 4, last_line: z.line },
        ),
{
}

/// A block of one statement: `{`, a statement, and the `}` where that
/// statement ends make a block of exactly that statement.
pub proof fn lemma_block_of_one(
    toks: Seq<Result<SpecToken, ErrorView>>,
    st: PState,
    lb: SpecToken,
    s: StmtView,
    after: PState,
    rb: SpecToken,
)
    requires
        st.pos + 1 < toks.len(),
        lb.kind is LBracket,
        rb.kind is RBracket,
        toks[st.pos as int] == Ok::<SpecToken, ErrorView>(lb),
        parse_statement(toks, PState { pos: st.pos + 1, last_line: lb.line }) == (
            Ok::<StmtView, ErrorView>(s),
            after,
        ),
        st.pos + 1 < after.pos < toks.len(),
        toks[after.pos as int] == Ok::<SpecToken, ErrorView>(rb),
    ensures
        parse_statement(toks, st) == (
            Ok::<StmtView, ErrorView>(StmtView::Block(seq![s])),
            PState { pos: after.pos + 1, last_line: rb.line },
        ),
{
    let s1 = PState { pos: st.pos + 1, last_line: lb.line };
    assert(block_goes_on(toks, s1)) by {
        if !block_goes_on(toks, s1) {
            assert(toks[s1.pos as int] matches Ok(t) && (t.kind is RBracket || t.kind is Eof));
        }
    }
    assert(!block_goes_on(toks, after));
    assert(Seq::<StmtView>::empty().push(s) == seq![s]);
    assert(parse_block(toks, s1, Seq::empty()) == parse_block(toks, after, seq![s]));
}

/// An empty block: `{` and `}` make a block of no statement.
pub proof fn lemma_empty_block(
    toks: Seq<Result<SpecToken, ErrorView>>,
    st: PState,
    lb: SpecToken,
    rb: SpecToken,
)
    requires
        st.pos + 1 < toks.len(),
        lb.kind is LBracket,
        rb.kind is RBracket,
        toks[st.pos as int] == Ok::<SpecToken, ErrorView>(lb),
        toks[st.pos + 1int] == Ok::<SpecToken, ErrorView>(rb),
    ensures
        parse_statement(toks, st) == (
            Ok::<StmtView, ErrorView>(StmtView::Block(Seq::empty())),
            PState { pos: st.pos + 2, last_line: rb.line },
        ),
{
    let s1 = PState { pos: st.pos + 1, last_line: lb.line };
    assert(!block_goes_on(toks, s1));
    assert(parse_block(toks, s1, Seq::empty()) == (
        Ok::<Seq<StmtView>, ErrorView>(Seq::empty()),
        s1,
    ));
}

/// A procedure declaration: `procedure name` and a statement declare `name`
/// with that statement as its body; where the body cannot be read, its
/// error is recorded, the parser recovers from where it stopped, and the
/// declaration fails.
pub proof fn lemma_procedure_declaration(
    toks: Seq<Result<SpecToken, ErrorView>>,
    st: PState,
    name: Seq<char>,
    p: SpecToken,
    v: SpecToken,
)
    requires
        st.pos + 1 < toks.len(),
        p.kind is Procedure,
        v.kind == Kind::Identifier(name),
        toks[st.pos as int] == Ok::<SpecToken, ErrorView>(p),
        toks[st.pos + 1int] == Ok::<SpecToken, ErrorView>(v),
    ensures
        parse_declaration(toks, st) == match parse_statement(
            toks,
            PState { pos: st.pos + 2, last_line: v.line },
        ) {
            (Ok(body), s) => (
                Ok::<DeclView, ErrorView>(DeclView::Procedure { name, statement: body }),
                s,
                Seq::<ErrorView>::empty(),
            ),
            (Err(e), s) => (
                Err::<DeclView, ErrorView>(ErrorView::ParsingError),
                synchronized(toks, s),
                seq![e],
            ),
        },
{
}

/// Error recovery skips lexing errors and every token that neither ends nor
/// starts a statement: it stops just after the first `;` or `}`, or just
/// before the first `while`, `procedure`, `{` or end of the source.
pub proof fn lemma_recovery_stops(toks: Seq<Result<SpecToken, ErrorView>>, st: PState, j: nat)
    requires
        st.pos <= j < toks.len(),
        forall|k: int|
            st.pos <= k < j ==> (#[trigger] toks[k] matches Ok(t) ==> !(t.kind is Semicolon
                || t.kind is RBracket || t.kind is While || t.kind is Procedure || t.kind is LBracket
                || t.kind is Eof)),
    ensures
        toks[j as int] matches Ok(t) && (t.kind is Semicolon || t.kind is RBracket)
            ==> synchronized(toks, st).pos == j + 1,
        toks[j as int] matches Ok(t) && (t.kind is While || t.kind is Procedure || t.kind is LBracket
            || t.kind is Eof) ==> synchronized(toks, st).pos == j,
    decreases j - st.pos,
{
    if st.pos < j {
        assert(toks[st.pos as int] matches Ok(t) ==> !(t.kind is Semicolon || t.kind is RBracket
            || t.kind is While || t.kind is Procedure || t.kind is LBracket || t.kind is Eof));
        lemma_recovery_stops(toks, take_at(toks, st).1, j);
    }
}

/// Reading declarations only adds to what was read before: the declarations
/// and the errors given before come first, in order, in the result.
pub proof fn lemma_declarations_grow(
    toks: Seq<Result<SpecToken, ErrorView>>,
    st: PState,
    decls: Seq<DeclView>,
    errors: Seq<ErrorView>,
)
    ensures
        decls.is_prefix_of(parse_declarations(toks, st, decls, errors).0),
        errors.is_prefix_of(parse_declarations(toks, st, decls, errors).1),
        program_goes_on(toks, st) ==> match parse_declaration(toks, st) {
            (Ok(d), _, _) => decls.push(d).is_prefix_of(parse_declarations(toks, st, decls, errors).0),
            (Err(_), _, errs) => (errors + errs).is_prefix_of(
                parse_declarations(toks, st, decls, errors).1,
            ),
        },
    decreases toks.len() - st.pos,
{
    if program_goes_on(toks, st) {
        let (r, s1, errs) = parse_declaration(toks, st);
        let decls1 = match r {
            Ok(d) => decls.push(d),
            Err(_) => decls,
        };
        if st.pos < s1.pos <= toks.len() {
            lemma_declarations_grow(toks, s1, decls1, errors + errs);
            let res = parse_declarations(toks, s1, decls1, errors + errs);
            assert(decls.is_prefix_of(res.0)) by {
                assert forall|k: int| 0 <= k < decls.len() implies decls[k] == res.0[k] by {
                    assert(decls1[k] == decls[k]);
                }
            }
            assert(errors.is_prefix_of(res.1)) by {
                assert forall|k: int| 0 <= k < errors.len() implies errors[k] == res.1[k] by {
                    assert((errors + errs)[k] == errors[k]);
                }
            }
        } else {
            assert(decls.is_prefix_of(decls1));
            assert(decls1.is_prefix_of(decls1));
            assert(errors.is_prefix_of(errors + errs));
            assert((errors + errs).is_prefix_of(errors + errs));
        }
    } else {
        assert(decls.is_prefix_of(decls));
        assert(errors.is_prefix_of(errors));
    }
}

/// An assignment whose expression is followed by neither an operator nor
/// `;` fails, asking for `;` on the line of the last operand read.
pub proof fn lemma_missing_semicolon(
    toks: Seq<Result<SpecToken, ErrorView>>,
    st: PState,
    name: Seq<char>,
    v: SpecToken,
    arrow: SpecToken,
    a: SpecToken,
    x: SpecToken,
)
    requires
        st.pos + 3 < toks.len(),
        v.kind == Kind::Identifier(name),
        arrow.kind is LArrow,
        is_operand(a),
        !is_operator(x),
        !(x.kind is Semicolon),
        toks[st.pos as int] == Ok::<SpecToken, ErrorView>(v),
        toks[st.pos + 1int] == Ok::<SpecToken, ErrorView>(arrow),
        toks[st.pos + 2int] == Ok::<SpecToken, ErrorView>(a),
        toks[st.pos + 3int] == Ok::<SpecToken, ErrorView>(x),
    ensures
        parse_statement(toks, st) == (
            Err::<StmtView, ErrorView>(ErrorView::ExpectedToken(";"@, a.line)),
            PState { pos: st.pos + 3, last_line: a.line },
        ),
{
    lemma_single_expression(toks, PState { pos: st.pos + 2, last_line: arrow.line }, a, x);
}

/// An assignment with no operand after `<` fails, asking for an expression
/// on the line of the `<`.
pub proof fn lemma_missing_expression(
    toks: Seq<Result<SpecToken, ErrorView>>,
    st: PState,
    name: Seq<char>,
    v: SpecToken,
    arrow: SpecToken,
    x: SpecToken,
)
    requires
        st.pos + 2 < toks.len(),
        v.kind == Kind::Identifier(name),
        arrow.kind is LArrow,
        !is_operand(x),
        toks[st.pos as int] == Ok::<SpecToken, ErrorView>(v),
        toks[st.pos + 1int] == Ok::<SpecToken, ErrorView>(arrow),
        toks[st.pos + 2int] == Ok::<SpecToken, ErrorView>(x),
    ensures
        parse_statement(toks, st) == (
            Err::<StmtView, ErrorView>(ErrorView::ExpectedExpression(arrow.line)),
            PState { pos: st.pos + 2, last_line: arrow.line },
        ),
{
}

/// A statement that starts with neither `while`, `{` nor a variable fails,
/// asking for a variable on the line of the last token read; a lexing error
/// where a statement should start fails the statement with that error.
pub proof fn lemma_not_a_statement(toks: Seq<Result<SpecToken, ErrorView>>, st: PState)
    requires
        st.pos < toks.len(),
    ensures
        toks[st.pos as int] matches Ok(t) && !(t.kind is While || t.kind is LBracket
            || t.kind is Identifier) ==> parse_statement(toks, st) == (
            Err::<StmtView, ErrorView>(ErrorView::NotAVariable(st.last_line)),
            st,
        ),
        toks[st.pos as int] matches Err(e) ==> parse_statement(toks, st) == (
            Err::<StmtView, ErrorView>(e),
            st,
        ),
{
}

/// A declaration that fails records exactly one error, the one that stopped
/// it; one that is read records none.
pub proof fn lemma_declaration_errors(toks: Seq<Result<SpecToken, ErrorView>>, st: PState)
    ensures
        parse_declaration(toks, st).0 is Ok ==> parse_declaration(toks, st).2.len() == 0,
        parse_declaration(toks, st).0 is Err ==> parse_declaration(toks, st).2.len() == 1
            && parse_declaration(toks, st).0 == Err::<DeclView, ErrorView>(ErrorView::ParsingError),
{
}

} // verus!
