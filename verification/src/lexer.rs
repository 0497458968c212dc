//! The lexer: it turns source text into tokens, one at a time.
//!
//! `lex_from` states, character by character, which tokens a source yields
//! and which errors lexing it records; the executable `Lexer` hands the
//! tokens out in that order and records the errors in `errors`.
use crate::error::{errors_view, Error, ErrorView};
use crate::natural::{decimal_repr, digits_value, is_digit_char, lemma_decimal_roundtrip, Natural};
use vstd::prelude::*;
use vstd::string::StrSliceExecFns;
use vstd::string::StringExecFns;

verus! {

/// The kinds of token of the language, with the values that identifiers and
/// numbers carry.
#[allow(non_camel_case_types)]
pub enum TokenType {
    // Single-character tokens
    PLUS,
    MINUS,
    LARROW,
    SEMICOLON,
    LBRACKET,
    RBRACKET,
    // Two-character tokens
    NEQUAL,
    // Literals
    IDENTIFIER(String),
    NUMBER(Natural),
    // Keywords
    PROCEDURE,
    WHILE,
    // The end of the source: the parser puts one after the last token
    EOF,
}

/// Where a token stands: its text and its line.
pub struct TokenPos {
    pub lexeme: String,
    pub line: usize,
}

/// A token: its kind and its position.
pub struct Token {
    pub typ: TokenType,
    pub pos: TokenPos,
}

/// What a `TokenType` stands for.
pub enum Kind {
    Plus,
    Minus,
    LArrow,
    Semicolon,
    LBracket,
    RBracket,
    NEqual,
    Identifier(Seq<char>),
    Number(nat),
    Procedure,
    While,
    Eof,
}

/// What a `TokenPos` stands for.
pub struct PosView {
    pub lexeme: Seq<char>,
    pub line: nat,
}

impl View for TokenPos {
    type V = PosView;

    open spec fn view(&self) -> PosView {
        PosView { lexeme: self.lexeme@, line: self.line as nat }
    }
}

/// What a `Token` stands for.
pub struct SpecToken {
    pub kind: Kind,
    pub lexeme: Seq<char>,
    pub line: nat,
}

impl View for TokenType {
    type V = Kind;

    open spec fn view(&self) -> Kind {
        match self {
            TokenType::PLUS => Kind::Plus,
            TokenType::MINUS => Kind::Minus,
            TokenType::LARROW => Kind::LArrow,
            TokenType::SEMICOLON => Kind::Semicolon,
            TokenType::LBRACKET => Kind::LBracket,
            TokenType::RBRACKET => Kind::RBracket,
            TokenType::NEQUAL => Kind::NEqual,
            TokenType::IDENTIFIER(s) => Kind::Identifier(s@),
            TokenType::NUMBER(n) => Kind::Number(n@),
            TokenType::PROCEDURE => Kind::Procedure,
            TokenType::WHILE => Kind::While,
            TokenType::EOF => Kind::Eof,
        }
    }
}

impl View for Token {
    type V = SpecToken;

    open spec fn view(&self) -> SpecToken {
        SpecToken { kind: self.typ@, lexeme: self.pos.lexeme@, line: self.pos.line as nat }
    }
}

/// The number of bytes that UTF-8 takes for a character.
pub open spec fn utf8_len(c: char) -> nat {
    if '\u{80}' > c {
        1
    } else if '\u{800}' > c {
        2
    } else if '\u{10000}' > c {
        3
    } else {
        4
    }
}

/// The number of bytes that UTF-8 takes for a sequence of characters.
pub open spec fn utf8_size(s: Seq<char>) -> nat
    decreases s.len(),
{
    if s.len() == 0 {
        0
    } else {
        utf8_size(s.drop_last()) + utf8_len(s.last())
    }
}

/// The byte sizes of two pieces of text add up.
pub proof fn lemma_utf8_size_append(a: Seq<char>, b: Seq<char>)
    ensures
        utf8_size(a + b) == utf8_size(a) + utf8_size(b),
    decreases b.len(),
{
    if b.len() == 0 {
        assert(a + b == a);
    } else {
        lemma_utf8_size_append(a, b.drop_last());
        assert((a + b).drop_last() == a + b.drop_last());
    }
}

/// A piece of a text takes no more bytes than the text, and every character
/// takes at least one byte.
pub proof fn lemma_utf8_size_bounds(s: Seq<char>, i: int, j: int)
    requires
        0 <= i <= j <= s.len(),
    ensures
        utf8_size(s.subrange(i, j)) <= utf8_size(s),
        s.len() <= utf8_size(s),
    decreases s.len(),
{
    lemma_utf8_size_append(s.subrange(0, i), s.subrange(i, j));
    lemma_utf8_size_append(s.subrange(0, i) + s.subrange(i, j), s.subrange(j, s.len() as int));
    assert(s.subrange(0, i) + s.subrange(i, j) + s.subrange(j, s.len() as int) == s);
    if s.len() > 0 {
        lemma_utf8_size_bounds(s.drop_last(), 0, 0);
    }
}

/// Unicode's `White_Space` property, which `char::is_whitespace` tests.
pub open spec fn is_white_space(c: char) -> bool {
    ||| '\u{9}' <= c && c <= '\u{d}'
    ||| c == ' '
    ||| c == '\u{85}'
    ||| c == '\u{a0}'
    ||| c == '\u{1680}'
    ||| '\u{2000}' <= c && c <= '\u{200a}'
    ||| c == '\u{2028}'
    ||| c == '\u{2029}'
    ||| c == '\u{202f}'
    ||| c == '\u{205f}'
    ||| c == '\u{3000}'
}

/// An ASCII letter.
pub open spec fn is_letter_char(c: char) -> bool {
    ('a' <= c && c <= 'z') || ('A' <= c && c <= 'Z')
}

/// A character that may continue an identifier.
pub open spec fn is_word_char(c: char) -> bool {
    is_letter_char(c) || is_digit_char(c) || c == '_'
}

/// The first position at or after `i` whose character does not satisfy `p`.
pub open spec fn run_end(src: Seq<char>, i: nat, p: spec_fn(char) -> bool) -> nat
    decreases src.len() - i,
{
    if i < src.len() && p(src[i as int]) {
        run_end(src, i + 1, p)
    } else {
        i
    }
}

/// The characters that a comment runs over: all but the line break.
pub open spec fn comment_char() -> spec_fn(char) -> bool {
    |c: char| c != '\n'
}

/// The characters that continue a number.
pub open spec fn number_char() -> spec_fn(char) -> bool {
    |c: char| is_digit_char(c)
}

/// The characters that continue an identifier.
pub open spec fn word_char() -> spec_fn(char) -> bool {
    |c: char| is_word_char(c)
}

/// The kind of a word: a keyword, or else an identifier.
pub open spec fn word_kind(w: Seq<char>) -> Kind {
    if w == "procedure"@ {
        Kind::Procedure
    } else if w == "while"@ {
        Kind::While
    } else {
        Kind::Identifier(w)
    }
}

pub open spec fn spec_tok(kind: Kind, src: Seq<char>, i: nat, j: nat, line: nat) -> SpecToken {
    SpecToken { kind, lexeme: src.subrange(i as int, j as int), line }
}

pub proof fn lemma_run_end_bounds(src: Seq<char>, i: nat, p: spec_fn(char) -> bool)
    requires
        i <= src.len(),
    ensures
        i <= run_end(src, i, p) <= src.len(),
        forall|j: int| i <= j < run_end(src, i, p) ==> p(#[trigger] src[j]),
        run_end(src, i, p) < src.len() ==> !p(src[run_end(src, i, p) as int]),
    decreases src.len() - i,
{
    if i < src.len() && p(src[i as int]) {
        lemma_run_end_bounds(src, i + 1, p);
    }
}

pub proof fn lemma_run_end_exact(src: Seq<char>, i: nat, k: nat, p: spec_fn(char) -> bool)
    requires
        i <= k <= src.len(),
        forall|j: int| i <= j < k ==> p(#[trigger] src[j]),
        k < src.len() ==> !p(src[k as int]),
    ensures
        run_end(src, i, p) == k,
    decreases k - i,
{
    if i < k {
        lemma_run_end_exact(src, i + 1, k, p);
    }
}

/// One step of the lexer from position `i`, where the current line is
/// `line`: the token found, if any, where it starts, the position and line
/// after it, and the errors met on the way.
pub struct Step {
    pub token: Option<SpecToken>,
    pub start: nat,
    pub next: nat,
    pub line: nat,
    pub errors: Seq<ErrorView>,
}

/// A step that found the token of kind `kind` from `i` to `j`.
pub open spec fn token_step(kind: Kind, src: Seq<char>, i: nat, j: nat, line: nat) -> Step {
    Step {
        token: Some(spec_tok(kind, src, i, j, line)),
        start: i,
        next: j,
        line,
        errors: Seq::empty(),
    }
}

/// A step that met the error `e` before the rest of the step `s`.
pub open spec fn after_error(e: ErrorView, s: Step) -> Step {
    Step { errors: seq![e] + s.errors, ..s }
}

/// The next step of the lexer: it skips white space, comments and
/// characters that start no token (recording an error for each of these),
/// and stops after the next token or at the end of the source.
pub open spec fn scan(src: Seq<char>, i: nat, line: nat) -> Step
    decreases src.len() - i,
{
    if i >= src.len() {
        Step { token: None, start: i, next: i, line, errors: Seq::empty() }
    } else {
        let c = src[i as int];
        if c == '\n' {
            scan(src, i + 1, line + 1)
        } else if is_white_space(c) {
            scan(src, i + 1, line)
        } else if c == '+' {
            token_step(Kind::Plus, src, i, i + 1, line)
        } else if c == '-' {
            token_step(Kind::Minus, src, i, i + 1, line)
        } else if c == '<' {
            token_step(Kind::LArrow, src, i, i + 1, line)
        } else if c == ';' {
            token_step(Kind::Semicolon, src, i, i + 1, line)
        } else if c == '{' {
            token_step(Kind::LBracket, src, i, i + 1, line)
        } else if c == '}' {
            token_step(Kind::RBracket, src, i, i + 1, line)
        } else if c == '!' {
            if i + 1 < src.len() && src[i + 1int] == '=' {
                token_step(Kind::NEqual, src, i, i + 2, line)
            } else {
                after_error(ErrorView::UnknownSymbol(line), scan(src, i + 1, line))
            }
        } else if c == '/' {
            if i + 1 < src.len() && src[i + 1int] == '/' {
                let j = run_end(src, i + 2, comment_char());
                proof {
                    lemma_run_end_bounds(src, i + 2, comment_char());
                }
                scan(src, j, line)
            } else {
                after_error(ErrorView::UnknownSymbol(line), scan(src, i + 1, line))
            }
        } else if is_digit_char(c) {
            let j = run_end(src, i + 1, number_char());
            let lexeme = src.subrange(i as int, j as int);
            Step {
                token: Some(SpecToken { kind: Kind::Number(digits_value(lexeme)), lexeme, line }),
                start: i,
                next: j,
                line,
                errors: Seq::empty(),
            }
        } else if is_letter_char(c) {
            let j = run_end(src, i + 1, word_char());
            let lexeme = src.subrange(i as int, j as int);
            Step {
                token: Some(SpecToken { kind: word_kind(lexeme), lexeme, line }),
                start: i,
                next: j,
                line,
                errors: Seq::empty(),
            }
        } else {
            after_error(ErrorView::UnknownSymbol(line), scan(src, i + 1, line))
        }
    }
}

/// The number of line breaks in a text.
pub open spec fn newlines(s: Seq<char>) -> nat
    decreases s.len(),
{
    if s.len() == 0 {
        0
    } else {
        newlines(s.drop_last()) + if s.last() == '\n' {
            1nat
        } else {
            0nat
        }
    }
}

pub proof fn lemma_newlines_append(a: Seq<char>, b: Seq<char>)
    ensures
        newlines(a + b) == newlines(a) + newlines(b),
    decreases b.len(),
{
    if b.len() == 0 {
        assert(a + b == a);
    } else {
        lemma_newlines_append(a, b.drop_last());
        assert((a + b).drop_last() == a + b.drop_last());
    }
}

/// What a step does: a token found is the text from its start to the next
/// position, which lies after `i`; the line grows by the line breaks passed
/// before the token; without a token the step reaches the end of the source.
pub proof fn lemma_scan(src: Seq<char>, i: nat, line: nat)
    requires
        i <= src.len(),
    ensures
        ({
            let s = scan(src, i, line);
            &&& i <= s.start <= s.next <= src.len()
            &&& s.line == line + newlines(src.subrange(i as int, s.start as int))
            &&& (s.token matches Some(t) ==> {
                &&& i < s.next
                &&& s.start < s.next
                &&& t.lexeme == src.subrange(s.start as int, s.next as int)
                &&& t.line == s.line
            })
            &&& (s.token is None ==> s.next == src.len() && s.start == src.len())
        }),
    decreases src.len() - i,
{
    let s = scan(src, i, line);
    if i < src.len() {
        let c = src[i as int];
        assert(src.subrange(i as int, i + 1int) == seq![c]);
        assert(newlines(seq![c]) == if c == '\n' { 1nat } else { 0nat }) by {
            assert(seq![c].drop_last() == Seq::<char>::empty());
            assert(seq![c].last() == c);
            assert(newlines(Seq::<char>::empty()) == 0);
        }
        if c == '\n' || is_white_space(c) || (!(c == '+' || c == '-' || c == '<' || c == ';'
            || c == '{' || c == '}') && ((c == '!' && !(i + 1 < src.len() && src[i + 1int] == '='))
            || (c == '/' && !(i + 1 < src.len() && src[i + 1int] == '/')) || (c != '!' && c != '/'
            && !is_digit_char(c) && !is_letter_char(c)))) {
            let l2 = if c == '\n' { line + 1 } else { line };
            lemma_scan(src, i + 1, l2);
            let t = scan(src, i + 1, l2);
            lemma_newlines_append(src.subrange(i as int, i + 1int), src.subrange(i + 1int, t.start as int));
            assert(src.subrange(i as int, i + 1int) + src.subrange(i + 1int, t.start as int) == src.subrange(
                i as int,
                t.start as int,
            ));
        } else if c == '/' {
            let j = run_end(src, i + 2, comment_char());
            lemma_run_end_bounds(src, i + 2, comment_char());
            lemma_scan(src, j, line);
            let t = scan(src, j, line);
            let comment = src.subrange(i as int, j as int);
            assert(newlines(comment) == 0) by {
                assert forall|k: int| 0 <= k < comment.len() implies comment[k] != '\n' by {
                    if k >= 2 {
                        assert(comment[k] == src[i + k]);
                        assert(comment_char()(src[i + k]));
                    }
                }
                lemma_no_newlines(comment);
            }
            lemma_newlines_append(comment, src.subrange(j as int, t.start as int));
            assert(comment + src.subrange(j as int, t.start as int) == src.subrange(
                i as int,
                t.start as int,
            ));
        } else if is_digit_char(c) {
            lemma_run_end_bounds(src, i + 1, number_char());
            assert(src.subrange(i as int, i as int) == Seq::<char>::empty());
        } else if is_letter_char(c) {
            lemma_run_end_bounds(src, i + 1, word_char());
            assert(src.subrange(i as int, i as int) == Seq::<char>::empty());
        } else {
            assert(src.subrange(i as int, i as int) == Seq::<char>::empty());
        }
    } else {
        assert(src.subrange(i as int, i as int) == Seq::<char>::empty());
    }
}

pub proof fn lemma_no_newlines(s: Seq<char>)
    requires
        forall|k: int| 0 <= k < s.len() ==> s[k] != '\n',
    ensures
        newlines(s) == 0,
    decreases s.len(),
{
    if s.len() > 0 {
        lemma_no_newlines(s.drop_last());
    }
}

/// The tokens that the source yields from position `i` on, where the current
/// line is `line`, and the errors met on the way, in order.
pub open spec fn lex_from(src: Seq<char>, i: nat, line: nat) -> (Seq<SpecToken>, Seq<ErrorView>)
    decreases src.len() - i,
{
    if i > src.len() {
        (Seq::empty(), Seq::empty())
    } else {
        let s = scan(src, i, line);
        proof {
            lemma_scan(src, i, line);
        }
        match s.token {
            Some(t) => {
                let (ts, es) = lex_from(src, s.next, s.line);
                (seq![t] + ts, s.errors + es)
            },
            None => (Seq::empty(), s.errors),
        }
    }
}

/// Where each token of `lex_from` starts.
pub open spec fn starts_from(src: Seq<char>, i: nat, line: nat) -> Seq<nat>
    decreases src.len() - i,
{
    if i > src.len() {
        Seq::empty()
    } else {
        let s = scan(src, i, line);
        proof {
            lemma_scan(src, i, line);
        }
        match s.token {
            Some(t) => seq![s.start] + starts_from(src, s.next, s.line),
            None => Seq::empty(),
        }
    }
}

/// Errors as items of a stream.
pub open spec fn error_items(es: Seq<ErrorView>) -> Seq<Result<SpecToken, ErrorView>> {
    es.map_values(|e: ErrorView| Err::<SpecToken, ErrorView>(e))
}

/// The stream of items from position `i` on: each error where it is met,
/// each token where it stands.
pub open spec fn lex_items(src: Seq<char>, i: nat, line: nat) -> Seq<Result<SpecToken, ErrorView>>
    decreases src.len() - i,
{
    if i > src.len() {
        Seq::empty()
    } else {
        let s = scan(src, i, line);
        proof {
            lemma_scan(src, i, line);
        }
        match s.token {
            Some(t) => error_items(s.errors) + seq![Ok(t)] + lex_items(src, s.next, s.line),
            None => error_items(s.errors),
        }
    }
}

/// The line at the end of the source, when lexing from position `i` on line `line`.
pub open spec fn lex_end_line(src: Seq<char>, i: nat, line: nat) -> nat
    decreases src.len() - i,
{
    if i > src.len() {
        line
    } else {
        let s = scan(src, i, line);
        proof {
            lemma_scan(src, i, line);
        }
        match s.token {
            Some(t) => lex_end_line(src, s.next, s.line),
            None => s.line,
        }
    }
}

/// What an item of the stream stands for.
pub open spec fn item_view(item: Result<Token, Error>) -> Result<SpecToken, ErrorView> {
    match item {
        Ok(t) => Ok(t@),
        Err(e) => Err(e@),
    }
}

/// What a sequence of items stands for.
pub open spec fn items_view(items: Seq<Result<Token, Error>>) -> Seq<Result<SpecToken, ErrorView>> {
    items.map_values(|item: Result<Token, Error>| item_view(item))
}

/// The tokens of a whole source.
pub open spec fn lex(src: Seq<char>) -> Seq<SpecToken> {
    lex_from(src, 0, 1).0
}

/// The errors met lexing a whole source.
pub open spec fn lex_errors(src: Seq<char>) -> Seq<ErrorView> {
    lex_from(src, 0, 1).1
}

/// Where the tokens of a whole source start.
pub open spec fn token_starts(src: Seq<char>) -> Seq<nat> {
    starts_from(src, 0, 1)
}

/// Whether a token's kind agrees with its text: a number carries the value
/// of its digits, an identifier its own text, a keyword is spelled as one.
pub open spec fn token_agrees(t: SpecToken) -> bool {
    &&& t.lexeme.len() > 0
    &&& match t.kind {
        Kind::Number(v) => v == digits_value(t.lexeme),
        Kind::Identifier(n) => n == t.lexeme && word_kind(n) == Kind::Identifier(n),
        Kind::Procedure => t.lexeme == "procedure"@,
        Kind::While => t.lexeme == "while"@,
        Kind::Eof => false,
        _ => true,
    }
}

proof fn lemma_scan_agrees(src: Seq<char>, i: nat, line: nat)
    requires
        i <= src.len(),
    ensures
        scan(src, i, line).token matches Some(t) ==> token_agrees(t),
    decreases src.len() - i,
{
    lemma_scan(src, i, line);
    if i < src.len() {
        let c = src[i as int];
        if c == '\n' {
            lemma_scan_agrees(src, i + 1, line + 1);
        } else if is_white_space(c) {
            lemma_scan_agrees(src, i + 1, line);
        } else if c == '/' && i + 1 < src.len() && src[i + 1int] == '/' {
            let j = run_end(src, i + 2, comment_char());
            lemma_run_end_bounds(src, i + 2, comment_char());
            lemma_scan_agrees(src, j, line);
        } else if c == '!' && !(i + 1 < src.len() && src[i + 1int] == '=') {
            lemma_scan_agrees(src, i + 1, line);
        } else if c == '/' {
            lemma_scan_agrees(src, i + 1, line);
        } else if is_digit_char(c) {
            lemma_run_end_bounds(src, i + 1, number_char());
        } else if is_letter_char(c) {
            lemma_run_end_bounds(src, i + 1, word_char());
        } else if !(c == '+' || c == '-' || c == '<' || c == ';' || c == '{' || c == '}' || c
            == '!') {
            lemma_scan_agrees(src, i + 1, line);
        }
    }
}

proof fn lemma_lex_from_laws(src: Seq<char>, i: nat, line: nat)
    requires
        i <= src.len(),
    ensures
        ({
            let ts = lex_from(src, i, line).0;
            let ps = starts_from(src, i, line);
            &&& ps.len() == ts.len()
            &&& ts.len() <= src.len() - i
            &&& forall|k: int| 0 <= k < ts.len() ==> token_agrees(#[trigger] ts[k])
            &&& forall|k: int|
                0 <= k < ts.len() ==> i <= #[trigger] ps[k] && ps[k] + ts[k].lexeme.len()
                    <= src.len() && ts[k].lexeme == src.subrange(
                    ps[k] as int,
                    (ps[k] + ts[k].lexeme.len()) as int,
                ) && ts[k].line == line + newlines(src.subrange(i as int, ps[k] as int))
            &&& forall|k1: int, k2: int|
                0 <= k1 < k2 < ts.len() ==> #[trigger] ps[k1] + ts[k1].lexeme.len() <= #[trigger] ps[k2]
        }),
    decreases src.len() - i,
{
    lemma_scan(src, i, line);
    lemma_scan_agrees(src, i, line);
    let s = scan(src, i, line);
    if let Some(t) = s.token {
        lemma_lex_from_laws(src, s.next, s.line);
        let ts = lex_from(src, i, line).0;
        let ps = starts_from(src, i, line);
        let rest = lex_from(src, s.next, s.line).0;
        let rps = starts_from(src, s.next, s.line);
        assert(ts == seq![t] + rest);
        assert(ps == seq![s.start] + rps);
        assert forall|k: int| 0 <= k < ts.len() implies token_agrees(#[trigger] ts[k]) by {
            if k > 0 {
                assert(ts[k] == rest[k - 1]);
            }
        }
        assert forall|k: int| 0 <= k < ts.len() implies i <= #[trigger] ps[k] && ps[k]
            + ts[k].lexeme.len() <= src.len() && ts[k].lexeme == src.subrange(
            ps[k] as int,
            (ps[k] + ts[k].lexeme.len()) as int,
        ) && ts[k].line == line + newlines(src.subrange(i as int, ps[k] as int)) by {
            if k > 0 {
                assert(ts[k] == rest[k - 1]);
                assert(ps[k] == rps[k - 1]);
                let p = rps[k - 1];
                lemma_newlines_append(
                    src.subrange(i as int, s.next as int),
                    src.subrange(s.next as int, p as int),
                );
                assert(src.subrange(i as int, s.next as int) + src.subrange(s.next as int, p as int)
                    == src.subrange(i as int, p as int));
                lemma_newlines_append(
                    src.subrange(i as int, s.start as int),
                    src.subrange(s.start as int, s.next as int),
                );
                assert(src.subrange(i as int, s.start as int) + src.subrange(
                    s.start as int,
                    s.next as int,
                ) == src.subrange(i as int, s.next as int));
                // the token itself holds no line break
                assert(newlines(src.subrange(s.start as int, s.next as int)) == 0) by {
                    lemma_token_no_newline(src, i, line);
                }
            } else {
                assert(ts[0] == t && ps[0] == s.start);
            }
        }
        assert forall|k1: int, k2: int| 0 <= k1 < k2 < ts.len() implies #[trigger] ps[k1]
            + ts[k1].lexeme.len() <= #[trigger] ps[k2] by {
            assert(ps[k2] == rps[k2 - 1]);
            if k1 > 0 {
                assert(ps[k1] == rps[k1 - 1]);
                assert(ts[k1] == rest[k1 - 1]);
            } else {
                assert(ts[0] == t && ps[0] == s.start);
            }
        }
    } else {
        assert(lex_from(src, i, line).0 == Seq::<SpecToken>::empty());
    }
}

proof fn lemma_token_no_newline(src: Seq<char>, i: nat, line: nat)
    requires
        i <= src.len(),
        scan(src, i, line).token is Some,
    ensures
        newlines(src.subrange(scan(src, i, line).start as int, scan(src, i, line).next as int)) == 0,
    decreases src.len() - i,
{
    lemma_scan(src, i, line);
    let s = scan(src, i, line);
    let t = s.token->0;
    lemma_scan_agrees(src, i, line);
    let lx = src.subrange(s.start as int, s.next as int);
    assert forall|k: int| 0 <= k < lx.len() implies lx[k] != '\n' by {
        lemma_token_chars(src, i, line, k);
    }
    lemma_no_newlines(lx);
}

proof fn lemma_token_chars(src: Seq<char>, i: nat, line: nat, k: int)
    requires
        i <= src.len(),
        scan(src, i, line).token is Some,
        0 <= k < scan(src, i, line).next - scan(src, i, line).start,
    ensures
        src[scan(src, i, line).start + k] != '\n',
    decreases src.len() - i,
{
    lemma_scan(src, i, line);
    if i < src.len() {
        let c = src[i as int];
        if c == '\n' {
            lemma_token_chars(src, i + 1, line + 1, k);
        } else if is_white_space(c) {
            lemma_token_chars(src, i + 1, line, k);
        } else if c == '/' && i + 1 < src.len() && src[i + 1int] == '/' {
            let j = run_end(src, i + 2, comment_char());
            lemma_run_end_bounds(src, i + 2, comment_char());
            lemma_token_chars(src, j, line, k);
        } else if c == '!' && !(i + 1 < src.len() && src[i + 1int] == '=') {
            lemma_token_chars(src, i + 1, line, k);
        } else if c == '/' {
            lemma_token_chars(src, i + 1, line, k);
        } else if is_digit_char(c) {
            lemma_run_end_bounds(src, i + 1, number_char());
            if k > 0 {
                assert(number_char()(src[i + k]));
            }
        } else if is_letter_char(c) {
            lemma_run_end_bounds(src, i + 1, word_char());
            if k > 0 {
                assert(word_char()(src[i + k]));
            }
        } else if !(c == '+' || c == '-' || c == '<' || c == ';' || c == '{' || c == '}' || c
            == '!') {
            lemma_token_chars(src, i + 1, line, k);
        }
    }
}

/// The tokens of every source agree with their text, which is the piece of
/// the source where they start; there are no more of them than characters;
/// they come in the order of the source, without overlapping; and each
/// token's line is one more than the number of line breaks before it.
pub proof fn lemma_lex_laws(src: Seq<char>)
    ensures
        token_starts(src).len() == lex(src).len(),
        lex(src).len() <= src.len(),
        forall|k: int| 0 <= k < lex(src).len() ==> token_agrees(#[trigger] lex(src)[k]),
        forall|k: int|
            0 <= k < lex(src).len() ==> #[trigger] token_starts(src)[k] + lex(src)[k].lexeme.len()
                <= src.len() && lex(src)[k].lexeme == src.subrange(
                token_starts(src)[k] as int,
                (token_starts(src)[k] + lex(src)[k].lexeme.len()) as int,
            ) && lex(src)[k].line == 1 + newlines(src.take(token_starts(src)[k] as int)),
        forall|k1: int, k2: int|
            0 <= k1 < k2 < lex(src).len() ==> #[trigger] token_starts(src)[k1] + lex(
                src,
            )[k1].lexeme.len() <= #[trigger] token_starts(src)[k2],
{
    lemma_lex_from_laws(src, 0, 1);
    assert forall|k: int| 0 <= k < lex(src).len() implies #[trigger] token_starts(src)[k]
        + lex(src)[k].lexeme.len() <= src.len() && lex(src)[k].lexeme == src.subrange(
        token_starts(src)[k] as int,
        (token_starts(src)[k] + lex(src)[k].lexeme.len()) as int,
    ) && lex(src)[k].line == 1 + newlines(src.take(token_starts(src)[k] as int)) by {
        assert(src.subrange(0, token_starts(src)[k] as int) == src.take(token_starts(src)[k] as int));
    }
}

/// Whether `e` is an unknown symbol met at some position from `from` up to
/// `to` (not included), on the line of that position.
pub open spec fn unknown_symbol_at(src: Seq<char>, e: ErrorView, from: nat, to: nat) -> bool {
    exists|p: nat|
        #![trigger src.take(p as int)]
        from <= p < to && e == ErrorView::UnknownSymbol(1 + newlines(src.take(p as int)))
}

/// The lines of a step that starts on the line of its position: it ends on
/// the line of the position it reaches, and each error it meets is an
/// unknown symbol on the line of a position before its token.
pub proof fn lemma_scan_lines(src: Seq<char>, i: nat, line: nat)
    requires
        i <= src.len(),
        line == 1 + newlines(src.take(i as int)),
    ensures
        scan(src, i, line).line == 1 + newlines(src.take(scan(src, i, line).next as int)),
        forall|k: int|
            0 <= k < scan(src, i, line).errors.len() ==> unknown_symbol_at(
                src,
                #[trigger] scan(src, i, line).errors[k],
                i,
                scan(src, i, line).start,
            ),
    decreases src.len() - i,
{
    lemma_scan(src, i, line);
    let s = scan(src, i, line);
    if i < src.len() {
        let c = src[i as int];
        assert(src.take(i + 1int).drop_last() == src.take(i as int));
        assert(newlines(src.take(i + 1int)) == newlines(src.take(i as int)) + if c == '\n' {
            1nat
        } else {
            0nat
        });
        if c == '\n' || is_white_space(c) {
            let l2 = if c == '\n' { line + 1 } else { line };
            lemma_scan_lines(src, i + 1, l2);
            let t = scan(src, i + 1, l2);
            assert forall|k: int| 0 <= k < s.errors.len() implies unknown_symbol_at(
                src,
                #[trigger] s.errors[k],
                i,
                s.start,
            ) by {
                assert(unknown_symbol_at(src, t.errors[k], i + 1, t.start));
                let p = choose|p: nat|
                    #![trigger src.take(p as int)]
                    i + 1 <= p < t.start && t.errors[k] == ErrorView::UnknownSymbol(
                        1 + newlines(src.take(p as int)),
                    );
                assert(src.take(p as int) == src.take(p as int));
            }
        } else if !(c == '+' || c == '-' || c == '<' || c == ';' || c == '{' || c == '}') && ((c
            == '!' && !(i + 1 < src.len() && src[i + 1int] == '=')) || (c == '/' && !(i + 1
            < src.len() && src[i + 1int] == '/')) || (c != '!' && c != '/' && !is_digit_char(c)
            && !is_letter_char(c))) {
            lemma_scan_lines(src, i + 1, line);
            lemma_scan(src, i + 1, line);
            let t = scan(src, i + 1, line);
            assert(s.errors == seq![ErrorView::UnknownSymbol(line)] + t.errors);
            assert(s.start == t.start);
            assert forall|k: int| 0 <= k < s.errors.len() implies unknown_symbol_at(
                src,
                #[trigger] s.errors[k],
                i,
                s.start,
            ) by {
                if k == 0 {
                    assert(src.take(i as int) == src.take(i as int));
                } else {
                    assert(s.errors[k] == t.errors[k - 1]);
                    assert(unknown_symbol_at(src, t.errors[k - 1], i + 1, t.start));
                    let p = choose|p: nat|
                        #![trigger src.take(p as int)]
                        i + 1 <= p < t.start && t.errors[k - 1] == ErrorView::UnknownSymbol(
                            1 + newlines(src.take(p as int)),
                        );
                    assert(src.take(p as int) == src.take(p as int));
                }
            }
        } else if c == '/' && i + 1 < src.len() && src[i + 1int] == '/' {
            let j = run_end(src, i + 2, comment_char());
            lemma_run_end_bounds(src, i + 2, comment_char());
            let comment = src.subrange(i as int, j as int);
            assert(newlines(comment) == 0) by {
                assert forall|k: int| 0 <= k < comment.len() implies comment[k] != '\n' by {
                    if k >= 2 {
                        assert(comment[k] == src[i + k]);
                        assert(comment_char()(src[i + k]));
                    }
                }
                lemma_no_newlines(comment);
            }
            lemma_newlines_append(src.take(i as int), comment);
            assert(src.take(i as int) + comment == src.take(j as int));
            lemma_scan_lines(src, j, line);
        } else if s.token is Some {
            lemma_token_no_newline(src, i, line);
            assert(s.start == i);
            lemma_newlines_append(src.take(i as int), src.subrange(i as int, s.next as int));
            assert(src.take(i as int) + src.subrange(i as int, s.next as int) == src.take(
                s.next as int,
            ));
        }
    }
}

/// The lines of a whole step: it ends on the line of the position it
/// reaches, and each error it meets is an unknown symbol on the line of a
/// position it passes.
pub proof fn lemma_step_lines(src: Seq<char>, i: nat, line: nat)
    requires
        i <= src.len(),
        line == 1 + newlines(src.take(i as int)),
    ensures
        scan(src, i, line).line == 1 + newlines(src.take(scan(src, i, line).next as int)),
        forall|k: int|
            0 <= k < scan(src, i, line).errors.len() ==> unknown_symbol_at(
                src,
                #[trigger] scan(src, i, line).errors[k],
                i,
                scan(src, i, line).next,
            ),
{
    lemma_scan(src, i, line);
    lemma_scan_lines(src, i, line);
    let s = scan(src, i, line);
    assert forall|k: int| 0 <= k < s.errors.len() implies unknown_symbol_at(
        src,
        #[trigger] s.errors[k],
        i,
        s.next,
    ) by {
        assert(unknown_symbol_at(src, s.errors[k], i, s.start));
        let p = choose|p: nat|
            #![trigger src.take(p as int)]
            i <= p < s.start && s.errors[k] == ErrorView::UnknownSymbol(
                1 + newlines(src.take(p as int)),
            );
        assert(src.take(p as int) == src.take(p as int));
    }
}

/// The tokens among some items, in order.
pub open spec fn item_tokens(items: Seq<Result<SpecToken, ErrorView>>) -> Seq<SpecToken>
    decreases items.len(),
{
    if items.len() == 0 {
        Seq::empty()
    } else {
        let rest = item_tokens(items.drop_last());
        match items.last() {
            Ok(t) => rest.push(t),
            Err(_) => rest,
        }
    }
}

/// The errors among some items, in order.
pub open spec fn item_errors(items: Seq<Result<SpecToken, ErrorView>>) -> Seq<ErrorView>
    decreases items.len(),
{
    if items.len() == 0 {
        Seq::empty()
    } else {
        let rest = item_errors(items.drop_last());
        match items.last() {
            Ok(_) => rest,
            Err(e) => rest.push(e),
        }
    }
}

proof fn lemma_item_parts_append(a: Seq<Result<SpecToken, ErrorView>>, b: Seq<Result<SpecToken, ErrorView>>)
    ensures
        item_tokens(a + b) == item_tokens(a) + item_tokens(b),
        item_errors(a + b) == item_errors(a) + item_errors(b),
    decreases b.len(),
{
    if b.len() == 0 {
        assert(a + b == a);
        assert(item_tokens(a) + Seq::<SpecToken>::empty() == item_tokens(a));
        assert(item_errors(a) + Seq::<ErrorView>::empty() == item_errors(a));
    } else {
        lemma_item_parts_append(a, b.drop_last());
        assert((a + b).drop_last() == a + b.drop_last());
        assert((a + b).last() == b.last());
    }
}

proof fn lemma_error_items_parts(es: Seq<ErrorView>)
    ensures
        item_tokens(error_items(es)) == Seq::<SpecToken>::empty(),
        item_errors(error_items(es)) == es,
    decreases es.len(),
{
    if es.len() > 0 {
        lemma_error_items_parts(es.drop_last());
        assert(error_items(es).drop_last() == error_items(es.drop_last()));
        assert(es.drop_last().push(es.last()) == es);
    }
}

proof fn lemma_items_split_from(src: Seq<char>, i: nat, line: nat)
    requires
        i <= src.len(),
    ensures
        item_tokens(lex_items(src, i, line)) == lex_from(src, i, line).0,
        item_errors(lex_items(src, i, line)) == lex_from(src, i, line).1,
    decreases src.len() - i,
{
    lemma_scan(src, i, line);
    let s = scan(src, i, line);
    lemma_error_items_parts(s.errors);
    if let Some(t) = s.token {
        lemma_items_split_from(src, s.next, s.line);
        let one = seq![Ok::<SpecToken, ErrorView>(t)];
        let rest = lex_items(src, s.next, s.line);
        lemma_item_parts_append(error_items(s.errors), one);
        lemma_item_parts_append(error_items(s.errors) + one, rest);
        assert(one.drop_last() == Seq::<Result<SpecToken, ErrorView>>::empty());
        assert(item_tokens(one.drop_last()) == Seq::<SpecToken>::empty());
        assert(item_errors(one.drop_last()) == Seq::<ErrorView>::empty());
        assert(one.last() == Ok::<SpecToken, ErrorView>(t));
        assert(Seq::<SpecToken>::empty().push(t) == seq![t]);
        assert(item_tokens(one) == seq![t]);
        assert(item_errors(one) == Seq::<ErrorView>::empty());
        assert(Seq::<SpecToken>::empty() + seq![t] == seq![t]);
        assert(s.errors + Seq::<ErrorView>::empty() == s.errors);
    }
}

/// Whether a character is an ASCII letter, `A` to `Z` or `a` to `z`.
pub open spec fn ascii_letter(c: char) -> bool {
    ('A' <= c && c <= 'Z') || ('a' <= c && c <= 'z')
}

/// A word is one token: a source that starts with an ASCII letter (upper or
/// lower case) and goes on with ASCII letters, digits and underscores lexes
/// to exactly one token, on line 1, whose text is the whole source: the
/// keyword `procedure` or `while` where it is spelled so, else an identifier
/// named by the whole source; and no error is met.
pub proof fn lemma_word_token(src: Seq<char>)
    requires
        src.len() > 0,
        ascii_letter(src[0]),
        forall|k: int|
            0 <= k < src.len() ==> ascii_letter(#[trigger] src[k]) || ('0' <= src[k] && src[k]
                <= '9') || src[k] == '_',
    ensures
        lex(src) == seq![
            SpecToken {
                kind: if src == "procedure"@ {
                    Kind::Procedure
                } else if src == "while"@ {
                    Kind::While
                } else {
                    Kind::Identifier(src)
                },
                lexeme: src,
                line: 1,
            },
        ],
        lex_errors(src) == Seq::<ErrorView>::empty(),
{
    lemma_run_end_exact(src, 1, src.len(), word_char());
    assert(src.subrange(0, src.len() as int) == src);
    let s = scan(src, 0, 1);
    assert(s.next == src.len());
    assert(s.token == Some(SpecToken { kind: word_kind(src), lexeme: src, line: 1 }));
    assert(scan(src, src.len(), 1).token is None);
    assert(lex_from(src, src.len(), 1) == (Seq::<SpecToken>::empty(), Seq::<ErrorView>::empty()));
    assert(seq![SpecToken { kind: word_kind(src), lexeme: src, line: 1 }] + Seq::<SpecToken>::empty()
        == seq![SpecToken { kind: word_kind(src), lexeme: src, line: 1 }]);
    assert(Seq::<ErrorView>::empty() + Seq::<ErrorView>::empty() == Seq::<ErrorView>::empty());
}

/// Whether a character may go on a word: an ASCII letter, an ASCII digit or
/// an underscore.
pub open spec fn ascii_word(c: char) -> bool {
    ascii_letter(c) || ('0' <= c && c <= '9') || c == '_'
}

/// A single-character symbol is one token of its own kind, whose text is that
/// character, on the current line; nothing else is taken.
pub proof fn lemma_symbol_step(src: Seq<char>, i: nat, line: nat)
    requires
        i < src.len(),
        src[i as int] == '+' || src[i as int] == '-' || src[i as int] == '<' || src[i as int]
            == ';' || src[i as int] == '{' || src[i as int] == '}',
    ensures
        scan(src, i, line) == (Step {
            token: Some(
                SpecToken {
                    kind: if src[i as int] == '+' {
                        Kind::Plus
                    } else if src[i as int] == '-' {
                        Kind::Minus
                    } else if src[i as int] == '<' {
                        Kind::LArrow
                    } else if src[i as int] == ';' {
                        Kind::Semicolon
                    } else if src[i as int] == '{' {
                        Kind::LBracket
                    } else {
                        Kind::RBracket
                    },
                    lexeme: seq![src[i as int]],
                    line,
                },
            ),
            start: i,
            next: i + 1,
            line,
            errors: Seq::empty(),
        }),
{
    assert(src.subrange(i as int, i + 1int) == seq![src[i as int]]);
}

/// `!=` is one token; a `!` that no `=` follows is an unknown symbol on the
/// current line, after which the lexer goes on with the next character.
pub proof fn lemma_bang_step(src: Seq<char>, i: nat, line: nat)
    requires
        i < src.len(),
        src[i as int] == '!',
    ensures
        i + 1 < src.len() && src[i + 1int] == '=' ==> scan(src, i, line) == (Step {
            token: Some(SpecToken { kind: Kind::NEqual, lexeme: seq!['!', '='], line }),
            start: i,
            next: i + 2,
            line,
            errors: Seq::empty(),
        }),
        !(i + 1 < src.len() && src[i + 1int] == '=') ==> scan(src, i, line) == (Step {
            errors: seq![ErrorView::UnknownSymbol(line)] + scan(src, i + 1, line).errors,
            ..scan(src, i + 1, line)
        }),
{
    if i + 1 < src.len() && src[i + 1int] == '=' {
        assert(src.subrange(i as int, i + 2int) == seq!['!', '=']);
    }
}

/// A character that starts no token, no comment and no white space is an
/// unknown symbol on the current line, after which the lexer goes on with
/// the next character.
pub proof fn lemma_unknown_step(src: Seq<char>, i: nat, line: nat)
    requires
        i < src.len(),
        !is_white_space(src[i as int]),
        !ascii_word(src[i as int]) || src[i as int] == '_',
        !(src[i as int] == '+' || src[i as int] == '-' || src[i as int] == '<' || src[i as int]
            == ';' || src[i as int] == '{' || src[i as int] == '}' || src[i as int] == '!'
            || src[i as int] == '/' || src[i as int] == '\n'),
    ensures
        scan(src, i, line) == (Step {
            errors: seq![ErrorView::UnknownSymbol(line)] + scan(src, i + 1, line).errors,
            ..scan(src, i + 1, line)
        }),
{
}

/// White space (spaces, tabs and carriage returns among it) is skipped; a
/// line break counts one line more.
pub proof fn lemma_space_step(src: Seq<char>, i: nat, line: nat)
    requires
        i < src.len(),
        src[i as int] == '\n' || src[i as int] == ' ' || src[i as int] == '\t' || src[i as int]
            == '\r' || is_white_space(src[i as int]),
    ensures
        scan(src, i, line) == scan(
            src,
            i + 1,
            if src[i as int] == '\n' {
                line + 1
            } else {
                line
            },
        ),
{
}

/// A comment runs from `//` up to the next line break, which it leaves, or
/// to the end of the source, and is skipped.
pub proof fn lemma_comment_step(src: Seq<char>, i: nat, j: nat, line: nat)
    requires
        i + 2 <= j <= src.len(),
        src[i as int] == '/',
        src[i + 1int] == '/',
        forall|k: int| i + 2 <= k < j ==> #[trigger] src[k] != '\n',
        j < src.len() ==> src[j as int] == '\n',
    ensures
        scan(src, i, line) == scan(src, j, line),
{
    lemma_run_end_exact(src, i + 2, j, comment_char());
}

/// A word anywhere in the source is one token: from an ASCII letter up to
/// the first character that is no ASCII letter, digit or underscore, on the
/// current line, with no error; a keyword where it is spelled as one, else
/// an identifier named by its text.
pub proof fn lemma_word_step(src: Seq<char>, i: nat, j: nat, line: nat)
    requires
        i < j <= src.len(),
        ascii_letter(src[i as int]),
        forall|k: int| i <= k < j ==> ascii_word(#[trigger] src[k]),
        j < src.len() ==> !ascii_word(src[j as int]),
    ensures
        scan(src, i, line) == (Step {
            token: Some(
                SpecToken {
                    kind: if src.subrange(i as int, j as int) == "procedure"@ {
                        Kind::Procedure
                    } else if src.subrange(i as int, j as int) == "while"@ {
                        Kind::While
                    } else {
                        Kind::Identifier(src.subrange(i as int, j as int))
                    },
                    lexeme: src.subrange(i as int, j as int),
                    line,
                },
            ),
            start: i,
            next: j,
            line,
            errors: Seq::empty(),
        }),
{
    lemma_run_end_exact(src, i + 1, j, word_char());
}

/// A number anywhere in the source is one token: the longest run of ASCII
/// digits from there, on the current line, with no error, whose value is
/// the number those digits write.
pub proof fn lemma_number_step(src: Seq<char>, i: nat, j: nat, line: nat)
    requires
        i < j <= src.len(),
        forall|k: int| i <= k < j ==> '0' <= #[trigger] src[k] && src[k] <= '9',
        j < src.len() ==> !('0' <= src[j as int] && src[j as int] <= '9'),
    ensures
        scan(src, i, line) == (Step {
            token: Some(
                SpecToken {
                    kind: Kind::Number(digits_value(src.subrange(i as int, j as int))),
                    lexeme: src.subrange(i as int, j as int),
                    line,
                },
            ),
            start: i,
            next: j,
            line,
            errors: Seq::empty(),
        }),
{
    lemma_run_end_exact(src, i + 1, j, number_char());
}

/// A run of ASCII digits is one number token, on line 1, whose text is the
/// whole source and whose value is the number those digits write; no error
/// is met.
pub proof fn lemma_number_token(src: Seq<char>)
    requires
        src.len() > 0,
        forall|k: int| 0 <= k < src.len() ==> '0' <= #[trigger] src[k] && src[k] <= '9',
    ensures
        lex(src) == seq![SpecToken { kind: Kind::Number(digits_value(src)), lexeme: src, line: 1 }],
        lex_errors(src) == Seq::<ErrorView>::empty(),
        forall|n: nat| src == decimal_repr(n) ==> lex(src)[0].kind == Kind::Number(n),
{
    lemma_run_end_exact(src, 1, src.len(), number_char());
    assert(src.subrange(0, src.len() as int) == src);
    let t = SpecToken { kind: Kind::Number(digits_value(src)), lexeme: src, line: 1 };
    let s = scan(src, 0, 1);
    assert(s.next == src.len());
    assert(s.token == Some(t));
    assert(scan(src, src.len(), 1).token is None);
    assert(lex_from(src, src.len(), 1) == (Seq::<SpecToken>::empty(), Seq::<ErrorView>::empty()));
    assert(seq![t] + Seq::<SpecToken>::empty() == seq![t]);
    assert(Seq::<ErrorView>::empty() + Seq::<ErrorView>::empty() == Seq::<ErrorView>::empty());
    assert forall|n: nat| src == decimal_repr(n) implies lex(src)[0].kind == Kind::Number(n) by {
        lemma_decimal_roundtrip(n);
    }
}

/// The items of a source are its tokens and its lexing errors, each in the
/// order of the source.
pub proof fn lemma_items_split(src: Seq<char>)
    ensures
        item_tokens(lex_items(src, 0, 1)) == lex(src),
        item_errors(lex_items(src, 0, 1)) == lex_errors(src),
{
    lemma_items_split_from(src, 0, 1);
}

/// Whether an item, where it is a token, agrees with its text.
pub open spec fn item_agrees(item: Result<SpecToken, ErrorView>) -> bool {
    match item {
        Ok(t) => token_agrees(t),
        Err(_) => true,
    }
}

/// Every token among the items from position `i` on agrees with its text;
/// in particular none is an end-of-file token.
pub proof fn lemma_items_agree(src: Seq<char>, i: nat, line: nat)
    requires
        i <= src.len(),
    ensures
        forall|k: int|
            0 <= k < lex_items(src, i, line).len() ==> item_agrees(
                #[trigger] lex_items(src, i, line)[k],
            ),
    decreases src.len() - i,
{
    lemma_scan(src, i, line);
    lemma_scan_agrees(src, i, line);
    let s = scan(src, i, line);
    let es = error_items(s.errors);
    let all = lex_items(src, i, line);
    if let Some(t) = s.token {
        lemma_items_agree(src, s.next, s.line);
        let rest = lex_items(src, s.next, s.line);
        assert(all == es + seq![Ok::<SpecToken, ErrorView>(t)] + rest);
        assert forall|k: int| 0 <= k < all.len() implies item_agrees(#[trigger] all[k]) by {
            if k < es.len() {
                assert(all[k] == es[k]);
            } else if k == es.len() {
                assert(all[k] == Ok::<SpecToken, ErrorView>(t));
            } else {
                assert(all[k] == rest[k - es.len() - 1]);
            }
        }
    } else {
        assert forall|k: int| 0 <= k < all.len() implies item_agrees(#[trigger] all[k]) by {
            assert(all[k] == es[k]);
        }
    }
}

impl TokenType {
    /// A copy of the token type.
    pub fn duplicate(&self) -> (r: TokenType)
        ensures
            r@ == self@,
    {
        match self {
            TokenType::PLUS => TokenType::PLUS,
            TokenType::MINUS => TokenType::MINUS,
            TokenType::LARROW => TokenType::LARROW,
            TokenType::SEMICOLON => TokenType::SEMICOLON,
            TokenType::LBRACKET => TokenType::LBRACKET,
            TokenType::RBRACKET => TokenType::RBRACKET,
            TokenType::NEQUAL => TokenType::NEQUAL,
            TokenType::IDENTIFIER(s) => TokenType::IDENTIFIER(s.clone()),
            TokenType::NUMBER(n) => TokenType::NUMBER(n.duplicate()),
            TokenType::PROCEDURE => TokenType::PROCEDURE,
            TokenType::WHILE => TokenType::WHILE,
            TokenType::EOF => TokenType::EOF,
        }
    }
}

impl TokenPos {
    /// A copy of the position.
    pub fn duplicate(&self) -> (r: TokenPos)
        ensures
            r@ == self@,
    {
        TokenPos { lexeme: self.lexeme.clone(), line: self.line }
    }
}

impl Token {
    /// A copy of the token.
    pub fn duplicate(&self) -> (r: Token)
        ensures
            r@ == self@,
            r.pos.line == self.pos.line,
    {
        Token { typ: self.typ.duplicate(), pos: self.pos.duplicate() }
    }
}

fn is_whitespace(c: char) -> (r: bool)
    ensures
        r == is_white_space(c),
{
    ('\u{9}' <= c && c <= '\u{d}') || c == ' ' || c == '\u{85}' || c == '\u{a0}' || c == '\u{1680}'
        || ('\u{2000}' <= c && c <= '\u{200a}') || c == '\u{2028}' || c == '\u{2029}' || c
        == '\u{202f}' || c == '\u{205f}' || c == '\u{3000}'
}

fn len_utf8(c: char) -> (r: usize)
    ensures
        r == utf8_len(c),
{
    if '\u{80}' > c {
        1
    } else if '\u{800}' > c {
        2
    } else if '\u{10000}' > c {
        3
    } else {
        4
    }
}

fn is_not_newline(c: char) -> (r: bool)
    ensures
        r == (c != '\n'),
{
    c != '\n'
}

fn is_digit(c: char) -> (r: bool)
    ensures
        r == is_digit_char(c),
{
    '0' <= c && c <= '9'
}

fn is_letter(c: char) -> (r: bool)
    ensures
        r == is_letter_char(c),
{
    ('a' <= c && c <= 'z') || ('A' <= c && c <= 'Z')
}

fn is_word(c: char) -> (r: bool)
    ensures
        r == is_word_char(c),
{
    is_letter(c) || is_digit(c) || c == '_'
}

/// The lexer: the source, the position of the next character, the current
/// line, and the errors recorded so far.
pub struct Lexer {
    source: String,
    chars: Vec<char>,
    current: usize,
    line: usize,
    pub errors: Vec<Error>,
}

impl Lexer {
    /// The lexer's invariant.
    pub closed spec fn wf(&self) -> bool {
        &&& self.chars@ == self.source@
        &&& utf8_size(self.chars@) < usize::MAX
        &&& self.chars.len() < usize::MAX
        &&& self.current <= self.chars.len()
        &&& self.line <= self.current + 1
    }

    /// The source that the lexer reads.
    pub closed spec fn text(&self) -> Seq<char> {
        self.chars@
    }

    /// The position (in characters) of the next character.
    pub closed spec fn position(&self) -> nat {
        self.current as nat
    }

    /// The current line.
    pub closed spec fn current_line(&self) -> nat {
        self.line as nat
    }

    /// What the errors recorded so far stand for.
    pub closed spec fn recorded(&self) -> Seq<ErrorView> {
        errors_view(self.errors@)
    }

    /// Whether the current line is the line of the position: one more than
    /// the line breaks before it.
    pub open spec fn line_agrees(&self) -> bool {
        self.current_line() == 1 + newlines(self.text().take(self.position() as int))
    }

    /// The tokens that the lexer has still to hand out.
    pub closed spec fn pending(&self) -> Seq<SpecToken> {
        lex_from(self.chars@, self.current as nat, self.line as nat).0
    }

    /// The items that the lexer has still to meet: errors and tokens in order.
    pub closed spec fn pending_items(&self) -> Seq<Result<SpecToken, ErrorView>> {
        lex_items(self.chars@, self.current as nat, self.line as nat)
    }

    /// The line the lexer will stand on at the end of the source.
    pub closed spec fn pending_end_line(&self) -> nat {
        lex_end_line(self.chars@, self.current as nat, self.line as nat)
    }

    /// Every token among the items still to come agrees with its text; in
    /// particular none is an end-of-file token.
    pub proof fn lemma_pending_items_agree(&self)
        requires
            self.wf(),
        ensures
            forall|k: int|
                0 <= k < self.pending_items().len() ==> item_agrees(#[trigger] self.pending_items()[k]),
    {
        lemma_items_agree(self.chars@, self.current as nat, self.line as nat);
    }

    /// No more tokens are to come than characters are left, and at the end
    /// of the source nothing is: no token, no error, no other item.
    pub proof fn lemma_pending_bound(&self)
        requires
            self.wf(),
        ensures
            self.pending().len() <= self.text().len() - self.position(),
            self.position() == self.text().len() ==> {
                &&& self.pending().len() == 0
                &&& self.pending_errors().len() == 0
                &&& self.pending_items().len() == 0
                &&& self.pending_end_line() == self.current_line()
            },
    {
        lemma_lex_from_laws(self.chars@, self.current as nat, self.line as nat);
    }

    /// The current line.
    pub fn line_number(&self) -> (r: usize)
        ensures
            r == self.current_line(),
    {
        self.line
    }

    /// The errors that the lexer will still record.
    pub closed spec fn pending_errors(&self) -> Seq<ErrorView> {
        lex_from(self.chars@, self.current as nat, self.line as nat).1
    }

    /// What the invariant gives: the position lies within the source.
    pub proof fn lemma_wf(&self)
        requires
            self.wf(),
        ensures
            self.position() <= self.text().len(),
            self.text().len() < usize::MAX,
            self.current_line() <= self.position() + 1,
    {
    }

    /// Every token still to come agrees with its text; in particular none is
    /// an end-of-file token.
    pub proof fn lemma_pending_agree(&self)
        requires
            self.wf(),
        ensures
            forall|k: int| 0 <= k < self.pending().len() ==> token_agrees(#[trigger] self.pending()[k]),
    {
        lemma_lex_from_laws(self.chars@, self.current as nat, self.line as nat);
    }

    /// A lexer at the start of `s`: position 0, line 1, no error recorded.
    pub fn new(s: &str) -> (r: Lexer)
        requires
            utf8_size(s@) < usize::MAX,
        ensures
            r.wf(),
            r.text() == s@,
            r.position() == 0,
            r.current_line() == 1,
            r.recorded().len() == 0,
            r.pending() == lex(s@),
            r.pending_errors() == lex_errors(s@),
            r.pending_items() == lex_items(s@, 0, 1),
            r.pending_end_line() == lex_end_line(s@, 0, 1),
            r.line_agrees(),
    {
        proof {
            lemma_utf8_size_bounds(s@, 0, 0);
            assert(s@.take(0) == Seq::<char>::empty());
        }
        let source = s.to_owned();
        let mut chars: Vec<char> = Vec::new();
        for c in it: s.chars()
            invariant
                chars@ == it.seq().take(it.index()),
        {
            chars.push(c);
        }
        assert(chars@ == s@);
        Lexer { source, chars, current: 0, line: 1, errors: Vec::new() }
    }

    // A token of type `typ` whose text is the `diff` characters from character `start`.
    fn make_token(&self, typ: TokenType, start: usize, diff: usize) -> (r: Option<Token>)
        requires
            self.wf(),
            start + diff <= self.chars.len(),
        ensures
            r matches Some(t) && t.typ == typ && t.pos.line == self.line && t.pos.lexeme@
                == self.text().subrange(start as int, start + diff),
    {
        let lexeme = self.source.as_str().substring_char(start, start + diff).to_owned();
        Some(Token { typ, pos: TokenPos { lexeme, line: self.line } })
    }

    /// The next character, without taking it.
    pub fn peek(&self) -> (r: Option<char>)
        requires
            self.wf(),
        ensures
            r == (if self.position() < self.text().len() {
                Some(self.text()[self.position() as int])
            } else {
                None
            }),
    {
        if self.current < self.chars.len() {
            Some(self.chars[self.current])
        } else {
            None
        }
    }

    /// Takes the next character if it is `expect`, and gives its size in bytes.
    pub fn match_next(&mut self, expect: char) -> (r: Option<usize>)
        requires
            old(self).wf(),
        ensures
            final(self).wf(),
            final(self).text() == old(self).text(),
            final(self).current_line() == old(self).current_line(),
            final(self).recorded() == old(self).recorded(),
            old(self).position() < old(self).text().len() && old(self).text()[old(
                self,
            ).position() as int] == expect ==> (r matches Some(n) && n == utf8_len(expect)),
            old(self).position() < old(self).text().len() && old(self).text()[old(
                self,
            ).position() as int] == expect ==> final(self).position() == old(self).position() + 1,
            !(old(self).position() < old(self).text().len() && old(self).text()[old(
                self,
            ).position() as int] == expect) ==> r is None && final(self).position() == old(
                self,
            ).position(),
    {
        match self.peek() {
            Some(c) => {
                if c == expect {
                    self.current = self.current + 1;
                    Some(len_utf8(c))
                } else {
                    None
                }
            },
            None => None,
        }
    }

    /// Takes characters as long as `f` holds of them, and gives how many
    /// bytes they take.
    pub fn consume_while<F: Fn(char) -> bool>(&mut self, f: F) -> (r: usize)
        requires
            old(self).wf(),
            forall|c: char| f.requires((c,)),
        ensures
            final(self).wf(),
            final(self).text() == old(self).text(),
            final(self).current_line() == old(self).current_line(),
            final(self).recorded() == old(self).recorded(),
            old(self).position() <= final(self).position(),
            r == utf8_size(old(self).text().subrange(old(self).position() as int, final(self).position() as int)),
            forall|j: int|
                old(self).position() <= j < final(self).position() ==> f.ensures(
                    (#[trigger] final(self).text()[j],),
                    true,
                ),
            final(self).position() < final(self).text().len() ==> f.ensures(
                (final(self).text()[final(self).position() as int],),
                false,
            ),
    {
        let start = self.current;
        let mut byte_count: usize = 0;
        loop
            invariant
                self.wf(),
                self.chars == old(self).chars,
                self.source == old(self).source,
                self.line == old(self).line,
                self.errors == old(self).errors,
                start == old(self).current,
                start <= self.current,
                byte_count == utf8_size(self.chars@.subrange(start as int, self.current as int)),
                forall|c: char| f.requires((c,)),
                forall|j: int|
                    start <= j < self.current ==> f.ensures((#[trigger] self.chars@[j],), true),
            decreases self.chars.len() - self.current,
        {
            let next = match self.peek() {
                Some(next) => next,
                None => return byte_count,
            };
            if f(next) {
                proof {
                    let sub = self.chars@.subrange(start as int, self.current + 1);
                    assert(sub.drop_last() == self.chars@.subrange(start as int, self.current as int));
                    lemma_utf8_size_bounds(self.chars@, start as int, self.current + 1);
                }
                byte_count = byte_count + len_utf8(next);
                self.current = self.current + 1;
            } else {
                return byte_count;
            }
        }
    }

    #[verifier::loop_isolation(false)]
    #[verifier::rlimit(60)]
    #[verifier::spinoff_prover]
    /// Hands out the next token, recording an error for each character on
    /// the way that starts no token; `None` once the source is used up.
    pub fn next(&mut self) -> (r: Option<Token>)
        requires
            old(self).wf(),
        ensures
            final(self).wf(),
            final(self).text() == old(self).text(),
            ({
                let s = scan(old(self).text(), old(self).position(), old(self).current_line());
                &&& final(self).recorded() == old(self).recorded() + s.errors
                &&& final(self).position() == s.next
                &&& final(self).current_line() == s.line
                &&& (s.token matches Some(t) ==> (r matches Some(tok) && tok@ == t))
                &&& (s.token is None ==> r is None)
            }),
            old(self).pending().len() > 0 ==> (r matches Some(tok) && tok@ == old(
                self,
            ).pending()[0]),
            old(self).pending().len() == 0 ==> r is None,
            final(self).pending() == (if old(self).pending().len() > 0 {
                old(self).pending().drop_first()
            } else {
                old(self).pending()
            }),
            ({
                let fin = *final(self);
                old(self).recorded() + old(self).pending_errors() == fin.recorded() + fin.pending_errors()
            }),
            old(self).line_agrees() ==> final(self).line_agrees(),
            old(self).line_agrees() ==> forall|k: int|
                old(self).recorded().len() <= k < final(self).recorded().len() ==> unknown_symbol_at(
                    old(self).text(),
                    #[trigger] final(self).recorded()[k],
                    old(self).position(),
                    final(self).position(),
                ),
            r is None ==> final(self).position() == final(self).text().len(),
            old(self).position() == old(self).text().len() ==> {
                &&& r is None
                &&& final(self).position() == old(self).position()
                &&& final(self).current_line() == old(self).current_line()
                &&& final(self).recorded() == old(self).recorded()
            },
    {
        let ghost src = self.chars@;
        let ghost target = scan(src, self.current as nat, self.line as nat);
        let ghost e0 = errors_view(self.errors@);
        let ghost mut acc: Seq<ErrorView> = Seq::empty();
        proof {
            lemma_scan(src, self.current as nat, self.line as nat);
            if self.line_agrees() {
                lemma_step_lines(src, self.current as nat, self.line as nat);
            }
            assert(target.errors == acc + target.errors);
            let l = lex_from(src, self.current as nat, self.line as nat);
            match target.token {
                Some(t) => {
                    let rest = lex_from(src, target.next, target.line);
                    assert(l.0 == seq![t] + rest.0);
                    assert((seq![t] + rest.0).drop_first() == rest.0);
                    assert(l.1 == target.errors + rest.1);
                    assert(e0 + (target.errors + rest.1) == (e0 + target.errors) + rest.1);
                },
                None => {
                    assert(lex_from(src, target.next, target.line).0 == Seq::<SpecToken>::empty());
                    assert(lex_from(src, target.next, target.line).1 == Seq::<ErrorView>::empty());
                    assert(e0 + target.errors == (e0 + target.errors) + Seq::<ErrorView>::empty());
                },
            }
        }
        loop
            invariant
                self.wf(),
                self.chars@ == src,
                src == old(self).text(),
                e0 == old(self).recorded(),
                errors_view(self.errors@) == e0 + acc,
                ({
                    let s = scan(src, self.current as nat, self.line as nat);
                    &&& target.token == s.token
                    &&& target.next == s.next
                    &&& target.line == s.line
                    &&& target.errors == acc + s.errors
                }),
            decreases self.chars.len() - self.current,
        {
            proof {
                assert(acc + Seq::<ErrorView>::empty() == acc);
            }
            if self.current >= self.chars.len() {
                return None;
            }
            let start = self.current;
            let c = self.chars[start];
            self.current = start + 1;
            if c == '\n' {
                self.line = self.line + 1;
            } else if is_whitespace(c) {
            } else if c == '+' {
                return self.make_token(TokenType::PLUS, start, 1);
            } else if c == '-' {
                return self.make_token(TokenType::MINUS, start, 1);
            } else if c == '<' {
                return self.make_token(TokenType::LARROW, start, 1);
            } else if c == ';' {
                return self.make_token(TokenType::SEMICOLON, start, 1);
            } else if c == '{' {
                return self.make_token(TokenType::LBRACKET, start, 1);
            } else if c == '}' {
                return self.make_token(TokenType::RBRACKET, start, 1);
            } else if c == '!' {
                match self.match_next('=') {
                    Some(_) => {
                        return self.make_token(TokenType::NEQUAL, start, 2);
                    },
                    None => {
                        let ghost before = self.errors@;
                        self.errors.push(Error::UnknownSymbol(self.line));
                        proof {
                            assert(errors_view(self.errors@) == errors_view(before).push(
                                ErrorView::UnknownSymbol(self.line as nat),
                            ));
                            assert(acc + (seq![ErrorView::UnknownSymbol(self.line as nat)]
                                + scan(src, self.current as nat, self.line as nat).errors) == acc.push(
                                ErrorView::UnknownSymbol(self.line as nat),
                            ) + scan(src, self.current as nat, self.line as nat).errors);
                            acc = acc.push(ErrorView::UnknownSymbol(self.line as nat));
                        }
                    },
                }
            } else if c == '/' {
                match self.match_next('/') {
                    Some(_) => {
                        let ghost from = self.current;
                        self.consume_while(is_not_newline);
                        proof {
                            assert forall|j: int| from <= j < self.current implies #[trigger] comment_char()(src[j]) by {
                                assert(is_not_newline.ensures((self.text()[j],), true));
                            }
                            lemma_run_end_exact(src, from as nat, self.current as nat, comment_char());
                        }
                    },
                    None => {
                        let ghost before = self.errors@;
                        self.errors.push(Error::UnknownSymbol(self.line));
                        proof {
                            assert(errors_view(self.errors@) == errors_view(before).push(
                                ErrorView::UnknownSymbol(self.line as nat),
                            ));
                            assert(acc + (seq![ErrorView::UnknownSymbol(self.line as nat)]
                                + scan(src, self.current as nat, self.line as nat).errors) == acc.push(
                                ErrorView::UnknownSymbol(self.line as nat),
                            ) + scan(src, self.current as nat, self.line as nat).errors);
                            acc = acc.push(ErrorView::UnknownSymbol(self.line as nat));
                        }
                    },
                }
            } else if is_digit(c) {
                self.consume_while(is_digit);
                proof {
                    lemma_run_end_exact(src, (start + 1) as nat, self.current as nat, number_char());
                }
                let lexeme = self.source.as_str().substring_char(start, self.current).to_owned();
                let number = Natural::parse_decimal(lexeme.as_str());
                proof {
                    assert(lexeme@[0] == c);
                    assert(crate::natural::without_plus(lexeme@) == lexeme@);
                    assert forall|k: int| 0 <= k < lexeme@.len() implies is_digit_char(
                        #[trigger] lexeme@[k],
                    ) by {
                        if k > 0 {
                            assert(lexeme@[k] == src[start + k]);
                        }
                    }
                }
                return Some(
                    Token { typ: TokenType::NUMBER(number.unwrap()), pos: TokenPos { lexeme, line: self.line } },
                );
            } else if is_letter(c) {
                self.consume_while(is_word);
                proof {
                    assert forall|j: int| start + 1 <= j < self.current implies #[trigger] word_char()(src[j]) by {
                        assert(is_word.ensures((self.text()[j],), true));
                    }
                    lemma_run_end_exact(src, (start + 1) as nat, self.current as nat, word_char());
                }
                let lexeme = self.source.as_str().substring_char(start, self.current).to_owned();
                let typ = if lexeme == String::from_str("procedure") {
                    TokenType::PROCEDURE
                } else if lexeme == String::from_str("while") {
                    TokenType::WHILE
                } else {
                    TokenType::IDENTIFIER(lexeme.clone())
                };
                return Some(Token { typ, pos: TokenPos { lexeme, line: self.line } });
            } else {
                let ghost before = self.errors@;
                self.errors.push(Error::UnknownSymbol(self.line));
                proof {
                    assert(errors_view(self.errors@) == errors_view(before).push(
                        ErrorView::UnknownSymbol(self.line as nat),
                    ));
                    assert(acc + (seq![ErrorView::UnknownSymbol(self.line as nat)] + scan(
                        src,
                        self.current as nat,
                        self.line as nat,
                    ).errors) == acc.push(ErrorView::UnknownSymbol(self.line as nat)) + scan(
                        src,
                        self.current as nat,
                        self.line as nat,
                    ).errors);
                    acc = acc.push(ErrorView::UnknownSymbol(self.line as nat));
                }
            }
        }
    }
    /// Hands out every item that is left: the errors met and the tokens, in
    /// the order of the source. The lexer keeps recording its errors too.
    pub fn collect_items(&mut self) -> (r: Vec<Result<Token, Error>>)
        requires
            old(self).wf(),
        ensures
            final(self).wf(),
            final(self).text() == old(self).text(),
            items_view(r@) == old(self).pending_items(),
            final(self).current_line() == old(self).pending_end_line(),
            final(self).position() == final(self).text().len(),
    {
        let mut r: Vec<Result<Token, Error>> = Vec::new();
        loop
            invariant
                self.wf(),
                self.text() == old(self).text(),
                items_view(r@) + self.pending_items() == old(self).pending_items(),
                self.pending_end_line() == old(self).pending_end_line(),
            decreases self.text().len() - self.position(),
        {
            let ghost src = self.chars@;
            let ghost step = scan(src, self.current as nat, self.line as nat);
            let ghost base = items_view(r@);
            let ghost rest = self.pending_items();
            let ghost rec0 = self.recorded();
            proof {
                lemma_scan(src, self.current as nat, self.line as nat);
            }
            let k = self.errors.len();
            let t = self.next();
            let mut j: usize = k;
            proof {
                assert(step.errors.take(0) == Seq::<ErrorView>::empty());
                assert(error_items(Seq::<ErrorView>::empty()) == Seq::<Result<SpecToken, ErrorView>>::empty());
                assert(items_view(r@) == base + error_items(step.errors.take(0)));
            }
            while j < self.errors.len()
                invariant
                    self.wf(),
                    k == rec0.len(),
                    k <= j <= self.errors.len(),
                    errors_view(self.errors@) == rec0 + step.errors,
                    items_view(r@) == base + error_items(step.errors.take(j - k)),
                decreases self.errors.len() - j,
            {
                let e = self.errors[j].duplicate();
                let ghost prev = r@;
                r.push(Err(e));
                proof {
                    assert(errors_view(self.errors@)[j as int] == self.errors@[j as int]@);
                    assert(errors_view(self.errors@).len() == self.errors@.len());
                    assert(0 <= j - k < step.errors.len());
                    assert((rec0 + step.errors)[j as int] == step.errors[j - k]);
                    assert(step.errors[j - k] == e@);
                    assert(items_view(r@) == items_view(prev).push(Err(e@)));
                    assert(step.errors.take(j + 1 - k) == step.errors.take(j - k).push(e@));
                    assert(error_items(step.errors.take(j + 1 - k)) == error_items(step.errors.take(j - k)).push(Err(e@)));
                }
                j = j + 1;
            }
            proof {
                assert(step.errors.take(step.errors.len() as int) == step.errors);
            }
            match t {
                Some(tok) => {
                    let ghost prev = r@;
                    r.push(Ok(tok));
                    proof {
                        assert(items_view(r@) == items_view(prev).push(Ok(tok@)));
                        assert(rest == error_items(step.errors) + seq![Ok(tok@)] + self.pending_items());
                        assert(items_view(r@) + self.pending_items() == base + rest);
                    }
                },
                None => {
                    proof {
                        assert(rest == error_items(step.errors));
                    }
                    return r;
                },
            }
        }
    }
}

} // verus!
