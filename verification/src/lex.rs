//! The lexer: token and group types, the mathematical scanner they are
//! specified against, and the executable group scanner.
//!
//! The scanner walks the character sequence once, left to right. At each step
//! it either consumes the expected closing delimiter and ends the current
//! level, consumes whitespace, consumes one token, or opens a nested group
//! and recurses. The mathematical scanner [`scan_at`] fixes the result of
//! every step; the executable [`do_group`] and [`lex`] return exactly what it
//! says.

use crate::chars::{ident_continue_char, ident_start_char, numeric_char};
use crate::error::{Error, ErrorV};
use crate::span::{pos_le, pos_lt, pos_next_col, pos_prev_col, Pos, PosV, Span, SpanV};
use vstd::prelude::*;

verus! {

/// The lexical class of a token.
#[derive(Clone, Copy, Debug, PartialEq, Eq, Structural)]
pub enum TokenType {
    Comment,
    Id,
    Num,
    Punct,
    String,
}

/// One token: its class and its captured text. For a string literal the body
/// is the content between the quotes, without the quotes.
#[derive(Debug, PartialEq, Eq)]
pub struct Token {
    pub ty: TokenType,
    pub body: Vec<char>,
}

/// The kind of a bracket group: `()`, `[]` or `{}`.
#[derive(Clone, Copy, Debug, PartialEq, Eq, Structural)]
pub enum GroupType {
    Paren,
    Bracket,
    Brace,
}

/// A bracket group: its kind and the lexemes nested inside it, excluding the
/// delimiter characters themselves.
#[derive(Debug, PartialEq, Eq)]
pub struct Group {
    pub ty: GroupType,
    pub body: Vec<Lexeme>,
}

/// Either a token or a group.
#[derive(Debug, PartialEq, Eq)]
pub enum LexemeBody {
    Token(Token),
    Group(Group),
}

/// A token or group together with its span. For a token the span ends one
/// past the last consumed character; for a group, one past the closing
/// delimiter.
#[derive(Debug, PartialEq, Eq)]
pub struct Lexeme {
    pub span: Span,
    pub body: LexemeBody,
}

/// Mathematical value of a [`Lexeme`]: the same tree over `Seq`.
#[allow(inconsistent_fields)]
pub enum LexemeV {
    Token { span: SpanV, ty: TokenType, body: Seq<char> },
    Group { span: SpanV, ty: GroupType, children: Seq<LexemeV> },
}

/// The span of a lexeme value.
pub open spec fn span_of(l: LexemeV) -> SpanV {
    match l {
        LexemeV::Token { span, .. } => span,
        LexemeV::Group { span, .. } => span,
    }
}

/// Where a lexeme value starts.
pub open spec fn start_of(l: LexemeV) -> PosV {
    span_of(l).start
}

/// One past where a lexeme value ends.
pub open spec fn end_of(l: LexemeV) -> PosV {
    span_of(l).end
}

/// Mathematical value of one lexeme.
pub open spec fn lexeme_view(l: Lexeme) -> LexemeV
    decreases l,
{
    match l.body {
        LexemeBody::Token(t) => LexemeV::Token { span: l.span@, ty: t.ty, body: t.body@ },
        LexemeBody::Group(g) => LexemeV::Group {
            span: l.span@,
            ty: g.ty,
            children: lexemes_view(g.body@),
        },
    }
}

/// Mathematical value of a sibling sequence of lexemes.
pub open spec fn lexemes_view(ls: Seq<Lexeme>) -> Seq<LexemeV>
    decreases ls,
{
    if ls.len() == 0 {
        Seq::empty()
    } else {
        seq![lexeme_view(ls[0])] + lexemes_view(ls.subrange(1, ls.len() as int))
    }
}

impl View for Lexeme {
    type V = LexemeV;

    open spec fn view(&self) -> LexemeV {
        lexeme_view(*self)
    }
}

pub proof fn lemma_lexemes_view_len_index(ls: Seq<Lexeme>)
    ensures
        lexemes_view(ls).len() == ls.len(),
        forall|k: int| 0 <= k < ls.len() ==> lexemes_view(ls)[k] == lexeme_view(ls[k]),
    decreases ls.len(),
{
    if ls.len() > 0 {
        lemma_lexemes_view_len_index(ls.subrange(1, ls.len() as int));
    }
}

impl Token {
    /// A comment token; the body keeps the leading `//`.
    pub fn comment(comment: Vec<char>) -> (t: Token)
        ensures
            t.ty == TokenType::Comment,
            t.body == comment,
    {
        Token { ty: TokenType::Comment, body: comment }
    }

    /// An identifier token.
    pub fn id(id: Vec<char>) -> (t: Token)
        ensures
            t.ty == TokenType::Id,
            t.body == id,
    {
        Token { ty: TokenType::Id, body: id }
    }

    /// A number token.
    pub fn num(num: Vec<char>) -> (t: Token)
        ensures
            t.ty == TokenType::Num,
            t.body == num,
    {
        Token { ty: TokenType::Num, body: num }
    }

    /// A punctuation token.
    pub fn punct(punct: Vec<char>) -> (t: Token)
        ensures
            t.ty == TokenType::Punct,
            t.body == punct,
    {
        Token { ty: TokenType::Punct, body: punct }
    }

    /// A string token; the body is the content between the quotes.
    pub fn string(string: Vec<char>) -> (t: Token)
        ensures
            t.ty == TokenType::String,
            t.body == string,
    {
        Token { ty: TokenType::String, body: string }
    }

    /// Whether this token is a reserved word: an identifier whose body is
    /// exactly `fn`, `pub` or `type`.
    pub fn is_keyword(&self) -> (r: bool)
        ensures
            r == (self.ty == TokenType::Id && keyword_body(self.body@)),
    {
        proof {
            lemma_keyword_body_chars(self.body@);
        }
        if !(self.ty == TokenType::Id) {
            return false;
        }
        let b = &self.body;
        if b.len() == 2 {
            b[0] == 'f' && b[1] == 'n'
        } else if b.len() == 3 {
            b[0] == 'p' && b[1] == 'u' && b[2] == 'b'
        } else if b.len() == 4 {
            b[0] == 't' && b[1] == 'y' && b[2] == 'p' && b[3] == 'e'
        } else {
            false
        }
    }
}

/// The reserved identifier bodies.
pub open spec fn keyword_body(body: Seq<char>) -> bool {
    body == seq!['f', 'n'] || body == seq!['p', 'u', 'b'] || body == seq!['t', 'y', 'p', 'e']
}

proof fn lemma_keyword_body_chars(body: Seq<char>)
    ensures
        keyword_body(body) <==> {
            ||| (body.len() == 2 && body[0] == 'f' && body[1] == 'n')
            ||| (body.len() == 3 && body[0] == 'p' && body[1] == 'u' && body[2] == 'b')
            ||| (body.len() == 4 && body[0] == 't' && body[1] == 'y' && body[2] == 'p'
                && body[3] == 'e')
        },
{
    if body.len() == 2 && body[0] == 'f' && body[1] == 'n' {
        assert(body =~= seq!['f', 'n']);
    }
    if body.len() == 3 && body[0] == 'p' && body[1] == 'u' && body[2] == 'b' {
        assert(body =~= seq!['p', 'u', 'b']);
    }
    if body.len() == 4 && body[0] == 't' && body[1] == 'y' && body[2] == 'p' && body[3] == 'e' {
        assert(body =~= seq!['t', 'y', 'p', 'e']);
    }
}

/// Whether `c` opens a group.
pub open spec fn is_open_delim(c: char) -> bool {
    c == '(' || c == '[' || c == '{'
}

/// The kind of group that `c` opens; meaningful only when `is_open_delim(c)`.
pub open spec fn group_of(c: char) -> GroupType {
    if c == '(' {
        GroupType::Paren
    } else if c == '[' {
        GroupType::Bracket
    } else {
        GroupType::Brace
    }
}

/// The closing delimiter of a group kind.
pub open spec fn closing_of(t: GroupType) -> char {
    match t {
        GroupType::Paren => ')',
        GroupType::Bracket => ']',
        GroupType::Brace => '}',
    }
}

/// The opening delimiter of a group kind.
pub open spec fn opening_of(t: GroupType) -> char {
    match t {
        GroupType::Paren => '(',
        GroupType::Bracket => '[',
        GroupType::Brace => '{',
    }
}

impl GroupType {
    /// The closing delimiter this kind of group ends with.
    pub fn end_char(&self) -> (c: char)
        ensures
            c == closing_of(*self),
    {
        match self {
            GroupType::Paren => ')',
            GroupType::Bracket => ']',
            GroupType::Brace => '}',
        }
    }

    /// The kind of group `c` opens, if any.
    pub fn from_start_char(c: char) -> (r: Option<GroupType>)
        ensures
            is_open_delim(c) ==> r == Some(group_of(c)),
            !is_open_delim(c) ==> r is None,
    {
        match c {
            '(' => Some(GroupType::Paren),
            '[' => Some(GroupType::Bracket),
            '{' => Some(GroupType::Brace),
            _ => None,
        }
    }

    /// Wraps a lexeme sequence in a group of this kind.
    pub fn build(self, body: Vec<Lexeme>) -> (g: Group)
        ensures
            g.ty == self,
            g.body == body,
    {
        Group { ty: self, body }
    }
}

impl Lexeme {
    /// Pairs a span with a token or group.
    pub fn new(span: Span, body: LexemeBody) -> (l: Lexeme)
        ensures
            l.span == span,
            l.body == body,
    {
        Lexeme { span, body }
    }
}

// ---------------------------------------------------------------------------
// The mathematical scanner.
// ---------------------------------------------------------------------------
/// Characters not yet consumed; the termination measure of the scanner.
pub open spec fn rem(s: Seq<char>, i: int) -> nat {
    if i < s.len() {
        (s.len() - i) as nat
    } else {
        0
    }
}

/// How many characters from `i` on continue an identifier or number.
pub open spec fn ident_run_len(s: Seq<char>, i: int) -> nat
    decreases rem(s, i),
{
    if 0 <= i < s.len() && ident_continue_char(s[i]) {
        1 + ident_run_len(s, i + 1)
    } else {
        0
    }
}

/// How many characters from `i` on stay inside a line comment: everything up
/// to, and not including, the next newline or the end of input.
pub open spec fn comment_run_len(s: Seq<char>, i: int) -> nat
    decreases rem(s, i),
{
    if 0 <= i < s.len() && s[i] != '\n' {
        1 + comment_run_len(s, i + 1)
    } else {
        0
    }
}

/// How many characters from `i` on stay inside a string literal: everything
/// up to, and not including, the next quote, newline, backslash or end of
/// input.
pub open spec fn str_run_len(s: Seq<char>, i: int) -> nat
    decreases rem(s, i),
{
    if 0 <= i < s.len() && s[i] != '"' && s[i] != '\n' && s[i] != '\\' {
        1 + str_run_len(s, i + 1)
    } else {
        0
    }
}

/// The single-character punctuation set.
pub open spec fn single_punct(c: char) -> bool {
    c == '#' || c == ';' || c == '='
}

/// The characters a dash merges with.
pub open spec fn dash_follow(c: char) -> bool {
    c == '>' || c == '-' || c == '='
}

/// What scanning one nesting level yields: the lexemes of the level, the
/// index one past the consumed input and the position after it, or the first
/// error.
pub enum Scan {
    Good { items: Seq<LexemeV>, next: int, pos: PosV },
    Fail(ErrorV),
}

/// Prepends a lexeme to the items of a successful scan.
pub open spec fn cons_item(t: LexemeV, sc: Scan) -> Scan {
    match sc {
        Scan::Good { items, next, pos } => Scan::Good { items: seq![t] + items, next, pos },
        Scan::Fail(e) => Scan::Fail(e),
    }
}

/// A token lying entirely on the row of `pos` and consuming `consumed`
/// columns.
pub open spec fn token_at(pos: PosV, ty: TokenType, body: Seq<char>, consumed: int) -> LexemeV {
    LexemeV::Token {
        span: SpanV { start: pos, end: PosV { row: pos.row, col: pos.col + consumed } },
        ty,
        body,
    }
}

/// The mathematical group scanner: one nesting level of `s` starting at
/// index `i` and position `pos`, ending at the closing delimiter `end_char`
/// (or at the end of input when `end_char` is `None`), with `depth` nested
/// levels still allowed below this one.
pub open spec fn scan_at(s: Seq<char>, i: int, pos: PosV, end_char: Option<char>, depth: nat) -> Scan
    decreases rem(s, i),
{
    if i < 0 || i >= s.len() {
        if end_char is None {
            Scan::Good { items: Seq::empty(), next: i, pos }
        } else {
            Scan::Fail(ErrorV::Eof(pos))
        }
    } else {
        let c = s[i];
        if end_char == Some(c) {
            Scan::Good { items: Seq::empty(), next: i + 1, pos: pos_next_col(pos) }
        } else if c == ' ' {
            scan_at(s, i + 1, pos_next_col(pos), end_char, depth)
        } else if c == '\n' {
            scan_at(s, i + 1, PosV { row: pos.row + 1, col: 1 }, end_char, depth)
        } else if ident_start_char(c) || c == '_' {
            let e: int = i + 1 + ident_run_len(s, i + 1);
            cons_item(
                token_at(pos, TokenType::Id, s.subrange(i, e), e - i),
                scan_at(s, e, PosV { row: pos.row, col: pos.col + (e - i) }, end_char, depth),
            )
        } else if numeric_char(c) {
            let e: int = i + 1 + ident_run_len(s, i + 1);
            cons_item(
                token_at(pos, TokenType::Num, s.subrange(i, e), e - i),
                scan_at(s, e, PosV { row: pos.row, col: pos.col + (e - i) }, end_char, depth),
            )
        } else if single_punct(c) {
            cons_item(
                token_at(pos, TokenType::Punct, seq![c], 1),
                scan_at(s, i + 1, pos_next_col(pos), end_char, depth),
            )
        } else if c == ':' {
            if i + 1 < s.len() && s[i + 1] == ':' {
                cons_item(
                    token_at(pos, TokenType::Punct, seq![':', ':'], 2),
                    scan_at(s, i + 2, PosV { row: pos.row, col: pos.col + 2 }, end_char, depth),
                )
            } else {
                cons_item(
                    token_at(pos, TokenType::Punct, seq![':'], 1),
                    scan_at(s, i + 1, pos_next_col(pos), end_char, depth),
                )
            }
        } else if c == '*' {
            // The captured body starts with a dash; kept as the scanner has
            // always written it, so spans and bodies stay in step.
            if i + 1 < s.len() && s[i + 1] == '=' {
                cons_item(
                    token_at(pos, TokenType::Punct, seq!['-', '='], 2),
                    scan_at(s, i + 2, PosV { row: pos.row, col: pos.col + 2 }, end_char, depth),
                )
            } else {
                cons_item(
                    token_at(pos, TokenType::Punct, seq!['-'], 1),
                    scan_at(s, i + 1, pos_next_col(pos), end_char, depth),
                )
            }
        } else if c == '-' {
            if i + 1 < s.len() && dash_follow(s[i + 1]) {
                cons_item(
                    token_at(pos, TokenType::Punct, seq!['-', s[i + 1]], 2),
                    scan_at(s, i + 2, PosV { row: pos.row, col: pos.col + 2 }, end_char, depth),
                )
            } else {
                cons_item(
                    token_at(pos, TokenType::Punct, seq!['-'], 1),
                    scan_at(s, i + 1, pos_next_col(pos), end_char, depth),
                )
            }
        } else if c == '/' {
            if i + 1 < s.len() && s[i + 1] == '/' {
                let e: int = i + 2 + comment_run_len(s, i + 2);
                cons_item(
                    token_at(pos, TokenType::Comment, s.subrange(i, e), e - i),
                    scan_at(s, e, PosV { row: pos.row, col: pos.col + (e - i) }, end_char, depth),
                )
            } else if i + 1 < s.len() && s[i + 1] == '*' {
                Scan::Fail(ErrorV::UnsupportedConstruct(pos_next_col(pos)))
            } else {
                cons_item(
                    token_at(pos, TokenType::Punct, seq!['/'], 1),
                    scan_at(s, i + 1, pos_next_col(pos), end_char, depth),
                )
            }
        } else if c == '"' {
            let k: int = str_run_len(s, i + 1) as int;
            let e: int = i + 1 + k;
            if e >= s.len() {
                Scan::Fail(ErrorV::Eof(PosV { row: pos.row, col: pos.col + 1 + k }))
            } else if s[e] == '\n' {
                Scan::Fail(
                    ErrorV::UnexpectedChar('\n', PosV { row: pos.row, col: pos.col + 1 + k }),
                )
            } else if s[e] == '\\' {
                Scan::Fail(ErrorV::UnsupportedConstruct(PosV { row: pos.row, col: pos.col + 1 + k }))
            } else {
                cons_item(
                    LexemeV::Token {
                        span: SpanV {
                            start: pos,
                            end: PosV { row: pos.row, col: pos.col + k + 2 },
                        },
                        ty: TokenType::String,
                        body: s.subrange(i + 1, e),
                    },
                    scan_at(
                        s,
                        e + 1,
                        PosV { row: pos.row, col: pos.col + k + 2 },
                        end_char,
                        depth,
                    ),
                )
            }
        } else if is_open_delim(c) {
            if depth == 0 {
                Scan::Fail(ErrorV::TooDeep(pos))
            } else {
                let gt = group_of(c);
                match scan_at(s, i + 1, pos_next_col(pos), Some(closing_of(gt)), (depth - 1) as nat) {
                    Scan::Fail(e) => Scan::Fail(e),
                    Scan::Good { items: children, next: j, pos: p2 } => {
                        if i + 1 <= j <= s.len() {
                            cons_item(
                                LexemeV::Group { span: SpanV { start: pos, end: p2 }, ty: gt, children },
                                scan_at(s, j, p2, end_char, depth),
                            )
                        } else {
                            // A successful nested scan always lands in this
                            // range; see `lemma_scan_wf`.
                            Scan::Fail(ErrorV::Eof(p2))
                        }
                    },
                }
            }
        } else {
            Scan::Fail(ErrorV::UnexpectedChar(c, pos))
        }
    }
}

// ---------------------------------------------------------------------------
// Well-formedness of the produced tree.
// ---------------------------------------------------------------------------
/// How many characters a token consumed: its body, plus the two quotes of a
/// string literal.
pub open spec fn token_consumed(ty: TokenType, body: Seq<char>) -> int {
    body.len() + if ty == TokenType::String {
        2int
    } else {
        0int
    }
}

/// The position after the last lexeme of `items`, or `lo` when there is
/// none.
pub open spec fn items_end(items: Seq<LexemeV>, lo: PosV) -> PosV {
    if items.len() == 0 {
        lo
    } else {
        end_of(items.last())
    }
}

/// Span soundness of one lexeme. A token ends on its own row, exactly its
/// consumed character count past its start. A group starts strictly before
/// its end, and its children are well-formed, in order, strictly between the
/// two delimiters.
pub open spec fn lexeme_wf(l: LexemeV) -> bool
    decreases l,
{
    match l {
        LexemeV::Token { span, ty, body } => {
            &&& span.start.row >= 1
            &&& span.start.col >= 1
            &&& span.end.row == span.start.row
            &&& span.end.col == span.start.col + token_consumed(ty, body)
        },
        LexemeV::Group { span, ty, children } => {
            &&& span.start.row >= 1
            &&& span.start.col >= 1
            &&& span.start.col + 1 <= usize::MAX
            &&& pos_lt(span.start, span.end)
            &&& span.end.col >= 2
            &&& lexemes_wf(children, pos_next_col(span.start))
            &&& pos_le(items_end(children, pos_next_col(span.start)), pos_prev_col(span.end))
        },
    }
}

/// Span soundness of a sibling sequence: every lexeme is well-formed, the
/// first starts no earlier than `lo`, and each starts no earlier than its
/// predecessor ends.
pub open spec fn lexemes_wf(items: Seq<LexemeV>, lo: PosV) -> bool
    decreases items,
{
    items.len() == 0 || {
        &&& lexeme_wf(items[0])
        &&& pos_le(lo, start_of(items[0]))
        &&& lexemes_wf(items.subrange(1, items.len() as int), end_of(items[0]))
    }
}

pub proof fn lemma_lexemes_wf_cons(t: LexemeV, items: Seq<LexemeV>, lo: PosV)
    ensures
        lexemes_wf(seq![t] + items, lo) == (lexeme_wf(t) && pos_le(lo, start_of(t))
            && lexemes_wf(items, end_of(t))),
        items_end(seq![t] + items, lo) == items_end(items, end_of(t)),
{
    let all = seq![t] + items;
    assert(all[0] == t);
    assert(all.subrange(1, all.len() as int) =~= items);
    if items.len() > 0 {
        assert(all.last() == items.last());
    }
}

proof fn lemma_lexemes_wf_mono(items: Seq<LexemeV>, lo1: PosV, lo2: PosV)
    requires
        lexemes_wf(items, lo2),
        pos_le(lo1, lo2),
    ensures
        lexemes_wf(items, lo1),
{
}

// ---------------------------------------------------------------------------
// Bounds of the three character runs.
// ---------------------------------------------------------------------------
proof fn lemma_ident_run_le(s: Seq<char>, i: int)
    requires
        0 <= i <= s.len(),
    ensures
        i + ident_run_len(s, i) <= s.len(),
    decreases rem(s, i),
{
    if i < s.len() && ident_continue_char(s[i]) {
        lemma_ident_run_le(s, i + 1);
    }
}

proof fn lemma_comment_run_le(s: Seq<char>, i: int)
    requires
        0 <= i <= s.len(),
    ensures
        i + comment_run_len(s, i) <= s.len(),
    decreases rem(s, i),
{
    if i < s.len() && s[i] != '\n' {
        lemma_comment_run_le(s, i + 1);
    }
}

proof fn lemma_str_run_le(s: Seq<char>, i: int)
    requires
        0 <= i <= s.len(),
    ensures
        i + str_run_len(s, i) <= s.len(),
    decreases rem(s, i),
{
    if i < s.len() && s[i] != '"' && s[i] != '\n' && s[i] != '\\' {
        lemma_str_run_le(s, i + 1);
    }
}

/// Everything a successful scan guarantees. The consumed range and the final
/// position stay in bounds and move forward; a level that ends on a closing
/// delimiter consumes at least that character and ends past column 1. The
/// produced lexemes are well-formed siblings that start no earlier than the
/// starting position and end no later than the final position (when a closing
/// delimiter was consumed: no later than the delimiter itself). In
/// particular, every token's end is its start advanced by its consumed
/// character count, and every group's children lie strictly between its
/// delimiters, in document order.
pub proof fn lemma_scan_wf(s: Seq<char>, i: int, pos: PosV, end_char: Option<char>, depth: nat)
    requires
        0 <= i <= s.len(),
        pos.row >= 1,
        pos.col >= 1,
        pos.row + (s.len() - i) <= usize::MAX,
        pos.col + (s.len() - i) <= usize::MAX,
    ensures
        match scan_at(s, i, pos, end_char, depth) {
            Scan::Good { items, next, pos: p2 } => {
                &&& i <= next <= s.len()
                &&& (end_char is Some ==> i + 1 <= next && p2.col >= 2)
                &&& p2.row >= 1
                &&& p2.col >= 1
                &&& p2.row + (s.len() - next) <= usize::MAX
                &&& p2.col + (s.len() - next) <= usize::MAX
                &&& pos_le(pos, p2)
                &&& lexemes_wf(items, pos)
                &&& pos_le(
                    items_end(items, pos),
                    if end_char is Some {
                        pos_prev_col(p2)
                    } else {
                        p2
                    },
                )
            },
            Scan::Fail(_) => true,
        },
    decreases rem(s, i),
{
    if i < 0 || i >= s.len() {
        // End of input: nothing was produced.
    } else {
        let c = s[i];
        if end_char == Some(c) {
            // The closing delimiter of this level.
        } else if c == ' ' {
            let p1 = pos_next_col(pos);
            lemma_scan_wf(s, i + 1, p1, end_char, depth);
            match scan_at(s, i + 1, p1, end_char, depth) {
                Scan::Good { items, next, pos: p2 } => {
                    lemma_lexemes_wf_mono(items, pos, p1);
                },
                Scan::Fail(_) => {},
            }
        } else if c == '\n' {
            let p1 = PosV { row: pos.row + 1, col: 1 };
            lemma_scan_wf(s, i + 1, p1, end_char, depth);
            match scan_at(s, i + 1, p1, end_char, depth) {
                Scan::Good { items, next, pos: p2 } => {
                    lemma_lexemes_wf_mono(items, pos, p1);
                },
                Scan::Fail(_) => {},
            }
        } else if ident_start_char(c) || c == '_' {
            lemma_ident_run_le(s, i + 1);
            let e: int = i + 1 + ident_run_len(s, i + 1);
            let p1 = PosV { row: pos.row, col: pos.col + (e - i) };
            let tok = token_at(pos, TokenType::Id, s.subrange(i, e), e - i);
            lemma_scan_wf(s, e, p1, end_char, depth);
            match scan_at(s, e, p1, end_char, depth) {
                Scan::Good { items, next, pos: p2 } => {
                    lemma_lexemes_wf_cons(tok, items, pos);
                },
                Scan::Fail(_) => {},
            }
        } else if numeric_char(c) {
            lemma_ident_run_le(s, i + 1);
            let e: int = i + 1 + ident_run_len(s, i + 1);
            let p1 = PosV { row: pos.row, col: pos.col + (e - i) };
            let tok = token_at(pos, TokenType::Num, s.subrange(i, e), e - i);
            lemma_scan_wf(s, e, p1, end_char, depth);
            match scan_at(s, e, p1, end_char, depth) {
                Scan::Good { items, next, pos: p2 } => {
                    lemma_lexemes_wf_cons(tok, items, pos);
                },
                Scan::Fail(_) => {},
            }
        } else if single_punct(c) {
            let p1 = pos_next_col(pos);
            let tok = token_at(pos, TokenType::Punct, seq![c], 1);
            lemma_scan_wf(s, i + 1, p1, end_char, depth);
            match scan_at(s, i + 1, p1, end_char, depth) {
                Scan::Good { items, next, pos: p2 } => {
                    lemma_lexemes_wf_cons(tok, items, pos);
                },
                Scan::Fail(_) => {},
            }
        } else if c == ':' {
            if i + 1 < s.len() && s[i + 1] == ':' {
                let p1 = PosV { row: pos.row, col: pos.col + 2 };
                let tok = token_at(pos, TokenType::Punct, seq![':', ':'], 2);
                lemma_scan_wf(s, i + 2, p1, end_char, depth);
                match scan_at(s, i + 2, p1, end_char, depth) {
                    Scan::Good { items, next, pos: p2 } => {
                        lemma_lexemes_wf_cons(tok, items, pos);
                    },
                    Scan::Fail(_) => {},
                }
            } else {
                let p1 = pos_next_col(pos);
                let tok = token_at(pos, TokenType::Punct, seq![':'], 1);
                lemma_scan_wf(s, i + 1, p1, end_char, depth);
                match scan_at(s, i + 1, p1, end_char, depth) {
                    Scan::Good { items, next, pos: p2 } => {
                        lemma_lexemes_wf_cons(tok, items, pos);
                    },
                    Scan::Fail(_) => {},
                }
            }
        } else if c == '*' {
            if i + 1 < s.len() && s[i + 1] == '=' {
                let p1 = PosV { row: pos.row, col: pos.col + 2 };
                let tok = token_at(pos, TokenType::Punct, seq!['-', '='], 2);
                lemma_scan_wf(s, i + 2, p1, end_char, depth);
                match scan_at(s, i + 2, p1, end_char, depth) {
                    Scan::Good { items, next, pos: p2 } => {
                        lemma_lexemes_wf_cons(tok, items, pos);
                    },
                    Scan::Fail(_) => {},
                }
            } else {
                let p1 = pos_next_col(pos);
                let tok = token_at(pos, TokenType::Punct, seq!['-'], 1);
                lemma_scan_wf(s, i + 1, p1, end_char, depth);
                match scan_at(s, i + 1, p1, end_char, depth) {
                    Scan::Good { items, next, pos: p2 } => {
                        lemma_lexemes_wf_cons(tok, items, pos);
                    },
                    Scan::Fail(_) => {},
                }
            }
        } else if c == '-' {
            if i + 1 < s.len() && dash_follow(s[i + 1]) {
                let p1 = PosV { row: pos.row, col: pos.col + 2 };
                let tok = token_at(pos, TokenType::Punct, seq!['-', s[i + 1]], 2);
                lemma_scan_wf(s, i + 2, p1, end_char, depth);
                match scan_at(s, i + 2, p1, end_char, depth) {
                    Scan::Good { items, next, pos: p2 } => {
                        lemma_lexemes_wf_cons(tok, items, pos);
                    },
                    Scan::Fail(_) => {},
                }
            } else {
                let p1 = pos_next_col(pos);
                let tok = token_at(pos, TokenType::Punct, seq!['-'], 1);
                lemma_scan_wf(s, i + 1, p1, end_char, depth);
                match scan_at(s, i + 1, p1, end_char, depth) {
                    Scan::Good { items, next, pos: p2 } => {
                        lemma_lexemes_wf_cons(tok, items, pos);
                    },
                    Scan::Fail(_) => {},
                }
            }
        } else if c == '/' {
            if i + 1 < s.len() && s[i + 1] == '/' {
                lemma_comment_run_le(s, i + 2);
                let e: int = i + 2 + comment_run_len(s, i + 2);
                let p1 = PosV { row: pos.row, col: pos.col + (e - i) };
                let tok = token_at(pos, TokenType::Comment, s.subrange(i, e), e - i);
                lemma_scan_wf(s, e, p1, end_char, depth);
                match scan_at(s, e, p1, end_char, depth) {
                    Scan::Good { items, next, pos: p2 } => {
                        lemma_lexemes_wf_cons(tok, items, pos);
                    },
                    Scan::Fail(_) => {},
                }
            } else if i + 1 < s.len() && s[i + 1] == '*' {
                // Unsupported block comment: the scan fails.
            } else {
                let p1 = pos_next_col(pos);
                let tok = token_at(pos, TokenType::Punct, seq!['/'], 1);
                lemma_scan_wf(s, i + 1, p1, end_char, depth);
                match scan_at(s, i + 1, p1, end_char, depth) {
                    Scan::Good { items, next, pos: p2 } => {
                        lemma_lexemes_wf_cons(tok, items, pos);
                    },
                    Scan::Fail(_) => {},
                }
            }
        } else if c == '"' {
            lemma_str_run_le(s, i + 1);
            let k: int = str_run_len(s, i + 1) as int;
            let e: int = i + 1 + k;
            if e >= s.len() || s[e] == '\n' || s[e] == '\\' {
                // The literal never closes: the scan fails.
            } else {
                let p1 = PosV { row: pos.row, col: pos.col + k + 2 };
                let tok = LexemeV::Token {
                    span: SpanV { start: pos, end: p1 },
                    ty: TokenType::String,
                    body: s.subrange(i + 1, e),
                };
                lemma_scan_wf(s, e + 1, p1, end_char, depth);
                match scan_at(s, e + 1, p1, end_char, depth) {
                    Scan::Good { items, next, pos: p2 } => {
                        lemma_lexemes_wf_cons(tok, items, pos);
                        assert(lexeme_wf(tok));
                    },
                    Scan::Fail(_) => {},
                }
            }
        } else if is_open_delim(c) {
            if depth == 0 {
                // Too deep: the scan fails.
            } else {
                let gt = group_of(c);
                let p1 = pos_next_col(pos);
                lemma_scan_wf(s, i + 1, p1, Some(closing_of(gt)), (depth - 1) as nat);
                match scan_at(s, i + 1, p1, Some(closing_of(gt)), (depth - 1) as nat) {
                    Scan::Fail(_) => {},
                    Scan::Good { items: children, next: j, pos: pg } => {
                        let glex = LexemeV::Group {
                            span: SpanV { start: pos, end: pg },
                            ty: gt,
                            children,
                        };
                        lemma_scan_wf(s, j, pg, end_char, depth);
                        match scan_at(s, j, pg, end_char, depth) {
                            Scan::Good { items: rest, next: n2, pos: p2 } => {
                                lemma_lexemes_wf_cons(glex, rest, pos);
                                assert(lexeme_wf(glex));
                            },
                            Scan::Fail(_) => {},
                        }
                    },
                }
            }
        } else {
            // No class matched: the scan fails.
        }
    }
}

/// Everything well-formedness says of each member of a sibling sequence: it
/// is itself well-formed, starts no earlier than `lo` and no earlier than
/// its predecessor ends, does not end before it starts, and ends no later
/// than the sequence as a whole.
pub proof fn lemma_lexemes_wf_within(items: Seq<LexemeV>, lo: PosV)
    requires
        lexemes_wf(items, lo),
    ensures
        forall|k: int| 0 <= k < items.len() ==> lexeme_wf(#[trigger] items[k]),
        forall|k: int| 0 <= k < items.len() ==> pos_le(lo, start_of(#[trigger] items[k])),
        forall|k: int|
            0 <= k < items.len() ==> pos_le(start_of(#[trigger] items[k]), end_of(items[k])),
        forall|k: int|
            0 <= k < items.len() ==> pos_le(end_of(#[trigger] items[k]), items_end(items, lo)),
        forall|k: int|
            0 <= k && k + 1 < items.len() ==> pos_le(end_of(#[trigger] items[k]), start_of(
                items[k + 1],
            )),
    decreases items,
{
    if items.len() > 0 {
        let first = items[0];
        let rest = items.subrange(1, items.len() as int);
        assert(lexeme_wf(first));
        match first {
            LexemeV::Token { span, ty, body } => {
                assert(token_consumed(ty, body) >= 0);
                assert(pos_le(start_of(first), end_of(first)));
            },
            LexemeV::Group { span, ty, children } => {
                assert(pos_le(start_of(first), end_of(first)));
            },
        }
        lemma_lexemes_wf_within(rest, end_of(first));
        assert(seq![first] + rest =~= items);
        lemma_lexemes_wf_cons(first, rest, lo);
        assert forall|k: int| 0 <= k < items.len() implies lexeme_wf(#[trigger] items[k])
            && pos_le(lo, start_of(items[k])) && pos_le(start_of(items[k]), end_of(items[k]))
            && pos_le(end_of(items[k]), items_end(items, lo)) by {
            if k > 0 {
                assert(items[k] == rest[k - 1]);
            } else {
                if rest.len() > 0 {
                    assert(pos_le(end_of(first), start_of(rest[0])));
                    assert(pos_le(end_of(rest[0]), items_end(rest, end_of(first))));
                }
            }
        }
        assert forall|k: int| 0 <= k && k + 1 < items.len() implies pos_le(
            end_of(#[trigger] items[k]),
            start_of(items[k + 1]),
        ) by {
            if k > 0 {
                assert(items[k] == rest[k - 1]);
                assert(items[k + 1] == rest[k]);
            } else {
                assert(items[1] == rest[0]);
            }
        }
    }
}

/// A well-formed group's children lie strictly within its span — after the
/// opening delimiter, before the closing one — in document order and
/// without overlap.
pub proof fn lemma_group_children_within(span: SpanV, ty: GroupType, children: Seq<LexemeV>)
    requires
        lexeme_wf(LexemeV::Group { span, ty, children }),
    ensures
        forall|k: int|
            0 <= k < children.len() ==> pos_lt(span.start, start_of(#[trigger] children[k])),
        forall|k: int|
            0 <= k < children.len() ==> pos_lt(end_of(#[trigger] children[k]), span.end),
        forall|k: int|
            0 <= k && k + 1 < children.len() ==> pos_le(end_of(#[trigger] children[k]), start_of(
                children[k + 1],
            )),
{
    lemma_lexemes_wf_within(children, pos_next_col(span.start));
}

// ---------------------------------------------------------------------------
// Escape-free bodies.
// ---------------------------------------------------------------------------
/// Whether `t` holds no escape character.
pub open spec fn esc_free(t: Seq<char>) -> bool {
    forall|k: int| 0 <= k < t.len() ==> t[k] != '\x1B'
}

/// Whether every token body in the lexeme is free of the escape character.
pub open spec fn lexeme_esc_free(l: LexemeV) -> bool
    decreases l,
{
    match l {
        LexemeV::Token { span, ty, body } => esc_free(body),
        LexemeV::Group { span, ty, children } => lexemes_esc_free(children),
    }
}

/// Whether every token body in the sequence is free of the escape
/// character.
pub open spec fn lexemes_esc_free(items: Seq<LexemeV>) -> bool
    decreases items,
{
    items.len() == 0 || (lexeme_esc_free(items[0]) && lexemes_esc_free(
        items.subrange(1, items.len() as int),
    ))
}

proof fn lemma_esc_free_cons(t: LexemeV, items: Seq<LexemeV>)
    ensures
        lexemes_esc_free(seq![t] + items) == (lexeme_esc_free(t) && lexemes_esc_free(items)),
{
    let all = seq![t] + items;
    assert(all[0] == t);
    assert(all.subrange(1, all.len() as int) =~= items);
}

/// Scanning escape-free input yields lexemes whose token bodies are
/// escape-free: every body is either a run of input characters or built
/// from the punctuation characters themselves.
pub proof fn lemma_scan_esc_free(
    s: Seq<char>,
    i: int,
    pos: PosV,
    end_char: Option<char>,
    depth: nat,
)
    requires
        esc_free(s),
        0 <= i <= s.len(),
        pos.row >= 1,
        pos.col >= 1,
        pos.row + (s.len() - i) <= usize::MAX,
        pos.col + (s.len() - i) <= usize::MAX,
    ensures
        match scan_at(s, i, pos, end_char, depth) {
            Scan::Good { items, next, pos: p2 } => lexemes_esc_free(items),
            Scan::Fail(_) => true,
        },
    decreases rem(s, i),
{
    if i < 0 || i >= s.len() {
    } else {
        let c = s[i];
        if end_char == Some(c) {
        } else if c == ' ' {
            lemma_scan_esc_free(s, i + 1, pos_next_col(pos), end_char, depth);
        } else if c == '\n' {
            lemma_scan_esc_free(s, i + 1, PosV { row: pos.row + 1, col: 1 }, end_char, depth);
        } else if ident_start_char(c) || c == '_' {
            lemma_ident_run_le(s, i + 1);
            let e: int = i + 1 + ident_run_len(s, i + 1);
            let p1 = PosV { row: pos.row, col: pos.col + (e - i) };
            lemma_scan_esc_free(s, e, p1, end_char, depth);
            match scan_at(s, e, p1, end_char, depth) {
                Scan::Good { items, next, pos: p2 } => {
                    lemma_esc_free_cons(token_at(pos, TokenType::Id, s.subrange(i, e), e - i), items);
                },
                Scan::Fail(_) => {},
            }
        } else if numeric_char(c) {
            lemma_ident_run_le(s, i + 1);
            let e: int = i + 1 + ident_run_len(s, i + 1);
            let p1 = PosV { row: pos.row, col: pos.col + (e - i) };
            lemma_scan_esc_free(s, e, p1, end_char, depth);
            match scan_at(s, e, p1, end_char, depth) {
                Scan::Good { items, next, pos: p2 } => {
                    lemma_esc_free_cons(
                        token_at(pos, TokenType::Num, s.subrange(i, e), e - i),
                        items,
                    );
                },
                Scan::Fail(_) => {},
            }
        } else if single_punct(c) {
            lemma_scan_esc_free(s, i + 1, pos_next_col(pos), end_char, depth);
            match scan_at(s, i + 1, pos_next_col(pos), end_char, depth) {
                Scan::Good { items, next, pos: p2 } => {
                    lemma_esc_free_cons(token_at(pos, TokenType::Punct, seq![c], 1), items);
                },
                Scan::Fail(_) => {},
            }
        } else if c == ':' || c == '*' || c == '-' {
            if i + 1 < s.len() && ((c == ':' && s[i + 1] == ':') || (c == '*' && s[i + 1] == '=')
                || (c == '-' && dash_follow(s[i + 1]))) {
                let p1 = PosV { row: pos.row, col: pos.col + 2 };
                let body = if c == ':' {
                    seq![':', ':']
                } else if c == '*' {
                    seq!['-', '=']
                } else {
                    seq!['-', s[i + 1]]
                };
                lemma_scan_esc_free(s, i + 2, p1, end_char, depth);
                match scan_at(s, i + 2, p1, end_char, depth) {
                    Scan::Good { items, next, pos: p2 } => {
                        lemma_esc_free_cons(token_at(pos, TokenType::Punct, body, 2), items);
                    },
                    Scan::Fail(_) => {},
                }
            } else {
                let body = if c == ':' {
                    seq![':']
                } else {
                    seq!['-']
                };
                lemma_scan_esc_free(s, i + 1, pos_next_col(pos), end_char, depth);
                match scan_at(s, i + 1, pos_next_col(pos), end_char, depth) {
                    Scan::Good { items, next, pos: p2 } => {
                        lemma_esc_free_cons(token_at(pos, TokenType::Punct, body, 1), items);
                    },
                    Scan::Fail(_) => {},
                }
            }
        } else if c == '/' {
            if i + 1 < s.len() && s[i + 1] == '/' {
                lemma_comment_run_le(s, i + 2);
                let e: int = i + 2 + comment_run_len(s, i + 2);
                let p1 = PosV { row: pos.row, col: pos.col + (e - i) };
                lemma_scan_esc_free(s, e, p1, end_char, depth);
                match scan_at(s, e, p1, end_char, depth) {
                    Scan::Good { items, next, pos: p2 } => {
                        lemma_esc_free_cons(
                            token_at(pos, TokenType::Comment, s.subrange(i, e), e - i),
                            items,
                        );
                    },
                    Scan::Fail(_) => {},
                }
            } else if i + 1 < s.len() && s[i + 1] == '*' {
            } else {
                lemma_scan_esc_free(s, i + 1, pos_next_col(pos), end_char, depth);
                match scan_at(s, i + 1, pos_next_col(pos), end_char, depth) {
                    Scan::Good { items, next, pos: p2 } => {
                        lemma_esc_free_cons(token_at(pos, TokenType::Punct, seq!['/'], 1), items);
                    },
                    Scan::Fail(_) => {},
                }
            }
        } else if c == '"' {
            lemma_str_run_le(s, i + 1);
            let k: int = str_run_len(s, i + 1) as int;
            let e: int = i + 1 + k;
            if e >= s.len() || s[e] == '\n' || s[e] == '\\' {
            } else {
                let p1 = PosV { row: pos.row, col: pos.col + k + 2 };
                let tok = LexemeV::Token {
                    span: SpanV { start: pos, end: p1 },
                    ty: TokenType::String,
                    body: s.subrange(i + 1, e),
                };
                lemma_scan_esc_free(s, e + 1, p1, end_char, depth);
                match scan_at(s, e + 1, p1, end_char, depth) {
                    Scan::Good { items, next, pos: p2 } => {
                        lemma_esc_free_cons(tok, items);
                    },
                    Scan::Fail(_) => {},
                }
            }
        } else if is_open_delim(c) {
            if depth == 0 {
            } else {
                let gt = group_of(c);
                let p1 = pos_next_col(pos);
                lemma_scan_wf(s, i + 1, p1, Some(closing_of(gt)), (depth - 1) as nat);
                lemma_scan_esc_free(s, i + 1, p1, Some(closing_of(gt)), (depth - 1) as nat);
                match scan_at(s, i + 1, p1, Some(closing_of(gt)), (depth - 1) as nat) {
                    Scan::Fail(_) => {},
                    Scan::Good { items: children, next: j, pos: pg } => {
                        lemma_scan_esc_free(s, j, pg, end_char, depth);
                        match scan_at(s, j, pg, end_char, depth) {
                            Scan::Good { items: rest, next: n2, pos: p2 } => {
                                lemma_esc_free_cons(
                                    LexemeV::Group {
                                        span: SpanV { start: pos, end: pg },
                                        ty: gt,
                                        children,
                                    },
                                    rest,
                                );
                            },
                            Scan::Fail(_) => {},
                        }
                    },
                }
            }
        } else {
        }
    }
}

/// Lexing escape-free input yields a tree whose token bodies are
/// escape-free; `crate::highlight::lemma_strip_render` therefore applies to
/// its rendering.
pub proof fn lemma_lex_esc_free(s: Seq<char>, depth: nat)
    requires
        esc_free(s),
        s.len() + 1 <= usize::MAX,
    ensures
        match lex_spec(s, depth) {
            Scan::Good { items, next, pos } => lexemes_esc_free(items),
            Scan::Fail(_) => true,
        },
{
    lemma_scan_esc_free(s, 0, PosV { row: 1, col: 1 }, None, depth);
}

// ---------------------------------------------------------------------------
// Maximal munch.
// ---------------------------------------------------------------------------
/// Maximal munch for colons: wherever the scanner stands on a `:`, it takes
/// the following `:` into the same token. Two adjacent colons always lex as
/// one `::` punctuation token, never as two `:` tokens; a lone colon lexes
/// as `:`.
pub proof fn lemma_maximal_munch_colon(
    s: Seq<char>,
    i: int,
    pos: PosV,
    end_char: Option<char>,
    depth: nat,
)
    requires
        0 <= i < s.len(),
        s[i] == ':',
        end_char != Some(':'),
    ensures
        match scan_at(s, i, pos, end_char, depth) {
            Scan::Good { items, next, pos: p2 } => {
                &&& items.len() >= 1
                &&& items[0] == token_at(
                    pos,
                    TokenType::Punct,
                    if i + 1 < s.len() && s[i + 1] == ':' {
                        seq![':', ':']
                    } else {
                        seq![':']
                    },
                    if i + 1 < s.len() && s[i + 1] == ':' {
                        2int
                    } else {
                        1int
                    },
                )
            },
            Scan::Fail(_) => true,
        },
{
}

/// Maximal munch for stars: wherever the scanner stands on a `*`, it takes a
/// following `=` into the same token, so `*=` always lexes as one
/// punctuation token. The captured body starts with a dash either way.
pub proof fn lemma_maximal_munch_star(
    s: Seq<char>,
    i: int,
    pos: PosV,
    end_char: Option<char>,
    depth: nat,
)
    requires
        0 <= i < s.len(),
        s[i] == '*',
        end_char != Some('*'),
    ensures
        match scan_at(s, i, pos, end_char, depth) {
            Scan::Good { items, next, pos: p2 } => {
                &&& items.len() >= 1
                &&& items[0] == token_at(
                    pos,
                    TokenType::Punct,
                    if i + 1 < s.len() && s[i + 1] == '=' {
                        seq!['-', '=']
                    } else {
                        seq!['-']
                    },
                    if i + 1 < s.len() && s[i + 1] == '=' {
                        2int
                    } else {
                        1int
                    },
                )
            },
            Scan::Fail(_) => true,
        },
{
}

/// Maximal munch for dashes: wherever the scanner stands on a `-`, it takes
/// a following `>`, `-` or `=` into the same token, so `->`, `--` and `-=`
/// each lex as one punctuation token, never as two.
pub proof fn lemma_maximal_munch_dash(
    s: Seq<char>,
    i: int,
    pos: PosV,
    end_char: Option<char>,
    depth: nat,
)
    requires
        0 <= i < s.len(),
        s[i] == '-',
        end_char != Some('-'),
    ensures
        match scan_at(s, i, pos, end_char, depth) {
            Scan::Good { items, next, pos: p2 } => {
                &&& items.len() >= 1
                &&& items[0] == token_at(
                    pos,
                    TokenType::Punct,
                    if i + 1 < s.len() && dash_follow(s[i + 1]) {
                        seq!['-', s[i + 1]]
                    } else {
                        seq!['-']
                    },
                    if i + 1 < s.len() && dash_follow(s[i + 1]) {
                        2int
                    } else {
                        1int
                    },
                )
            },
            Scan::Fail(_) => true,
        },
{
}

// ---------------------------------------------------------------------------
// Executable helpers.
// ---------------------------------------------------------------------------
/// Index of the first character at or after `from` that does not continue an
/// identifier.
fn run_ident(file: &Vec<char>, from: usize) -> (e: usize)
    requires
        from <= file@.len(),
    ensures
        e as int == from + ident_run_len(file@, from as int),
        from <= e <= file@.len(),
{
    let mut j: usize = from;
    loop
        invariant
            from <= j <= file@.len(),
            ident_run_len(file@, from as int) == (j - from) + ident_run_len(file@, j as int),
        decreases file@.len() - j,
    {
        if j == file.len() {
            return j;
        }
        if !crate::chars::is_xid_continue(file[j]) {
            return j;
        }
        proof {
            assert(ident_run_len(file@, j as int) == 1 + ident_run_len(file@, j + 1));
        }
        j += 1;
    }
}

/// Index of the next newline at or after `from`, or the end of input.
fn run_comment(file: &Vec<char>, from: usize) -> (e: usize)
    requires
        from <= file@.len(),
    ensures
        e as int == from + comment_run_len(file@, from as int),
        from <= e <= file@.len(),
{
    let mut j: usize = from;
    loop
        invariant
            from <= j <= file@.len(),
            comment_run_len(file@, from as int) == (j - from) + comment_run_len(file@, j as int),
        decreases file@.len() - j,
    {
        if j == file.len() {
            return j;
        }
        if file[j] == '\n' {
            return j;
        }
        proof {
            assert(comment_run_len(file@, j as int) == 1 + comment_run_len(file@, j + 1));
        }
        j += 1;
    }
}

/// Index of the next quote, newline or backslash at or after `from`, or the
/// end of input.
fn run_str(file: &Vec<char>, from: usize) -> (e: usize)
    requires
        from <= file@.len(),
    ensures
        e as int == from + str_run_len(file@, from as int),
        from <= e <= file@.len(),
{
    let mut j: usize = from;
    loop
        invariant
            from <= j <= file@.len(),
            str_run_len(file@, from as int) == (j - from) + str_run_len(file@, j as int),
        decreases file@.len() - j,
    {
        if j == file.len() {
            return j;
        }
        let c = file[j];
        if c == '"' || c == '\n' || c == '\\' {
            return j;
        }
        proof {
            assert(str_run_len(file@, j as int) == 1 + str_run_len(file@, j + 1));
        }
        j += 1;
    }
}

/// Copies `file[from..to]` out as a fresh vector.
fn copy_range(file: &Vec<char>, from: usize, to: usize) -> (v: Vec<char>)
    requires
        from <= to <= file@.len(),
    ensures
        v@ == file@.subrange(from as int, to as int),
{
    let mut v: Vec<char> = Vec::new();
    let mut j: usize = from;
    loop
        invariant
            from <= j <= to <= file@.len(),
            v@ == file@.subrange(from as int, j as int),
        decreases to - j,
    {
        if j == to {
            return v;
        }
        v.push(file[j]);
        proof {
            assert(file@.subrange(from as int, j as int).push(file@[j as int]) =~= file@.subrange(
                from as int,
                (j + 1) as int,
            ));
        }
        j += 1;
    }
}

// ---------------------------------------------------------------------------
// The executable scanner.
// ---------------------------------------------------------------------------
/// Appends an already scanned prefix to the items of a scan.
pub open spec fn cons_all(pre: Seq<LexemeV>, sc: Scan) -> Scan {
    match sc {
        Scan::Good { items, next, pos } => Scan::Good { items: pre + items, next, pos },
        Scan::Fail(e) => Scan::Fail(e),
    }
}

proof fn lemma_cons_all_push(pre: Seq<LexemeV>, t: LexemeV, sc: Scan)
    ensures
        cons_all(pre.push(t), sc) == cons_all(pre, cons_item(t, sc)),
{
    match sc {
        Scan::Good { items, next, pos } => {
            assert(pre.push(t) + items =~= pre + (seq![t] + items));
        },
        Scan::Fail(_) => {},
    }
}

proof fn lemma_lexemes_view_push(ls: Seq<Lexeme>, l: Lexeme)
    ensures
        lexemes_view(ls.push(l)) == lexemes_view(ls).push(lexeme_view(l)),
{
    lemma_lexemes_view_len_index(ls);
    lemma_lexemes_view_len_index(ls.push(l));
    assert(lexemes_view(ls.push(l)) =~= lexemes_view(ls).push(lexeme_view(l)));
}

/// Scans one nesting level of `file`, starting at index `*idx` and position
/// `*pos`, up to the closing delimiter `end_char` (or, when `end_char` is
/// `None`, to the end of input), with `depth` further nesting levels
/// allowed. Returns exactly what [`scan_at`] says, and on success leaves
/// `*idx` and `*pos` one past the consumed input.
#[verifier::rlimit(100)]
pub fn do_group(
    file: &Vec<char>,
    idx: &mut usize,
    pos: &mut Pos,
    end_char: Option<char>,
    depth: usize,
) -> (r: Result<Vec<Lexeme>, Error>)
    requires
        *old(idx) <= file@.len(),
        old(pos).0 >= 1,
        old(pos).1 >= 1,
        old(pos).0 + (file@.len() - *old(idx)) <= usize::MAX,
        old(pos).1 + (file@.len() - *old(idx)) <= usize::MAX,
    ensures
        match scan_at(file@, *old(idx) as int, (*old(pos))@, end_char, depth as nat) {
            Scan::Good { items, next, pos: p2 } => {
                &&& r matches Ok(v) && lexemes_view(v@) == items
                &&& *final(idx) as int == next
                &&& (*final(pos))@ == p2
            },
            Scan::Fail(e) => r matches Err(err) && err@ == e,
        },
    decreases depth,
{
    let ghost i0: int = *idx as int;
    let ghost p0: PosV = pos@;
    let ghost goal: Scan = scan_at(file@, i0, p0, end_char, depth as nat);
    let mut result: Vec<Lexeme> = Vec::new();
    loop
        invariant
            *idx <= file@.len(),
            pos.0 >= 1,
            pos.1 >= 1,
            pos.0 + (file@.len() - *idx) <= usize::MAX,
            pos.1 + (file@.len() - *idx) <= usize::MAX,
            i0 == *old(idx) as int,
            p0 == (*old(pos))@,
            goal == scan_at(file@, i0, p0, end_char, depth as nat),
            cons_all(
                lexemes_view(result@),
                scan_at(file@, *idx as int, pos@, end_char, depth as nat),
            ) == goal,
        decreases file@.len() - *idx,
    {
        if *idx == file.len() {
            match end_char {
                None => {
                    proof {
                        assert(lexemes_view(result@) + Seq::<LexemeV>::empty() =~= lexemes_view(
                            result@,
                        ));
                    }
                    return Ok(result);
                },
                Some(_) => {
                    return Err(Error::Eof(*pos));
                },
            }
        }
        let c = file[*idx];
        let is_close = match end_char {
            Some(ec) => ec == c,
            None => false,
        };
        if is_close {
            pos.1 += 1;
            *idx += 1;
            proof {
                assert(lexemes_view(result@) + Seq::<LexemeV>::empty() =~= lexemes_view(result@));
            }
            return Ok(result);
        } else if c == ' ' {
            pos.1 += 1;
            *idx += 1;
        } else if c == '\n' {
            pos.0 += 1;
            pos.1 = 1;
            *idx += 1;
        } else if crate::chars::is_xid_start(c) || c == '_' {
            let start: Pos = *pos;
            let ghost pre = result@;
            let ghost sc_prev = scan_at(file@, *idx as int, pos@, end_char, depth as nat);
            let e: usize = run_ident(file, *idx + 1);
            let body = copy_range(file, *idx, e);
            let count: usize = e - *idx;
            let lex = Lexeme::new(
                Span { start, end: Pos(start.0, start.1 + count) },
                LexemeBody::Token(Token::id(body)),
            );
            pos.1 += count;
            *idx = e;
            let ghost lv = lexeme_view(lex);
            result.push(lex);
            proof {
                let sc_next = scan_at(file@, *idx as int, pos@, end_char, depth as nat);
                assert(sc_prev == cons_item(lv, sc_next));
                lemma_lexemes_view_push(pre, result@.last());
                lemma_cons_all_push(lexemes_view(pre), lv, sc_next);
            }
        } else if crate::chars::is_numeric(c) {
            let start: Pos = *pos;
            let ghost pre = result@;
            let ghost sc_prev = scan_at(file@, *idx as int, pos@, end_char, depth as nat);
            let e: usize = run_ident(file, *idx + 1);
            let body = copy_range(file, *idx, e);
            let count: usize = e - *idx;
            let lex = Lexeme::new(
                Span { start, end: Pos(start.0, start.1 + count) },
                LexemeBody::Token(Token::num(body)),
            );
            pos.1 += count;
            *idx = e;
            let ghost lv = lexeme_view(lex);
            result.push(lex);
            proof {
                let sc_next = scan_at(file@, *idx as int, pos@, end_char, depth as nat);
                assert(sc_prev == cons_item(lv, sc_next));
                lemma_lexemes_view_push(pre, result@.last());
                lemma_cons_all_push(lexemes_view(pre), lv, sc_next);
            }
        } else if c == '#' || c == ';' || c == '=' {
            let start: Pos = *pos;
            let ghost pre = result@;
            let ghost sc_prev = scan_at(file@, *idx as int, pos@, end_char, depth as nat);
            let mut body: Vec<char> = Vec::new();
            body.push(c);
            pos.1 += 1;
            *idx += 1;
            let lex = Lexeme::new(
                Span { start, end: *pos },
                LexemeBody::Token(Token::punct(body)),
            );
            let ghost lv = lexeme_view(lex);
            result.push(lex);
            proof {
                assert(Seq::<char>::empty().push(c) =~= seq![c]);
                let sc_next = scan_at(file@, *idx as int, pos@, end_char, depth as nat);
                assert(sc_prev == cons_item(lv, sc_next));
                lemma_lexemes_view_push(pre, result@.last());
                lemma_cons_all_push(lexemes_view(pre), lv, sc_next);
            }
        } else if c == ':' {
            let start: Pos = *pos;
            let ghost pre = result@;
            let ghost sc_prev = scan_at(file@, *idx as int, pos@, end_char, depth as nat);
            let mut body: Vec<char> = Vec::new();
            body.push(':');
            pos.1 += 1;
            *idx += 1;
            if *idx < file.len() && file[*idx] == ':' {
                body.push(':');
                pos.1 += 1;
                *idx += 1;
                proof {
                    assert(Seq::<char>::empty().push(':').push(':') =~= seq![':', ':']);
                }
            } else {
                proof {
                    assert(Seq::<char>::empty().push(':') =~= seq![':']);
                }
            }
            let lex = Lexeme::new(
                Span { start, end: *pos },
                LexemeBody::Token(Token::punct(body)),
            );
            let ghost lv = lexeme_view(lex);
            result.push(lex);
            proof {
                let sc_next = scan_at(file@, *idx as int, pos@, end_char, depth as nat);
                assert(sc_prev == cons_item(lv, sc_next));
                lemma_lexemes_view_push(pre, result@.last());
                lemma_cons_all_push(lexemes_view(pre), lv, sc_next);
            }
        } else if c == '*' {
            // The captured body starts with a dash; kept as the scanner has
            // always written it.
            let start: Pos = *pos;
            let ghost pre = result@;
            let ghost sc_prev = scan_at(file@, *idx as int, pos@, end_char, depth as nat);
            let mut body: Vec<char> = Vec::new();
            body.push('-');
            pos.1 += 1;
            *idx += 1;
            if *idx < file.len() && file[*idx] == '=' {
                body.push('=');
                pos.1 += 1;
                *idx += 1;
                proof {
                    assert(Seq::<char>::empty().push('-').push('=') =~= seq!['-', '=']);
                }
            } else {
                proof {
                    assert(Seq::<char>::empty().push('-') =~= seq!['-']);
                }
            }
            let lex = Lexeme::new(
                Span { start, end: *pos },
                LexemeBody::Token(Token::punct(body)),
            );
            let ghost lv = lexeme_view(lex);
            result.push(lex);
            proof {
                let sc_next = scan_at(file@, *idx as int, pos@, end_char, depth as nat);
                assert(sc_prev == cons_item(lv, sc_next));
                lemma_lexemes_view_push(pre, result@.last());
                lemma_cons_all_push(lexemes_view(pre), lv, sc_next);
            }
        } else if c == '-' {
            let start: Pos = *pos;
            let ghost pre = result@;
            let ghost sc_prev = scan_at(file@, *idx as int, pos@, end_char, depth as nat);
            let mut body: Vec<char> = Vec::new();
            body.push('-');
            pos.1 += 1;
            *idx += 1;
            if *idx < file.len() && (file[*idx] == '>' || file[*idx] == '-' || file[*idx] == '=') {
                let d = file[*idx];
                body.push(d);
                pos.1 += 1;
                *idx += 1;
                proof {
                    assert(Seq::<char>::empty().push('-').push(d) =~= seq!['-', d]);
                }
            } else {
                proof {
                    assert(Seq::<char>::empty().push('-') =~= seq!['-']);
                }
            }
            let lex = Lexeme::new(
                Span { start, end: *pos },
                LexemeBody::Token(Token::punct(body)),
            );
            let ghost lv = lexeme_view(lex);
            result.push(lex);
            proof {
                let sc_next = scan_at(file@, *idx as int, pos@, end_char, depth as nat);
                assert(sc_prev == cons_item(lv, sc_next));
                lemma_lexemes_view_push(pre, result@.last());
                lemma_cons_all_push(lexemes_view(pre), lv, sc_next);
            }
        } else if c == '/' {
            let start: Pos = *pos;
            let i_start: usize = *idx;
            let ghost pre = result@;
            let ghost sc_prev = scan_at(file@, *idx as int, pos@, end_char, depth as nat);
            pos.1 += 1;
            *idx += 1;
            if *idx < file.len() && file[*idx] == '/' {
                pos.1 += 1;
                *idx += 1;
                let e: usize = run_comment(file, *idx);
                let body = copy_range(file, i_start, e);
                let count: usize = e - i_start;
                pos.1 = start.1 + count;
                *idx = e;
                let lex = Lexeme::new(
                    Span { start, end: Pos(start.0, start.1 + count) },
                    LexemeBody::Token(Token::comment(body)),
                );
                let ghost lv = lexeme_view(lex);
                result.push(lex);
                proof {
                    let sc_next = scan_at(file@, *idx as int, pos@, end_char, depth as nat);
                    assert(sc_prev == cons_item(lv, sc_next));
                    lemma_lexemes_view_push(pre, result@.last());
                    lemma_cons_all_push(lexemes_view(pre), lv, sc_next);
                }
            } else if *idx < file.len() && file[*idx] == '*' {
                return Err(Error::UnsupportedConstruct(*pos));
            } else {
                let mut body: Vec<char> = Vec::new();
                body.push('/');
                let lex = Lexeme::new(
                    Span { start, end: *pos },
                    LexemeBody::Token(Token::punct(body)),
                );
                let ghost lv = lexeme_view(lex);
                result.push(lex);
                proof {
                    assert(Seq::<char>::empty().push('/') =~= seq!['/']);
                    let sc_next = scan_at(file@, *idx as int, pos@, end_char, depth as nat);
                    assert(sc_prev == cons_item(lv, sc_next));
                    lemma_lexemes_view_push(pre, result@.last());
                    lemma_cons_all_push(lexemes_view(pre), lv, sc_next);
                }
            }
        } else if c == '"' {
            let start: Pos = *pos;
            let i_start: usize = *idx;
            let ghost pre = result@;
            let ghost sc_prev = scan_at(file@, *idx as int, pos@, end_char, depth as nat);
            let e: usize = run_str(file, *idx + 1);
            if e == file.len() {
                return Err(Error::Eof(Pos(start.0, start.1 + (e - i_start))));
            }
            let stop = file[e];
            if stop == '\n' {
                return Err(Error::UnexpectedChar('\n', Pos(start.0, start.1 + (e - i_start))));
            }
            if stop == '\\' {
                return Err(Error::UnsupportedConstruct(Pos(start.0, start.1 + (e - i_start))));
            }
            let body = copy_range(file, i_start + 1, e);
            let count: usize = e + 1 - i_start;
            pos.1 = start.1 + count;
            *idx = e + 1;
            let lex = Lexeme::new(
                Span { start, end: Pos(start.0, start.1 + count) },
                LexemeBody::Token(Token::string(body)),
            );
            let ghost lv = lexeme_view(lex);
            result.push(lex);
            proof {
                let sc_next = scan_at(file@, *idx as int, pos@, end_char, depth as nat);
                assert(sc_prev == cons_item(lv, sc_next));
                lemma_lexemes_view_push(pre, result@.last());
                lemma_cons_all_push(lexemes_view(pre), lv, sc_next);
            }
        } else {
            match GroupType::from_start_char(c) {
                Some(gt) => {
                    if depth == 0 {
                        return Err(Error::TooDeep(*pos));
                    }
                    let start: Pos = *pos;
                    let ghost pre = result@;
                    let ghost sc_prev = scan_at(file@, *idx as int, pos@, end_char, depth as nat);
                    pos.1 += 1;
                    *idx += 1;
                    let close = gt.end_char();
                    proof {
                        lemma_scan_wf(
                            file@,
                            *idx as int,
                            pos@,
                            Some(closing_of(gt)),
                            (depth - 1) as nat,
                        );
                    }
                    match do_group(file, idx, pos, Some(close), depth - 1) {
                        Err(e) => {
                            return Err(e);
                        },
                        Ok(children) => {
                            let grp = gt.build(children);
                            let lex = Lexeme::new(
                                Span { start, end: *pos },
                                LexemeBody::Group(grp),
                            );
                            let ghost lv = lexeme_view(lex);
                            result.push(lex);
                            proof {
                                let sc_next = scan_at(
                                    file@,
                                    *idx as int,
                                    pos@,
                                    end_char,
                                    depth as nat,
                                );
                                assert(sc_prev == cons_item(lv, sc_next));
                                lemma_lexemes_view_push(pre, result@.last());
                                lemma_cons_all_push(lexemes_view(pre), lv, sc_next);
                            }
                        },
                    }
                },
                None => {
                    return Err(Error::UnexpectedChar(c, *pos));
                },
            }
        }
    }
}

/// Nesting levels [`lex`] allows below the top one.
pub const DEFAULT_MAX_DEPTH: usize = 64;

/// What lexing a whole input yields: a single scan of everything, with no
/// closing delimiter expected, starting at row 1, column 1.
pub open spec fn lex_spec(s: Seq<char>, depth: nat) -> Scan {
    scan_at(s, 0, PosV { row: 1, col: 1 }, None, depth)
}

/// Lexes a whole input with an explicit nesting-depth limit. Returns exactly
/// what [`lex_spec`] says; on success the lexemes are well-formed siblings
/// starting no earlier than row 1, column 1.
pub fn lex_with_depth(file: &Vec<char>, max_depth: usize) -> (r: Result<Vec<Lexeme>, Error>)
    requires
        file@.len() + 1 < usize::MAX,
    ensures
        match lex_spec(file@, max_depth as nat) {
            Scan::Good { items, next, pos } => {
                &&& r matches Ok(v) && lexemes_view(v@) == items
                &&& lexemes_wf(items, PosV { row: 1, col: 1 })
            },
            Scan::Fail(e) => r matches Err(err) && err@ == e,
        },
{
    let mut idx: usize = 0;
    let mut pos = Pos(1, 1);
    proof {
        lemma_scan_wf(file@, 0, PosV { row: 1, col: 1 }, None, max_depth as nat);
    }
    do_group(file, &mut idx, &mut pos, None, max_depth)
}

/// Lexes a whole input with the default nesting-depth limit.
pub fn lex(file: &Vec<char>) -> (r: Result<Vec<Lexeme>, Error>)
    requires
        file@.len() + 1 < usize::MAX,
    ensures
        match lex_spec(file@, DEFAULT_MAX_DEPTH as nat) {
            Scan::Good { items, next, pos } => {
                &&& r matches Ok(v) && lexemes_view(v@) == items
                &&& lexemes_wf(items, PosV { row: 1, col: 1 })
            },
            Scan::Fail(e) => r matches Err(err) && err@ == e,
        },
{
    lex_with_depth(file, DEFAULT_MAX_DEPTH)
}

} // verus!
