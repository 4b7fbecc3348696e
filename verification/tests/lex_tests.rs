use cannon::error::Error;
use cannon::lex::{
    do_group, lex, lex_with_depth, Group, GroupType, Lexeme, LexemeBody, Token, TokenType,
};
use cannon::span::{Pos, Span};

fn chars(s: &str) -> Vec<char> {
    s.chars().collect()
}

fn span(r1: usize, c1: usize, r2: usize, c2: usize) -> Span {
    Span { start: Pos(r1, c1), end: Pos(r2, c2) }
}

fn tok(t: Token, r1: usize, c1: usize, r2: usize, c2: usize) -> Lexeme {
    Lexeme::new(span(r1, c1, r2, c2), LexemeBody::Token(t))
}

#[test]
fn empty_input_lexes_to_nothing() {
    assert_eq!(lex(&chars("")), Ok(vec![]));
}

#[test]
fn single_identifier() {
    let got = lex(&chars("hello")).unwrap();
    assert_eq!(got, vec![tok(Token::id(chars("hello")), 1, 1, 1, 6)]);
}

#[test]
fn unicode_identifier_uses_xid_classes() {
    // 'é' is XID_Start and XID_Continue; the whole word is one identifier
    // and columns count characters, not bytes.
    let got = lex(&chars("héllo x")).unwrap();
    assert_eq!(
        got,
        vec![
            tok(Token::id(chars("héllo")), 1, 1, 1, 6),
            tok(Token::id(chars("x")), 1, 7, 1, 8),
        ]
    );
}

#[test]
fn unicode_digit_starts_a_number() {
    // ARABIC-INDIC DIGIT THREE is numeric but not an identifier start.
    let got = lex(&chars("٣")).unwrap();
    assert_eq!(got, vec![tok(Token::num(chars("٣")), 1, 1, 1, 2)]);
}

#[test]
fn underscore_starts_an_identifier() {
    let got = lex(&chars("_ab")).unwrap();
    assert_eq!(got, vec![tok(Token::id(chars("_ab")), 1, 1, 1, 4)]);
}

#[test]
fn number_swallows_identifier_tail() {
    // A digit opens a number and identifier-continue characters stay in it.
    let got = lex(&chars("1abc 0x1F")).unwrap();
    assert_eq!(
        got,
        vec![
            tok(Token::num(chars("1abc")), 1, 1, 1, 5),
            tok(Token::num(chars("0x1F")), 1, 6, 1, 10),
        ]
    );
}

#[test]
fn single_char_puncts() {
    let got = lex(&chars("#;=")).unwrap();
    assert_eq!(
        got,
        vec![
            tok(Token::punct(chars("#")), 1, 1, 1, 2),
            tok(Token::punct(chars(";")), 1, 2, 1, 3),
            tok(Token::punct(chars("=")), 1, 3, 1, 4),
        ]
    );
}

#[test]
fn double_colon_is_one_token() {
    let got = lex(&chars("::")).unwrap();
    assert_eq!(got, vec![tok(Token::punct(chars("::")), 1, 1, 1, 3)]);
}

#[test]
fn separated_colons_stay_separate() {
    let got = lex(&chars(": :")).unwrap();
    assert_eq!(
        got,
        vec![
            tok(Token::punct(chars(":")), 1, 1, 1, 2),
            tok(Token::punct(chars(":")), 1, 3, 1, 4),
        ]
    );
}

#[test]
fn arrow_double_dash_dash_equals_are_one_token() {
    let got = lex(&chars("-> -- -=")).unwrap();
    assert_eq!(
        got,
        vec![
            tok(Token::punct(chars("->")), 1, 1, 1, 3),
            tok(Token::punct(chars("--")), 1, 4, 1, 6),
            tok(Token::punct(chars("-=")), 1, 7, 1, 9),
        ]
    );
}

#[test]
fn lone_dash() {
    let got = lex(&chars("-")).unwrap();
    assert_eq!(got, vec![tok(Token::punct(chars("-")), 1, 1, 1, 2)]);
}

#[test]
fn star_tokens_keep_their_dash_bodies() {
    // The scanner has always captured a dash body for a star; the spans
    // still cover the star itself.
    let got = lex(&chars("* *=")).unwrap();
    assert_eq!(
        got,
        vec![
            tok(Token::punct(chars("-")), 1, 1, 1, 2),
            tok(Token::punct(chars("-=")), 1, 3, 1, 5),
        ]
    );
}

#[test]
fn lone_slash_is_punctuation() {
    let got = lex(&chars("/")).unwrap();
    assert_eq!(got, vec![tok(Token::punct(chars("/")), 1, 1, 1, 2)]);
}

#[test]
fn comment_then_identifier_on_next_line() {
    let got = lex(&chars("// hi\nfn")).unwrap();
    assert_eq!(
        got,
        vec![
            tok(Token::comment(chars("// hi")), 1, 1, 1, 6),
            tok(Token::id(chars("fn")), 2, 1, 2, 3),
        ]
    );
}

#[test]
fn comment_runs_to_end_of_input() {
    let got = lex(&chars("//x")).unwrap();
    assert_eq!(got, vec![tok(Token::comment(chars("//x")), 1, 1, 1, 4)]);
}

#[test]
fn block_comment_is_unsupported() {
    assert_eq!(
        lex(&chars("/* hm */")),
        Err(Error::UnsupportedConstruct(Pos(1, 2)))
    );
}

#[test]
fn string_body_excludes_quotes_span_includes_them() {
    let got = lex(&chars("\"hi\"")).unwrap();
    assert_eq!(got, vec![tok(Token::string(chars("hi")), 1, 1, 1, 5)]);
}

#[test]
fn empty_string_literal() {
    let got = lex(&chars("\"\"")).unwrap();
    assert_eq!(got, vec![tok(Token::string(chars("")), 1, 1, 1, 3)]);
}

#[test]
fn unterminated_string_fails_at_eof() {
    assert_eq!(lex(&chars("\"abc")), Err(Error::Eof(Pos(1, 5))));
}

#[test]
fn newline_inside_string_fails() {
    assert_eq!(
        lex(&chars("\"ab\nc\"")),
        Err(Error::UnexpectedChar('\n', Pos(1, 4)))
    );
}

#[test]
fn escape_inside_string_is_unsupported() {
    assert_eq!(
        lex(&chars("\"a\\n\"")),
        Err(Error::UnsupportedConstruct(Pos(1, 3)))
    );
}

#[test]
fn unterminated_group_fails_at_eof() {
    assert_eq!(lex(&chars("(")), Err(Error::Eof(Pos(1, 2))));
}

#[test]
fn stray_closer_is_unexpected() {
    assert_eq!(lex(&chars(")")), Err(Error::UnexpectedChar(')', Pos(1, 1))));
}

#[test]
fn unknown_char_is_unexpected() {
    assert_eq!(lex(&chars("?")), Err(Error::UnexpectedChar('?', Pos(1, 1))));
}

#[test]
fn nesting_brace_paren_identifier() {
    let got = lex(&chars("{(a)}")).unwrap();
    let inner = Lexeme::new(
        span(1, 2, 1, 5),
        LexemeBody::Group(GroupType::Paren.build(vec![tok(Token::id(chars("a")), 1, 3, 1, 4)])),
    );
    let outer = Lexeme::new(
        span(1, 1, 1, 6),
        LexemeBody::Group(GroupType::Brace.build(vec![inner])),
    );
    assert_eq!(got, vec![outer]);
}

#[test]
fn brackets_lex_as_a_group() {
    let got = lex(&chars("[1]")).unwrap();
    let expected = Lexeme::new(
        span(1, 1, 1, 4),
        LexemeBody::Group(GroupType::Bracket.build(vec![tok(Token::num(chars("1")), 1, 2, 1, 3)])),
    );
    assert_eq!(got, vec![expected]);
}

#[test]
fn mismatched_closer_is_unexpected() {
    assert_eq!(lex(&chars("(]")), Err(Error::UnexpectedChar(']', Pos(1, 2))));
}

#[test]
fn whitespace_moves_rows_and_columns() {
    let got = lex(&chars("a  b\n c")).unwrap();
    assert_eq!(
        got,
        vec![
            tok(Token::id(chars("a")), 1, 1, 1, 2),
            tok(Token::id(chars("b")), 1, 4, 1, 5),
            tok(Token::id(chars("c")), 2, 2, 2, 3),
        ]
    );
}

#[test]
fn nesting_past_the_depth_limit_fails() {
    assert_eq!(
        lex_with_depth(&chars("((()))"), 2),
        Err(Error::TooDeep(Pos(1, 3)))
    );
    assert!(lex_with_depth(&chars("((()))"), 3).is_ok());
}

#[test]
fn keyword_detection() {
    assert!(Token::id(chars("fn")).is_keyword());
    assert!(Token::id(chars("pub")).is_keyword());
    assert!(Token::id(chars("type")).is_keyword());
    assert!(!Token::id(chars("foo")).is_keyword());
    assert!(!Token::id(chars("fnx")).is_keyword());
    // Only identifiers count, whatever the body says.
    assert!(!Token::punct(chars("fn")).is_keyword());
}

#[test]
fn do_group_stops_at_its_terminator() {
    let input = chars("a)b");
    let mut idx: usize = 0;
    let mut pos = Pos(1, 1);
    let got = do_group(&input, &mut idx, &mut pos, Some(')'), 4).unwrap();
    assert_eq!(got, vec![tok(Token::id(chars("a")), 1, 1, 1, 2)]);
    assert_eq!(idx, 2);
    assert_eq!(pos, Pos(1, 3));
}

#[test]
fn group_type_helpers() {
    assert_eq!(GroupType::from_start_char('('), Some(GroupType::Paren));
    assert_eq!(GroupType::from_start_char('['), Some(GroupType::Bracket));
    assert_eq!(GroupType::from_start_char('{'), Some(GroupType::Brace));
    assert_eq!(GroupType::from_start_char('x'), None);
    assert_eq!(GroupType::Paren.end_char(), ')');
    assert_eq!(GroupType::Bracket.end_char(), ']');
    assert_eq!(GroupType::Brace.end_char(), '}');
    let g: Group = GroupType::Paren.build(vec![]);
    assert_eq!(g.ty, GroupType::Paren);
    assert!(g.body.is_empty());
}

#[test]
fn token_constructors_set_their_class() {
    assert_eq!(Token::comment(chars("//")).ty, TokenType::Comment);
    assert_eq!(Token::id(chars("a")).ty, TokenType::Id);
    assert_eq!(Token::num(chars("1")).ty, TokenType::Num);
    assert_eq!(Token::punct(chars(";")).ty, TokenType::Punct);
    assert_eq!(Token::string(chars("s")).ty, TokenType::String);
}

#[test]
fn a_small_program_lexes_fully() {
    let got = lex(&chars("pub fn main() {\n    x = 42; // set\n}")).unwrap();
    assert_eq!(got.len(), 5);
    assert_eq!(got[0], tok(Token::id(chars("pub")), 1, 1, 1, 4));
    assert_eq!(got[1], tok(Token::id(chars("fn")), 1, 5, 1, 7));
    assert_eq!(got[2], tok(Token::id(chars("main")), 1, 8, 1, 12));
    match &got[3].body {
        LexemeBody::Group(g) => {
            assert_eq!(g.ty, GroupType::Paren);
            assert!(g.body.is_empty());
        },
        LexemeBody::Token(_) => panic!("expected a group"),
    }
    assert_eq!(got[3].span, span(1, 12, 1, 14));
    match &got[4].body {
        LexemeBody::Group(g) => {
            assert_eq!(g.ty, GroupType::Brace);
            assert_eq!(g.body.len(), 5);
            assert_eq!(g.body[0], tok(Token::id(chars("x")), 2, 5, 2, 6));
            assert_eq!(g.body[1], tok(Token::punct(chars("=")), 2, 7, 2, 8));
            assert_eq!(g.body[2], tok(Token::num(chars("42")), 2, 9, 2, 11));
            assert_eq!(g.body[3], tok(Token::punct(chars(";")), 2, 11, 2, 12));
            assert_eq!(g.body[4], tok(Token::comment(chars("// set")), 2, 13, 2, 19));
        },
        LexemeBody::Token(_) => panic!("expected a group"),
    }
    assert_eq!(got[4].span, span(1, 15, 3, 2));
}
