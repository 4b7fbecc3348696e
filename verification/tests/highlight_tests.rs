use cannon::highlight::{highlight, highlight_group};
use cannon::lex::lex;
use cannon::span::Pos;

fn chars(s: &str) -> Vec<char> {
    s.chars().collect()
}

fn text(cs: &[char]) -> String {
    cs.iter().collect()
}

/// Drops every color code (escape through the following `m`) from a styled
/// rendering, leaving the bare text.
fn strip_codes(styled: &[char]) -> Vec<char> {
    let mut out: Vec<char> = Vec::new();
    let mut i: usize = 0;
    while i < styled.len() {
        if styled[i] == '\u{1B}' {
            while i < styled.len() && styled[i] != 'm' {
                i += 1;
            }
            i += 1;
        } else {
            out.push(styled[i]);
            i += 1;
        }
    }
    out
}

#[test]
fn empty_tree_renders_just_the_reset() {
    assert_eq!(text(&highlight(&Vec::new())), "\u{1B}[0m");
}

#[test]
fn keyword_renders_red() {
    let tree = lex(&chars("fn")).unwrap();
    assert_eq!(text(&highlight(&tree)), "\u{1B}[31mfn\u{1B}[0m");
}

#[test]
fn plain_identifier_renders_white() {
    let tree = lex(&chars("foo")).unwrap();
    assert_eq!(text(&highlight(&tree)), "\u{1B}[37mfoo\u{1B}[0m");
}

#[test]
fn number_renders_cyan() {
    let tree = lex(&chars("42")).unwrap();
    assert_eq!(text(&highlight(&tree)), "\u{1B}[36m42\u{1B}[0m");
}

#[test]
fn comment_renders_blue() {
    let tree = lex(&chars("// c")).unwrap();
    assert_eq!(text(&highlight(&tree)), "\u{1B}[34m// c\u{1B}[0m");
}

#[test]
fn punctuation_renders_yellow() {
    let tree = lex(&chars(";")).unwrap();
    assert_eq!(text(&highlight(&tree)), "\u{1B}[33m;\u{1B}[0m");
}

#[test]
fn string_renders_green_with_quotes_restored() {
    let tree = lex(&chars("\"hi\"")).unwrap();
    assert_eq!(text(&highlight(&tree)), "\u{1B}[32m\"hi\"\u{1B}[0m");
}

#[test]
fn group_renders_both_delimiters_magenta() {
    let tree = lex(&chars("()")).unwrap();
    assert_eq!(text(&highlight(&tree)), "\u{1B}[35m(\u{1B}[35m)\u{1B}[0m");
}

#[test]
fn gaps_are_rebuilt_from_spans() {
    let tree = lex(&chars("a  b\nc")).unwrap();
    assert_eq!(
        text(&highlight(&tree)),
        "\u{1B}[37ma  \u{1B}[37mb\n\u{1B}[37mc\u{1B}[0m"
    );
}

#[test]
fn highlight_group_moves_the_cursor() {
    let tree = lex(&chars("ab cd")).unwrap();
    let mut pos = Pos(1, 1);
    let out = highlight_group(&mut pos, &tree);
    assert_eq!(text(&out), "\u{1B}[37mab \u{1B}[37mcd");
    assert_eq!(pos, Pos(1, 6));
}

#[test]
fn stripped_rendering_reconstructs_the_text() {
    for input in [
        "fn main() { x = 42; } // done",
        "a :: b -> c -= d",
        "{ ( [ \"s\" ] ) }",
        "# ; = : / \"lit\"",
        "fn f()\n{\n  // c\n  g(1);\n}",
    ] {
        let tree = lex(&chars(input)).unwrap();
        let styled = highlight(&tree);
        assert_eq!(text(&strip_codes(&styled)), input, "input: {input:?}");
    }
}

#[test]
fn retokenizing_stripped_output_gives_the_same_tree() {
    // The star token's captured body is a dash, so its rendering re-lexes as
    // the same dash-bodied token; every other class renders as it was read.
    for input in [
        "",
        "fn main() { x = 42; } // done",
        "a :: b -> c -= d",
        "* *=",
        "{ ( [ \"s t\" ] ) }",
        "pub type T = U;\n// end\n",
        "deep { a ( b [ c ] ) }",
    ] {
        let tree = lex(&chars(input)).unwrap();
        let stripped = strip_codes(&highlight(&tree));
        let again = lex(&stripped).unwrap();
        assert_eq!(tree, again, "input: {input:?}");
    }
}
