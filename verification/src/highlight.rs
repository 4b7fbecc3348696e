//! The highlighter: reconstructs the source text, with color codes, from the
//! lexeme tree alone.
//!
//! Original whitespace is not retained, so it is rebuilt purely from the gap
//! between the cursor and each lexeme's recorded start: a newline for every
//! missing row, then a space for every missing column. Delimiter characters
//! of groups are likewise rebuilt from the group kind. The exact output is
//! fixed by [`render_items`]; the tree must be well-formed (as every tree
//! produced by [`crate::lex::lex`] is), since a span that would move the
//! cursor backward has no rendering.

use crate::lex::{
    closing_of, end_of, esc_free, items_end, keyword_body, lemma_lexemes_view_len_index,
    lemma_lexemes_wf_cons, lexeme_esc_free, lexeme_view, lexemes_esc_free, lexemes_view,
    lexemes_wf, opening_of, start_of, GroupType, Lexeme, LexemeBody, LexemeV, TokenType,
};
use crate::span::{pos_le, pos_next_col, pos_prev_col, Pos, PosV};
use vstd::prelude::*;

verus! {

/// A five-character color code: escape, bracket, two digits, `m`.
pub open spec fn esc(a: char, b: char) -> Seq<char> {
    seq!['\x1B', '[', a, b, 'm']
}

/// The style reset emitted at the end of every rendering.
pub open spec fn reset_code() -> Seq<char> {
    seq!['\x1B', '[', '0', 'm']
}

/// The color code emitted before a token: blue for comments, red for
/// reserved words, white for other identifiers, cyan for numbers, yellow
/// for punctuation, green for strings.
pub open spec fn color_of(ty: TokenType, kw: bool) -> Seq<char> {
    match ty {
        TokenType::Comment => esc('3', '4'),
        TokenType::Id => if kw {
            esc('3', '1')
        } else {
            esc('3', '7')
        },
        TokenType::Num => esc('3', '6'),
        TokenType::Punct => esc('3', '3'),
        TokenType::String => esc('3', '2'),
    }
}

/// The color code emitted before each delimiter of a group.
pub open spec fn group_color() -> Seq<char> {
    esc('3', '5')
}

/// The whitespace bridging the cursor at `a` to a target `b` at or after
/// it: a newline for every missing row (resetting the column), then a space
/// for every missing column.
pub open spec fn gap_text(a: PosV, b: PosV) -> Seq<char>
    decreases b.row - a.row, b.col - a.col,
{
    if a.row < b.row {
        seq!['\n'] + gap_text(PosV { row: a.row + 1, col: 1 }, b)
    } else if a.row == b.row && a.col < b.col {
        seq![' '] + gap_text(pos_next_col(a), b)
    } else {
        Seq::empty()
    }
}

/// The text emitted for one lexeme, the cursor already standing at its
/// start. A token is its color code and its body, a string body re-wrapped
/// in quotes. A group is its color code and opening delimiter, its rendered
/// children, the whitespace up to one column before the group's end, and its
/// color code and closing delimiter.
pub open spec fn render_one(l: LexemeV) -> Seq<char>
    decreases l,
{
    match l {
        LexemeV::Token { span, ty, body } => color_of(
            ty,
            ty == TokenType::Id && keyword_body(body),
        ) + if ty == TokenType::String {
            seq!['"'] + body + seq!['"']
        } else {
            body
        },
        LexemeV::Group { span, ty, children } => group_color() + seq![opening_of(ty)]
            + render_items(children, pos_next_col(span.start)) + gap_text(
            items_end(children, pos_next_col(span.start)),
            pos_prev_col(span.end),
        ) + group_color() + seq![closing_of(ty)],
    }
}

/// The text emitted for a sibling sequence with the cursor at `pos`: for
/// each lexeme in order, the whitespace bridging the gap to its start, then
/// its rendering; the cursor moves to its end.
pub open spec fn render_items(items: Seq<LexemeV>, pos: PosV) -> Seq<char>
    decreases items,
{
    if items.len() == 0 {
        Seq::empty()
    } else {
        gap_text(pos, start_of(items[0])) + render_one(items[0]) + render_items(
            items.subrange(1, items.len() as int),
            end_of(items[0]),
        )
    }
}

// ---------------------------------------------------------------------------
// The rendering without its color codes.
// ---------------------------------------------------------------------------
/// The plain text a rendering of one lexeme carries: its body, a string
/// body re-wrapped in quotes, a group's delimiters around its children.
pub open spec fn plain_one(l: LexemeV) -> Seq<char>
    decreases l,
{
    match l {
        LexemeV::Token { span, ty, body } => if ty == TokenType::String {
            seq!['"'] + body + seq!['"']
        } else {
            body
        },
        LexemeV::Group { span, ty, children } => seq![opening_of(ty)] + plain_items(
            children,
            pos_next_col(span.start),
        ) + gap_text(items_end(children, pos_next_col(span.start)), pos_prev_col(span.end))
            + seq![closing_of(ty)],
    }
}

/// The plain text a rendering of a sibling sequence carries: the same walk
/// as [`render_items`] with the color codes left out.
pub open spec fn plain_items(items: Seq<LexemeV>, pos: PosV) -> Seq<char>
    decreases items,
{
    if items.len() == 0 {
        Seq::empty()
    } else {
        gap_text(pos, start_of(items[0])) + plain_one(items[0]) + plain_items(
            items.subrange(1, items.len() as int),
            end_of(items[0]),
        )
    }
}

/// How many characters stand before the next `m` at or after `i`.
pub open spec fn code_run_len(s: Seq<char>, i: int) -> nat
    decreases crate::lex::rem(s, i),
{
    if 0 <= i < s.len() && s[i] != 'm' {
        1 + code_run_len(s, i + 1)
    } else {
        0
    }
}

/// `s` with every color code removed: each escape character is dropped
/// together with everything through the next `m`.
pub open spec fn strip_codes(s: Seq<char>) -> Seq<char>
    decreases s.len(),
{
    if s.len() == 0 {
        Seq::empty()
    } else if s[0] == '\x1B' {
        let j: int = code_run_len(s, 0) as int;
        if j >= s.len() {
            Seq::empty()
        } else {
            strip_codes(s.subrange(j + 1, s.len() as int))
        }
    } else {
        seq![s[0]] + strip_codes(s.subrange(1, s.len() as int))
    }
}

proof fn lemma_strip_code_prefix(a: char, b: char, rest: Seq<char>)
    requires
        a != 'm',
        b != 'm',
    ensures
        strip_codes(esc(a, b) + rest) == strip_codes(rest),
    decreases rest.len(),
{
    let s = esc(a, b) + rest;
    assert(s[0] == '\x1B' && s[1] == '[' && s[2] == a && s[3] == b && s[4] == 'm');
    assert(code_run_len(s, 4) == 0);
    assert(code_run_len(s, 3) == 1);
    assert(code_run_len(s, 2) == 2);
    assert(code_run_len(s, 1) == 3);
    assert(code_run_len(s, 0) == 4);
    assert(s.subrange(5, s.len() as int) =~= rest);
}

proof fn lemma_strip_plain_prefix(t: Seq<char>, rest: Seq<char>)
    requires
        esc_free(t),
    ensures
        strip_codes(t + rest) == t + strip_codes(rest),
    decreases t.len(),
{
    if t.len() == 0 {
        assert(t + rest =~= rest);
        assert(t + strip_codes(rest) =~= strip_codes(rest));
    } else {
        let s = t + rest;
        assert(s[0] == t[0]);
        assert(s.subrange(1, s.len() as int) =~= t.subrange(1, t.len() as int) + rest);
        lemma_strip_plain_prefix(t.subrange(1, t.len() as int), rest);
        assert(seq![t[0]] + (t.subrange(1, t.len() as int) + strip_codes(rest)) =~= t
            + strip_codes(rest));
    }
}

proof fn lemma_gap_text_esc_free(a: PosV, b: PosV)
    ensures
        esc_free(gap_text(a, b)),
    decreases b.row - a.row, b.col - a.col,
{
    if a.row < b.row {
        lemma_gap_text_esc_free(PosV { row: a.row + 1, col: 1 }, b);
    } else if a.row == b.row && a.col < b.col {
        lemma_gap_text_esc_free(pos_next_col(a), b);
    }
}

proof fn lemma_strip_color_prefix(ty: TokenType, kw: bool, rest: Seq<char>)
    ensures
        strip_codes(color_of(ty, kw) + rest) == strip_codes(rest),
{
    match ty {
        TokenType::Comment => lemma_strip_code_prefix('3', '4', rest),
        TokenType::Id => if kw {
            lemma_strip_code_prefix('3', '1', rest)
        } else {
            lemma_strip_code_prefix('3', '7', rest)
        },
        TokenType::Num => lemma_strip_code_prefix('3', '6', rest),
        TokenType::Punct => lemma_strip_code_prefix('3', '3', rest),
        TokenType::String => lemma_strip_code_prefix('3', '2', rest),
    }
}

proof fn lemma_strip_render_one(l: LexemeV, t: Seq<char>)
    requires
        lexeme_esc_free(l),
    ensures
        strip_codes(render_one(l) + t) == plain_one(l) + strip_codes(t),
    decreases l,
{
    match l {
        LexemeV::Token { span, ty, body } => {
            let kw = ty == TokenType::Id && keyword_body(body);
            let colorseq = color_of(ty, kw);
            let bodypart = if ty == TokenType::String {
                seq!['"'] + body + seq!['"']
            } else {
                body
            };
            assert(esc_free(bodypart)) by {
                if ty == TokenType::String {
                    assert forall|k: int| 0 <= k < bodypart.len() implies bodypart[k]
                        != '\x1B' by {
                        if 1 <= k < body.len() + 1 {
                            assert(bodypart[k] == body[k - 1]);
                        }
                    }
                }
            }
            assert(render_one(l) + t =~= colorseq + (bodypart + t));
            lemma_strip_color_prefix(ty, kw, bodypart + t);
            lemma_strip_plain_prefix(bodypart, t);
        },
        LexemeV::Group { span, ty, children } => {
            let p1 = pos_next_col(span.start);
            let inner = render_items(children, p1);
            let gap2 = gap_text(items_end(children, p1), pos_prev_col(span.end));
            let oc = seq![opening_of(ty)];
            let cc = seq![closing_of(ty)];
            let x2 = gap2 + (group_color() + (cc + t));
            let x1 = inner + x2;
            assert(render_one(l) + t =~= group_color() + (oc + x1));
            lemma_strip_code_prefix('3', '5', oc + x1);
            assert(esc_free(oc));
            assert(esc_free(cc));
            lemma_strip_plain_prefix(oc, x1);
            lemma_strip_render_items(children, p1, x2);
            lemma_gap_text_esc_free(items_end(children, p1), pos_prev_col(span.end));
            lemma_strip_plain_prefix(gap2, group_color() + (cc + t));
            lemma_strip_code_prefix('3', '5', cc + t);
            lemma_strip_plain_prefix(cc, t);
            assert(strip_codes(render_one(l) + t) == oc + (plain_items(children, p1) + (gap2 + (cc
                + strip_codes(t)))));
            assert(oc + (plain_items(children, p1) + (gap2 + (cc + strip_codes(t)))) =~= plain_one(
                l,
            ) + strip_codes(t));
        },
    }
}

proof fn lemma_strip_render_items(items: Seq<LexemeV>, pos: PosV, t: Seq<char>)
    requires
        lexemes_esc_free(items),
    ensures
        strip_codes(render_items(items, pos) + t) == plain_items(items, pos) + strip_codes(t),
    decreases items,
{
    if items.len() == 0 {
        assert(render_items(items, pos) + t =~= t);
        assert(plain_items(items, pos) + strip_codes(t) =~= strip_codes(t));
    } else {
        let first = items[0];
        let rest = items.subrange(1, items.len() as int);
        let gap = gap_text(pos, start_of(first));
        let rest_r = render_items(rest, end_of(first));
        assert(render_items(items, pos) + t =~= gap + (render_one(first) + (rest_r + t)));
        lemma_gap_text_esc_free(pos, start_of(first));
        lemma_strip_plain_prefix(gap, render_one(first) + (rest_r + t));
        lemma_strip_render_one(first, rest_r + t);
        lemma_strip_render_items(rest, end_of(first), t);
        assert(gap + (plain_one(first) + (plain_items(rest, end_of(first)) + strip_codes(t)))
            =~= plain_items(items, pos) + strip_codes(t));
    }
}

/// Stripping the color codes from a rendering leaves exactly the
/// reconstructed source text: the whitespace rebuilt from the spans, each
/// token's text (strings re-quoted), and each group's delimiters. It holds
/// of every tree whose token bodies are free of the escape character, as
/// every tree lexed from escape-free input is.
pub proof fn lemma_strip_render(items: Seq<LexemeV>, pos: PosV)
    requires
        lexemes_esc_free(items),
    ensures
        strip_codes(render_items(items, pos)) == plain_items(items, pos),
{
    lemma_strip_render_items(items, pos, Seq::empty());
    assert(render_items(items, pos) + Seq::<char>::empty() =~= render_items(items, pos));
    assert(plain_items(items, pos) + Seq::<char>::empty() =~= plain_items(items, pos));
}

/// The same, for the highlighter's full output: the trailing style reset is
/// a color code too, so stripping the codes from everything [`highlight`]
/// returns leaves exactly the reconstructed source text.
pub proof fn lemma_strip_highlight(items: Seq<LexemeV>, pos: PosV)
    requires
        lexemes_esc_free(items),
    ensures
        strip_codes(render_items(items, pos) + reset_code()) == plain_items(items, pos),
{
    lemma_strip_render_items(items, pos, reset_code());
    let r = reset_code();
    assert(r[0] == '\x1B' && r[1] == '[' && r[2] == '0' && r[3] == 'm');
    assert(code_run_len(r, 3) == 0);
    assert(code_run_len(r, 2) == 1);
    assert(code_run_len(r, 1) == 2);
    assert(code_run_len(r, 0) == 3);
    assert(r.subrange(4, 4) =~= Seq::<char>::empty());
    assert(strip_codes(r) == Seq::<char>::empty()) by {
        reveal_with_fuel(strip_codes, 2);
    }
    assert(plain_items(items, pos) + Seq::<char>::empty() =~= plain_items(items, pos));
}

/// Emits the whitespace bridging the cursor to `target` and moves the
/// cursor there.
fn advance_to(pos: &mut Pos, target: Pos, out: &mut Vec<char>)
    requires
        pos_le(old(pos)@, target@),
        target.1 >= 1,
    ensures
        final(out)@ == old(out)@ + gap_text(old(pos)@, target@),
        *final(pos) == target,
{
    loop
        invariant
            pos_le(pos@, target@),
            target.1 >= 1,
            out@ + gap_text(pos@, target@) == old(out)@ + gap_text(old(pos)@, target@),
        decreases target@.row - pos@.row, target@.col - pos@.col,
    {
        if pos.0 == target.0 && pos.1 == target.1 {
            proof {
                assert(gap_text(pos@, target@) =~= Seq::<char>::empty());
                assert(out@ + Seq::<char>::empty() =~= out@);
            }
            return ;
        }
        let ghost before = out@;
        let ghost cur = pos@;
        if pos.0 < target.0 {
            out.push('\n');
            pos.0 += 1;
            pos.1 = 1;
            proof {
                assert(gap_text(cur, target@) == seq!['\n'] + gap_text(pos@, target@));
                assert(before.push('\n') + gap_text(pos@, target@) =~= before + gap_text(
                    cur,
                    target@,
                ));
            }
        } else {
            proof {
                assert(pos@.row == target@.row && pos@.col < target@.col);
            }
            out.push(' ');
            pos.1 += 1;
            proof {
                assert(gap_text(cur, target@) == seq![' '] + gap_text(pos@, target@));
                assert(before.push(' ') + gap_text(pos@, target@) =~= before + gap_text(
                    cur,
                    target@,
                ));
            }
        }
    }
}

/// Appends every character of `src` to `out`.
fn push_all(out: &mut Vec<char>, src: &Vec<char>)
    ensures
        final(out)@ == old(out)@ + src@,
{
    let mut j: usize = 0;
    proof {
        assert(old(out)@ =~= old(out)@ + src@.subrange(0, 0));
    }
    loop
        invariant
            j <= src@.len(),
            out@ == old(out)@ + src@.subrange(0, j as int),
        decreases src@.len() - j,
    {
        if j == src.len() {
            proof {
                assert(src@.subrange(0, j as int) =~= src@);
            }
            return ;
        }
        out.push(src[j]);
        proof {
            assert((old(out)@ + src@.subrange(0, j as int)).push(src@[j as int]) =~= old(out)@
                + src@.subrange(0, (j + 1) as int));
        }
        j += 1;
    }
}

/// Appends the five characters of a color code to `out`.
fn push_esc(out: &mut Vec<char>, a: char, b: char)
    ensures
        final(out)@ == old(out)@ + esc(a, b),
{
    out.push('\x1B');
    out.push('[');
    out.push(a);
    out.push(b);
    out.push('m');
    proof {
        assert(old(out)@.push('\x1B').push('[').push(a).push(b).push('m') =~= old(out)@ + esc(
            a,
            b,
        ));
    }
}

/// Renders one sibling sequence, moving the cursor from where it stands to
/// the end of the last lexeme. Returns exactly the text [`render_items`]
/// says.
#[verifier::rlimit(100)]
pub fn highlight_group(pos: &mut Pos, group: &Vec<Lexeme>) -> (out: Vec<char>)
    requires
        lexemes_wf(lexemes_view(group@), old(pos)@),
    ensures
        out@ == render_items(lexemes_view(group@), old(pos)@),
        final(pos)@ == items_end(lexemes_view(group@), old(pos)@),
    decreases group@,
{
    let mut out: Vec<char> = Vec::new();
    let mut i: usize = 0;
    let ghost views = lexemes_view(group@);
    proof {
        lemma_lexemes_view_len_index(group@);
        assert(views.subrange(0, views.len() as int) =~= views);
    }
    loop
        invariant
            i <= group@.len(),
            views == lexemes_view(group@),
            views.len() == group@.len(),
            forall|k: int| 0 <= k < group@.len() ==> views[k] == lexeme_view(group@[k]),
            lexemes_wf(views.subrange(i as int, views.len() as int), pos@),
            out@ + render_items(views.subrange(i as int, views.len() as int), pos@)
                == render_items(views, old(pos)@),
            items_end(views.subrange(i as int, views.len() as int), pos@) == items_end(
                views,
                old(pos)@,
            ),
        decreases group@.len() - i,
    {
        if i == group.len() {
            proof {
                assert(views.subrange(i as int, views.len() as int).len() == 0);
                assert(out@ + Seq::<char>::empty() =~= out@);
            }
            return out;
        }
        let ghost posprev = pos@;
        let ghost outprev = out@;
        let ghost remaining = views.subrange(i as int, views.len() as int);
        let ghost rest = views.subrange(i + 1, views.len() as int);
        let ghost cur = views[i as int];
        proof {
            assert(remaining[0] == cur);
            assert(seq![cur] + rest =~= remaining);
            assert(remaining.subrange(1, remaining.len() as int) =~= rest);
            lemma_lexemes_wf_cons(cur, rest, posprev);
        }
        let lexeme = &group[i];
        advance_to(pos, lexeme.span.start, &mut out);
        match &lexeme.body {
            LexemeBody::Token(token) => {
                let kw = token.is_keyword();
                match token.ty {
                    TokenType::Comment => push_esc(&mut out, '3', '4'),
                    TokenType::Id => if kw {
                        push_esc(&mut out, '3', '1')
                    } else {
                        push_esc(&mut out, '3', '7')
                    },
                    TokenType::Num => push_esc(&mut out, '3', '6'),
                    TokenType::Punct => push_esc(&mut out, '3', '3'),
                    TokenType::String => push_esc(&mut out, '3', '2'),
                }
                if token.ty == TokenType::String {
                    out.push('"');
                    push_all(&mut out, &token.body);
                    out.push('"');
                } else {
                    push_all(&mut out, &token.body);
                }
                *pos = lexeme.span.end;
                proof {
                    assert(out@ =~= outprev + gap_text(posprev, start_of(cur)) + render_one(cur));
                }
            },
            LexemeBody::Group(g) => {
                push_esc(&mut out, '3', '5');
                let oc = match g.ty {
                    GroupType::Brace => '{',
                    GroupType::Bracket => '[',
                    GroupType::Paren => '(',
                };
                out.push(oc);
                pos.1 += 1;
                let inner = highlight_group(pos, &g.body);
                push_all(&mut out, &inner);
                let close_target = Pos(lexeme.span.end.0, lexeme.span.end.1 - 1);
                advance_to(pos, close_target, &mut out);
                push_esc(&mut out, '3', '5');
                let cc = match g.ty {
                    GroupType::Brace => '}',
                    GroupType::Bracket => ']',
                    GroupType::Paren => ')',
                };
                out.push(cc);
                pos.1 += 1;
                proof {
                    assert(out@ =~= outprev + gap_text(posprev, start_of(cur)) + render_one(cur));
                    assert(pos@ == end_of(cur));
                }
            },
        }
        proof {
            assert(render_items(remaining, posprev) == gap_text(posprev, start_of(cur))
                + render_one(cur) + render_items(rest, end_of(cur)));
            assert(out@ + render_items(rest, pos@) =~= outprev + render_items(
                remaining,
                posprev,
            ));
        }
        i += 1;
    }
}

/// Renders a whole lexeme tree: the reconstructed source text with color
/// codes, always ending with the style reset. An empty tree yields just the
/// reset sequence.
pub fn highlight(file: &Vec<Lexeme>) -> (out: Vec<char>)
    requires
        lexemes_wf(lexemes_view(file@), PosV { row: 1, col: 1 }),
    ensures
        out@ == render_items(lexemes_view(file@), PosV { row: 1, col: 1 }) + reset_code(),
        file@.len() == 0 ==> out@ == reset_code(),
{
    let mut pos = Pos(1, 1);
    let ghost rendered = render_items(lexemes_view(file@), PosV { row: 1, col: 1 });
    let mut out = highlight_group(&mut pos, file);
    out.push('\x1B');
    out.push('[');
    out.push('0');
    out.push('m');
    proof {
        assert(rendered.push('\x1B').push('[').push('0').push('m') =~= rendered + reset_code());
        if file@.len() == 0 {
            assert(lexemes_view(file@).len() == 0);
            assert(Seq::<char>::empty() + reset_code() =~= reset_code());
        }
    }
    out
}

} // verus!
