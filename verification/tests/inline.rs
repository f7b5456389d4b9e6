use speedy_md::lexer::grammar::{Emphasis, Mark};
use speedy_md::lexer::inline::{find_mark, opens_empty_span, scan_inline, slice};
use speedy_md::Token;

fn scan(content: &str) -> Vec<Token<'_>> {
    scan_inline(content, 0, content.len())
}

#[test]
fn plain_text_is_one_token() {
    assert_eq!(scan("plain text"), vec![Token::Text("plain text")]);
}

#[test]
fn empty_region_has_no_tokens() {
    assert_eq!(scan(""), vec![]);
    assert_eq!(scan_inline("abc", 1, 1), vec![]);
}

#[test]
fn region_inside_a_buffer() {
    assert_eq!(
        scan_inline("ab*cd*ef", 1, 7),
        vec![
            Token::Text("b"),
            Token::Italic,
            Token::Text("cd"),
            Token::ClosedItalic,
            Token::Text("e")
        ]
    );
}

#[test]
fn delimiter_at_the_end_of_the_region_is_not_looked_past() {
    assert_eq!(
        scan_inline("a**", 0, 2),
        vec![Token::Text("a"), Token::Italic]
    );
}

#[test]
fn bold_is_looked_for_before_italic() {
    assert_eq!(
        scan("**a**"),
        vec![Token::Bold, Token::Text("a"), Token::ClosedBold]
    );
    assert_eq!(
        scan("***a***"),
        vec![
            Token::Bold,
            Token::Italic,
            Token::Text("a"),
            Token::ClosedBold,
            Token::ClosedItalic
        ]
    );
}

#[test]
fn underscore_is_italic() {
    assert_eq!(
        scan("_a_ *b_"),
        vec![
            Token::Italic,
            Token::Text("a"),
            Token::ClosedItalic,
            Token::Text(" "),
            Token::Italic,
            Token::Text("b"),
            Token::ClosedItalic
        ]
    );
}

#[test]
fn code_span_keeps_emphasis_delimiters_as_text() {
    assert_eq!(
        scan("`a *b* **c** _d_`"),
        vec![
            Token::Code,
            Token::Text("a *b* **c** _d_"),
            Token::ClosedCode
        ]
    );
}

#[test]
fn backtick_counts_inside_emphasis() {
    assert_eq!(
        scan("**a `b** c` d**"),
        vec![
            Token::Bold,
            Token::Text("a "),
            Token::Code,
            Token::Text("b** c"),
            Token::ClosedCode,
            Token::Text(" d"),
            Token::ClosedBold
        ]
    );
}

#[test]
fn spans_of_different_kinds_may_cross() {
    assert_eq!(
        scan("**a *b** c*"),
        vec![
            Token::Bold,
            Token::Text("a "),
            Token::Italic,
            Token::Text("b"),
            Token::ClosedBold,
            Token::Text(" c"),
            Token::ClosedItalic
        ]
    );
}

#[test]
fn empty_spans_are_dropped() {
    assert_eq!(scan("****"), vec![]);
    assert_eq!(scan("``"), vec![]);
    assert_eq!(scan("__"), vec![]);
    assert_eq!(scan("*_"), vec![]);
    assert_eq!(scan("a****b"), vec![Token::Text("a"), Token::Text("b")]);
    assert_eq!(scan("a``b"), vec![Token::Text("a"), Token::Text("b")]);
}

#[test]
fn span_around_an_empty_span_is_kept() {
    assert_eq!(scan("**__**"), vec![Token::Bold, Token::ClosedBold]);
    assert_eq!(
        scan("_**_"),
        vec![Token::Italic, Token::Bold, Token::ClosedItalic]
    );
}

#[test]
fn closing_delimiter_is_not_taken_for_an_empty_span() {
    assert_eq!(
        scan("**a****b**"),
        vec![
            Token::Bold,
            Token::Text("a"),
            Token::ClosedBold,
            Token::Bold,
            Token::Text("b"),
            Token::ClosedBold
        ]
    );
    assert_eq!(
        scan("`a```"),
        vec![Token::Code, Token::Text("a"), Token::ClosedCode]
    );
}

#[test]
fn unclosed_spans_stay_open() {
    assert_eq!(scan("**"), vec![Token::Bold]);
    assert_eq!(scan("*"), vec![Token::Italic]);
    assert_eq!(scan("`"), vec![Token::Code]);
    assert_eq!(
        scan("a ** b"),
        vec![Token::Text("a "), Token::Bold, Token::Text(" b")]
    );
}

#[test]
fn text_of_several_bytes_per_character() {
    assert_eq!(
        scan("\u{e9}*\u{1f600}*\u{4e16}"),
        vec![
            Token::Text("\u{e9}"),
            Token::Italic,
            Token::Text("\u{1f600}"),
            Token::ClosedItalic,
            Token::Text("\u{4e16}")
        ]
    );
}

#[test]
fn slice_returns_the_bytes_of_the_range() {
    assert_eq!(slice("h\u{e9}llo", 0, 3), "h\u{e9}");
    assert_eq!(slice("h\u{e9}llo", 3, 6), "llo");
    assert_eq!(slice("h\u{e9}llo", 1, 1), "");
    assert_eq!(slice("abc", 0, 3), "abc");
}

#[test]
fn marks_are_found_by_their_first_bytes() {
    let bytes = b"a**b*c_d`e";
    assert_eq!(find_mark(bytes, 0, 10, false), None);
    assert_eq!(find_mark(bytes, 1, 10, false), Some(Mark::Bold));
    assert_eq!(find_mark(bytes, 2, 10, false), Some(Mark::Italic));
    assert_eq!(find_mark(bytes, 4, 10, false), Some(Mark::Italic));
    assert_eq!(find_mark(bytes, 6, 10, false), Some(Mark::Italic));
    assert_eq!(find_mark(bytes, 8, 10, false), Some(Mark::Code));
    assert_eq!(find_mark(bytes, 10, 10, false), None);
    assert_eq!(find_mark(bytes, 1, 2, false), Some(Mark::Italic));
}

#[test]
fn only_the_backtick_is_a_mark_inside_code() {
    let bytes = b"**_`";
    assert_eq!(find_mark(bytes, 0, 4, true), None);
    assert_eq!(find_mark(bytes, 2, 4, true), None);
    assert_eq!(find_mark(bytes, 3, 4, true), Some(Mark::Code));
}

#[test]
fn empty_spans_are_told_from_open_ones() {
    let closed = Emphasis::new();
    assert!(opens_empty_span(b"****", 0, 4, &closed, Mark::Bold));
    assert!(!opens_empty_span(b"**a**", 0, 5, &closed, Mark::Bold));
    assert!(!opens_empty_span(b"****", 0, 3, &closed, Mark::Bold));
    assert!(opens_empty_span(b"``", 0, 2, &closed, Mark::Code));
    assert!(opens_empty_span(b"_*", 0, 2, &closed, Mark::Italic));
    assert!(!opens_empty_span(b"_**", 0, 3, &closed, Mark::Italic));
    let bold = closed.toggle(Mark::Bold);
    assert!(!opens_empty_span(b"****", 0, 4, &bold, Mark::Bold));
}

#[test]
fn marks_have_a_width_and_two_tokens() {
    assert_eq!(Mark::Bold.len(), 2);
    assert_eq!(Mark::Italic.len(), 1);
    assert_eq!(Mark::Code.len(), 1);
    assert_eq!(Mark::Bold.emit(false), Token::Bold);
    assert_eq!(Mark::Bold.emit(true), Token::ClosedBold);
    assert_eq!(Mark::Italic.emit(false), Token::Italic);
    assert_eq!(Mark::Italic.emit(true), Token::ClosedItalic);
    assert_eq!(Mark::Code.emit(false), Token::Code);
    assert_eq!(Mark::Code.emit(true), Token::ClosedCode);
    assert!(Mark::Bold.same(Mark::Bold));
    assert!(!Mark::Bold.same(Mark::Italic));
    assert!(!Mark::Code.same(Mark::Italic));
}

#[test]
fn toggles_are_independent() {
    let closed = Emphasis::new();
    assert_eq!(
        closed,
        Emphasis {
            bold: false,
            italic: false,
            code: false
        }
    );
    let state = closed.toggle(Mark::Bold).toggle(Mark::Code);
    assert!(state.has_open(Mark::Bold));
    assert!(!state.has_open(Mark::Italic));
    assert!(state.has_open(Mark::Code));
    assert_eq!(state.toggle(Mark::Bold).toggle(Mark::Code), closed);
}
