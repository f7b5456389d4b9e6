use speedy_md::{Lexer, Token};

fn lex(content: &str) -> Vec<Token<'_>> {
    Lexer::new(content).run()
}

#[test]
fn empty_input_has_no_tokens() {
    assert_eq!(lex(""), vec![]);
}

#[test]
fn blank_input_has_no_tokens() {
    assert_eq!(lex("   "), vec![]);
    assert_eq!(lex("\n"), vec![]);
    assert_eq!(lex("  \n\r\n   \n \r "), vec![]);
}

#[test]
fn second_run_returns_nothing() {
    let mut lexer = Lexer::new("# Title\ntext");
    assert_eq!(lexer.run().len(), 6);
    assert_eq!(lexer.run(), vec![]);
}

#[test]
fn header_with_six_hashes() {
    assert_eq!(
        lex("###### Six"),
        vec![Token::Header(6), Token::Text("Six"), Token::ClosedHeader(6)]
    );
}

#[test]
fn seven_hashes_are_a_paragraph() {
    assert_eq!(
        lex("####### Not a header"),
        vec![
            Token::Paragraph,
            Token::Text("####### Not a header"),
            Token::ClosedParagraph
        ]
    );
}

#[test]
fn header_levels_one_to_six() {
    assert_eq!(
        lex("# a\n## b\n### c\n#### d\n##### e\n###### f"),
        vec![
            Token::Header(1),
            Token::Text("a"),
            Token::ClosedHeader(1),
            Token::Header(2),
            Token::Text("b"),
            Token::ClosedHeader(2),
            Token::Header(3),
            Token::Text("c"),
            Token::ClosedHeader(3),
            Token::Header(4),
            Token::Text("d"),
            Token::ClosedHeader(4),
            Token::Header(5),
            Token::Text("e"),
            Token::ClosedHeader(5),
            Token::Header(6),
            Token::Text("f"),
            Token::ClosedHeader(6),
        ]
    );
}

#[test]
fn hashes_without_a_space_are_text() {
    assert_eq!(
        lex("#tag"),
        vec![Token::Paragraph, Token::Text("#tag"), Token::ClosedParagraph]
    );
    assert_eq!(
        lex("###"),
        vec![Token::Paragraph, Token::Text("###"), Token::ClosedParagraph]
    );
}

#[test]
fn header_without_text_has_no_text_token() {
    assert_eq!(lex("# "), vec![Token::Header(1), Token::ClosedHeader(1)]);
    assert_eq!(lex("##    \n"), vec![Token::Header(2), Token::ClosedHeader(2)]);
}

#[test]
fn header_text_keeps_its_trailing_spaces() {
    assert_eq!(
        lex("#   Title  "),
        vec![Token::Header(1), Token::Text("Title  "), Token::ClosedHeader(1)]
    );
}

#[test]
fn header_text_is_scanned_for_emphasis() {
    assert_eq!(
        lex("## a **b** `c`"),
        vec![
            Token::Header(2),
            Token::Text("a "),
            Token::Bold,
            Token::Text("b"),
            Token::ClosedBold,
            Token::Text(" "),
            Token::Code,
            Token::Text("c"),
            Token::ClosedCode,
            Token::ClosedHeader(2),
        ]
    );
}

#[test]
fn leading_spaces_are_skipped() {
    assert_eq!(
        lex("   # Title"),
        vec![Token::Header(1), Token::Text("Title"), Token::ClosedHeader(1)]
    );
}

#[test]
fn paragraph_lines_are_joined_by_a_space() {
    assert_eq!(
        lex("Line one\nLine two"),
        vec![
            Token::Paragraph,
            Token::Text("Line one"),
            Token::Text(" "),
            Token::Text("Line two"),
            Token::ClosedParagraph
        ]
    );
}

#[test]
fn two_trailing_spaces_are_a_line_break() {
    assert_eq!(
        lex("Line one  \nLine two"),
        vec![
            Token::Paragraph,
            Token::Text("Line one"),
            Token::LineBreak,
            Token::Text("Line two"),
            Token::ClosedParagraph
        ]
    );
}

#[test]
fn more_trailing_spaces_are_a_line_break_too() {
    assert_eq!(
        lex("one     \ntwo"),
        vec![
            Token::Paragraph,
            Token::Text("one"),
            Token::LineBreak,
            Token::Text("two"),
            Token::ClosedParagraph
        ]
    );
}

#[test]
fn one_trailing_space_is_trimmed() {
    assert_eq!(
        lex("one \ntwo \n"),
        vec![
            Token::Paragraph,
            Token::Text("one"),
            Token::Text(" "),
            Token::Text("two"),
            Token::ClosedParagraph
        ]
    );
}

#[test]
fn line_break_on_the_last_line_is_kept() {
    assert_eq!(
        lex("one  "),
        vec![
            Token::Paragraph,
            Token::Text("one"),
            Token::LineBreak,
            Token::ClosedParagraph
        ]
    );
}

#[test]
fn trailing_whitespace_of_any_kind_is_trimmed() {
    assert_eq!(
        lex("tab\t\nnbsp\u{a0}\nwide\u{3000}\u{2003} \u{1680}\u{85}\nend"),
        vec![
            Token::Paragraph,
            Token::Text("tab"),
            Token::Text(" "),
            Token::Text("nbsp"),
            Token::Text(" "),
            Token::Text("wide"),
            Token::Text(" "),
            Token::Text("end"),
            Token::ClosedParagraph
        ]
    );
}

#[test]
fn trimming_agrees_with_the_standard_library() {
    let lines = [
        "a\u{9}\u{b}\u{c}",
        "b\u{2000}\u{2001}\u{2002}\u{2004}\u{2005}\u{2006}",
        "c\u{2007}\u{2008}\u{2009}\u{200a}\u{2028}\u{2029}",
        "d\u{202f}\u{205f}",
        "e\u{200b}",
        "f\u{e000}",
        "g\u{2060} ",
        "h\u{180e}",
    ];
    for line in lines {
        let tokens = lex(line);
        assert_eq!(tokens[1], Token::Text(line.trim_end()), "{:?}", line);
    }
}

#[test]
fn blank_line_ends_a_paragraph() {
    assert_eq!(
        lex("one\n\ntwo"),
        vec![
            Token::Paragraph,
            Token::Text("one"),
            Token::ClosedParagraph,
            Token::Paragraph,
            Token::Text("two"),
            Token::ClosedParagraph
        ]
    );
    assert_eq!(lex("one\n   \ntwo").len(), 6);
}

#[test]
fn another_block_ends_a_paragraph() {
    assert_eq!(
        lex("text\n# Title\nmore\n> quote\nrest\n- item\nlast\n---"),
        vec![
            Token::Paragraph,
            Token::Text("text"),
            Token::ClosedParagraph,
            Token::Header(1),
            Token::Text("Title"),
            Token::ClosedHeader(1),
            Token::Paragraph,
            Token::Text("more"),
            Token::ClosedParagraph,
            Token::Blockquote,
            Token::Paragraph,
            Token::Text("quote"),
            Token::ClosedParagraph,
            Token::ClosedBlockquote,
            Token::Paragraph,
            Token::Text("rest"),
            Token::ClosedParagraph,
            Token::UnorderedList,
            Token::Li,
            Token::Text("item"),
            Token::ClosedLi,
            Token::ClosedUnorderedList,
            Token::Paragraph,
            Token::Text("last"),
            Token::ClosedParagraph,
            Token::LineSeparator,
        ]
    );
}

#[test]
fn indented_lines_go_on_with_the_paragraph() {
    assert_eq!(
        lex("one\n   two"),
        vec![
            Token::Paragraph,
            Token::Text("one"),
            Token::Text(" "),
            Token::Text("two"),
            Token::ClosedParagraph
        ]
    );
}

#[test]
fn carriage_return_and_line_feed_end_a_line_once() {
    assert_eq!(
        lex("one\r\ntwo\r\n\r\n# three\r\n"),
        vec![
            Token::Paragraph,
            Token::Text("one"),
            Token::Text(" "),
            Token::Text("two"),
            Token::ClosedParagraph,
            Token::Header(1),
            Token::Text("three"),
            Token::ClosedHeader(1),
        ]
    );
}

#[test]
fn lone_carriage_return_ends_a_line() {
    assert_eq!(
        lex("one\rtwo\r\r# three\r"),
        vec![
            Token::Paragraph,
            Token::Text("one"),
            Token::Text(" "),
            Token::Text("two"),
            Token::ClosedParagraph,
            Token::Header(1),
            Token::Text("three"),
            Token::ClosedHeader(1),
        ]
    );
}

#[test]
fn emphasis_and_code_spans() {
    assert_eq!(
        lex("**bold** and *italic* and `code`"),
        vec![
            Token::Paragraph,
            Token::Bold,
            Token::Text("bold"),
            Token::ClosedBold,
            Token::Text(" and "),
            Token::Italic,
            Token::Text("italic"),
            Token::ClosedItalic,
            Token::Text(" and "),
            Token::Code,
            Token::Text("code"),
            Token::ClosedCode,
            Token::ClosedParagraph
        ]
    );
}

fn render(tokens: &[Token<'_>]) -> String {
    let mut html = String::new();
    for token in tokens {
        match token {
            Token::Header(level) => html.push_str(&format!("<h{}>", level)),
            Token::ClosedHeader(level) => html.push_str(&format!("</h{}>", level)),
            Token::Text(text) => html.push_str(text),
            Token::LineBreak => html.push_str("<br>"),
            Token::LineSeparator => html.push_str("<hr>"),
            Token::Paragraph => html.push_str("<p>"),
            Token::ClosedParagraph => html.push_str("</p>"),
            Token::Blockquote => html.push_str("<blockquote>"),
            Token::ClosedBlockquote => html.push_str("</blockquote>"),
            Token::OrderedList(_) => html.push_str("<ol>"),
            Token::ClosedOrderedList => html.push_str("</ol>"),
            Token::UnorderedList => html.push_str("<ul>"),
            Token::ClosedUnorderedList => html.push_str("</ul>"),
            Token::Li => html.push_str("<li>"),
            Token::ClosedLi => html.push_str("</li>"),
            Token::Bold => html.push_str("<strong>"),
            Token::ClosedBold => html.push_str("</strong>"),
            Token::Italic => html.push_str("<em>"),
            Token::ClosedItalic => html.push_str("</em>"),
            Token::Code => html.push_str("<code>"),
            Token::ClosedCode => html.push_str("</code>"),
        }
    }
    html
}

#[test]
fn emphasis_renders_without_lost_or_doubled_delimiters() {
    let tokens = lex("**bold** and *italic* and `code`");
    assert_eq!(
        render(&tokens[1..tokens.len() - 1]),
        "<strong>bold</strong> and <em>italic</em> and <code>code</code>"
    );
    assert_eq!(
        render(&tokens),
        "<p><strong>bold</strong> and <em>italic</em> and <code>code</code></p>"
    );
}

#[test]
fn three_stars_are_a_rule() {
    assert_eq!(lex("***"), vec![Token::LineSeparator]);
}

#[test]
fn rules_of_each_character() {
    assert_eq!(lex("---"), vec![Token::LineSeparator]);
    assert_eq!(lex("___"), vec![Token::LineSeparator]);
    assert_eq!(lex("**********"), vec![Token::LineSeparator]);
    assert_eq!(
        lex("---\n***\r\n___\n"),
        vec![
            Token::LineSeparator,
            Token::LineSeparator,
            Token::LineSeparator
        ]
    );
}

#[test]
fn rule_needs_two_more_of_one_character() {
    assert_eq!(lex("-**"), vec![Token::LineSeparator]);
    assert_eq!(lex("*__"), vec![Token::LineSeparator]);
    assert_eq!(
        lex("--"),
        vec![Token::Paragraph, Token::Text("--"), Token::ClosedParagraph]
    );
    assert_eq!(
        lex("-*_"),
        vec![
            Token::Paragraph,
            Token::Text("-"),
            Token::ClosedParagraph
        ]
    );
    assert_eq!(
        lex("--- -"),
        vec![Token::Paragraph, Token::Text("--- -"), Token::ClosedParagraph]
    );
}

#[test]
fn bold_line_is_no_rule() {
    assert_eq!(
        lex("**bold**"),
        vec![
            Token::Paragraph,
            Token::Bold,
            Token::Text("bold"),
            Token::ClosedBold,
            Token::ClosedParagraph
        ]
    );
}

#[test]
fn blockquote_holds_header_and_paragraph() {
    assert_eq!(
        lex("> # Title\n> body text"),
        vec![
            Token::Blockquote,
            Token::Header(1),
            Token::Text("Title"),
            Token::ClosedHeader(1),
            Token::Paragraph,
            Token::Text("body text"),
            Token::ClosedParagraph,
            Token::ClosedBlockquote
        ]
    );
}

#[test]
fn blockquote_in_a_blockquote() {
    assert_eq!(
        lex("> > deep\n>> deeper\n> back"),
        vec![
            Token::Blockquote,
            Token::Blockquote,
            Token::Paragraph,
            Token::Text("deep"),
            Token::ClosedParagraph,
            Token::ClosedBlockquote,
            Token::Blockquote,
            Token::Paragraph,
            Token::Text("deeper"),
            Token::ClosedParagraph,
            Token::ClosedBlockquote,
            Token::Paragraph,
            Token::Text("back"),
            Token::ClosedParagraph,
            Token::ClosedBlockquote,
        ]
    );
}

#[test]
fn blockquote_ends_where_the_marker_is_missing() {
    assert_eq!(
        lex(">one\n\n> two\nthree"),
        vec![
            Token::Blockquote,
            Token::Paragraph,
            Token::Text("one"),
            Token::ClosedParagraph,
            Token::ClosedBlockquote,
            Token::Blockquote,
            Token::Paragraph,
            Token::Text("two"),
            Token::ClosedParagraph,
            Token::ClosedBlockquote,
            Token::Paragraph,
            Token::Text("three"),
            Token::ClosedParagraph,
        ]
    );
}

#[test]
fn empty_blockquote() {
    assert_eq!(lex(">"), vec![Token::Blockquote, Token::ClosedBlockquote]);
    assert_eq!(
        lex("> \n>\n"),
        vec![Token::Blockquote, Token::ClosedBlockquote]
    );
}

#[test]
fn blockquote_holds_lists_and_rules() {
    assert_eq!(
        lex("> - item\n> 3. third\n> ***"),
        vec![
            Token::Blockquote,
            Token::UnorderedList,
            Token::Li,
            Token::Text("item"),
            Token::ClosedLi,
            Token::ClosedUnorderedList,
            Token::OrderedList(3),
            Token::Li,
            Token::Text("third"),
            Token::ClosedLi,
            Token::ClosedOrderedList,
            Token::LineSeparator,
            Token::ClosedBlockquote,
        ]
    );
}

#[test]
fn unordered_list_item() {
    assert_eq!(
        lex("- item *one*"),
        vec![
            Token::UnorderedList,
            Token::Li,
            Token::Text("item "),
            Token::Italic,
            Token::Text("one"),
            Token::ClosedItalic,
            Token::ClosedLi,
            Token::ClosedUnorderedList,
        ]
    );
}

#[test]
fn dash_without_a_space_is_text() {
    assert_eq!(
        lex("-item"),
        vec![Token::Paragraph, Token::Text("-item"), Token::ClosedParagraph]
    );
    assert_eq!(
        lex("-"),
        vec![Token::Paragraph, Token::Text("-"), Token::ClosedParagraph]
    );
}

#[test]
fn each_list_line_is_a_list_of_its_own() {
    assert_eq!(
        lex("- a\n- b"),
        vec![
            Token::UnorderedList,
            Token::Li,
            Token::Text("a"),
            Token::ClosedLi,
            Token::ClosedUnorderedList,
            Token::UnorderedList,
            Token::Li,
            Token::Text("b"),
            Token::ClosedLi,
            Token::ClosedUnorderedList,
        ]
    );
}

#[test]
fn ordered_list_item() {
    assert_eq!(
        lex("12. twelve"),
        vec![
            Token::OrderedList(12),
            Token::Li,
            Token::Text("twelve"),
            Token::ClosedLi,
            Token::ClosedOrderedList,
        ]
    );
    assert_eq!(
        lex("007. seven"),
        vec![
            Token::OrderedList(7),
            Token::Li,
            Token::Text("seven"),
            Token::ClosedLi,
            Token::ClosedOrderedList,
        ]
    );
}

#[test]
fn ordered_item_skips_one_character_behind_the_dot() {
    assert_eq!(
        lex("1.x rest"),
        vec![
            Token::OrderedList(1),
            Token::Li,
            Token::Text("rest"),
            Token::ClosedLi,
            Token::ClosedOrderedList,
        ]
    );
    assert_eq!(
        lex("12.34 foo"),
        vec![
            Token::OrderedList(12),
            Token::Li,
            Token::Text("4 foo"),
            Token::ClosedLi,
            Token::ClosedOrderedList,
        ]
    );
    assert_eq!(
        lex("2.\u{e9}t\u{e9}"),
        vec![
            Token::OrderedList(2),
            Token::Li,
            Token::Text("t\u{e9}"),
            Token::ClosedLi,
            Token::ClosedOrderedList,
        ]
    );
    assert_eq!(
        lex("3.\u{1f600}smile"),
        vec![
            Token::OrderedList(3),
            Token::Li,
            Token::Text("smile"),
            Token::ClosedLi,
            Token::ClosedOrderedList,
        ]
    );
}

#[test]
fn ordered_item_without_text() {
    assert_eq!(
        lex("1."),
        vec![
            Token::OrderedList(1),
            Token::Li,
            Token::ClosedLi,
            Token::ClosedOrderedList,
        ]
    );
    assert_eq!(
        lex("1.\nnext"),
        vec![
            Token::OrderedList(1),
            Token::Li,
            Token::ClosedLi,
            Token::ClosedOrderedList,
            Token::Paragraph,
            Token::Text("next"),
            Token::ClosedParagraph,
        ]
    );
}

#[test]
fn digits_without_a_dot_behind_them_are_text() {
    assert_eq!(
        lex("4a."),
        vec![Token::Paragraph, Token::Text("4a."), Token::ClosedParagraph]
    );
    assert_eq!(
        lex("2024"),
        vec![Token::Paragraph, Token::Text("2024"), Token::ClosedParagraph]
    );
    assert_eq!(
        lex("12 .x"),
        vec![Token::Paragraph, Token::Text("12 .x"), Token::ClosedParagraph]
    );
}

#[test]
fn ordered_item_number_has_to_fit() {
    assert_eq!(
        lex("4294967295. max"),
        vec![
            Token::OrderedList(4294967295),
            Token::Li,
            Token::Text("max"),
            Token::ClosedLi,
            Token::ClosedOrderedList,
        ]
    );
    assert_eq!(
        lex("4294967296. more"),
        vec![
            Token::Paragraph,
            Token::Text("4294967296. more"),
            Token::ClosedParagraph
        ]
    );
    assert_eq!(
        lex("99999999999999999999999999999999. much more"),
        vec![
            Token::Paragraph,
            Token::Text("99999999999999999999999999999999. much more"),
            Token::ClosedParagraph
        ]
    );
}

#[test]
fn text_keeps_characters_of_several_bytes() {
    assert_eq!(
        lex("h\u{e9}llo *w\u{f6}rld* \u{1f600}\n\u{4e16}\u{754c}"),
        vec![
            Token::Paragraph,
            Token::Text("h\u{e9}llo "),
            Token::Italic,
            Token::Text("w\u{f6}rld"),
            Token::ClosedItalic,
            Token::Text(" \u{1f600}"),
            Token::Text(" "),
            Token::Text("\u{4e16}\u{754c}"),
            Token::ClosedParagraph,
        ]
    );
}

#[test]
fn unclosed_emphasis_stays_open() {
    assert_eq!(
        lex("**bold"),
        vec![
            Token::Paragraph,
            Token::Bold,
            Token::Text("bold"),
            Token::ClosedParagraph
        ]
    );
    assert_eq!(
        lex("a `b\nc` d"),
        vec![
            Token::Paragraph,
            Token::Text("a "),
            Token::Code,
            Token::Text("b"),
            Token::Text(" "),
            Token::Text("c"),
            Token::Code,
            Token::Text(" d"),
            Token::ClosedParagraph
        ]
    );
}

fn depth_of(
    tokens: &[Token<'_>],
    open: fn(&Token<'_>) -> bool,
    close: fn(&Token<'_>) -> bool,
) -> Option<usize> {
    let mut depth: usize = 0;
    for token in tokens {
        if open(token) {
            depth += 1;
        } else if close(token) {
            if depth == 0 {
                return None;
            }
            depth -= 1;
        }
    }
    Some(depth)
}

fn depths(tokens: &[Token<'_>]) -> Vec<Option<usize>> {
    vec![
        depth_of(
            tokens,
            |t| matches!(t, Token::Header(_)),
            |t| matches!(t, Token::ClosedHeader(_)),
        ),
        depth_of(
            tokens,
            |t| matches!(t, Token::Paragraph),
            |t| matches!(t, Token::ClosedParagraph),
        ),
        depth_of(
            tokens,
            |t| matches!(t, Token::Blockquote),
            |t| matches!(t, Token::ClosedBlockquote),
        ),
        depth_of(
            tokens,
            |t| matches!(t, Token::OrderedList(_)),
            |t| matches!(t, Token::ClosedOrderedList),
        ),
        depth_of(
            tokens,
            |t| matches!(t, Token::UnorderedList),
            |t| matches!(t, Token::ClosedUnorderedList),
        ),
        depth_of(
            tokens,
            |t| matches!(t, Token::Li),
            |t| matches!(t, Token::ClosedLi),
        ),
        depth_of(
            tokens,
            |t| matches!(t, Token::Bold),
            |t| matches!(t, Token::ClosedBold),
        ),
        depth_of(
            tokens,
            |t| matches!(t, Token::Italic),
            |t| matches!(t, Token::ClosedItalic),
        ),
        depth_of(
            tokens,
            |t| matches!(t, Token::Code),
            |t| matches!(t, Token::ClosedCode),
        ),
    ]
}

#[test]
fn tokens_pair_up_like_brackets() {
    let text = "# A *title*\n\nSome **bold** text  \nand `code` here\n\n\
                > quoted _text_\n> > ## deeper\n> - item\n\n\
                1. first\n- second\n\n---\nlast line";
    assert_eq!(depths(&lex(text)), vec![Some(0); 9]);
}

#[test]
fn closing_tokens_are_matched_where_spans_stay_open() {
    let text = "**open\n*this too\n> `and this\n- _and **these";
    let found = depths(&lex(text));
    assert_eq!(
        found,
        vec![
            Some(0),
            Some(0),
            Some(0),
            Some(0),
            Some(0),
            Some(0),
            Some(2),
            Some(2),
            Some(1)
        ]
    );
}

#[test]
fn tokens_of_arbitrary_text_are_matched() {
    let pieces = [
        "#", " ", "*", "_", "`", ">", "-", "1", ".", "a", "\n", "\r\n", "\r", "  ", "\u{e9}", "\t",
        "\u{3000}", "**", "###### ",
    ];
    let mut seed: u64 = 0x2545f4914f6cdd1d;
    for _ in 0..2000 {
        let mut text = String::new();
        let mut length = 0;
        seed ^= seed << 13;
        seed ^= seed >> 7;
        seed ^= seed << 17;
        let wanted = seed % 24;
        while length < wanted {
            seed ^= seed << 13;
            seed ^= seed >> 7;
            seed ^= seed << 17;
            text.push_str(pieces[(seed % pieces.len() as u64) as usize]);
            length += 1;
        }
        let tokens = lex(&text);
        let found = depths(&tokens);
        for (kind, depth) in found.iter().enumerate() {
            assert!(depth.is_some(), "{:?}", text);
            if kind < 6 {
                assert_eq!(*depth, Some(0), "{:?}", text);
            }
        }
        for token in &tokens {
            if let Token::Text(slice) = token {
                assert!(!slice.is_empty(), "{:?}", text);
                assert!(!slice.contains('\n') && !slice.contains('\r'), "{:?}", text);
                assert!(!slice.contains('`'), "{:?}", text);
            }
        }
    }
}
