use dedent_paste::dedent_text;

#[test]
fn removes_common_leading_spaces() {
    assert_eq!(dedent_text("    alpha\n      beta\n"), "alpha\n  beta\n");
}

#[test]
fn ignores_blank_lines_when_calculating_indent() {
    assert_eq!(
        dedent_text("    alpha\n\n      beta\n"),
        "alpha\n\n  beta\n"
    );
}

#[test]
fn ignores_whitespace_only_lines_when_calculating_indent() {
    assert_eq!(
        dedent_text("    alpha\n  \n      beta\n"),
        "alpha\n\n  beta\n"
    );
}

#[test]
fn leaves_text_unchanged_when_any_content_line_has_no_indent() {
    assert_eq!(dedent_text("alpha\n  beta\n"), "alpha\n  beta\n");
}

#[test]
fn trims_trailing_spaces_and_tabs_from_each_line() {
    assert_eq!(dedent_text("  alpha  \n    beta\t \n"), "alpha\n  beta\n");
}

#[test]
fn trims_trailing_whitespace_even_without_common_indent() {
    assert_eq!(dedent_text("alpha  \n  beta\t\n"), "alpha\n  beta\n");
}

#[test]
fn treats_tabs_and_spaces_as_one_prefix_character_each() {
    assert_eq!(dedent_text("\t alpha\n\t\tbeta\n"), "alpha\nbeta\n");
}

#[test]
fn preserves_missing_trailing_newline() {
    assert_eq!(dedent_text("  alpha\n    beta"), "alpha\n  beta");
}

#[test]
fn preserves_crlf_line_endings() {
    assert_eq!(
        dedent_text("  alpha  \r\n    beta\t\r\n"),
        "alpha\r\n  beta\r\n"
    );
}

#[test]
fn strips_terminal_prompt_and_continuation_prefixes() {
    assert_eq!(
        dedent_text(
            "❯ Rewrite everything in Rust. I need cross-platform of the repo\n  scanner. Use cargo-dist to package all available platforms."
        ),
        "Rewrite everything in Rust. I need cross-platform of the repo scanner. Use cargo-dist to package all available platforms."
    );
}

#[test]
fn strips_terminal_prompt_after_shared_indent() {
    assert_eq!(dedent_text("    ❯ alpha\n      beta\n"), "alpha beta\n");
}

#[test]
fn strips_codex_prompt_and_unwraps_the_user_example() {
    assert_eq!(
        dedent_text(
            "› 我想要分析整個專案 src/ 的原始碼結構與系統架構、資料庫結構(if any)、專案詞彙表(統一名詞解釋)、技術棧、共用模組、主要流程與維護注意事項，請幫我制定一套詳盡的分\n  析計畫，幫助我快速理解本專案。請設計給一位資深工程師可以輕鬆理解的分析報告。請建立多份 Markdown 文件，方便我快速理解架構。相關圖表要參考 $design-doc-mermaid\n  技能進行繪製。"
        ),
        "我想要分析整個專案 src/ 的原始碼結構與系統架構、資料庫結構(if any)、專案詞彙表(統一名詞解釋)、技術棧、共用模組、主要流程與維護注意事項，請幫我制定一套詳盡的分析計畫，幫助我快速理解本專案。請設計給一位資深工程師可以輕鬆理解的分析報告。請建立多份 Markdown 文件，方便我快速理解架構。相關圖表要參考 $design-doc-mermaid 技能進行繪製。"
    );
}

#[test]
fn strips_markdown_style_blockquote_prefix_and_keeps_lines() {
    assert_eq!(
        dedent_text("> Hello 123\n  I'm Will.\n"),
        "Hello 123\nI'm Will.\n"
    );
}

#[test]
fn joins_cjk_lines_without_a_space() {
    assert_eq!(dedent_text("› 中文，\n  測試\n"), "中文，測試\n");
}

#[test]
fn joins_latin_and_mixed_lines_with_one_space() {
    assert_eq!(dedent_text("› alpha\n  beta\n"), "alpha beta\n");
    assert_eq!(dedent_text("› Mermaid\n  技能\n"), "Mermaid 技能\n");
}

#[test]
fn strips_prompt_when_marker_and_indent_use_non_breaking_spaces() {
    assert_eq!(
        dedent_text(
            "❯\u{00A0}我需要在「系統管理」頁面加入 Tab 分類，方便切換與操作。\n\u{00A0}\u{00A0}系統管理打開後，網址列應該要有 deep linking 能力。\n"
        ),
        "我需要在「系統管理」頁面加入 Tab 分類，方便切換與操作。\n系統管理打開後，網址列應該要有 deep linking 能力。\n"
    );
}

#[test]
fn joins_wrapped_lines_when_prompt_space_is_non_breaking() {
    assert_eq!(dedent_text("›\u{00A0}alpha\n  beta\n"), "alpha beta\n");
    assert_eq!(
        dedent_text("›\u{3000}中文，\n\u{00A0}\u{00A0}測試\n"),
        "中文，測試\n"
    );
}

#[test]
fn strips_blockquote_prefix_with_non_breaking_space() {
    assert_eq!(
        dedent_text(">\u{00A0}Hello 123\n\u{00A0}\u{00A0}I'm Will.\n"),
        "Hello 123\nI'm Will.\n"
    );
}

#[test]
fn preserves_line_breaks_after_sentence_ending_punctuation() {
    assert_eq!(
        dedent_text(
            "❯ 我需要在「系統管理」頁面加入 Tab 分類，將不同的管理功能，區分成不同的群組，方便切換與操作。\n  系統管理打開後，網址列應該要有 deep linking 能力。切換到不同 Tab 應該也要有 deep linking 能力。\n"
        ),
        "我需要在「系統管理」頁面加入 Tab 分類，將不同的管理功能，區分成不同的群組，方便切換與操作。\n系統管理打開後，網址列應該要有 deep linking 能力。切換到不同 Tab 應該也要有 deep linking 能力。\n"
    );
}

#[test]
fn preserves_line_breaks_after_latin_sentence_ending_punctuation() {
    assert_eq!(
        dedent_text("❯ First sentence.\n  Second line\n"),
        "First sentence.\nSecond line\n"
    );
}

#[test]
fn preserves_line_breaks_when_terminator_is_wrapped_in_closing_punctuation() {
    assert_eq!(
        dedent_text("› 第一行（完成。）\n  第二行\n"),
        "第一行（完成。）\n第二行\n"
    );
}

#[test]
fn preserves_blank_lines_as_paragraph_breaks() {
    assert_eq!(
        dedent_text("› 第一段\n  仍在同段\n\n  第二段\n  仍在第二段\n"),
        "第一段仍在同段\n\n第二段仍在第二段\n"
    );
}

#[test]
fn preserves_whitespace_only_blank_lines_as_paragraph_breaks() {
    assert_eq!(
        dedent_text("› 第一段\n  仍在同段\n  \n  第二段\n"),
        "第一段仍在同段\n\n第二段\n"
    );
}

#[test]
fn preserves_crlf_paragraph_breaks_when_unwrapping_prompt() {
    assert_eq!(
        dedent_text("› 第一段\r\n  仍在同段\r\n\r\n  第二段\r\n"),
        "第一段仍在同段\r\n\r\n第二段\r\n"
    );
}

#[test]
fn leaves_malformed_prompt_blocks_unchanged() {
    assert_eq!(
        dedent_text("› 第一行\n不是續行格式\n"),
        "› 第一行\n不是續行格式\n"
    );
}

#[test]
fn keeps_all_blank_input_as_blank() {
    assert_eq!(dedent_text("  \n\t\n"), "\n\n");
}

#[test]
fn keeps_empty_input_empty() {
    assert_eq!(dedent_text(""), "");
}

#[test]
fn rejects_invalid_utf8() {
    assert_eq!(
        dedent_paste::text_from_bytes(vec![0xff]),
        Err(dedent_paste::DedentError::InvalidUtf8)
    );
}

#[test]
fn accepts_valid_utf8_bytes() {
    assert_eq!(
        dedent_paste::text_from_bytes("縮排 ok".as_bytes().to_vec()),
        Ok("縮排 ok".to_string())
    );
    assert_eq!(
        dedent_paste::DedentError::InvalidUtf8.message(),
        "clipboard text is not valid UTF-8"
    );
}

#[test]
fn strips_bullet_prompt_and_unwraps_lines() {
    assert_eq!(
        dedent_text("• first line of text\n  continues here\n"),
        "first line of text continues here\n"
    );
}

#[test]
fn strips_triangle_prefixes_and_keeps_lines() {
    assert_eq!(dedent_text("▸ keep\n  lines\n"), "keep\nlines\n");
    assert_eq!(dedent_text("▾ a\n  b"), "a\nb");
}

#[test]
fn preserves_line_breaks_after_colons() {
    assert_eq!(dedent_text("❯ Steps:\n  do this\n"), "Steps:\ndo this\n");
    assert_eq!(dedent_text("❯ 清單：\n  項目\n"), "清單：\n項目\n");
    // Commas do not end a sentence: the wrapped line is joined.
    assert_eq!(dedent_text("❯ one,\n  two\n"), "one, two\n");
}

#[test]
fn preserves_line_breaks_before_list_items() {
    assert_eq!(
        dedent_text("❯ Do these\n  1. first\n  - second\n  * third\n  2) fourth\n"),
        "Do these\n1. first\n- second\n* third\n2) fourth\n"
    );
    // Not a list marker: no space after it.
    assert_eq!(dedent_text("❯ value\n  -1 below\n"), "value -1 below\n");
}

#[test]
fn joins_lines_inside_an_open_inline_code_span() {
    assert_eq!(
        dedent_text("❯ set `KEY:\n  value` now.\n"),
        "set `KEY: value` now.\n"
    );
    // The count is per line: "c` d" holds one backtick, so it joins too.
    assert_eq!(
        dedent_text("❯ a `b\n  c` d\n  - e\n"),
        "a `b c` d - e\n"
    );
    assert_eq!(dedent_text("› `a\n  b`.\n  c\n"), "`a b`. c\n");
    // An even count leaves the ordinary rules in charge.
    assert_eq!(dedent_text("❯ a `b` c.\n  d\n"), "a `b` c.\nd\n");
}

#[test]
fn plain_text_keeps_its_line_breaks_and_loses_trailing_blanks() {
    let input = "    fn main() {  \n\n        body();\t\n    }";
    let output = dedent_text(input);
    assert_eq!(output, "fn main() {\n\n    body();\n}");
    assert_eq!(
        output.matches('\n').count(),
        input.matches('\n').count()
    );
    assert!(output.lines().any(|line| !line.is_empty() && !line.starts_with([' ', '\t'])));
    assert!(output.lines().all(|line| !line.ends_with([' ', '\t'])));
}

#[test]
fn lone_carriage_return_keeps_the_blank_before_it() {
    // A `\r` that does not end a line is text, so the space before it stays.
    assert_eq!(dedent_text("a \r"), "a \r");
}

#[test]
fn prefixed_blocks_keep_line_breaks_and_lose_trailing_blanks() {
    let input = "> first  \n  second\t\n  \n  third";
    let output = dedent_text(input);
    assert_eq!(output, "first\nsecond\n\nthird");
    assert_eq!(
        output.matches('\n').count(),
        input.matches('\n').count()
    );
    assert!(output.lines().all(|line| !line.ends_with([' ', '\t'])));
}

#[test]
fn unwrapped_prompts_lose_trailing_blanks() {
    let output = dedent_text("❯ one  \n  two\t\n  \n  three  \n");
    assert_eq!(output, "one two\n\nthree\n");
    assert!(output.lines().all(|line| !line.ends_with([' ', '\t'])));
}

#[test]
fn joining_can_move_the_unindented_line() {
    // The only unindented line is joined onto an indented one.
    assert_eq!(dedent_text("❯   x\n  y"), "  x y");
}

#[test]
fn unwrapping_loses_one_line_feed_per_joined_line() {
    let input = "❯ one\n  two\n  \n  three\n  four.\n  five\n";
    let output = dedent_text(input);
    assert_eq!(output, "one two\n\nthree four.\nfive\n");
    // Two joins ("one two", "three four."), so two line feeds fewer.
    assert_eq!(
        output.matches('\n').count() + 2,
        input.matches('\n').count()
    );
}

fn shown(text: &str) -> String {
    text.chars()
        .filter(|c| !matches!(*c, ' ' | '\t' | '\r' | '\n' | '\u{a0}' | '\u{3000}'))
        .collect()
}

#[test]
fn only_blanks_and_the_prompt_marker_are_removed() {
    let plain = "    fn main() {  \r\n        body();\t\n    }";
    assert_eq!(shown(&dedent_text(plain)), shown(plain));
    let prompt = "❯ one\n  two\n  \n  three.\n  - four\n";
    assert_eq!(shown(&dedent_text(prompt)), shown(prompt).replacen('❯', "", 1));
    let quote = "> a\n  b\n";
    assert_eq!(shown(&dedent_text(quote)), "ab");
}
