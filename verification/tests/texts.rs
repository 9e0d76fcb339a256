use reply_branching::ranking::text_up_to;
use reply_branching::strings::{
    is_blank, is_whitespace, join, push_decimal, reader_lines, remove_char, remove_pairs,
    same_text, split_lines, split_words, starts_with, trim, trim_start,
};
use reply_branching::text::{byte_count, width_of};

fn all_chars() -> Vec<char> {
    (0..=0x10FFFFu32).filter_map(char::from_u32).collect()
}

#[test]
fn whitespace_is_that_of_the_standard_library() {
    for ch in all_chars() {
        assert_eq!(is_whitespace(ch), ch.is_whitespace());
        assert_eq!(width_of(ch), ch.len_utf8());
    }
}

#[test]
fn texts_are_read_like_strings() {
    let samples = [
        "",
        " ",
        "a",
        "\n",
        "a\nb",
        " a b \r\n\tc\u{a0}d\n",
        "\r\n\r\n",
        "é😀 ß\r",
        "a**b** __c__ `d` ***e",
        "\u{2028}x\u{3000}",
    ];
    for text in samples {
        assert_eq!(trim(text), text.trim());
        assert_eq!(trim_start(text), text.trim_start());
        assert_eq!(is_blank(text), text.trim().is_empty());
        assert_eq!(split_lines(text), text.split('\n').collect::<Vec<_>>());
        assert_eq!(split_words(text), text.split_whitespace().collect::<Vec<_>>());
        assert_eq!(reader_lines(text), text.lines().collect::<Vec<_>>());
        assert_eq!(remove_pairs(text, '*'), text.replace("**", ""));
        assert_eq!(remove_char(text, '`'), text.replace('`', ""));
        assert_eq!(join(&split_lines(text), "\n"), text);
        assert_eq!(byte_count(text), text.len());
        for other in samples {
            assert_eq!(starts_with(text, other), text.starts_with(other));
            assert_eq!(same_text(text, other), text == other);
            assert_eq!(text_up_to(text, other), text <= other);
        }
    }
}

#[test]
fn numbers_are_written_in_decimal() {
    for number in [0, 7, 10, 99, 100, 1_234_567_890, u64::MAX] {
        let mut text = "n=".to_string();
        push_decimal(&mut text, number);
        assert_eq!(text, format!("n={number}"));
    }
}
