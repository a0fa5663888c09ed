use texttools::count::{count, Counts};

#[test]
fn counts_of_the_empty_text_are_zero() {
    assert_eq!(
        count(""),
        Counts {
            lines: 0,
            words: 0,
            chars: 0,
            bytes: 0
        }
    );
}

#[test]
fn counts_of_a_small_text() {
    assert_eq!(
        count("one two\nthree\n"),
        Counts {
            lines: 2,
            words: 3,
            chars: 14,
            bytes: 14
        }
    );
}

#[test]
fn last_line_counts_without_a_line_feed() {
    assert_eq!(count("a\nb").lines, 2);
    assert_eq!(count("a\nb\n").lines, 2);
    assert_eq!(count("a").lines, 1);
    assert_eq!(count("\n").lines, 1);
    assert_eq!(count("\n\n").lines, 2);
    assert_eq!(count("a\r\nb\r\n").lines, 2);
    assert_eq!(count("\r").lines, 1);
}

#[test]
fn words_are_runs_without_white_space() {
    assert_eq!(count("  a  b\tc\n\nd ").words, 4);
    assert_eq!(count(" \t\n").words, 0);
    assert_eq!(count("word").words, 1);
    assert_eq!(count("a\u{a0}b\u{3000}c").words, 3);
}

#[test]
fn characters_and_bytes_differ_for_other_scripts() {
    let counts = count("na\u{ef}ve \u{4e2d}\u{6587} \u{1f600}");
    assert_eq!(counts.chars, 10);
    assert_eq!(counts.bytes, 18);
    assert_eq!(counts.words, 3);
    assert_eq!(counts.lines, 1);
}

#[test]
fn counts_agree_with_std() {
    let texts = [
        "",
        "\n",
        "a",
        "a\n",
        "a\nb",
        "the quick\nbrown  fox\r\njumps\tover\n\nthe lazy dog",
        " leading and trailing \n",
        "\u{2003}wide\u{2003}spaces\u{2003}\n\u{e9}t\u{e9}",
        "\n\n\n",
        "x\r",
    ];
    for text in texts {
        let counts = count(text);
        assert_eq!(counts.lines, text.lines().count(), "lines of {:?}", text);
        assert_eq!(counts.words, text.split_whitespace().count(), "words of {:?}", text);
        assert_eq!(counts.chars, text.chars().count(), "chars of {:?}", text);
        assert_eq!(counts.bytes, text.len(), "bytes of {:?}", text);
    }
}
