use bpe_lm::text::{
    chars_of, halve_blanks, head_lines, parse_usize, replace_char, split_words, string_of, trim,
    white_space,
};
use bpe_lm::training::take_lines;

const SAMPLES: [&str; 14] = [
    "",
    " ",
    "a",
    "  a  b ",
    "\t x\u{a0}y\u{3000}z\n",
    "one two  three   four    five",
    "\u{2003}\u{1680}wide\u{205f}",
    "line\r\nnext\rsame\n\nlast\r",
    "\n",
    "\r\n\r\n",
    "no newline",
    "ends in newline\n",
    "\u{120}word \u{120}\u{120}mark",
    "Привет,  мир",
];

#[test]
fn white_space_is_that_of_std() {
    for n in 0u32..0x11_0000 {
        if let Some(c) = char::from_u32(n) {
            assert_eq!(white_space(c), c.is_whitespace(), "{:x}", n);
        }
    }
}

#[test]
fn chars_and_strings_are_inverse() {
    for s in SAMPLES {
        assert_eq!(string_of(&chars_of(s)), s);
        assert_eq!(chars_of(s), s.chars().collect::<Vec<char>>());
    }
}

#[test]
fn trimming_cuts_both_ends() {
    for s in SAMPLES {
        assert_eq!(string_of(&trim(&chars_of(s))), s.trim());
    }
    assert_eq!(string_of(&trim(&chars_of(" \u{3000}a b\t"))), "a b");
}

#[test]
fn words_are_split_at_white_space() {
    for s in SAMPLES {
        let words: Vec<String> = split_words(&chars_of(s)).iter().map(string_of).collect();
        let expected: Vec<String> = s.split_whitespace().map(String::from).collect();
        assert_eq!(words, expected);
    }
}

#[test]
fn two_blanks_become_one() {
    for s in SAMPLES {
        assert_eq!(string_of(&halve_blanks(&chars_of(s))), s.replace("  ", " "));
    }
    assert_eq!(string_of(&halve_blanks(&chars_of("a     b"))), "a   b");
}

#[test]
fn a_character_is_replaced_everywhere() {
    for s in SAMPLES {
        let r = replace_char(&chars_of(s), '\u{120}', ' ');
        assert_eq!(string_of(&r), s.replace('\u{120}', " "));
    }
}

#[test]
fn first_lines_are_joined_by_line_feeds() {
    for s in SAMPLES {
        for n in 0..5 {
            let expected: String = s.lines().take(n).collect::<Vec<_>>().join("\n");
            assert_eq!(string_of(&head_lines(&chars_of(s), n)), expected);
            assert_eq!(take_lines(s, n), expected);
        }
    }
    assert_eq!(take_lines("a\r\nb\nc\r", 2), "a\nb");
    assert_eq!(take_lines("a\r\nb\nc\r", 3), "a\nb\nc\r");
}

#[test]
fn numbers_are_read_like_std() {
    let samples = [
        "",
        "+",
        "-",
        "0",
        "-0",
        "+7",
        "++7",
        "007",
        "12a",
        " 12",
        "1_000",
        "18446744073709551615",
        "18446744073709551616",
        "99999999999999999999999",
        "00000000000000000000000000001",
        "\u{664}",
    ];
    for s in samples {
        assert_eq!(parse_usize(s), s.parse::<usize>().ok(), "{:?}", s);
    }
    assert_eq!(parse_usize("128"), Some(128));
}
