use sdk_rules::text::{chars_of, is_whitespace, split_lines, split_words};

#[test]
fn whitespace_is_the_unicode_property() {
    let mut code: u32 = 0;
    while code <= 0x10FFFF {
        if let Some(c) = char::from_u32(code) {
            assert_eq!(is_whitespace(c), c.is_whitespace(), "U+{:04X}", code);
        }
        code += 1;
    }
}

#[test]
fn chars_of_keeps_every_character() {
    assert_eq!(chars_of(""), Vec::<char>::new());
    assert_eq!(chars_of("a>é 1"), vec!['a', '>', 'é', ' ', '1']);
}

#[test]
fn words_are_runs_between_white_space() {
    assert_eq!(split_words(" > * 1.9.0    1.4.20\t1.2.70 "), vec![">", "*", "1.9.0", "1.4.20", "1.2.70"]);
    assert_eq!(split_words("one"), vec!["one"]);
    assert_eq!(split_words(""), Vec::<String>::new());
    assert_eq!(split_words(" \t\r "), Vec::<String>::new());
    assert_eq!(split_words("a\u{a0}b\u{3000}c"), vec!["a", "b", "c"]);
}

#[test]
fn words_agree_with_split_whitespace() {
    let samples = [
        "",
        " ",
        "a",
        " a",
        "a ",
        "  a  b  ",
        " Corretto      |     | 21           | amzn    |            | 21-amzn",
        "tab\tseparated\u{b}words\u{c}here",
        "ünï cödé\u{2003}wörds\u{2028}x",
    ];
    for sample in samples {
        let expected: Vec<String> = sample.split_whitespace().map(|w| w.to_string()).collect();
        assert_eq!(split_words(sample), expected, "{:?}", sample);
    }
}

#[test]
fn lines_end_at_line_feeds() {
    assert_eq!(split_lines("a\nb"), vec!["a", "b"]);
    assert_eq!(split_lines("a\nb\n"), vec!["a", "b"]);
    assert_eq!(split_lines("a\r\nb\r\n"), vec!["a", "b"]);
    assert_eq!(split_lines("a\n\nb"), vec!["a", "", "b"]);
    assert_eq!(split_lines("\n"), vec![""]);
    assert_eq!(split_lines(""), Vec::<String>::new());
}

#[test]
fn last_line_keeps_a_bare_carriage_return() {
    assert_eq!(split_lines("a\r"), vec!["a\r"]);
    assert_eq!(split_lines("a\r\nb\r"), vec!["a", "b\r"]);
    assert_eq!(split_lines("a\rb\n"), vec!["a\rb"]);
    assert_eq!(split_lines("a\r\r\n"), vec!["a\r"]);
}

#[test]
fn lines_agree_with_std_lines() {
    let samples = [
        "",
        "\n",
        "\r\n",
        "\r",
        "one line",
        "one\ntwo\nthree",
        "one\r\ntwo\r\n\r\nthree\r",
        "====\nAvailable\n====\n 1.0  2.0\n\n====\n",
        "x\n\n\n",
        "é\nü\r\n",
    ];
    for sample in samples {
        let expected: Vec<String> = sample.lines().map(|l| l.to_string()).collect();
        assert_eq!(split_lines(sample), expected, "{:?}", sample);
    }
}

#[test]
fn lines_and_words_agree_on_generated_texts() {
    let alphabet = ['a', '1', '=', '-', ' ', '\n', '\r', '\t', '*', '>', '\u{a0}', 'é', '\u{2028}', '|'];
    let mut state: u64 = 0x2545F4914F6CDD1D;
    for _ in 0..4000 {
        let mut text = String::new();
        state = state.wrapping_mul(6364136223846793005).wrapping_add(1442695040888963407);
        let length = (state >> 33) % 24;
        for _ in 0..length {
            state = state.wrapping_mul(6364136223846793005).wrapping_add(1442695040888963407);
            text.push(alphabet[((state >> 33) % alphabet.len() as u64) as usize]);
        }
        let lines: Vec<String> = text.lines().map(|l| l.to_string()).collect();
        assert_eq!(split_lines(&text), lines, "{:?}", text);
        let words: Vec<String> = text.split_whitespace().map(|w| w.to_string()).collect();
        assert_eq!(split_words(&text), words, "{:?}", text);
        assert_eq!(chars_of(&text), text.chars().collect::<Vec<char>>());
    }
}
