use vecls::text::{chars_of, field_spans, is_value, is_white, line_spans, str_eq};

fn pick(text: &[char], spans: Vec<(usize, usize)>) -> Vec<String> {
    spans.into_iter().map(|(a, b)| text[a..b].iter().collect()).collect()
}

const TEXTS: [&str; 12] = [
    "",
    "\n",
    "a",
    "a\n",
    "a\n\nb",
    "a\r\nb\r\n",
    "a\rb\n",
    "a\r",
    "\r\n\r\n",
    "  x\ty \u{a0}z  ",
    "\u{3000}w\u{85}v\u{200b}u",
    "server:/e /mnt nfs4 rw 0 0\n",
];

#[test]
fn white_space_is_that_of_std() {
    for u in 0..=0x10ffffu32 {
        if let Some(c) = char::from_u32(u) {
            assert_eq!(is_white(c), c.is_whitespace(), "{u:#x}");
        }
    }
}

#[test]
fn lines_are_those_of_std() {
    for t in TEXTS {
        let chars = chars_of(t);
        let expected: Vec<String> = t.lines().map(str::to_string).collect();
        assert_eq!(pick(&chars, line_spans(&chars)), expected, "{t:?}");
    }
}

#[test]
fn words_are_those_of_std() {
    for t in TEXTS {
        let chars = chars_of(t);
        let expected: Vec<String> = t.split_whitespace().map(str::to_string).collect();
        assert_eq!(pick(&chars, field_spans(&chars)), expected, "{t:?}");
    }
}

#[test]
fn texts_are_compared_whole() {
    assert!(str_eq("nfs", "nfs") && !str_eq("nfs", "nfs4") && !str_eq("", "x"));
    assert!(is_value(Some("0"), "0") && !is_value(Some("00"), "0") && !is_value(None, "0"));
}
