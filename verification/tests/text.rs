use subwash::text::cut_text;
use subwash::text::has_text;
use subwash::text::is_before;
use subwash::text::same_text;
use subwash::text::split_text;
use subwash::text::trim_text;
use subwash::text::white_space;

#[test]
fn white_space_agrees_with_std() {
    for code in 0..=0x10FFFFu32 {
        if let Some(c) = char::from_u32(code) {
            assert_eq!(white_space(c), c.is_whitespace());
        }
    }
}

#[test]
fn trimming_agrees_with_std() {
    for text in ["", " ", "a", " a b ", "\u{3000}x\u{2003}", "\n\t", "x ", "é\u{85}", "\u{200b}a"] {
        assert_eq!(trim_text(text), text.trim());
        assert_eq!(trim_text(&format!(" \t{}\r\n ", text)), text.trim());
    }
}

#[test]
fn splitting_agrees_with_std() {
    for text in ["", ";", "a", "a;b", ";;", "线;路;", "a=b;c=d"] {
        assert_eq!(split_text(text, ';'), text.split(';').collect::<Vec<&str>>());
        assert_eq!(cut_text(text, '='), text.split_once('='));
    }
    assert_eq!(cut_text("a=b=c", '='), Some(("a", "b=c")));
}

#[test]
fn searching_agrees_with_std() {
    let texts = ["", "a", "ab", "aab", "香港", "香港01", "港", "b", "aa"];
    for text in texts {
        for needle in texts {
            assert_eq!(has_text(text, needle), text.contains(needle));
            assert_eq!(same_text(text, needle), text == needle);
            assert_eq!(is_before(text, needle), text < needle);
        }
    }
}
