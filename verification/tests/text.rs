use getmacrede::table::StringMap;
use getmacrede::text::{
    chars_contain, chars_equal, chars_start_with, from_chars, read_decimal_u8, read_hex_u8,
    replace_in_chars, split_chars, split_lines, split_words, strip_chars, to_chars, trim_chars,
};

fn chars(s: &str) -> Vec<char> {
    s.chars().collect()
}

fn strings(pieces: Vec<Vec<char>>) -> Vec<String> {
    pieces.into_iter().map(|p| p.into_iter().collect()).collect()
}

#[test]
fn characters_of_a_string_and_back() {
    assert_eq!(to_chars("añb"), vec!['a', 'ñ', 'b']);
    assert_eq!(from_chars(&vec!['a', 'ñ', 'b']), "añb");
    assert_eq!(to_chars(""), Vec::<char>::new());
}

#[test]
fn split_is_as_in_std() {
    for text in ["", "a", "-", "a-b", "--", "a--b-", "-a", "192.168.1.1-5"] {
        let expected: Vec<String> = text.split('-').map(|p| p.to_string()).collect();
        assert_eq!(strings(split_chars(&chars(text), '-')), expected, "{:?}", text);
    }
}

#[test]
fn words_are_as_in_std() {
    for text in ["", " ", "a", " a  b\tc\n", "a\u{a0}b\u{2003}c", "  lease 1.2.3.4 {", "x\r"] {
        let expected: Vec<String> = text.split_whitespace().map(|p| p.to_string()).collect();
        assert_eq!(strings(split_words(&chars(text))), expected, "{:?}", text);
    }
}

#[test]
fn lines_are_as_in_std() {
    for text in ["", "\n", "a", "a\n", "a\nb", "a\r\nb\r\n", "a\rb\n", "a\n\nb\n\n", "a\r", "\r\n", "a\n\r"] {
        let expected: Vec<String> = text.lines().map(|p| p.to_string()).collect();
        assert_eq!(strings(split_lines(&chars(text))), expected, "{:?}", text);
    }
}

#[test]
fn trim_is_as_in_std() {
    for text in ["", "  ", "a", "  a b \t\r\n", "\u{a0}x\u{3000}", " \"q\"; "] {
        let expected: String = text.trim().to_string();
        assert_eq!(from_chars(&trim_chars(&chars(text))), expected, "{:?}", text);
    }
    assert_eq!(from_chars(&strip_chars(&chars(" \"my laptop\"; "), &vec!['"', ';'])), "my laptop");
    assert_eq!(from_chars(&strip_chars(&chars("\";\" ;"), &vec!['"', ';'])), "");
}

#[test]
fn numbers_are_as_in_std() {
    for text in ["0", "7", "255", "256", "000255", "+5", "+", "", "-1", "1a", " 1", "999999999999", "ff", "FF", "+0f", "g", "1_0"] {
        assert_eq!(read_decimal_u8(&chars(text)), text.parse::<u8>().ok(), "{:?}", text);
        assert_eq!(read_hex_u8(&chars(text)), u8::from_str_radix(text, 16).ok(), "{:?}", text);
    }
}

#[test]
fn searching_and_comparing() {
    assert!(chars_contain(&chars("xx<00>yy"), &chars("<00>")));
    assert!(chars_contain(&chars("abc"), &chars("")));
    assert!(chars_contain(&chars(""), &chars("")));
    assert!(!chars_contain(&chars("ab"), &chars("abc")));
    assert!(!chars_contain(&chars("a<0>0"), &chars("<00>")));
    assert!(chars_start_with(&chars("lease x"), &chars("lease ")));
    assert!(!chars_start_with(&chars("leas"), &chars("lease ")));
    assert!(chars_equal(&chars("abc"), &chars("abc")));
    assert!(!chars_equal(&chars("abc"), &chars("abd")));
    assert!(!chars_equal(&chars("abc"), &chars("ab")));
    assert_eq!(from_chars(&replace_in_chars(&chars("a-b-c"), '-', ':')), "a:b:c");
}

#[test]
fn string_map_keeps_the_latest_binding() {
    let mut map = StringMap::new();
    assert!(map.get(&"a".to_string()).is_none());
    map.insert("a".to_string(), "1".to_string());
    map.insert("b".to_string(), "2".to_string());
    map.insert("a".to_string(), "3".to_string());
    assert_eq!(map.get(&"a".to_string()).map(|s| s.as_str()), Some("3"));
    assert_eq!(map.get(&"b".to_string()).map(|s| s.as_str()), Some("2"));
    assert!(map.contains_key(&"b".to_string()));
    assert!(!map.contains_key(&"c".to_string()));
}

#[test]
fn white_space_is_the_unicode_property() {
    let ranges: [(u32, u32); 11] = [
        (0x0009, 0x000D),
        (0x0020, 0x0020),
        (0x0085, 0x0085),
        (0x00A0, 0x00A0),
        (0x1680, 0x1680),
        (0x2000, 0x200A),
        (0x2028, 0x2028),
        (0x2029, 0x2029),
        (0x202F, 0x202F),
        (0x205F, 0x205F),
        (0x3000, 0x3000),
    ];
    let mut spaces = 0;
    for code in 0..=0x10FFFFu32 {
        if let Some(c) = char::from_u32(code) {
            let listed = ranges.iter().any(|(low, high)| *low <= code && code <= *high);
            let is_word = !split_words(&vec![c]).is_empty();
            assert_eq!(is_word, !listed, "U+{:04X}", code);
            assert_eq!(trim_chars(&vec![c]).is_empty(), listed, "U+{:04X}", code);
            if listed {
                spaces += 1;
            }
        }
    }
    assert_eq!(spaces, 25);
}
