use bvdocs::keyed::{find_key, find_sorted, insert_sorted, str_lt};
use bvdocs::text::{
    ascii_lower, decimal, ends_with, join, lines, repeat, replace_char, str_eq, strip_suffix, trim,
    trim_end, trim_start,
};

#[test]
fn trimming_follows_unicode_whitespace() {
    assert_eq!(trim(" \t a b \n"), "a b");
    assert_eq!(trim("\u{3000}x\u{a0}"), "x");
    assert_eq!(trim_end("  a  "), "  a");
    assert_eq!(trim_start("  a  "), "a  ");
    assert_eq!(trim("   "), "");
    assert_eq!(" \u{2003}y\u{85} ".trim(), trim(" \u{2003}y\u{85} "));
}

#[test]
fn decimals() {
    assert_eq!(decimal(0), "0");
    assert_eq!(decimal(7), "7");
    assert_eq!(decimal(10), "10");
    assert_eq!(decimal(4096), "4096");
    assert_eq!(decimal(usize::MAX), usize::MAX.to_string());
}

#[test]
fn lines_split_like_std() {
    for text in ["", "a", "a\n", "a\r\nb", "a\n\nb\n", "\n", "x\r", "a\r\r\n"] {
        let expected: Vec<String> = text.lines().map(|l| l.to_string()).collect();
        assert_eq!(lines(text), expected, "{text:?}");
    }
}

#[test]
fn small_helpers() {
    assert_eq!(ascii_lower("FindFirstChild Ä"), "findfirstchild Ä");
    assert_eq!(replace_char("a-b-c", '-', ' '), "a b c");
    assert!(ends_with("Part.yaml", ".yaml"));
    assert!(!ends_with("yaml", ".yaml"));
    assert_eq!(strip_suffix("Part.yaml", ".yaml"), Some("Part".to_string()));
    assert_eq!(strip_suffix("Part.yml", ".yaml"), None);
    assert_eq!(repeat("  ", 3), "      ");
    assert_eq!(join(&vec!["a".to_string(), "b".to_string()], ", "), "a, b");
    assert_eq!(join(&vec![], ", "), "");
    assert!(str_eq("ab", "ab") && !str_eq("ab", "abc"));
}

#[test]
fn keyed_order_is_string_order() {
    let words = ["b", "a-b", "a", "", "ab", "Z", "é"];
    for x in words {
        for y in words {
            assert_eq!(str_lt(x, y), x < y, "{x} {y}");
        }
    }
    let mut map: Vec<(String, u32)> = Vec::new();
    for (i, w) in words.iter().enumerate() {
        insert_sorted(&mut map, w.to_string(), i as u32);
    }
    insert_sorted(&mut map, "a".to_string(), 99);
    let keys: Vec<&str> = map.iter().map(|(k, _)| k.as_str()).collect();
    assert_eq!(keys, vec!["", "Z", "a", "a-b", "ab", "b", "é"]);
    assert_eq!(find_sorted(&map, "a").map(|i| map[i].1), Some(99));
    assert_eq!(find_sorted(&map, "c"), None);
    assert_eq!(find_key(&map, "ab"), Some(4));
}
