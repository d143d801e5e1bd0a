use sisyphus::group::group;
use sisyphus::intern::Interner;
use sisyphus::json::{parse, Json};
use sisyphus::number::{divide_rounded, parse_i64, to_decimal, to_signed_decimal};
use sisyphus::order::{alphabetize, median_of, rank, reorder_texts, text_at_most, texts_at_most};
use sisyphus::path::{name_of, path_below, resolve, stem_of, strip_slashes, tail};
use sisyphus::text::{
    contains, find, find_last, head_line, head_word, join, replace_all, split, split_lines,
    split_whitespace, starts_with, trim, trim_start, Separator,
};

fn strings(v: &[&str]) -> Vec<String> {
    v.iter().map(|s| s.to_string()).collect()
}

#[test]
fn decimals_read_back() {
    for n in [0, 7, -7, i64::MAX, i64::MIN] {
        let s = to_signed_decimal(n);
        assert_eq!(s, n.to_string());
        assert_eq!(parse_i64(&s.chars().collect()), Some(n));
    }
    assert_eq!(to_decimal(u128::MAX), u128::MAX.to_string());
    let read = |s: &str| parse_i64(&s.chars().collect());
    assert_eq!(read("+12"), Some(12));
    assert_eq!(read("9223372036854775808"), None);
    assert_eq!(read("-9223372036854775809"), None);
    assert_eq!(read(""), None);
    assert_eq!(read("-"), None);
    assert_eq!(read("1 "), None);
}

#[test]
fn halves_round_to_even() {
    assert_eq!(divide_rounded(5, 2), 2);
    assert_eq!(divide_rounded(7, 2), 4);
    assert_eq!(divide_rounded(8, 3), 3);
    assert_eq!(divide_rounded(7, 3), 2);
}

#[test]
fn orders_are_stable() {
    assert_eq!(rank(&vec![5, 9, 5, 7]), vec![1, 3, 0, 2]);
    let names = strings(&["b", "a", "", "b"]);
    let order = alphabetize(&names);
    assert_eq!(order, vec![2, 1, 0, 3]);
    assert_eq!(reorder_texts(&names, &order), strings(&["", "a", "b", "b"]));
    assert_eq!(median_of(&vec![9, 1, 5, 3]), 5);
    assert!(text_at_most("a", "ab") && !text_at_most("b", "ab"));
    // by code points, as by bytes
    assert!(text_at_most("\u{ffff}", "\u{10000}"));
    assert!(texts_at_most(&strings(&["a"]), &strings(&["a", "b"])));
    assert!(!texts_at_most(&strings(&["b"]), &strings(&["a", "b"])));
}

#[test]
fn paths_are_taken_apart() {
    assert_eq!(path_below("/a", "b"), "/a/b");
    assert_eq!(path_below("/a/", "b"), "/a/b");
    assert_eq!(path_below("", "b"), "b");
    assert_eq!(resolve("/a", "/b"), "/b");
    assert_eq!(resolve("/a", "b"), "/a/b");
    assert_eq!(strip_slashes("a//"), "a");
    assert_eq!(tail("a/b"), "b");
    assert_eq!(name_of("/a/b.txt"), "b.txt");
    assert_eq!(stem_of("/a/b.tar.gz"), "b.tar");
    assert_eq!(stem_of("/a/.profile"), ".profile");
    assert_eq!(stem_of("/a/b/"), "b");
    // a plain name is found again
    assert_eq!(stem_of(&path_below("/home/.local/bin", "up")), "up");
    for p in ["/a/b.txt", "x", "a/..", "/", "", "a/.", "a//b//", "..", ".", "a.b/", ".a.b"] {
        let expected = std::path::Path::new(p);
        assert_eq!(name_of(p), expected.file_name().unwrap_or_default().to_string_lossy(), "{p}");
        assert_eq!(stem_of(p), expected.file_stem().unwrap_or_default().to_string_lossy(), "{p}");
    }
}

#[test]
fn texts_are_split_like_std_does() {
    for s in ["", " ", "a", " a  b\tc\n", "a\r\nb\n", "\n\n", "a\n\r", "x\u{a0}y\u{2003}z", "中 文"] {
        let words: Vec<&str> = s.split_whitespace().collect();
        assert_eq!(split_whitespace(s), words, "{s:?}");
        let lines: Vec<&str> = s.lines().collect();
        assert_eq!(split_lines(s), lines, "{s:?}");
        assert_eq!(head_word(s), s.split_whitespace().next().unwrap_or(""), "{s:?}");
        assert_eq!(head_line(s), s.lines().next().unwrap_or(""), "{s:?}");
        assert_eq!(trim(s), s.trim(), "{s:?}");
        assert_eq!(trim_start(s), s.trim_start(), "{s:?}");
        let pieces: Vec<&str> = s.split('\n').collect();
        assert_eq!(split(s, Separator::Char('\n')), pieces, "{s:?}");
        assert_eq!(replace_all(s, "a", "bb"), s.replace("a", "bb"), "{s:?}");
        assert_eq!(contains(s, "a"), s.contains("a"), "{s:?}");
        assert_eq!(starts_with(s, " a"), s.starts_with(" a"), "{s:?}");
    }
    assert_eq!(replace_all("aaa", "aa", "b"), "ba");
    assert_eq!(join(&strings(&["a", "b"]), ", "), "a, b");
    assert_eq!(join(&Vec::new(), ", "), "");
    // joined words fall apart again
    let w = strings(&["git", "add", "."]);
    assert_eq!(split_whitespace(&join(&w, " ")), w);
    let c: Vec<char> = "abca".chars().collect();
    assert_eq!(find(&c, 'a'), Some(0));
    assert_eq!(find_last(&c, 'a'), Some(3));
    assert_eq!(find(&c, 'x'), None);
}

#[test]
fn groups_keep_first_appearances() {
    let g = group(&strings(&["b", "a", "b"]));
    assert_eq!(g.names, strings(&["b", "a"]));
    assert_eq!(g.members, vec![vec![0, 2], vec![1]]);
    let mut i = Interner::new();
    assert_eq!(i.intern("x"), 0);
    assert_eq!(i.intern("y"), 1);
    assert_eq!(i.intern("x"), 0);
    assert_eq!(i.len(), 2);
    assert_eq!(i.name(1), "y");
    assert_eq!(i.find("z"), None);
}

#[test]
fn json_is_read() {
    let v = parse("{\"a\":[null,true,1.5,\"x\\u00e4\"],\"b\":{\"c\":false}}").unwrap();
    let list = v.get("a").as_list().unwrap();
    assert_eq!(list.len(), 4);
    assert!(matches!(list[0], Json::Null));
    assert!(list[1].is_true());
    assert!(matches!(list[2], Json::Number(None)));
    assert!(list[3].is("xä"));
    assert_eq!(v.get("b").get("c").as_text(), None);
    assert!(!v.get("b").get("c").is_true());
    assert_eq!(list[2].as_integer(), None);
    assert_eq!(parse("-12").unwrap().as_integer(), Some(-12));
    assert_eq!(parse("9223372036854775808").unwrap().as_integer(), None);
    assert_eq!(parse("\"3\"").unwrap().as_integer(), None);
    // what is missing is null
    assert!(matches!(v.get("z").get("y"), Json::Null));
    assert!(parse("{").is_none());
    // of two members of one name the last counts
    assert_eq!(parse("{\"a\":\"1\",\"a\":\"2\"}").unwrap().get("a").to_text(), Some("2".to_string()));
}
