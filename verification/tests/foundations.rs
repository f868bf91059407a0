use chatgpt_bridge::operations::CheckpointInfo;
use chatgpt_bridge::history::ChangeSummary;
use chatgpt_bridge::history::Head;
use chatgpt_bridge::history::Refs;
use chatgpt_bridge::order::comes_before;
use chatgpt_bridge::order::sort_bytes;
use chatgpt_bridge::order::stable_sort;
use chatgpt_bridge::path::join_path;
use chatgpt_bridge::path::last_name;
use chatgpt_bridge::path::parent_path;
use chatgpt_bridge::path::remainder;
use chatgpt_bridge::path::split_components;
use chatgpt_bridge::path::within;
use chatgpt_bridge::text::decimal_text;
use chatgpt_bridge::text::ends_with;
use chatgpt_bridge::text::hex_text;
use chatgpt_bridge::text::parse_unsigned;
use chatgpt_bridge::text::split_lines;
use chatgpt_bridge::text::split_word;
use chatgpt_bridge::text::starts_with;
use chatgpt_bridge::text::to_lower;
use chatgpt_bridge::text::to_upper;
use chatgpt_bridge::text::trim;
use chatgpt_bridge::text::trim_leading;
use chatgpt_bridge::tree::Entry;
use chatgpt_bridge::tree::Tree;
use std::path::Path;

#[test]
fn text_is_taken_apart_as_std_does() {
    for s in ["", " a ", "\u{a0}x\u{2003}", "\u{85}\u{3000}", "\u{200b}z", "\t\u{b}\u{1c}y"] {
        assert_eq!(trim(s), s.trim());
    }
    for s in ["", "a", "a\n", "a\r\nb", "\n\n", "a\r", "x\r\r\n", "\u{e9}\n\u{fc}"] {
        let lines: Vec<String> = s.lines().map(str::to_owned).collect();
        assert_eq!(split_lines(s), lines);
    }
    for s in ["", "one", " one two", "\tone\u{a0}two three "] {
        let mut parts = s.split_whitespace();
        match split_word(s) {
            None => assert!(parts.next().is_none()),
            Some((word, rest)) => {
                assert_eq!(word, parts.next().unwrap());
                let more: Vec<&str> = rest.split_whitespace().collect();
                assert_eq!(more, parts.collect::<Vec<&str>>());
            }
        }
    }
    assert_eq!(to_upper("a\u{e9}Z1"), "a\u{e9}Z1".to_ascii_uppercase());
    assert_eq!(to_lower("A\u{c9}z1"), "A\u{c9}z1".to_ascii_lowercase());
    assert_eq!(trim_leading("**a*", '*'), "a*");
    assert!(starts_with("abc", "ab") && !starts_with("a", "ab"));
    assert!(ends_with("abc", "bc") && !ends_with("c", "bc"));
}

#[test]
fn numbers_are_read_and_written_as_std_does() {
    for n in [0, 9, 10, 65_535, u128::MAX] {
        assert_eq!(decimal_text(n), n.to_string());
    }
    for s in ["", "+", "0", "007", "+12", "-1", "1 ", "18446744073709551615", "18446744073709551616"] {
        assert_eq!(parse_unsigned(s, u64::MAX), s.parse::<u64>().ok());
    }
    assert_eq!(parse_unsigned("256", 255), None);
    assert_eq!(hex_text(&[0, 15, 16, 255]), "000f10ff");
}

#[test]
fn paths_are_taken_apart_as_std_does() {
    let text = |bytes: Vec<u8>| String::from_utf8(bytes).unwrap();
    for p in ["", "/", "a", "/a", "a/b", "./a", "a/./b", "//a///b/", "..", "a/..", "/a/../b"] {
        let parts: Vec<String> = split_components(p.as_bytes()).into_iter().map(text).collect();
        let wanted: Vec<String> = Path::new(p)
            .components()
            .map(|c| c.as_os_str().to_str().unwrap().to_owned())
            .collect();
        assert_eq!(parts, wanted);
        assert_eq!(
            parent_path(p.as_bytes()).map(text),
            Path::new(p).parent().map(|above| above.to_str().unwrap().to_owned())
        );
        assert_eq!(
            last_name(p.as_bytes()).map(text),
            Path::new(p).file_name().map(|n| n.to_str().unwrap().to_owned())
        );
        for q in ["", "x", "/x", "x/y"] {
            assert_eq!(
                text(join_path(p.as_bytes(), q.as_bytes())),
                Path::new(p).join(q).to_str().unwrap()
            );
        }
        for root in ["/", "/a", "a", ""] {
            assert_eq!(
                within(root.as_bytes(), p.as_bytes()),
                Path::new(p).starts_with(root)
            );
        }
    }
    assert_eq!(remainder(b"/w", b"/w/a/b"), b"a/b".to_vec());
    assert_eq!(remainder(b"/w", b"/w"), b"".to_vec());
    assert_eq!(remainder(b"/w", b"/w/a//b/"), b"a//b".to_vec());
}

/// All texts of at most `n` of the given characters.
fn texts(characters: &[char], n: usize) -> Vec<String> {
    let mut all = vec![String::new()];
    let mut from = 0;
    for _ in 0..n {
        let to = all.len();
        for i in from..to {
            for c in characters {
                all.push(format!("{}{c}", all[i]));
            }
        }
        from = to;
    }
    all
}

#[test]
fn parents_and_rests_are_those_of_std_byte_for_byte() {
    let text = |bytes: Vec<u8>| String::from_utf8(bytes).unwrap();
    let roots = texts(&['/', '.', 'a'], 3);
    for p in texts(&['/', '.', 'a'], 7) {
        let path = Path::new(&p);
        assert_eq!(
            parent_path(p.as_bytes()).map(text),
            path.parent().map(|above| above.to_str().unwrap().to_owned()),
            "{p}"
        );
        for root in &roots {
            assert_eq!(within(root.as_bytes(), p.as_bytes()), path.starts_with(root));
            if let Ok(rest) = path.strip_prefix(root) {
                assert_eq!(
                    text(remainder(root.as_bytes(), p.as_bytes())),
                    rest.to_str().unwrap(),
                    "{p} behind {root}"
                );
            }
        }
    }
}

#[test]
fn bytes_are_ordered_as_std_does() {
    let names: Vec<Vec<u8>> = vec![b"b".to_vec(), b"".to_vec(), b"ab".to_vec(), b"a".to_vec(), b"B".to_vec()];
    for a in &names {
        for b in &names {
            assert_eq!(comes_before(a, b), a < b);
        }
    }
    let mut sorted = names.clone();
    sorted.sort();
    assert_eq!(sort_bytes(names), sorted);
}

fn made_at(id: &str, created_at_ms: u128) -> CheckpointInfo {
    CheckpointInfo {
        id: id.to_owned(),
        scope: String::new(),
        parent: None,
        created_at_ms,
        summary: ChangeSummary::default(),
    }
}

#[test]
fn sorting_is_stable() {
    let sorted = stable_sort(vec![made_at("a", 1), made_at("b", 2), made_at("c", 1), made_at("d", 2)]);
    let ids: Vec<&str> = sorted.iter().map(|info| info.id.as_str()).collect();
    assert_eq!(ids, vec!["b", "d", "a", "c"]);
}

#[test]
fn trees_keep_paths_once_and_in_order() {
    let mut tree = Tree::new();
    tree.insert("b".to_owned(), Entry::Directory { mode: 1 });
    tree.insert("a/x".to_owned(), Entry::Directory { mode: 2 });
    tree.insert("a".to_owned(), Entry::Directory { mode: 3 });
    tree.insert("b".to_owned(), Entry::Directory { mode: 4 });
    assert_eq!(tree.len(), 3);
    assert_eq!(tree.path_at(0), "a");
    assert_eq!(tree.path_at(1), "a/x");
    assert_eq!(tree.entry_at(2), &Entry::Directory { mode: 4 });
    assert!(tree.get("a/y").is_none());
    let copy = tree.copied();
    assert!(copy.same(&tree));
    tree.insert("c".to_owned(), Entry::Directory { mode: 5 });
    assert!(!copy.same(&tree) && !tree.same(&copy));
}

#[test]
fn heads_move() {
    let mut refs = Refs::from_heads(vec![
        Head { scope: "a".to_owned(), id: "1".to_owned() },
        Head { scope: "b".to_owned(), id: "2".to_owned() },
        Head { scope: "a".to_owned(), id: "3".to_owned() },
    ]);
    assert_eq!(refs.get("a").unwrap(), "3");
    refs.insert("a", "4");
    assert_eq!(refs.get("a").unwrap(), "4");
    assert_eq!(refs.get("b").unwrap(), "2");
    assert!(refs.get("c").is_none());
    assert_eq!(refs.heads().len(), 2);
}
