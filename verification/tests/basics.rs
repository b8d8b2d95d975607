use flake_syncer::keyed::{PathMap, PathSet, TextSet};
use flake_syncer::numbers::{one_decimal_text, rounded_to};
use flake_syncer::paths::{
    file_name_of, is_same_path, join, parent_of, path_before, replace_extension,
};
use flake_syncer::text::{
    byte_offset, cat2, contains_text, left_text, lines_of, right_text, split_at_char, text_before,
    to_chars, to_lowercase, trimmed, words_of, zeros_text,
};

fn strings(v: &[&str]) -> Vec<String> {
    v.iter().map(|s| s.to_string()).collect()
}

#[test]
fn lines_are_those_of_std() {
    for s in ["", "a", "a\n", "a\r\nb", "a\n\nb\n", "\n", "\r\n", "a\r"] {
        let want: Vec<&str> = s.lines().collect();
        assert_eq!(lines_of(s), want, "{s:?}");
    }
}

#[test]
fn words_and_trimming_are_those_of_std() {
    for s in ["", "  ", " code  --wait\t", "a\u{a0}b", "\u{2003}x\u{3000}", "x\ny"] {
        let want: Vec<&str> = s.split_whitespace().collect();
        assert_eq!(words_of(s), want, "{s:?}");
        assert_eq!(trimmed(s), s.trim(), "{s:?}");
    }
}

#[test]
fn padding_counts_characters() {
    assert_eq!(right_text("é", 3), format!("{:>3}", "é"));
    assert_eq!(left_text("é", 3), format!("{:<3}", "é"));
    assert_eq!(left_text("toolong", 3), "toolong");
    assert_eq!(zeros_text("7", 2), "07");
    assert_eq!(cat2("a", "b"), "ab");
}

#[test]
fn texts_compare_as_std_does() {
    for (a, b) in [("", "a"), ("a", "b"), ("é", "z"), ("ab", "abc"), ("a", "a"), ("\u{10000}", "\u{ffff}")] {
        assert_eq!(text_before(a, b), a < b);
        assert_eq!(text_before(b, a), b < a);
    }
    assert!(contains_text("haystack", "yst"));
    assert!(!contains_text("haystack", "yts"));
    assert_eq!(split_at_char("a,b,,c", ','), strings(&["a", "b", "", "c"]));
    assert_eq!(to_lowercase("NixOS"), "nixos");
}

#[test]
fn offsets_count_bytes() {
    let s = "aé→b";
    let chars = to_chars(s);
    for (k, (at, _)) in s.char_indices().enumerate() {
        assert_eq!(byte_offset(&chars, k), at);
    }
}

#[test]
fn paths_behave_as_those_of_std() {
    for p in ["/a/b", "/a/b/", "a//b", "/", "", ".", "./a", "a/..", "/a/./b", ".."] {
        let std = std::path::Path::new(p);
        assert_eq!(
            file_name_of(p).as_deref(),
            std.file_name().map(|n| n.to_str().unwrap()),
            "{p:?}"
        );
        assert_eq!(
            parent_of(p).as_deref(),
            std.parent().map(|n| n.to_str().unwrap()),
            "{p:?}"
        );
        for q in ["x", "", "x/y"] {
            assert_eq!(join(p, q), std.join(q).to_str().unwrap(), "{p:?} {q:?}");
        }
        for q in ["/a/b", "a/b", "a", "/a-b", "..", "./a"] {
            assert_eq!(path_before(p, q), std < std::path::Path::new(q), "{p:?} {q:?}");
            assert_eq!(is_same_path(p, q), std == std::path::Path::new(q), "{p:?} {q:?}");
        }
    }
    for p in ["/p/flake.nix", "flake", "/p/.hidden", "/p/a.b.c", "/p/x."] {
        assert_eq!(
            replace_extension(p, "nix.bak"),
            std::path::Path::new(p).with_extension("nix.bak").to_str().unwrap()
        );
    }
}

/// Every text of up to `n` characters out of `alphabet`.
fn all_texts(alphabet: &[char], n: usize) -> Vec<String> {
    let mut all = vec![String::new()];
    let mut last = all.clone();
    for _ in 0..n {
        let mut next = Vec::new();
        for s in &last {
            for c in alphabet {
                let mut t = s.clone();
                t.push(*c);
                next.push(t);
            }
        }
        all.extend(next.iter().cloned());
        last = next;
    }
    all
}

#[test]
fn every_short_path_behaves_as_that_of_std() {
    for p in all_texts(&['a', '.', '/'], 8) {
        let std = std::path::Path::new(&p);
        assert_eq!(
            file_name_of(&p).as_deref(),
            std.file_name().map(|n| n.to_str().unwrap()),
            "{p:?}"
        );
        assert_eq!(parent_of(&p).as_deref(), std.parent().map(|n| n.to_str().unwrap()), "{p:?}");
        let dots = file_name_of(&p).is_some_and(|n| n.starts_with(".."));
        if !dots {
            assert_eq!(
                replace_extension(&p, "x.y"),
                std.with_extension("x.y").to_str().unwrap(),
                "{p:?}"
            );
        }
        assert_eq!(join(&p, "q"), std.join("q").to_str().unwrap(), "{p:?}");
    }
}

#[test]
fn every_two_short_paths_compare_as_those_of_std() {
    let all = all_texts(&['a', '-', '.', '/'], 4);
    for p in &all {
        for q in &all {
            let (a, b) = (std::path::Path::new(p), std::path::Path::new(q));
            assert_eq!(path_before(p, q), a < b, "{p:?} {q:?}");
            assert_eq!(is_same_path(p, q), a == b, "{p:?} {q:?}");
        }
    }
}

#[test]
fn sets_and_maps_keep_their_order() {
    let mut set = PathSet::new();
    for p in ["/a-b", "/a/c", "/a", "/a/"] {
        set.insert(p.to_string());
    }
    assert_eq!(set.to_vec(), strings(&["/a", "/a/c", "/a-b"]));
    assert!(set.contains("/a/"));
    assert!(!set.contains("/b"));
    assert_eq!(set.position("/a-b"), Some(2));
    let texts = TextSet::of(strings(&["b", "a", "b"]));
    assert_eq!(texts.len(), 2);
    assert_eq!(texts.get(0), "a");
    let mut map = PathMap::new();
    map.insert("/b".to_string(), 1);
    map.insert("/a".to_string(), 2);
    map.insert("/b/".to_string(), 3);
    assert_eq!(map.len(), 2);
    assert_eq!(map.key(1), "/b");
    assert_eq!(map.get("/b"), Some(&3));
    assert_eq!(map.exchange(0, 9), 2);
    assert_eq!(map.get("/a"), Some(&9));
    assert_eq!(map.get("/c"), None);
}

#[test]
fn rounding_is_that_of_the_float() {
    for n in [0u64, 1, (1 << 53) - 1, 1 << 53, (1 << 53) + 1, (1 << 53) + 3, u64::MAX, u64::MAX / 3] {
        assert_eq!(rounded_to(n as u128), n as f64 as u128, "{n}");
    }
    assert_eq!(one_decimal_text(5, 2), "2.5");
    assert_eq!(one_decimal_text(1, 4), "0.2");
    assert_eq!(one_decimal_text(3, 4), "0.8");
}
