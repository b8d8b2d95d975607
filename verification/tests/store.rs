use flake_syncer::keyed::{PathMap, PathSet, TextSet};
use flake_syncer::store::{
    direnv_project, human_bytes, is_process_root, parse_root_line, parse_roots, reclaimable,
    root_rows, rooted_paths, rooted_projects, scan_roots, RootedPath,
};

fn strings(v: &[&str]) -> Vec<String> {
    v.iter().map(|s| s.to_string()).collect()
}

fn paths(v: &[&str]) -> PathSet {
    PathSet::of(strings(v))
}

fn rooted(path: &str, size: u64, projects: &[&str]) -> (String, RootedPath) {
    (
        path.to_string(),
        RootedPath {
            store_path: path.to_string(),
            retained_by: paths(projects),
            external_roots: TextSet::new(),
            size_bytes: size,
        },
    )
}

fn map(entries: Vec<(String, RootedPath)>) -> PathMap<RootedPath> {
    let mut m = PathMap::new();
    for (k, v) in entries {
        m.insert(k, v);
    }
    m
}

#[test]
fn shared_paths_are_not_counted_as_savings() {
    // /store/a is also held by /proj/c, which we are not migrating, so dropping b's root
    // frees nothing. Counting it would overstate savings.
    let roots = map(vec![rooted("/store/a", 500, &["/proj/b", "/proj/c"])]);
    let migrating = paths(&["/proj/b"]);

    assert_eq!(reclaimable(&roots, &migrating), (0, 0));
}

#[test]
fn fully_covered_paths_are_counted() {
    let roots = map(vec![rooted("/store/a", 500, &["/proj/b", "/proj/c"])]);
    let migrating = paths(&["/proj/b", "/proj/c"]);

    assert_eq!(reclaimable(&roots, &migrating), (500, 1));
}

#[test]
fn unrooted_paths_are_ignored() {
    let roots = map(vec![rooted("/store/a", 500, &[])]);
    let migrating = paths(&["/proj/b"]);

    assert_eq!(reclaimable(&roots, &migrating), (0, 0));
}

#[test]
fn externally_pinned_paths_are_not_reclaimable() {
    // A `result` symlink or running process holds this path too, so dropping the direnv
    // root frees nothing.
    let (p, mut r) = rooted("/store/a", 500, &["/proj/b"]);
    r.external_roots.insert("/Users/k/projects/x/result".into());
    assert!(r.pinned_elsewhere());
    let roots = map(vec![(p, r)]);
    let migrating = paths(&["/proj/b"]);

    assert_eq!(reclaimable(&roots, &migrating), (0, 0));
}

#[test]
fn savings_that_cannot_be_told_are_capped() {
    let roots = map(vec![
        rooted("/store/a", u64::MAX, &["/proj/b"]),
        rooted("/store/c", 5, &["/proj/b"]),
    ]);
    assert_eq!(reclaimable(&roots, &paths(&["/proj/b"])), (u64::MAX, 2));
}

#[test]
fn root_lines_are_parsed() {
    let (root, target) = parse_root_line(
        r#""/Users/k/dev/x/.direnv/flake-inputs/abc-source" -> /nix/store/abc-source"#,
    )
    .unwrap();
    assert_eq!(target, "/nix/store/abc-source");
    assert_eq!(direnv_project(&root), Some("/Users/k/dev/x".to_string()));
}

#[test]
fn lines_without_an_arrow_are_no_roots() {
    assert_eq!(parse_root_line("finding garbage collector roots..."), None);
    let found = parse_roots("noise\n\"{lsof}\" -> /nix/store/a\n/run/x -> /nix/store/b\n");
    assert_eq!(found.len(), 2);
    assert_eq!(found[0], ("{lsof}".to_string(), "/nix/store/a".to_string()));
    assert_eq!(found[1], ("/run/x".to_string(), "/nix/store/b".to_string()));
}

#[test]
fn censored_process_roots_are_external_not_direnv() {
    // `{lsof}` names no path, but the target is still alive.
    let (root, target) = parse_root_line(r#""{lsof}" -> /nix/store/xyz-nodejs"#).unwrap();
    assert_eq!(target, "/nix/store/xyz-nodejs");
    assert_eq!(direnv_project(&root), None);
}

#[test]
fn result_symlinks_are_not_attributed_to_a_project() {
    // Sits inside a project dir, but is not a direnv flake input.
    let (root, _) =
        parse_root_line(r#""/Users/k/projects/wedding/result" -> /nix/store/w-web"#).unwrap();
    assert_eq!(direnv_project(&root), None);
}

#[test]
fn a_scan_joins_the_roots_of_each_path() {
    let found = vec![
        ("/p/x/.direnv/flake-inputs/a".to_string(), "/nix/store/a".to_string()),
        ("/p/y/.direnv/flake-inputs/a".to_string(), "/nix/store/a".to_string()),
        ("{lsof}".to_string(), "/nix/store/a".to_string()),
        ("/p/x/.direnv/flake-inputs/b".to_string(), "/nix/store/b".to_string()),
    ];
    let kept = rooted_paths(&found);
    assert_eq!(kept.to_vec(), strings(&["/nix/store/a", "/nix/store/b"]));
    let roots = scan_roots(&found, &vec![70, 30]);
    assert_eq!(roots.len(), 2);
    let a = roots.get("/nix/store/a").unwrap();
    assert_eq!(a.retained_by.to_vec(), strings(&["/p/x", "/p/y"]));
    assert_eq!(a.external_roots.to_vec(), strings(&["{lsof}"]));
    assert_eq!(a.process_roots(), strings(&["{lsof}"]));
    assert!(a.durable_roots().is_empty());
    assert_eq!(a.size_bytes, 70);
    assert_eq!(roots.get("/nix/store/b").unwrap().size_bytes, 30);
}

#[test]
fn rooted_projects_lists_direnv_retainers() {
    let roots = map(vec![
        rooted("/store/a", 1, &["/proj/b"]),
        rooted("/store/c", 1, &["/proj/d", "/proj/b"]),
    ]);
    let got = rooted_projects(&roots);
    assert!(got.contains("/proj/b"));
    assert!(got.contains("/proj/d"));
    assert_eq!(got.len(), 2);
}

#[test]
fn root_rows_are_ordered_by_size() {
    let roots = map(vec![
        rooted("/store/small", 10, &["/proj/a"]),
        rooted("/store/big", 9000, &["/proj/b"]),
        rooted("/store/mid", 500, &["/proj/c"]),
    ]);

    let paths: Vec<_> = root_rows(&roots).into_iter().map(|r| r.store_path).collect();
    assert_eq!(paths, ["/store/big", "/store/mid", "/store/small"]);
}

#[test]
fn root_rows_separate_direnv_from_external_retainers() {
    let (p, mut r) = rooted("/store/a", 100, &["/proj/b"]);
    r.external_roots.insert("{lsof}".into());
    r.external_roots.insert("/run/current-system".into());
    let roots = map(vec![(p, r)]);

    let rows = root_rows(&roots);
    assert_eq!(rows[0].projects, ["/proj/b"]);
    // The durable pin and the transient one are kept apart: only the former is a lasting
    // reason the path cannot go.
    assert_eq!(rows[0].external, ["/run/current-system"]);
    assert_eq!(rows[0].process, ["{lsof}"]);
    assert_eq!(rows[0].retainer_count(), 3);
    // Something outside direnv holds it, so lockfile edits cannot free it.
    assert!(!rows[0].freeable());
}

#[test]
fn a_path_held_only_by_a_process_is_blocked_but_not_durably() {
    let (p, mut r) = rooted("/store/a", 100, &["/proj/b"]);
    r.external_roots.insert("{lsof}".into());
    let roots = map(vec![(p, r)]);

    let rows = root_rows(&roots);
    assert!(!rows[0].freeable(), "a live process still pins it");
    assert!(rows[0].blocked_only_by_process());
    assert!(!rows[0].process_only(), "a project holds it too");
}

#[test]
fn temp_and_censored_roots_count_as_process_roots() {
    // The daemon censors these differently but they are all transient.
    assert!(is_process_root("{lsof}"));
    assert!(is_process_root("{temp:89776}"));
    assert!(is_process_root("{censored}"));
    // Real paths are not.
    assert!(!is_process_root("/run/current-system"));
    assert!(!is_process_root("/Users/k/projects/x/result"));
}

#[test]
fn a_durably_pinned_path_is_not_merely_process_blocked() {
    let (p, mut r) = rooted("/store/a", 100, &["/proj/b"]);
    r.external_roots.insert("/run/current-system".into());
    r.external_roots.insert("{lsof}".into());
    let roots = map(vec![(p, r)]);

    // The profile outlives the process, so hiding process roots must not make this look
    // reclaimable.
    assert!(!root_rows(&roots)[0].blocked_only_by_process());
}

#[test]
fn a_purely_direnv_path_is_freeable() {
    let roots = map(vec![rooted("/store/a", 100, &["/proj/b", "/proj/c"])]);
    assert!(root_rows(&roots)[0].freeable());
}

#[test]
fn an_unrooted_path_is_not_freeable() {
    // Nothing holds it, so there is no root to drop and nothing to free.
    let roots = map(vec![rooted("/store/a", 100, &[])]);
    assert!(!root_rows(&roots)[0].freeable());
}

#[test]
fn human_bytes_scales() {
    assert_eq!(human_bytes(512), "512 B");
    assert_eq!(human_bytes(2048), "2.0 KiB");
    assert_eq!(human_bytes(5 * 1024 * 1024), "5.0 MiB");
}

#[test]
fn byte_figures_are_those_of_the_float() {
    fn by_float(b: u64) -> String {
        let units = ["B", "KiB", "MiB", "GiB", "TiB"];
        let mut v = b as f64;
        let mut i = 0;
        while v >= 1024.0 && i < units.len() - 1 {
            v /= 1024.0;
            i += 1;
        }
        if i == 0 {
            format!("{b} {}", units[0])
        } else {
            format!("{v:.1} {}", units[i])
        }
    }
    let mut b: u64 = 1;
    let mut step: u64 = 7;
    for _ in 0..4000 {
        assert_eq!(human_bytes(b), by_float(b), "{b}");
        b = b.wrapping_mul(6364136223846793005).wrapping_add(step);
        step = step.wrapping_add(1442695040888963407);
        let small = b >> (step % 64);
        assert_eq!(human_bytes(small), by_float(small), "{small}");
    }
    for b in [0, 1023, 1024, 1025, u64::MAX, u64::MAX - 1, (1 << 53) + 1] {
        assert_eq!(human_bytes(b), by_float(b), "{b}");
    }
}

#[test]
fn odd_root_lines_are_read_as_their_parts_say() {
    fn by_std(line: &str) -> Option<(String, String)> {
        let (root, target) = line.rsplit_once(" -> ")?;
        let root = root.trim().trim_matches('"').to_string();
        let target = target.trim();
        if !target.starts_with("/nix/store/") {
            return None;
        }
        Some((root, target.to_string()))
    }
    for line in [
        "",
        " -> ",
        "a -> b",
        "a -> /nix/store/x",
        " \"a\"  ->  /nix/store/x ",
        "a -> b -> /nix/store/x",
        "\"\"a\" -> /nix/store/",
        "a -> /nix/store",
        "a->/nix/store/x",
        "é -> /nix/store/ü",
    ] {
        assert_eq!(parse_root_line(line), by_std(line), "{line:?}");
    }
    fn project_by_std(root: &str) -> Option<String> {
        let (project, rest) = root.split_once("/.direnv/")?;
        if rest.contains("flake-inputs/") {
            Some(project.to_string())
        } else {
            None
        }
    }
    for root in [
        "",
        "/.direnv/flake-inputs/",
        "/p/.direnv/flake-inputs",
        "/p/.direnv/x/flake-inputs/y",
        "/p/.direnv/.direnv/flake-inputs/y",
        "/p/.direnv/a/.direnv/flake-inputs/y",
        "/flake-inputs/.direnv/",
    ] {
        assert_eq!(direnv_project(root), project_by_std(root), "{root:?}");
    }
}

#[test]
fn droppable_rows_add_up_to_what_all_projects_would_free() {
    let mut pinned = rooted("/store/p", 16, &["/proj/a"]);
    pinned.1.external_roots = TextSet::of(strings(&["/home/k/result"]));
    let mut held = rooted("/store/h", 32, &["/proj/b"]);
    held.1.external_roots = TextSet::of(strings(&["{lsof}"]));
    let mut alone = rooted("/store/l", 64, &[]);
    alone.1.external_roots = TextSet::of(strings(&["{temp:1}"]));
    let roots = map(vec![
        rooted("/store/a", 1, &["/proj/a"]),
        rooted("/store/b", 8, &["/proj/a", "/proj/b"]),
        pinned,
        held,
        alone,
    ]);
    let rows = root_rows(&roots);
    let droppable: Vec<_> = rows.iter().filter(|r| r.freeable()).collect();
    let bytes: u64 = droppable.iter().map(|r| r.size_bytes).sum();
    assert_eq!((bytes, droppable.len()), (9, 2));
    assert_eq!(reclaimable(&roots, &rooted_projects(&roots)), (9, 2));
    for row in &rows {
        let kinds = [row.freeable(), row.blocked_only_by_process(), row.process_only()];
        assert!(kinds.iter().filter(|k| **k).count() <= 1, "{row:?}");
    }
    assert_eq!(rows.iter().filter(|r| r.blocked_only_by_process()).count(), 1);
    assert_eq!(rows.iter().filter(|r| r.process_only()).count(), 1);
}
