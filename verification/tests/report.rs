use flake_syncer::app::App;
use flake_syncer::keyed::{PathMap, PathSet, TextSet};
use flake_syncer::lock::{Group, Identity, Pin};
use flake_syncer::report::{print_report, print_roots};
use flake_syncer::scan::Config;
use flake_syncer::store::RootedPath;

fn strings(v: &[&str]) -> Vec<String> {
    v.iter().map(|s| s.to_string()).collect()
}

fn group(owner: &str, repo: &str, git_ref: &str, pins: &[(&str, &str)]) -> Group {
    Group {
        identity: Identity {
            kind: "github".into(),
            owner: owner.into(),
            repo: repo.into(),
            git_ref: git_ref.into(),
        },
        pins: pins
            .iter()
            .map(|(project, version)| Pin {
                project: project.to_string(),
                input_name: "x".into(),
                declared_name: Some("x".into()),
                version: version.to_string(),
                last_modified: None,
                direct: true,
            })
            .collect(),
    }
}

fn held(path: &str, size: u64, projects: &[&str], external: &[&str]) -> (String, RootedPath) {
    (
        path.to_string(),
        RootedPath {
            store_path: path.to_string(),
            retained_by: PathSet::of(strings(projects)),
            external_roots: TextSet::of(strings(external)),
            size_bytes: size,
        },
    )
}

fn app(groups: Vec<Group>, roots: Vec<(String, RootedPath)>) -> App {
    let mut m = PathMap::new();
    for (k, v) in roots {
        m.insert(k, v);
    }
    App::new(groups, m, Vec::new(), Config::default_for(None))
}

#[test]
fn the_analysis_reads_exactly_so() {
    let app = app(
        vec![
            group("nixos", "nixpkgs", "a", &[("/p", "1"), ("/q", "2")]),
            group("nixos", "nixpkgs", "b", &[("/p", "1")]),
            group("numtide", "utils", "", &[("/p", "1"), ("/q", "2"), ("/r", "3")]),
        ],
        vec![
            held("/nix/store/a", 2048, &["/p", "/q"], &[]),
            held("/nix/store/b", 512, &["/r"], &["{lsof}"]),
        ],
    );
    assert_eq!(
        print_report(&app, 3),
        [
            "3 lockfiles, 3 input identities",
            "(only projects holding a GC root; --all-projects to include the rest)",
            "",
            "2 divergent:",
            "   3 revs across  3 pins  numtide/utils",
            "   2 revs across  2 pins  nixos/nixpkgs@a",
            "",
            "1 repo(s) declared under more than one ref:",
            "  2 refs, 3 pins:",
            "     2 revs across  2 pins  nixos/nixpkgs@a",
            "     1 revs across  1 pins  nixos/nixpkgs@b",
            "  (merge them in the TUI with m/M — this rewrites flake.nix)",
            "",
            "Upper bound if every divergent group is unified and its direnv roots dropped:",
            "  2.0 KiB across 1 store paths",
        ]
    );
}

#[test]
fn a_ref_out_of_scope_is_not_offered_for_merging() {
    let mut app = app(
        vec![
            group("nixos", "nixpkgs", "a", &[("/p", "1")]),
            group("nixos", "nixpkgs", "b", &[("/unrooted", "1")]),
        ],
        vec![held("/nix/store/a", 1, &["/p"], &[])],
    );
    assert!(!print_report(&app, 2).iter().any(|l| l.contains("more than one ref")));
    app.rooted_only = false;
    let all = print_report(&app, 2);
    assert!(all.iter().any(|l| l == "1 repo(s) declared under more than one ref:"), "{all:?}");
    assert!(!all[1].starts_with('('), "{all:?}");
}

#[test]
fn the_reverse_root_index_reads_exactly_so() {
    let mut app = app(
        vec![],
        vec![
            held("/nix/store/a", 500, &["/p"], &[]),
            held("/nix/store/b", 2048, &["/q"], &["/run/current-system", "{lsof}"]),
            held("/nix/store/c", 9000, &[], &["{lsof}"]),
        ],
    );
    assert_eq!(
        print_roots(&app),
        [
            "2 rooted store path(s), 2.5 KiB held (upper bound)",
            "1 droppable by direnv roots alone, 500 B",
            "(process-held paths hidden; --with-process-roots to include them)",
            "",
            "×    2.0 KiB  /nix/store/b",
            "             direnv    /q",
            "             external  /run/current-system",
            "·      500 B  /nix/store/a",
            "             direnv    /p",
            "",
            "· droppable by this tool   × pinned outside direnv",
        ]
    );
    app.roots_hide_process = false;
    let shown = print_roots(&app);
    assert_eq!(shown[0], "3 rooted store path(s), 11.3 KiB held (upper bound)");
    assert!(shown.contains(&"             process   {lsof}".to_string()), "{shown:?}");
}

#[test]
fn without_roots_the_index_says_so() {
    let app = app(vec![], vec![]);
    assert_eq!(print_roots(&app), ["No GC roots found (is nix-store on PATH?)"]);
}
