use flake_syncer::scan::{
    default_differ, default_editor, find_lockfiles, is_ignored, is_lockfile, is_skipped, Config,
};

fn pats(v: &[&str]) -> Vec<String> {
    v.iter().map(|s| s.to_string()).collect()
}

#[test]
fn absolute_ignore_covers_descendants() {
    let ig = pats(&["/home/k/projects/talks"]);
    assert!(is_ignored("/home/k/projects/talks", &ig));
    assert!(is_ignored("/home/k/projects/talks/nix-scala-folks", &ig));
    assert!(!is_ignored("/home/k/projects/other", &ig));
}

#[test]
fn relative_ignore_matches_the_path_tail() {
    let ig = pats(&["talks/nix-scala-folks"]);
    assert!(is_ignored("/home/k/projects/talks/nix-scala-folks", &ig));
    assert!(!is_ignored("/home/k/projects/talks/other", &ig));
}

#[test]
fn ignore_respects_component_boundaries() {
    // A prefix match would wrongly ignore `talks-archive`.
    let ig = pats(&["talks"]);
    assert!(!is_ignored("/home/k/projects/talks-archive", &ig));
    assert!(is_ignored("/home/k/projects/talks/deep/nested", &ig));
}

#[test]
fn empty_ignore_matches_nothing() {
    assert!(!is_ignored("/anything", &vec![]));
}

#[test]
fn an_explicit_editor_beats_the_environment() {
    // Someone who wrote an editor into the config meant it, whatever their shell exports.
    let cfg = Config { editor: vec!["emacs".into()], ..Config::default_for(None) };
    let set = Some("code --wait".to_string());
    assert_eq!(cfg.editor_command(&None, &None), vec!["emacs".to_string()]);
    assert_eq!(cfg.editor_command(&set, &set), vec!["emacs".to_string()]);
}

#[test]
fn a_multi_word_env_editor_is_split_into_arguments() {
    // `EDITOR="code --wait"` is common, and passing it as one program name would fail to
    // launch.
    let cfg = Config::default_for(None);
    let visual = Some("code --wait".to_string());
    assert_eq!(cfg.editor_command(&visual, &None), vec!["code".to_string(), "--wait".to_string()]);
}

#[test]
fn a_blank_editor_is_no_choice() {
    let cfg = Config::default_for(None);
    let blank = Some("  ".to_string());
    let vim = Some("vim".to_string());
    assert_eq!(cfg.editor_command(&None, &vim), vec!["vim".to_string()]);
    assert_eq!(cfg.editor_command(&blank, &vim), default_editor());
    assert_eq!(cfg.editor_command(&None, &None), default_editor());
}

#[test]
fn the_default_differ_never_blocks_on_a_pager() {
    // Output is captured rather than handed a terminal, so a pager would hang the TUI
    // rather than show anything.
    assert!(default_differ().contains(&"--paging=never".to_string()));
}

#[test]
fn directories_that_hold_no_projects_are_skipped() {
    for name in [".git", ".direnv", "result"] {
        assert!(is_skipped(name), "{name}");
    }
    assert!(!is_skipped("results"));
    assert!(is_lockfile("flake.lock"));
    assert!(!is_lockfile("flake.nix"));
}

#[test]
fn lockfiles_come_once_in_order_without_ignored_projects() {
    let cfg = Config { ignore: pats(&["/p/skip"]), ..Config::default_for(None) };
    let seen = pats(&[
        "/p/b/flake.lock",
        "/p/a-b/flake.lock",
        "/p/a/flake.lock",
        "/p/skip/x/flake.lock",
        "/p/b/flake.lock",
    ]);
    // A directory sorts by its components, so `a` comes before `a-b`.
    assert_eq!(
        find_lockfiles(&cfg, &seen),
        pats(&["/p/a/flake.lock", "/p/a-b/flake.lock", "/p/b/flake.lock"])
    );
}

#[test]
fn ignoring_goes_by_components_as_std_does() {
    fn by_std(project: &str, pat: &str) -> bool {
        let (project, pat) = (std::path::Path::new(project), std::path::Path::new(pat));
        if pat.is_absolute() {
            project.starts_with(pat)
        } else {
            project.ancestors().any(|a| a.ends_with(pat))
        }
    }
    let some = ["", "/", "a", "/a", "a/b", "/a/b", "b", "./a", "/a/./b/", "a-b", "/x/a/b/c", "..", "."];
    for project in some {
        for pat in some {
            assert_eq!(
                is_ignored(project, &pats(&[pat])),
                by_std(project, pat),
                "{project:?} {pat:?}"
            );
        }
    }
}
