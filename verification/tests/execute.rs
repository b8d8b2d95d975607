use flake_syncer::app::{App, EditPreview, Inspected, Mode, Step};
use flake_syncer::diff::Captured;
use flake_syncer::execute::{execute_plan, Execution, Job};
use flake_syncer::keyed::PathMap;
use flake_syncer::lock::Identity;
use flake_syncer::nix_edit::{
    apply_edit, apply_edit_again, find_url, next_edit_step, EditStep, PendingEdit,
};
use flake_syncer::progress::TimeSpan;
use flake_syncer::scan::Config;
use flake_syncer::sync::Action;
use std::collections::BTreeMap;

fn identity(git_ref: &str) -> Identity {
    Identity {
        kind: "github".into(),
        owner: "nixos".into(),
        repo: "nixpkgs".into(),
        git_ref: git_ref.into(),
    }
}

fn action(project: &str, rewrites: bool) -> Action {
    Action {
        project: project.into(),
        input_name: "nixpkgs".into(),
        identity: identity("nixpkgs-unstable"),
        from_version: "aaa".into(),
        target_version: "0123456789abcdef".into(),
        from_identity: if rewrites { Some(identity("nixos-unstable")) } else { None },
    }
}

fn preview(project: &str) -> EditPreview {
    EditPreview {
        project: project.into(),
        input_name: "nixpkgs".into(),
        edit: Ok(PendingEdit {
            path: format!("{project}/flake.nix"),
            before: "a\n".into(),
            after: "b\n".into(),
            from_url: "old".into(),
            to_url: "new".into(),
        }),
        rendered: String::new(),
    }
}

fn app_over(pending: Vec<Action>, pending_diffs: Vec<EditPreview>) -> App {
    let mut app = App::new(vec![], PathMap::new(), vec![], Config::default_for(None));
    app.pending = pending;
    app.pending_diffs = pending_diffs;
    app
}

/// Run the whole plan: updates fail in `failing`, and each drop frees one root.
fn run(app: &mut App, failing: &[&str]) -> Vec<String> {
    let mut dropped = Vec::new();
    let mut run: Execution = execute_plan(app);
    loop {
        let total = app.running.as_ref().unwrap().total;
        assert!(app.running.as_ref().unwrap().done <= total);
        match run.next_job(app) {
            Job::Edit(edit) => {
                assert_eq!(app.running.as_ref().unwrap().current.as_ref().unwrap().0, Step::Editing);
                let backup = format!("{}.bak", edit.path);
                let captured = Captured { success: true, stdout: "-a\n+b\n".to_string() };
                run.edit_done(app, &edit, &Ok(backup), Some(captured));
            }
            Job::EditAgain(edit) => panic!("{edit:?}"),
            Job::Update => {
                let project = run.actions[run.at].project.clone();
                let outcome = if failing.contains(&project.as_str()) {
                    Err("boom".to_string())
                } else {
                    Ok(())
                };
                run.update_done(app, &outcome);
            }
            Job::DropRoots(project) => {
                dropped.push(project);
                run.drop_done(app, &Ok(1));
            }
            Job::Skip => {
                assert!(app.running.as_ref().unwrap().current.is_some());
                run.skip_done(app);
            }
            Job::Settled => {}
            Job::Finish => {
                assert_eq!(app.running.as_ref().unwrap().done, total);
                run.finish(app, &TimeSpan::from_secs(42));
                return dropped;
            }
        }
    }
}

#[test]
fn a_plan_is_run_and_reported() {
    let mut app = app_over(
        vec![action("/b", true), action("/a", false)],
        vec![preview("/b")],
    );
    let dropped = run(&mut app, &[]);
    assert_eq!(dropped, ["/a", "/b"]);
    assert_eq!(app.mode, Mode::Report);
    assert!(app.running.is_none());
    assert!(app.pending.is_empty());
    assert!(app.pending_diffs.is_empty());
    assert_eq!(
        app.report,
        [
            "4 action(s) in 42s",
            "",
            "ok    /b/flake.nix [nixpkgs] url old → new  (backup: /b/flake.nix.bak)",
            "      -a",
            "      +b",
            "ok    /b nixpkgs → 0123456789ab",
            "ok    /a nixpkgs → 0123456789ab",
            "",
            "Dropped 2 direnv GC root(s). Run `nix store gc` to reclaim the space.",
            "1 flake.nix backup(s) kept alongside the originals (.nix.bak).",
        ]
    );
}

#[test]
fn a_project_with_a_failure_keeps_its_roots() {
    let mut app = app_over(
        vec![action("/a", false), action("/b", false), action("/b", true)],
        vec![],
    );
    // The rewrite in /b was never planned, so it is skipped, though its sync succeeded.
    let dropped = run(&mut app, &[]);
    assert_eq!(dropped, ["/a"]);
    assert!(app
        .report
        .contains(&"fail  /b [nixpkgs]: flake.nix could not be rewritten, skipped".to_string()));
    assert_eq!(app.report[0], "5 action(s) in 42s, 1 failed");
}

#[test]
fn a_failed_update_does_not_stop_the_rest() {
    let mut app = app_over(vec![action("/a", false), action("/b", false)], vec![]);
    let dropped = run(&mut app, &["/a"]);
    assert_eq!(dropped, ["/b"]);
    assert_eq!(
        app.report,
        [
            "4 action(s) in 42s, 1 failed",
            "",
            "fail  /a: boom",
            "ok    /b nixpkgs → 0123456789ab",
            "",
            "Dropped 1 direnv GC root(s). Run `nix store gc` to reclaim the space.",
        ]
    );
}

#[test]
fn a_failed_edit_gives_the_action_up() {
    let mut app = app_over(vec![action("/b", true)], vec![preview("/b")]);
    let mut run = execute_plan(&mut app);
    let edit = match run.next_job(&mut app) {
        Job::Edit(edit) => edit,
        other => panic!("{other:?}"),
    };
    run.edit_done(&mut app, &edit, &Err("writing /b/flake.nix".to_string()), None);
    assert_eq!(run.report, ["fail  /b/flake.nix: writing /b/flake.nix"]);
    // Its roots stay, and the run is over.
    assert!(matches!(run.next_job(&mut app), Job::Settled));
    assert!(matches!(run.next_job(&mut app), Job::Finish));
}

#[test]
fn roots_that_cannot_be_dropped_are_reported() {
    let mut app = app_over(vec![action("/a", false)], vec![]);
    let mut run = execute_plan(&mut app);
    assert!(matches!(run.next_job(&mut app), Job::Update));
    run.update_done(&mut app, &Ok(()));
    assert!(matches!(run.next_job(&mut app), Job::DropRoots(p) if p == "/a"));
    run.drop_done(&mut app, &Err("reading /a/.direnv/flake-inputs".to_string()));
    assert_eq!(
        run.report[1],
        "fail  dropping roots in /a: reading /a/.direnv/flake-inputs"
    );
    assert_eq!(run.dropped, 0);
}

/// Perform an edit on files held in memory; the check rejects texts with `bad` in them.
fn perform(
    files: &mut BTreeMap<String, String>,
    edit: &PendingEdit,
    mut step: EditStep,
    bad: &str,
) -> Result<String, String> {
    loop {
        let mut failure = None;
        match &step {
            EditStep::WriteBackup { path, text }
            | EditStep::WriteFile { path, text }
            | EditStep::Restore { path, text, .. } => {
                files.insert(path.clone(), text.clone());
            }
            EditStep::Verify { .. } => {
                if files[&edit.path].contains(bad) {
                    failure = Some("no longer evaluates".to_string());
                }
            }
            EditStep::Applied { backup } => return Ok(backup.clone()),
            EditStep::Failed { error } => return Err(error.clone()),
        }
        step = next_edit_step(edit, step, failure);
    }
}

/// A plan that rewrites `first` and `second` of `/p`, and what its files hold after it.
fn rewrite_two(bad: &str) -> (BTreeMap<String, String>, App) {
    let source = "{\n  inputs.first.url = \"a\"; # keep\n  inputs.second.url = \"b\";\n}\n";
    let mut files = BTreeMap::from([("/p/flake.nix".to_string(), source.to_string())]);
    let mut pending = Vec::new();
    for (name, git_ref) in [("first", "one"), ("second", "two")] {
        let mut a = action("/p", true);
        a.input_name = name.into();
        a.identity = identity(git_ref);
        pending.push(a);
    }
    let mut app = app_over(pending, vec![]);
    let seen = || Inspected { source: Some(source.to_string()), captured: None };
    app.compute_diffs(vec![seen(), seen()]);
    let mut run = execute_plan(&mut app);
    loop {
        match run.next_job(&mut app) {
            Job::Edit(edit) => {
                assert_eq!(files[&edit.path], edit.before);
                let outcome = perform(&mut files, &edit, apply_edit(&edit), bad);
                run.edit_done(&mut app, &edit, &outcome, None);
            }
            Job::EditAgain(edit) => {
                assert_eq!(files[&edit.path], edit.before);
                let outcome = perform(&mut files, &edit, apply_edit_again(&edit), bad);
                run.edit_done(&mut app, &edit, &outcome, None);
            }
            Job::Update => run.update_done(&mut app, &Ok(())),
            Job::DropRoots(_) => run.drop_done(&mut app, &Ok(0)),
            Job::Skip => {
                assert!(app.running.as_ref().unwrap().current.is_some());
                run.skip_done(&mut app);
            }
            Job::Settled => {}
            Job::Finish => {
                run.finish(&mut app, &TimeSpan::from_secs(1));
                return (files, app);
            }
        }
    }
}

fn url_of(files: &BTreeMap<String, String>, path: &str, name: &str) -> String {
    let text = &files[path];
    find_url(text, name).unwrap().text(text).to_string()
}

#[test]
fn two_rewrites_of_one_flake_both_stand() {
    let (files, app) = rewrite_two("nothing");
    assert_eq!(url_of(&files, "/p/flake.nix", "first"), "github:nixos/nixpkgs/one");
    assert_eq!(url_of(&files, "/p/flake.nix", "second"), "github:nixos/nixpkgs/two");
    assert!(files["/p/flake.nix"].contains("# keep"));
    // The backup is the text from before both.
    assert_eq!(url_of(&files, "/p/flake.nix.bak", "first"), "a");
    assert_eq!(url_of(&files, "/p/flake.nix.bak", "second"), "b");
    assert_eq!(app.report[0], "3 action(s) in 1.0s");
}

#[test]
fn a_rejected_second_rewrite_leaves_the_first() {
    let (files, app) = rewrite_two("/two");
    assert_eq!(url_of(&files, "/p/flake.nix", "first"), "github:nixos/nixpkgs/one");
    assert_eq!(url_of(&files, "/p/flake.nix", "second"), "b");
    assert_eq!(url_of(&files, "/p/flake.nix.bak", "first"), "a");
    assert!(app.report.contains(&"fail  /p/flake.nix: no longer evaluates".to_string()));
}

#[test]
fn nothing_is_built_on_a_rejected_rewrite() {
    let (files, app) = rewrite_two("/one");
    assert_eq!(files["/p/flake.nix"], files["/p/flake.nix.bak"]);
    assert_eq!(url_of(&files, "/p/flake.nix", "second"), "b");
    assert!(app.report.contains(
        &"fail  /p [second]: flake.nix could not be rewritten, skipped".to_string()
    ));
}
