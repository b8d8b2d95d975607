use flake_syncer::command::Ran;
use flake_syncer::lock::{Group, Identity, Pin};
use flake_syncer::sync::{
    action_for, applied, apply, command_lines, direnv_roots_dir, drop_direnv_roots,
    merge_action_for, pinned_flakeref, Removal,
};

fn identity(git_ref: &str) -> Identity {
    Identity {
        kind: "github".into(),
        owner: "nixos".into(),
        repo: "nixpkgs".into(),
        git_ref: git_ref.into(),
    }
}

fn pin() -> Pin {
    Pin {
        project: "/p".into(),
        input_name: "nixpkgs_2".into(),
        declared_name: Some("nixpkgs".into()),
        version: "aaa".into(),
        last_modified: Some(1),
        direct: true,
    }
}

#[test]
fn a_revision_sync_is_one_command() {
    let group = Group { identity: identity("nixos-unstable"), pins: vec![pin()] };
    let action = action_for(&group, &group.pins[0], "bbb");
    assert!(!action.changes_ref());
    assert_eq!(action.target_url(), None);
    assert_eq!(action.input_name, "nixpkgs", "the declared name, not the node name");
    let run = apply(&action, true).unwrap();
    assert_eq!(run.program, "nix");
    assert_eq!(run.dir, "/p");
    assert_eq!(
        run.args,
        [
            "flake",
            "update",
            "nixpkgs",
            "--override-input",
            "nixpkgs",
            pinned_flakeref(&group.identity, "bbb").as_str(),
        ]
    );
    assert_eq!(command_lines(&action).len(), 1);
}

#[test]
fn a_merge_is_two_steps() {
    let target = identity("nixpkgs-unstable");
    let from = identity("nixos-unstable");
    let action = merge_action_for(&target, &from, &pin(), "bbb");
    assert!(action.changes_ref());
    assert_eq!(action.target_url().as_deref(), Some("github:nixos/nixpkgs/nixpkgs-unstable"));
    let lines = command_lines(&action);
    assert_eq!(lines.len(), 2);
    assert!(lines[0].starts_with("edit /p/flake.nix"), "{lines:?}");
    assert!(lines[1].contains("nix flake update"), "{lines:?}");
}

#[test]
fn updates_say_why_they_failed() {
    let group = Group { identity: identity(""), pins: vec![pin()] };
    let action = action_for(&group, &group.pins[0], "bbb");
    assert_eq!(apply(&action, false).unwrap_err(), "no flake.nix in /p");
    assert_eq!(applied(&action, &Ran::Succeeded), Ok(()));
    assert_eq!(
        applied(&action, &Ran::NotStarted),
        Err("running nix flake update in /p".to_string())
    );
    assert_eq!(
        applied(&action, &Ran::Failed { stderr: " error: no\n".to_string() }),
        Err("nix flake update failed in /p: error: no".to_string())
    );
}

#[test]
fn only_removed_roots_are_counted() {
    assert_eq!(direnv_roots_dir("/p"), "/p/.direnv/flake-inputs");
    assert_eq!(drop_direnv_roots("/p", &Removal::Absent), Ok(0));
    assert_eq!(drop_direnv_roots("/p", &Removal::Tried(vec![true, false, true])), Ok(2));
    assert_eq!(
        drop_direnv_roots("/p", &Removal::Unreadable),
        Err("reading /p/.direnv/flake-inputs".to_string())
    );
}
