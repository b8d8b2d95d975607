use flake_syncer::app::{App, EditPreview, Mode};
use flake_syncer::keyed::PathMap;
use flake_syncer::keys::{
    command_for, editor_closed, editor_target, open_in_editor, Command, Key,
};
use flake_syncer::lock::{Group, Identity, Pin};
use flake_syncer::scan::Config;

fn pin(project: &str) -> Pin {
    Pin {
        project: project.into(),
        input_name: "nixpkgs".into(),
        declared_name: Some("nixpkgs".into()),
        version: "abc".into(),
        last_modified: None,
        direct: true,
    }
}

fn app() -> App {
    let identity = Identity {
        kind: "github".into(),
        owner: "nixos".into(),
        repo: "nixpkgs".into(),
        git_ref: String::new(),
    };
    let groups = vec![Group { identity, pins: vec![pin("/a")] }];
    let mut app = App::new(groups, PathMap::new(), Vec::new(), Config::default_for(None));
    app.rooted_only = false;
    app.show_all = true;
    app
}

#[test]
fn a_plan_runs_only_from_the_screen_that_shows_it() {
    assert_eq!(command_for(Mode::Confirm, Key::Enter), Command::ExecutePlan);
    assert_eq!(command_for(Mode::Browse, Key::Enter), Command::ChooseVersion);
    assert_eq!(command_for(Mode::Report, Key::Enter), Command::Quit);
    assert_eq!(command_for(Mode::Roots, Key::Enter), Command::Nothing);
}

#[test]
fn keys_typed_while_a_plan_runs_mean_nothing() {
    for key in [Key::Enter, Key::Esc, Key::Char('q'), Key::Char('s'), Key::Up] {
        assert_eq!(command_for(Mode::Running, key), Command::Nothing);
    }
}

#[test]
fn letters_and_arrows_move_alike() {
    assert_eq!(command_for(Mode::Browse, Key::Char('j')), command_for(Mode::Browse, Key::Down));
    assert_eq!(command_for(Mode::Roots, Key::Char('k')), Command::RootsUp);
    assert_eq!(command_for(Mode::Confirm, Key::Char('j')), Command::ScrollDown);
    assert_eq!(command_for(Mode::Browse, Key::PageUp), Command::ScrollUp);
    assert_eq!(command_for(Mode::Browse, Key::Char('z')), Command::Nothing);
    assert_eq!(command_for(Mode::Roots, Key::Esc), Command::CloseRoots);
}

#[test]
fn the_editor_opens_the_highlighted_project() {
    let mut app = app();
    assert_eq!(editor_target(&app), Some("/a/flake.nix".to_string()));
    let line = open_in_editor(&mut app, &Some("code --wait".to_string()), &None).unwrap();
    assert_eq!(line, ["code", "--wait", "/a/flake.nix"]);
    editor_closed(&mut app, "code", "/a/flake.nix", &None);
    assert_eq!(app.status, "edited /a/flake.nix — rescan (q, then rerun) to pick up changes");
    editor_closed(&mut app, "code", "/a/flake.nix", &Some("not found".to_string()));
    assert_eq!(app.status, "could not launch code: not found");
}

#[test]
fn a_refused_rewrite_is_what_the_editor_opens_first() {
    let mut app = app();
    app.mode = Mode::Confirm;
    app.pending_diffs.push(EditPreview {
        project: "/refused".into(),
        input_name: "nixpkgs".into(),
        edit: Err("no url".into()),
        rendered: String::new(),
    });
    assert_eq!(editor_target(&app), Some("/refused/flake.nix".to_string()));
    app.mode = Mode::Browse;
    assert_eq!(editor_target(&app), Some("/a/flake.nix".to_string()));
}

#[test]
fn without_a_file_or_an_editor_the_status_says_so() {
    let mut app = app();
    app.config.editor = vec![];
    assert!(open_in_editor(&mut app, &None, &None).is_none());
    assert_eq!(app.status, "no editor configured");
    app.groups.clear();
    assert!(open_in_editor(&mut app, &None, &None).is_none());
    assert_eq!(app.status, "nothing to open");
}
