use flake_syncer::app::{
    fit_names, project_name, short, App, Inspected, Mode, Pane, Running, Step, VersionRow,
};
use flake_syncer::diff::Captured;
use flake_syncer::keyed::{PathMap, PathSet, TextSet};
use flake_syncer::lock::{Group, Identity, Pin};
use flake_syncer::progress::{bar_text, percent_text, TimeSpan};
use flake_syncer::scan::Config;
use flake_syncer::store::RootedPath;
use flake_syncer::sync;

fn names(v: &[&str]) -> Vec<String> {
    v.iter().map(|s| s.to_string()).collect()
}

fn pin(project: &str, name: &str, version: &str, direct: bool) -> Pin {
    Pin {
        project: project.into(),
        input_name: name.into(),
        version: version.into(),
        last_modified: Some(1),
        direct,
        declared_name: if direct { Some(name.to_string()) } else { None },
    }
}

fn held(rooted: &[&str]) -> PathMap<RootedPath> {
    let mut roots = PathMap::new();
    for (i, p) in rooted.iter().enumerate() {
        let sp = format!("/store/{i}");
        roots.insert(
            sp.clone(),
            RootedPath {
                store_path: sp,
                retained_by: PathSet::of(names(&[*p])),
                external_roots: TextSet::new(),
                size_bytes: 1,
            },
        );
    }
    roots
}

fn nixpkgs(git_ref: &str) -> Identity {
    Identity {
        kind: "github".into(),
        owner: "nixos".into(),
        repo: "nixpkgs".into(),
        git_ref: git_ref.into(),
    }
}

/// An App over one group, with `rooted` projects holding a GC root.
fn app_with(pins: Vec<Pin>, rooted: &[&str]) -> App {
    let group = Group { identity: nixpkgs(""), pins };
    App::new(vec![group], held(rooted), Vec::new(), Config::default_for(None))
}

#[test]
fn nothing_is_selected_on_startup() {
    // Staging every divergent group by default would make a destructive plan the path of
    // least resistance.
    let app = app_with(
        vec![pin("/a", "nixpkgs", "one", true), pin("/b", "nixpkgs", "two", true)],
        &["/a", "/b"],
    );
    assert!(app.targets.is_empty());
    assert_eq!(app.divergent_count(), 1);
}

#[test]
fn select_all_opts_into_the_suggestion() {
    let mut app = app_with(
        vec![pin("/a", "nixpkgs", "one", true), pin("/b", "nixpkgs", "two", true)],
        &["/a", "/b"],
    );
    app.select_all_suggested();
    assert_eq!(app.targets.len(), 1);
    app.select_none();
    assert!(app.targets.is_empty());
}

#[test]
fn transitive_pins_do_not_create_divergence() {
    // Only a dependency's lockfile disagrees; --override-input cannot fix that, so it must
    // not be reported as actionable.
    let app = app_with(
        vec![
            pin("/a", "nixpkgs", "same", true),
            pin("/b", "nixpkgs", "same", true),
            pin("/b", "nixpkgs_2", "other", false),
        ],
        &["/a", "/b"],
    );
    let g = &app.groups[0];
    assert!(!app.is_divergent(g));
    assert_eq!(app.actionable_pins(g).len(), 2);
    assert_eq!(g.transitive_count(), 1);
}

#[test]
fn unrooted_projects_are_excluded_by_default() {
    // /b holds no GC root, so converging it frees nothing and the group is not worth acting
    // on.
    let mut app = app_with(
        vec![pin("/a", "nixpkgs", "one", true), pin("/b", "nixpkgs", "two", true)],
        &["/a"],
    );
    assert!(app.rooted_only);
    let g = &app.groups[0];
    assert!(!app.is_divergent(g), "unrooted /b should not count as divergence");
    assert_eq!(app.unrooted_count(g), 1);

    // Toggling brings it back.
    app.toggle_rooted_only();
    assert!(app.is_divergent(&app.groups[0]));
    assert_eq!(app.actionable_pins(&app.groups[0]).len(), 2);
}

#[test]
fn project_scope_reports_what_the_filter_hides() {
    let mut app = app_with(
        vec![
            pin("/a", "nixpkgs", "one", true),
            pin("/b", "nixpkgs", "two", true),
            pin("/c", "nixpkgs", "three", true),
        ],
        &["/a"],
    );
    // Rooted-only: one in scope, two hidden.
    assert_eq!(app.project_scope(), (1, 2));

    app.toggle_rooted_only();
    assert_eq!(app.project_scope(), (3, 0));
}

#[test]
fn suggestion_ignores_unrooted_and_transitive_pins() {
    let mut newest = pin("/c", "nixpkgs_2", "transitive", false);
    newest.last_modified = Some(9_000);
    let mut unrooted = pin("/b", "nixpkgs", "unrooted", true);
    unrooted.last_modified = Some(8_000);
    let app = app_with(vec![pin("/a", "nixpkgs", "rooted", true), unrooted, newest], &["/a"]);
    // Only /a is both direct and rooted, so it is the only valid target.
    assert_eq!(app.suggested_target(0), None, "not divergent among actionable pins");
    assert_eq!(app.actionable_pins(&app.groups[0]).len(), 1);
}

#[test]
fn the_suggestion_is_the_newest_in_use() {
    let mut newer = pin("/b", "nixpkgs", "two", true);
    newer.last_modified = Some(9);
    let mut never = pin("/c", "nixpkgs", "three", true);
    never.last_modified = None;
    let app =
        app_with(vec![pin("/a", "nixpkgs", "one", true), newer, never], &["/a", "/b", "/c"]);
    assert_eq!(app.suggested_target(0), Some("two"));
}

/// An App over several groups of the same repo on different refs — the exact situation
/// merging exists for.
fn app_with_refs(specs: &[(&str, Vec<Pin>)], rooted: &[&str]) -> App {
    let groups = specs
        .iter()
        .map(|(git_ref, pins)| Group { identity: nixpkgs(git_ref), pins: pins.clone() })
        .collect();
    App::new(groups, held(rooted), Vec::new(), Config::default_for(None))
}

fn two_refs() -> App {
    app_with_refs(
        &[
            ("nixpkgs-unstable", vec![pin("/a", "nixpkgs", "one", true)]),
            ("nixos-unstable", vec![pin("/b", "nixpkgs", "two", true)]),
        ],
        &["/a", "/b"],
    )
}

/// Mark `indices` and merge them onto `canonical`.
fn merge(app: &mut App, canonical: usize, indices: &[usize]) {
    for &i in indices {
        app.merge_marks.insert(i);
    }
    let visible = app.visible();
    app.group_idx = visible.iter().position(|&v| v == canonical).unwrap();
    app.commit_merge();
}

#[test]
fn merging_is_opt_in() {
    // Two refs of the same repo stay separate until the user says otherwise: converging
    // them silently would change which branch a project follows.
    let app = two_refs();
    assert!(app.merges.is_empty());
    assert_eq!(app.visible().len(), 0, "neither group diverges on its own");
    assert_eq!(app.divergent_count(), 0);
}

#[test]
fn merging_two_refs_creates_one_divergent_group() {
    let mut app = two_refs();
    app.show_all = true;
    merge(&mut app, 0, &[0, 1]);

    // One listing, standing for both, and now divergent.
    assert_eq!(app.visible(), vec![0]);
    assert!(app.is_absorbed(1));
    assert!(app.is_divergent_at(0));
    assert_eq!(app.actionable_at(0).len(), 2);
    assert_eq!(app.identity_of(0).unwrap().git_ref, "nixpkgs-unstable");
}

#[test]
fn unmerging_restores_both_groups() {
    let mut app = two_refs();
    app.show_all = true;
    merge(&mut app, 0, &[0, 1]);
    app.unmerge(0);

    assert!(app.merges.is_empty());
    assert_eq!(app.visible(), vec![0, 1]);
    assert!(!app.is_absorbed(1));
}

#[test]
fn only_off_ref_pins_need_a_flake_nix_edit() {
    // /a already declares the canonical ref, so it needs a revision sync only; /b declares
    // a different one and must be rewritten.
    let mut app = two_refs();
    app.show_all = true;
    merge(&mut app, 0, &[0, 1]);

    let changes = app.ref_changes(0);
    assert_eq!(changes.len(), 1);
    assert_eq!(changes[0].0.project, "/b");
    assert_eq!(changes[0].1.git_ref, "nixos-unstable");
}

#[test]
fn staging_a_merge_emits_ref_edits_and_rev_syncs() {
    let mut app = two_refs();
    app.show_all = true;
    merge(&mut app, 0, &[0, 1]);
    app.targets.insert(0, "one".into());
    app.stage();

    assert_eq!(app.mode, Mode::Confirm);
    // /b changes ref; /a is already on target and needs nothing.
    assert_eq!(app.pending.len(), 1);
    let a = &app.pending[0];
    assert!(a.changes_ref());
    assert_eq!(a.project, "/b");
    assert_eq!(a.target_url().as_deref(), Some("github:nixos/nixpkgs/nixpkgs-unstable"));
}

#[test]
fn an_off_ref_pin_is_staged_even_when_its_revision_matches() {
    // Same rev, wrong declaration: skipping it would leave flake.nix saying something the
    // merge was meant to change, and the next `nix flake update` would drift straight back.
    let mut app = app_with_refs(
        &[
            ("nixpkgs-unstable", vec![pin("/a", "nixpkgs", "same", true)]),
            ("nixos-unstable", vec![pin("/b", "nixpkgs", "same", true)]),
        ],
        &["/a", "/b"],
    );
    app.show_all = true;
    merge(&mut app, 0, &[0, 1]);
    app.targets.insert(0, "same".into());
    app.stage();

    assert_eq!(app.pending.len(), 1);
    assert!(app.pending[0].changes_ref());
    assert_eq!(app.pending[0].project, "/b");
}

#[test]
fn rewrites_are_planned_before_plain_syncs() {
    let mut app = app_with_refs(
        &[
            ("nixpkgs-unstable", vec![pin("/a", "nixpkgs", "one", true)]),
            ("nixos-unstable", vec![pin("/z", "nixpkgs", "two", true)]),
        ],
        &["/a", "/z"],
    );
    app.show_all = true;
    merge(&mut app, 0, &[0, 1]);
    app.targets.insert(0, "three".into());
    app.stage();
    assert_eq!(app.pending.len(), 2);
    assert_eq!(app.pending[0].project, "/z");
    assert!(app.pending[0].changes_ref());
    assert!(!app.pending[1].changes_ref());
}

#[test]
fn merging_across_different_repos_is_refused() {
    let mut app = app_with(vec![pin("/a", "nixpkgs", "one", true)], &["/a"]);
    app.groups.push(Group {
        identity: Identity {
            kind: "github".into(),
            owner: "numtide".into(),
            repo: "flake-utils".into(),
            git_ref: String::new(),
        },
        pins: vec![pin("/b", "flake-utils", "two", true)],
    });
    app.show_all = true;
    app.merge_marks.insert(0);
    app.group_idx = 1;
    app.toggle_merge_mark();

    assert_eq!(app.merge_marks.len(), 1, "the second mark must be refused");
    assert!(app.status.contains("different repos"), "{}", app.status);
}

#[test]
fn merge_candidates_are_same_repo_other_refs() {
    let app = app_with_refs(
        &[
            ("nixpkgs-unstable", vec![pin("/a", "nixpkgs", "one", true)]),
            ("nixos-unstable", vec![pin("/b", "nixpkgs", "two", true)]),
            ("", vec![pin("/c", "nixpkgs", "three", true)]),
        ],
        &["/a", "/b", "/c"],
    );
    assert_eq!(app.merge_candidates(0), vec![1, 2]);
}

#[test]
fn a_ref_with_nothing_actionable_is_not_offered_as_a_candidate() {
    // /c holds no GC root, so under the default filter that ref contributes nothing —
    // offering it would advertise a merge that changes nothing.
    let app = app_with_refs(
        &[
            ("nixpkgs-unstable", vec![pin("/a", "nixpkgs", "one", true)]),
            ("nixos-unstable", vec![pin("/b", "nixpkgs", "two", true)]),
            ("nixos-24.11", vec![pin("/c", "nixpkgs", "three", true)]),
        ],
        &["/a", "/b"],
    );
    assert!(app.rooted_only);
    assert_eq!(app.merge_candidates(0), vec![1], "the unrooted ref is not offered");

    // Including unrooted projects brings it back.
    let mut app = app;
    app.toggle_rooted_only();
    assert_eq!(app.merge_candidates(0), vec![1, 2]);
}

#[test]
fn a_merge_needs_two_marks() {
    let mut app = two_refs();
    app.show_all = true;
    app.merge_marks.insert(0);
    app.group_idx = 0;
    app.commit_merge();
    assert!(app.merges.is_empty(), "one mark is not a merge");
}

#[test]
fn the_bar_accounts_for_root_dropping_too() {
    // Root dropping is real work the user waits on. If it were outside the total, the bar
    // would reach 100% and then keep going.
    let mut app = app_with(vec![pin("/a", "nixpkgs", "one", true)], &["/a"]);
    app.pending = vec![sync::action_for(&app.groups[0], &app.groups[0].pins[0], "two")];
    app.begin_running(1);

    let r = app.running.as_ref().unwrap();
    assert_eq!(r.total, 2, "one action plus one root drop");
    assert_eq!(r.done, 0);
    assert_eq!(app.mode, Mode::Running);
}

#[test]
fn an_edit_shares_its_actions_slot_with_the_update() {
    // The flake.nix edit and the update that follows are one action; if the edit advanced
    // the counter the bar would overshoot its total.
    let mut app = app_with(vec![pin("/a", "nixpkgs", "one", true)], &["/a"]);
    app.pending = vec![sync::action_for(&app.groups[0], &app.groups[0].pins[0], "two")];
    app.begin_running(0);

    app.step_finished(true, "edited".into(), false);
    assert_eq!(app.running.as_ref().unwrap().done, 0, "the edit does not count");
    app.step_finished(true, "updated".into(), true);
    let r = app.running.as_ref().unwrap();
    assert_eq!(r.done, 1);
    assert_eq!(r.done as f64 / r.total as f64, 1.0);
    assert_eq!(percent_text(r.done, r.total), "100%");
}

#[test]
fn failures_are_counted_and_the_run_continues() {
    // One project failing must not stop the rest: the log records it and the count still
    // advances, so the bar reflects work attempted.
    let mut app = app_with(vec![pin("/a", "nixpkgs", "one", true)], &["/a"]);
    app.pending.clear();
    app.begin_running(3);

    app.step_finished(true, "ok a".into(), true);
    app.step_finished(false, "fail b".into(), true);
    app.step_finished(true, "ok c".into(), true);

    let r = app.running.as_ref().unwrap();
    assert_eq!(r.done, 3);
    assert_eq!(r.failures(), 1);
    assert_eq!(r.log.len(), 3);
}

#[test]
fn the_current_step_is_cleared_when_it_finishes() {
    // A stale "▶ updating X" left on screen after X completed would name the wrong project
    // during the next one's wait.
    let mut app = app_with(vec![pin("/a", "nixpkgs", "one", true)], &["/a"]);
    app.pending.clear();
    app.begin_running(1);

    app.step_started(Step::Updating, "/a", "nixpkgs");
    let cur = app.running.as_ref().unwrap().current.as_ref().unwrap();
    assert_eq!(cur.0, Step::Updating);

    app.step_finished(true, "done".into(), true);
    assert!(app.running.as_ref().unwrap().current.is_none());
}

#[test]
fn eta_waits_for_a_sample() {
    // nix update times vary by an order of magnitude depending on what is already in the
    // store, so an estimate from zero samples would mislead.
    let elapsed = TimeSpan::from_millis(10);
    let mut r = Running::new(4);
    assert_eq!(r.eta(&elapsed), None, "no ETA before anything finishes");
    r.done = 4;
    assert_eq!(r.eta(&elapsed), None, "no ETA once complete");
    r.done = 2;
    assert!(r.eta(&elapsed).is_some(), "an ETA once there is a rate to use");
}

#[test]
fn an_empty_plan_is_complete_not_divided_by_zero() {
    let r = Running::new(0);
    assert_eq!(percent_text(r.done, r.total), "100%");
    assert_eq!(bar_text(r.done, r.total), "█".repeat(24));
}

#[test]
fn identity_url_round_trips_the_declared_ref() {
    let with_ref = nixpkgs("nixos-unstable");
    assert_eq!(with_ref.url(), "github:nixos/nixpkgs/nixos-unstable");

    let bare = Identity { git_ref: String::new(), ..with_ref };
    assert_eq!(bare.url(), "github:nixos/nixpkgs");
}

#[test]
fn all_names_shown_when_they_fit() {
    let n = names(&["alpha", "beta"]);
    assert_eq!(fit_names(&n, 40), "alpha, beta");
}

#[test]
fn overflow_is_elided_with_a_remainder_count() {
    let n = names(&["alpha", "beta", "gamma", "delta"]);
    let out = fit_names(&n, 20);
    assert!(out.chars().count() <= 20, "{out:?} exceeds width");
    assert!(out.starts_with("alpha"), "{out:?} should lead with the first");
    assert!(out.contains("more"), "{out:?} should say how many are hidden");
}

#[test]
fn a_single_overlong_name_is_truncated_not_dropped() {
    // The point of this column is to name projects; degrading to an empty string would be
    // worse than the count it replaced.
    let n = names(&["a-very-long-project-name-indeed", "other"]);
    let out = fit_names(&n, 16);
    assert!(out.chars().count() <= 16, "{out:?} exceeds width");
    assert!(out.starts_with('a'), "{out:?}");
    assert!(!out.trim().is_empty());
}

#[test]
fn empty_input_is_empty_output() {
    assert_eq!(fit_names(&vec![], 10), "");
}

#[test]
fn names_never_exceed_their_width() {
    let n = names(&["alpha", "β", "gamma-gamma", "d"]);
    for width in 1..60 {
        let out = fit_names(&n, width);
        assert!(out.chars().count() <= width, "{out:?} exceeds {width}");
    }
}

#[test]
fn a_row_never_degrades_to_a_bare_count() {
    let n = names(&["alpha", "beta"]);
    assert_eq!(fit_names(&n, 5), "alph…");
    assert_eq!(fit_names(&n, 2), "a…");
    assert_eq!(fit_names(&n, 1), "…");
    // With room for the count and a character it is shown again.
    assert_eq!(fit_names(&n, 10), "alpha…");
    assert_eq!(fit_names(&n, 11), "alpha, beta");
    let n = names(&["alphabetical", "beta"]);
    assert_eq!(fit_names(&n, 10), "alphabeti…");
    assert_eq!(fit_names(&n, 11), "a…, +1 more");
    for width in 2..60 {
        let out = fit_names(&n, width);
        assert!(out.starts_with('a') && out.chars().count() <= width, "{out:?} at {width}");
    }
}

#[test]
fn project_names_dedupe_repeated_projects() {
    // One project pinning an identity twice is one project, two pins.
    let mut first = pin("/x/foo", "nixpkgs", "abc", true);
    first.last_modified = None;
    let mut second = pin("/x/foo", "nixpkgs_2", "abc", true);
    second.last_modified = None;
    let mut third = pin("/x/bar", "nixpkgs", "abc", true);
    third.last_modified = None;
    let row =
        VersionRow { version: "abc".into(), last_modified: None, pins: vec![first, second, third] };
    assert_eq!(row.count(), 3);
    assert_eq!(row.project_names(), vec!["foo".to_string(), "bar".to_string()]);
    assert_eq!(project_name("/"), "/");
}

#[test]
fn versions_are_abbreviated() {
    assert_eq!(short("0123456789abcdef"), "0123456789ab");
    assert_eq!(short("0123456789ab"), "0123456789ab");
    assert_eq!(short("sha256-abcdefghijkl"), "nar:abcdefgh");
    assert_eq!(short("sha256-ab"), "nar:ab");
    assert_eq!(short("short"), "short");
}

#[test]
fn the_cursor_moves_within_its_pane() {
    let mut app = app_with(
        vec![pin("/a", "nixpkgs", "one", true), pin("/b", "nixpkgs", "two", true)],
        &["/a", "/b"],
    );
    app.on_down();
    assert_eq!(app.group_idx, 0, "there is only one group");
    app.toggle_pane();
    assert_eq!(app.pane, Pane::Versions);
    app.on_down();
    assert_eq!(app.version_idx, 1);
    app.on_down();
    assert_eq!(app.version_idx, 1);
    app.choose_version();
    assert_eq!(app.targets.len(), 1);
    app.on_up();
    assert_eq!(app.version_idx, 0);
    app.clear_target();
    assert!(app.targets.is_empty());
}

#[test]
fn versions_are_listed_newest_first() {
    let mut newer = pin("/b", "nixpkgs", "two", true);
    newer.last_modified = Some(9);
    let app = app_with(vec![pin("/a", "nixpkgs", "one", true), newer], &["/a", "/b"]);
    let versions: Vec<String> = app.version_rows().into_iter().map(|r| r.version).collect();
    assert_eq!(versions, ["two", "one"]);
}

#[test]
fn staging_nothing_stays_put() {
    let mut app = app_with(vec![pin("/a", "nixpkgs", "one", true)], &["/a"]);
    app.stage();
    assert_eq!(app.mode, Mode::Browse);
    assert!(app.pending.is_empty());
}

#[test]
fn every_rewrite_is_previewed_before_it_is_approved() {
    let mut app = two_refs();
    app.show_all = true;
    merge(&mut app, 0, &[0, 1]);
    app.targets.insert(0, "one".into());
    app.stage();
    let source = "{ inputs.nixpkgs.url = \"github:nixos/nixpkgs/nixos-unstable\"; }\n";
    app.compute_diffs(vec![Inspected {
        source: Some(source.to_string()),
        captured: Some(Captured { success: true, stdout: "+ shown".to_string() }),
    }]);
    assert_eq!(app.pending_diffs.len(), 1);
    assert_eq!(app.pending_diffs[0].rendered, "+ shown");
    assert!(!app.pending_diffs[0].is_error());
    assert!(app.unwritable().is_empty());
    let edit = app.edit_for("/b", "nixpkgs").unwrap();
    assert_eq!(edit.to_url, "github:nixos/nixpkgs/nixpkgs-unstable");
    assert!(app.edit_for("/a", "nixpkgs").is_none());
    app.cancel();
    assert_eq!(app.mode, Mode::Browse);
    assert!(app.pending.is_empty());
}

#[test]
fn a_flake_that_cannot_be_rewritten_is_reported() {
    let mut app = two_refs();
    app.show_all = true;
    merge(&mut app, 0, &[0, 1]);
    app.targets.insert(0, "one".into());
    app.stage();
    app.compute_diffs(vec![Inspected { source: None, captured: None }]);
    assert_eq!(app.unwritable().len(), 1);
    assert!(app.edit_for("/b", "nixpkgs").is_none());
}

#[test]
fn savings_are_those_of_the_projects_that_would_move() {
    let mut app = app_with(
        vec![pin("/a", "nixpkgs", "one", true), pin("/b", "nixpkgs", "two", true)],
        &["/a", "/b"],
    );
    assert_eq!(app.estimated_savings(), (0, 0));
    app.targets.insert(0, "one".into());
    assert_eq!(app.estimated_savings(), (1, 1), "only /b moves");
}

#[test]
fn the_plan_is_what_the_selection_reaches() {
    let mut app = app_with_refs(
        &[
            (
                "nixpkgs-unstable",
                vec![
                    pin("/a", "nixpkgs", "one", true),
                    pin("/b", "nixpkgs", "two", true),
                    pin("/c", "nixpkgs", "three", true),
                    pin("/b", "nixpkgs_2", "four", false),
                    pin("/unrooted", "nixpkgs", "five", true),
                ],
            ),
            ("nixos-unstable", vec![pin("/a", "other", "six", true)]),
        ],
        &["/a", "/b", "/c"],
    );
    app.targets.insert(0, "one".into());
    assert_eq!(app.estimated_savings(), (2, 2));
    app.stage();

    // /a is there already, the transitive and the unrooted pin are out of reach, and
    // the other group is not selected.
    let planned: Vec<(&str, &str, &str)> = app
        .pending
        .iter()
        .map(|a| (a.project.as_str(), a.input_name.as_str(), a.target_version.as_str()))
        .collect();
    assert_eq!(planned, vec![("/b", "nixpkgs", "one"), ("/c", "nixpkgs", "one")]);
}

#[test]
fn a_second_rewrite_builds_on_the_first() {
    let mut app = app_with_refs(
        &[
            ("nixpkgs-unstable", vec![pin("/other", "nixpkgs", "one", true)]),
            (
                "nixos-unstable",
                vec![pin("/b", "nixpkgs", "two", true), pin("/b", "nixpkgs_old", "three", true)],
            ),
        ],
        &["/other", "/b"],
    );
    app.show_all = true;
    merge(&mut app, 0, &[0, 1]);
    app.targets.insert(0, "one".into());
    app.stage();
    assert_eq!(app.pending.len(), 2);
    let source = "{\n  inputs.nixpkgs.url = \"x\";\n  inputs.nixpkgs_old.url = \"y\";\n}\n";
    let seen = || Inspected { source: Some(source.to_string()), captured: None };
    app.compute_diffs(vec![seen(), seen()]);
    let first = app.pending_diffs[0].edit.as_ref().unwrap();
    let second = app.pending_diffs[1].edit.as_ref().unwrap();
    assert_eq!(first.before, source);
    assert_eq!(second.before, first.after);
    let url = "github:nixos/nixpkgs/nixpkgs-unstable";
    let quoted = format!("\"{url}\"");
    assert_eq!(second.after, source.replace("\"x\"", &quoted).replace("\"y\"", &quoted));
    // Each diff shows its own line alone.
    assert_eq!(app.pending_diffs[1].rendered.lines().filter(|l| l.starts_with('+')).count(), 2);

    // One that cannot be planned does not stand in the way of the next.
    let half = "{ inputs.nixpkgs_old.url = \"y\"; }\n";
    let seen = || Inspected { source: Some(half.to_string()), captured: None };
    app.compute_diffs(vec![seen(), seen()]);
    assert!(app.pending_diffs[0].is_error());
    assert_eq!(app.pending_diffs[1].edit.as_ref().unwrap().before, half);
}
