use flake_syncer::diff::{hunks, render, renderer, unified, Captured};

const PATH: &str = "flake.nix";

#[test]
fn identical_input_produces_no_diff() {
    // Callers rely on emptiness to mean "no edit needed".
    assert_eq!(unified(PATH, "a\nb\n", "a\nb\n"), "");
}

#[test]
fn a_single_line_change_is_shown_with_context() {
    let before = "{\n  inputs = {\n    nixpkgs.url = \"github:nixos/nixpkgs/old\";\n  };\n}\n";
    let after = "{\n  inputs = {\n    nixpkgs.url = \"github:nixos/nixpkgs/new\";\n  };\n}\n";
    let d = unified(PATH, before, after);
    assert!(d.contains("--- a/flake.nix"), "{d}");
    assert!(d.contains("-    nixpkgs.url = \"github:nixos/nixpkgs/old\";"), "{d}");
    assert!(d.contains("+    nixpkgs.url = \"github:nixos/nixpkgs/new\";"), "{d}");
    // Surrounding lines are context, not changes.
    assert!(d.contains(" {\n"), "{d}");
    assert!(!d.contains("-  };"), "{d}");
}

#[test]
fn only_the_changed_line_is_marked() {
    let before = "a\nb\nc\n";
    let after = "a\nB\nc\n";
    let d = unified(PATH, before, after);
    // Count body lines only — the `---`/`+++` header is not a change.
    let body: Vec<&str> = d.lines().skip(2).collect();
    assert_eq!(body.iter().filter(|l| l.starts_with('-')).count(), 1, "{d}");
    assert_eq!(body.iter().filter(|l| l.starts_with('+')).count(), 1, "{d}");
}

#[test]
fn a_whole_diff_reads_exactly_so() {
    assert_eq!(
        unified(PATH, "a\nb\nc\n", "a\nB\nc\n"),
        "--- a/flake.nix\n+++ b/flake.nix\n@@ -1,3 +1,3 @@\n a\n-b\n+B\n c\n"
    );
}

#[test]
fn context_is_limited_to_what_was_asked_for() {
    let a: Vec<String> = ["1", "2", "3", "4", "5", "6", "7"].iter().map(|s| s.to_string()).collect();
    let mut b = a.clone();
    b[3] = "x".to_string();
    assert_eq!(hunks(&a, &b, 1), vec!["@@ -3,3 +3,3 @@\n 3\n-4\n+x\n 5\n".to_string()]);
}

#[test]
fn a_missing_differ_falls_back_to_plain_text() {
    // Not having `delta` installed must never mean an edit goes unreviewed.
    let diff = "--- a/x\n+++ b/x\n@@ -1,1 +1,1 @@\n-a\n+b\n";
    let differ = vec!["definitely-not-a-real-command-xyz".to_string()];
    assert_eq!(
        renderer(diff, &differ),
        Some(("definitely-not-a-real-command-xyz".to_string(), vec![]))
    );
    let out = render(diff, &differ, None);
    assert_eq!(out, diff);
}

#[test]
fn a_failing_or_silent_differ_falls_back_to_plain_text() {
    let diff = "--- a/x\n+++ b/x\n";
    let differ = vec!["delta".to_string(), "--paging=never".to_string()];
    assert_eq!(
        renderer(diff, &differ),
        Some(("delta".to_string(), vec!["--paging=never".to_string()]))
    );
    let failed = Captured { success: false, stdout: "half".to_string() };
    assert_eq!(render(diff, &differ, Some(failed)), diff);
    let silent = Captured { success: true, stdout: String::new() };
    assert_eq!(render(diff, &differ, Some(silent)), diff);
    let fine = Captured { success: true, stdout: "coloured".to_string() };
    assert_eq!(render(diff, &differ, Some(fine)), "coloured");
}

#[test]
fn an_empty_differ_config_uses_plain_text() {
    let diff = "--- a/x\n+++ b/x\n";
    assert_eq!(renderer(diff, &vec![]), None);
    assert_eq!(render(diff, &vec![], None), diff);
}

#[test]
fn nothing_to_render_stays_empty() {
    let differ = vec!["delta".to_string()];
    assert_eq!(renderer("", &differ), None);
    assert_eq!(render("", &differ, None), "");
}
