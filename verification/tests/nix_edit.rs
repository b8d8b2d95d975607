use flake_syncer::command::Ran;
use flake_syncer::nix_edit::{
    apply_edit, apply_edit_again, backup_path, find_url, next_edit_step, plan_edit, verified,
    verify, EditError, EditStep, PendingEdit,
};
use std::collections::BTreeMap;

fn found(source: &str, name: &str) -> Option<String> {
    find_url(source, name).map(|s| s.text(source).to_string())
}

#[test]
fn shape_1_attr_in_inputs_block() {
    let src = r#"{
  inputs = {
    nixpkgs.url = "github:nixos/nixpkgs/nixpkgs-unstable";
    flake-utils.url = "github:numtide/flake-utils";
  };
}"#;
    assert_eq!(found(src, "nixpkgs").as_deref(), Some("github:nixos/nixpkgs/nixpkgs-unstable"));
    assert_eq!(found(src, "flake-utils").as_deref(), Some("github:numtide/flake-utils"));
}

#[test]
fn shape_2_top_level_dotted_path() {
    let src = r#"{
  inputs.nixpkgs.url = "github:NixOS/nixpkgs/nixpkgs-unstable";
  inputs.flake-parts.url = "github:hercules-ci/flake-parts";
}"#;
    assert_eq!(found(src, "nixpkgs").as_deref(), Some("github:NixOS/nixpkgs/nixpkgs-unstable"));
    assert_eq!(found(src, "flake-parts").as_deref(), Some("github:hercules-ci/flake-parts"));
}

#[test]
fn shape_3_nested_attrset_one_line() {
    let src = r#"{
  inputs = {
    flake-parts = { url = "github:hercules-ci/flake-parts"; };
  };
}"#;
    assert_eq!(found(src, "flake-parts").as_deref(), Some("github:hercules-ci/flake-parts"));
}

#[test]
fn shape_4_nested_attrset_multiline() {
    let src = r#"{
  inputs = {
    nixpkgs.url = "github:NixOS/nixpkgs/nixpkgs-unstable";
    treefmt-nix = {
      url = "github:numtide/treefmt-nix";
      inputs.nixpkgs.follows = "nixpkgs";
    };
  };
}"#;
    assert_eq!(found(src, "treefmt-nix").as_deref(), Some("github:numtide/treefmt-nix"));
    assert_eq!(found(src, "nixpkgs").as_deref(), Some("github:NixOS/nixpkgs/nixpkgs-unstable"));
}

#[test]
fn a_prefix_of_another_input_is_not_matched() {
    // `nixpkgs` and `nixpkgs-unstable` coexist, and a substring match rewrites the wrong
    // one, producing a plausible-looking but incorrect edit.
    let src = r#"{
  inputs = {
    nixpkgs.url = "github:nixos/nixpkgs/nixpkgs-unstable";
    nixpkgs-unstable.url = "github:nixos/nixpkgs";
  };
}"#;
    assert_eq!(found(src, "nixpkgs").as_deref(), Some("github:nixos/nixpkgs/nixpkgs-unstable"));
    assert_eq!(found(src, "nixpkgs-unstable").as_deref(), Some("github:nixos/nixpkgs"));
}

#[test]
fn follows_lines_are_not_mistaken_for_urls() {
    // `darwin.inputs.nixpkgs.follows` mentions nixpkgs but assigns no url.
    let src = r#"{
  inputs = {
    nixpkgs.url = "github:nixos/nixpkgs/nixpkgs-unstable";
    darwin.url = "github:nix-darwin/nix-darwin/master";
    darwin.inputs.nixpkgs.follows = "nixpkgs";
  };
}"#;
    assert_eq!(found(src, "darwin").as_deref(), Some("github:nix-darwin/nix-darwin/master"));
    assert_eq!(found(src, "nixpkgs").as_deref(), Some("github:nixos/nixpkgs/nixpkgs-unstable"));
}

#[test]
fn a_nested_inputs_url_belongs_to_its_own_block() {
    // The inner `nixpkgs.url` overrides a *dependency's* input, and must not be mistaken
    // for this flake's own nixpkgs declaration.
    let src = r#"{
  inputs = {
    nixpkgs.url = "github:nixos/nixpkgs/a";
    dep = {
      url = "github:x/dep";
      inputs.nixpkgs.url = "github:nixos/nixpkgs/b";
    };
  };
}"#;
    // The outer declaration is the one found first and the one we mean.
    assert_eq!(found(src, "nixpkgs").as_deref(), Some("github:nixos/nixpkgs/a"));
    assert_eq!(found(src, "dep").as_deref(), Some("github:x/dep"));
}

#[test]
fn comments_are_not_scanned() {
    let src = r#"{
  inputs = {
    # nixpkgs.url = "github:nixos/nixpkgs/commented-out";
    nixpkgs.url = "github:nixos/nixpkgs/real";
  };
}"#;
    assert_eq!(found(src, "nixpkgs").as_deref(), Some("github:nixos/nixpkgs/real"));
}

#[test]
fn block_comments_and_strings_are_not_scanned() {
    let src = "{\n  /* inputs.a.url = \"no\"; */\n  description = \"inputs.a.url = no\";\n  \
               outputs = ''\n    inputs.a.url = \"no\";\n  '';\n  inputs.a.url = \"yes\";\n}\n";
    assert_eq!(found(src, "a").as_deref(), Some("yes"));
}

#[test]
fn missing_input_is_refused_not_guessed() {
    let src = r#"{ inputs = { nixpkgs.url = "github:nixos/nixpkgs"; }; }"#;
    assert_eq!(find_url(src, "flake-utils"), None);
}

#[test]
fn an_input_that_only_follows_has_no_url_to_rewrite() {
    // `nixpkgs` is an alias into another input rather than a declaration of its own. There
    // is no url here, so there is nothing to merge.
    let src = r#"{
  inputs = {
    typelevel-nix.url = "github:typelevel/typelevel-nix";
    nixpkgs.follows = "typelevel-nix/nixpkgs";
  };
}"#;
    assert_eq!(find_url(src, "nixpkgs"), None);
    assert_eq!(found(src, "typelevel-nix").as_deref(), Some("github:typelevel/typelevel-nix"));
}

#[test]
fn interpolated_urls_are_refused() {
    // Substring replacement cannot reason about what the interpolation evaluates to, so
    // editing it would be a guess.
    let src = r#"{ inputs = { nixpkgs.url = "github:nixos/${branch}"; }; }"#;
    assert_eq!(find_url(src, "nixpkgs"), None);
}

#[test]
fn an_input_named_with_other_letters_is_one_word() {
    // Letters beyond ASCII belong to a word too.
    let src = "{ inputs.ünix.url = \"github:a/b\"; inputs.nix.url = \"github:c/d\"; }";
    assert_eq!(found(src, "nix").as_deref(), Some("github:c/d"));
    assert_eq!(found(src, "ünix").as_deref(), Some("github:a/b"));
}

#[test]
fn planning_an_edit_touches_only_the_target_line() {
    // A config where `nixpkgs` and `nixpkgs-unstable` sit on adjacent lines and several
    // `follows` entries mention `nixpkgs` by name.
    let src = r#"{
  description = "config";

  inputs = {
    nixpkgs.url = "github:nixos/nixpkgs/nixpkgs-unstable";
    nixpkgs-unstable.url = "github:nixos/nixpkgs";
    darwin.url = "github:nix-darwin/nix-darwin/master";
    darwin.inputs.nixpkgs.follows = "nixpkgs";
  };
}
"#;
    let edit =
        plan_edit("/p", "nixpkgs", "github:nixos/nixpkgs/nixos-unstable", Some(src.to_string()))
            .unwrap();
    assert_eq!(edit.path, "/p/flake.nix");
    assert_eq!(edit.from_url, "github:nixos/nixpkgs/nixpkgs-unstable");

    // Exactly one line differs, and the neighbouring input is untouched.
    let differing =
        edit.before.lines().zip(edit.after.lines()).filter(|(a, b)| a != b).count();
    assert_eq!(differing, 1, "only nixpkgs' own line may change");
    assert!(edit.after.contains(r#"nixpkgs-unstable.url = "github:nixos/nixpkgs";"#));
    assert!(edit.after.contains(r#"darwin.inputs.nixpkgs.follows = "nixpkgs";"#));
    assert!(edit.after.contains(r#"nixpkgs.url = "github:nixos/nixpkgs/nixos-unstable";"#));
}

/// Perform the steps of an edit on a disk held in memory.
fn perform(
    edit: &PendingEdit,
    disk: &mut BTreeMap<String, String>,
    evaluates: bool,
) -> Result<String, String> {
    let mut step = apply_edit(edit);
    loop {
        let failure = match &step {
            EditStep::WriteBackup { path, text } | EditStep::WriteFile { path, text } => {
                disk.insert(path.clone(), text.clone());
                None
            }
            EditStep::Restore { path, text, .. } => {
                disk.insert(path.clone(), text.clone());
                None
            }
            EditStep::Verify { project } => {
                let run = verify(project);
                assert_eq!(run.program, "nix");
                assert_eq!(run.dir, *project);
                let ran = if evaluates {
                    Ran::Succeeded
                } else {
                    Ran::Failed { stderr: "  error: attribute missing\n".to_string() }
                };
                verified(project, &ran)
            }
            EditStep::Applied { backup } => return Ok(backup.clone()),
            EditStep::Failed { error } => return Err(error.clone()),
        };
        step = next_edit_step(edit, step, failure);
    }
}

#[test]
fn a_failed_verify_restores_the_original_and_keeps_the_backup() {
    // The safety property that makes automatic rewriting acceptable: if the edited file
    // does not evaluate, the user's file comes back byte for byte.
    let src = "{\n  inputs.nixpkgs.url = \"github:nixos/nixpkgs\";\n}\n";
    let path = "/p/flake.nix".to_string();
    for evaluates in [false, true] {
        let mut disk = BTreeMap::new();
        disk.insert(path.clone(), src.to_string());
        let edit = plan_edit(
            "/p",
            "nixpkgs",
            "github:nixos/nixpkgs/nixos-unstable",
            Some(src.to_string()),
        )
        .unwrap();
        match perform(&edit, &mut disk, evaluates) {
            Err(e) => {
                assert!(!evaluates);
                assert_eq!(disk[&path], src, "a rejected edit must restore the original exactly");
                assert_eq!(
                    disk[&backup_path(&path)],
                    src,
                    "the backup must hold the pre-edit content"
                );
                assert_eq!(
                    e,
                    "edited flake.nix no longer evaluates in /p (restored from backup): \
                     error: attribute missing"
                );
            }
            Ok(backup) => {
                assert!(evaluates);
                assert_eq!(disk[&backup], src);
                assert!(disk[&path].contains("nixos-unstable"));
            }
        }
    }
}

#[test]
fn each_step_of_an_edit_can_fail() {
    let src = "{\n  inputs.nixpkgs.url = \"github:nixos/nixpkgs\";\n}\n";
    let edit = plan_edit("/p", "nixpkgs", "github:x/y", Some(src.to_string())).unwrap();
    let first = apply_edit(&edit);
    assert!(matches!(&first, EditStep::WriteBackup { path, .. } if path == "/p/flake.nix.bak"));
    let failed = next_edit_step(&edit, first, Some("disk full".to_string()));
    assert!(
        matches!(&failed, EditStep::Failed { error } if error == "writing backup /p/flake.nix.bak")
    );
    let write = next_edit_step(&edit, apply_edit(&edit), None);
    let failed = next_edit_step(&edit, write, Some("disk full".to_string()));
    assert!(matches!(&failed, EditStep::Failed { error } if error == "writing /p/flake.nix"));
    assert_eq!(verified("/p", &Ran::NotStarted).as_deref(), Some("running nix flake metadata in /p"));
    assert_eq!(verified("/p", &Ran::Succeeded), None);
}

#[test]
fn an_edit_to_the_current_value_is_a_noop() {
    let src = "{\n  inputs.nixpkgs.url = \"github:nixos/nixpkgs\";\n}\n";
    let edit = plan_edit("/p", "nixpkgs", "github:nixos/nixpkgs", Some(src.to_string())).unwrap();
    assert!(edit.is_noop(), "identical url must not rewrite the file");
    assert!(matches!(apply_edit(&edit), EditStep::Applied { .. }));
}

#[test]
fn an_edit_that_cannot_be_planned_says_why() {
    let missing = plan_edit("/p", "nixpkgs", "github:x/y", None).unwrap_err();
    assert!(matches!(&missing, EditError::Unreadable { path } if path == "/p/flake.nix"));
    assert_eq!(missing.message(), "reading /p/flake.nix");
    let src = "{ inputs = { }; }".to_string();
    let unknown = plan_edit("/p", "nixpkgs", "github:x/y", Some(src)).unwrap_err();
    assert!(matches!(&unknown, EditError::NotLocated { input_name, .. } if input_name == "nixpkgs"));
    assert!(unknown.message().contains("/p/flake.nix"), "{}", unknown.message());
}

#[test]
fn replacement_preserves_every_other_byte() {
    let src = "{\n  inputs = {\n    nixpkgs.url = \"github:nixos/nixpkgs/old\";  # keep me\n  };\n}\n";
    let span = find_url(src, "nixpkgs").unwrap();
    let out = format!("{}{}{}", &src[..span.start], "github:nixos/nixpkgs/new", &src[span.end..]);
    assert_eq!(
        out,
        "{\n  inputs = {\n    nixpkgs.url = \"github:nixos/nixpkgs/new\";  # keep me\n  };\n}\n"
    );
}

#[test]
fn a_written_url_is_found_again() {
    let src = "{ inputs.é.url = \"github:a/b\"; /* ü */ inputs.nixpkgs.url = \"github:c/d\"; }";
    let edit = plan_edit("/p", "nixpkgs", "github:c/e", Some(src.to_string())).unwrap();
    assert_eq!(found(&edit.after, "nixpkgs").as_deref(), Some("github:c/e"));
    assert_eq!(found(&edit.after, "é").as_deref(), Some("github:a/b"));
    let again = plan_edit("/p", "nixpkgs", "github:c/e", Some(edit.after)).unwrap();
    assert!(again.is_noop());
}

#[test]
fn an_override_that_stands_first_is_not_the_flakes_own() {
    let src = r#"{ inputs = { dep = { url = "github:x/dep"; inputs.nixpkgs.url = "github:nixos/nixpkgs/b"; }; nixpkgs.url = "github:nixos/nixpkgs/a"; }; }"#;
    assert_eq!(found(src, "nixpkgs").as_deref(), Some("github:nixos/nixpkgs/a"));
    assert_eq!(found(src, "dep").as_deref(), Some("github:x/dep"));

    // However the override is spelled, and with nothing of the flake's own to find.
    for over in [
        r#"dep.inputs.nixpkgs.url = "b";"#,
        r#"dep = { inputs = { nixpkgs.url = "b"; }; };"#,
        r#"dep = { inputs = { nixpkgs = { url = "b"; }; }; };"#,
        r#"dep.inputs = { nixpkgs = { url = "b"; }; };"#,
    ] {
        let src = format!("{{ inputs = {{ {over} nixpkgs.url = \"a\"; }}; }}");
        assert_eq!(found(&src, "nixpkgs").as_deref(), Some("a"), "{src}");
        let src = format!("{{ inputs = {{ {over} }}; }}");
        assert_eq!(find_url(&src, "nixpkgs"), None, "{src}");
    }
}

#[test]
fn a_url_outside_inputs_is_refused() {
    for src in [
        r#"{ nixpkgs.url = "a"; }"#,
        r#"{ nixpkgs = { url = "a"; }; }"#,
        r#"{ nixConfig = { nixpkgs.url = "a"; }; }"#,
        r#"{ outputs = { self }: { inputs.nixpkgs.url = "a"; }; }"#,
        r#"{ inputs = [ { nixpkgs.url = "a"; } ]; }"#,
        r#"{ other.inputs.nixpkgs.url = "a"; }"#,
    ] {
        assert_eq!(find_url(src, "nixpkgs"), None, "{src}");
        let refused = plan_edit("/p", "nixpkgs", "b", Some(src.to_string()));
        assert!(matches!(refused, Err(EditError::NotLocated { .. })), "{src}");
    }
    // What follows the outputs is found all the same.
    let src = r#"{ outputs = { self, ... }: { nixpkgs.url = "a"; }; inputs.nixpkgs.url = "b"; }"#;
    assert_eq!(found(src, "nixpkgs").as_deref(), Some("b"));
}

#[test]
fn the_four_shapes_and_no_other_are_found() {
    for src in [
        r#"{ inputs.nixpkgs.url = "a"; }"#,
        r#"{ inputs = { nixpkgs.url = "a"; }; }"#,
        r#"{ inputs = { nixpkgs = { url = "a"; }; }; }"#,
    ] {
        assert_eq!(found(src, "nixpkgs").as_deref(), Some("a"), "{src}");
        assert_eq!(find_url(src, "pkgs"), None, "{src}");
    }
    // A block bound to a dotted path is none of them.
    let src = r#"{ inputs.nixpkgs = { url = "a"; }; }"#;
    assert_eq!(find_url(src, "nixpkgs"), None);
    let later = r#"{ inputs.nixpkgs = { url = "a"; }; inputs.flake-utils.url = "b"; }"#;
    assert_eq!(found(later, "flake-utils").as_deref(), Some("b"));
    // A dotted name is not a path of two.
    assert_eq!(find_url(r#"{ inputs.a.b.url = "x"; }"#, "a.b"), None);
    assert_eq!(find_url(r#"{ inputs.a = { b.url = "x"; }; }"#, "a.b"), None);
}

#[test]
fn replacing_one_url_leaves_the_others() {
    let src = r#"{
  inputs = {
    first.url = "github:x/first"; # 'first'
    second = { url = "s"; inputs.first.url = "no"; };
    third.url = "github:x/third";
  };
}"#;
    for (name, url) in [("first", ""), ("second", "github:y/much-longer/than-before"), ("third", "t")] {
        let after = plan_edit("/p", name, url, Some(src.to_string())).unwrap().after;
        for other in ["first", "second", "third"] {
            let want = if other == name { Some(url.to_string()) } else { found(src, other) };
            assert_eq!(found(&after, other), want, "{other} after {name}");
        }
    }
}

#[test]
fn a_second_edit_keeps_the_backup_of_the_first() {
    let first = plan_edit("/p", "a", "A", Some(r#"{ inputs.a.url = "1"; inputs.b.url = "2"; }"#.into()))
        .unwrap();
    let second = plan_edit("/p", "b", "B", Some(first.after.clone())).unwrap();
    assert!(matches!(apply_edit(&first), EditStep::WriteBackup { text, .. } if text == first.before));
    let step = apply_edit_again(&second);
    assert!(matches!(&step, EditStep::WriteFile { path, text }
        if path == "/p/flake.nix" && *text == second.after));
    assert_eq!(second.after, r#"{ inputs.a.url = "A"; inputs.b.url = "B"; }"#);
    // Rejected, it leaves what the first one wrote.
    let check = next_edit_step(&second, step, None);
    assert!(matches!(&check, EditStep::Verify { project } if project == "/p"));
    let restore = next_edit_step(&second, check, Some("no".to_string()));
    assert!(matches!(&restore, EditStep::Restore { text, .. } if *text == first.after));
    let same = plan_edit("/p", "a", "A", Some(first.after.clone())).unwrap();
    assert!(matches!(apply_edit_again(&same), EditStep::Applied { backup }
        if backup == "/p/flake.nix.bak"));
}
