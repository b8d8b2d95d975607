use flake_syncer::keyed::TextMap;
use flake_syncer::lock::{group, Group, Identity, InputEdge, LockFile, Locked, Node, Pin, Ref};
use serde_json::Value;

fn gh(owner: &str, repo: &str, git_ref: Option<&str>) -> Ref {
    Ref {
        kind: Some("github".into()),
        owner: Some(owner.into()),
        repo: Some(repo.into()),
        git_ref: git_ref.map(String::from),
        url: None,
        path: None,
        id: None,
    }
}

fn text(v: &Value, key: &str) -> Option<String> {
    v.get(key).and_then(|t| t.as_str()).map(String::from)
}

fn node(v: &Value) -> Node {
    let original = v.get("original").map(|o| Ref {
        kind: text(o, "type"),
        owner: text(o, "owner"),
        repo: text(o, "repo"),
        git_ref: text(o, "ref"),
        url: text(o, "url"),
        path: text(o, "path"),
        id: text(o, "id"),
    });
    let locked = v.get("locked").map(|l| Locked {
        rev: text(l, "rev"),
        nar_hash: text(l, "narHash"),
        last_modified: l.get("lastModified").and_then(|t| t.as_i64()),
    });
    let mut inputs = TextMap::new();
    if let Some(edges) = v.get("inputs").and_then(|i| i.as_object()) {
        for (name, edge) in edges {
            let edge = match edge {
                Value::String(s) => InputEdge::Node(s.clone()),
                other => InputEdge::Follows(
                    other
                        .as_array()
                        .unwrap()
                        .iter()
                        .map(|s| s.as_str().unwrap().to_string())
                        .collect(),
                ),
            };
            inputs.insert(name.clone(), edge);
        }
    }
    Node { original, locked, inputs }
}

fn lock_file(json: &str) -> LockFile {
    let v: Value = serde_json::from_str(json).unwrap();
    let mut nodes = TextMap::new();
    for (name, n) in v.get("nodes").unwrap().as_object().unwrap() {
        nodes.insert(name.clone(), node(n));
    }
    LockFile { nodes, root: text(&v, "root").unwrap() }
}

#[test]
fn github_owner_case_is_normalized() {
    // Real lockfiles in the wild spell this both ways for the same repo.
    let a = Identity::from_ref(&gh("NixOS", "nixpkgs", Some("nixpkgs-unstable"))).unwrap();
    let b = Identity::from_ref(&gh("nixos", "nixpkgs", Some("nixpkgs-unstable"))).unwrap();
    assert_eq!(a, b);
}

#[test]
fn distinct_refs_stay_separate() {
    // nixpkgs-unstable and nixos-unstable are genuinely different branches.
    let a = Identity::from_ref(&gh("nixos", "nixpkgs", Some("nixpkgs-unstable"))).unwrap();
    let b = Identity::from_ref(&gh("nixos", "nixpkgs", Some("nixos-unstable"))).unwrap();
    assert_ne!(a, b);
}

#[test]
fn refs_of_one_repo_share_a_merge_key() {
    let a = Identity::from_ref(&gh("NixOS", "nixpkgs", Some("nixpkgs-unstable"))).unwrap();
    let b = Identity::from_ref(&gh("nixos", "Nixpkgs", Some("nixos-unstable"))).unwrap();
    let c = Identity::from_ref(&gh("numtide", "flake-utils", None)).unwrap();
    assert!(a.merge_key().same(&b.merge_key()));
    assert_eq!(a.merge_key(), b.merge_key());
    assert!(!a.merge_key().same(&c.merge_key()));
    assert!(!a.same(&b));
    assert!(a.same(&a.clone()));
}

#[test]
fn local_and_registry_inputs_are_not_grouped() {
    for kind in ["path", "indirect"] {
        let r = Ref {
            kind: Some(kind.into()),
            owner: None,
            repo: None,
            git_ref: None,
            url: None,
            path: Some("/tmp/x".into()),
            id: Some("nixpkgs".into()),
        };
        assert!(Identity::from_ref(&r).is_none(), "{kind} should be skipped");
    }
}

#[test]
fn version_falls_back_to_nar_hash() {
    let l = Locked { rev: None, nar_hash: Some("sha256-abc".into()), last_modified: None };
    assert_eq!(l.version_id(), Some("sha256-abc"));
}

#[test]
fn a_revision_is_preferred_to_the_nar_hash() {
    let both = Locked {
        rev: Some("aaa".into()),
        nar_hash: Some("sha256-abc".into()),
        last_modified: None,
    };
    assert_eq!(both.version_id(), Some("aaa"));
    let none = Locked { rev: None, nar_hash: None, last_modified: Some(1) };
    assert_eq!(none.version_id(), None);
}

#[test]
fn transitive_pins_are_counted_separately() {
    let g = Group {
        identity: Identity::from_ref(&gh("nixos", "nixpkgs", None)).unwrap(),
        pins: vec![
            Pin {
                project: "/a".into(),
                input_name: "nixpkgs".into(),
                version: "same".into(),
                last_modified: Some(1),
                direct: true,
                declared_name: Some("nixpkgs".into()),
            },
            Pin {
                project: "/b".into(),
                input_name: "nixpkgs_2".into(),
                version: "other".into(),
                last_modified: Some(2),
                direct: false,
                declared_name: None,
            },
        ],
    };
    assert_eq!(g.transitive_count(), 1);
}

const RENAMED: &str = r#"{
  "root": "root",
  "nodes": {
    "root": { "inputs": { "nixpkgs": "nixpkgs_2", "deploy-rs": "deploy-rs" } },
    "nixpkgs": {
      "original": { "type": "github", "owner": "nixos", "repo": "nixpkgs" },
      "locked": { "rev": "aaa", "lastModified": 1 }
    },
    "nixpkgs_2": {
      "original": { "type": "github", "owner": "nixos", "repo": "nixpkgs", "ref": "nixos-unstable" },
      "locked": { "rev": "bbb", "lastModified": 2 }
    },
    "deploy-rs": {
      "original": { "type": "github", "owner": "serokell", "repo": "deploy-rs" },
      "locked": { "rev": "ccc", "lastModified": 3 }
    }
  }
}"#;

#[test]
fn a_renamed_node_reports_the_name_the_flake_declares() {
    // Nix suffixes colliding node names, so a flake that declares `nixpkgs` can have its
    // own direct input stored as `nixpkgs_2`. Addressing flake.nix or --override-input by
    // the node name would miss it, and the node name is what the lockfile hands us.
    let locks = vec![("/p/flake.lock".to_string(), Ok(lock_file(RENAMED)))];
    let (groups, errors) = group(&locks);
    assert!(errors.is_empty());

    let renamed = groups
        .iter()
        .flat_map(|g| &g.pins)
        .find(|p| p.input_name == "nixpkgs_2")
        .expect("nixpkgs_2 should be recorded");
    assert!(renamed.direct, "it is the flake's own input, despite the suffix");
    assert_eq!(
        renamed.declared_name(),
        "nixpkgs",
        "flake.nix and --override-input must be addressed by the declared name"
    );

    // The unreferenced `nixpkgs` node came in through a dependency.
    let transitive = groups
        .iter()
        .flat_map(|g| &g.pins)
        .find(|p| p.input_name == "nixpkgs")
        .expect("nixpkgs should be recorded");
    assert!(!transitive.direct);
    assert_eq!(transitive.declared_name(), "nixpkgs");
}

#[test]
fn groups_come_in_order_and_unreadable_lockfiles_are_reported() {
    let locks = vec![
        ("/p/flake.lock".to_string(), Ok(lock_file(RENAMED))),
        ("/bad/flake.lock".to_string(), Err("parsing /bad/flake.lock".to_string())),
        ("/q/flake.lock".to_string(), Ok(lock_file(RENAMED))),
    ];
    let (groups, errors) = group(&locks);
    assert_eq!(errors, vec![("/bad/flake.lock".to_string(), "parsing /bad/flake.lock".to_string())]);
    let shown: Vec<String> = groups.iter().map(|g| g.identity.to_text()).collect();
    assert_eq!(
        shown,
        vec!["nixos/nixpkgs", "nixos/nixpkgs@nixos-unstable", "serokell/deploy-rs"]
    );
    let projects: Vec<&str> = groups[0].pins.iter().map(|p| p.project.as_str()).collect();
    assert_eq!(projects, vec!["/p", "/q"]);
}

#[test]
fn direct_inputs_are_read_from_the_root_node() {
    // `follows` entries are arrays; plain deps are strings. Both are direct.
    let json = r#"{
      "root": "root",
      "nodes": {
        "root": { "inputs": { "nixpkgs": "nixpkgs", "utils": ["flake-utils"] } },
        "nixpkgs": {
          "original": { "type": "github", "owner": "nixos", "repo": "nixpkgs" },
          "locked": { "rev": "aaa", "lastModified": 1 }
        },
        "flake-utils": {
          "original": { "type": "github", "owner": "numtide", "repo": "flake-utils" },
          "locked": { "rev": "bbb", "lastModified": 2 }
        },
        "systems": {
          "original": { "type": "github", "owner": "nix-systems", "repo": "default" },
          "locked": { "rev": "ccc", "lastModified": 3 }
        }
      }
    }"#;
    let lock = lock_file(json);
    let root = lock.nodes.get(&lock.root).unwrap();
    let direct: std::collections::BTreeSet<&str> =
        (0..root.inputs.len()).filter_map(|i| root.inputs.value(i).node_name()).collect();
    assert!(direct.contains("nixpkgs"));
    assert!(direct.contains("flake-utils"));
    // Pulled in by flake-utils, not declared by this flake.
    assert!(!direct.contains("systems"));
}
