//! The contents of `flake.lock` files and grouping of inputs into identities.
//!
//! A lockfile is a graph of nodes. Each non-root node carries an `original` (the
//! flakeref as written, e.g. `github:nixos/nixpkgs/nixpkgs-unstable`) and a
//! `locked` (what it resolved to, including `rev`). Deduplication works on the
//! `original`: two flakes "declare the same input" when their `original` matches,
//! and they diverge when the corresponding `locked.rev` differs.
use crate::keyed::TextMap;
use crate::paths;
use crate::text;
use vstd::prelude::*;

verus! {

// ---------------------------------------------------------------------------
// Lockfiles
// ---------------------------------------------------------------------------

/// A parsed lockfile.
#[derive(Debug)]
pub struct LockFile {
    pub nodes: TextMap<Node>,
    pub root: String,
}

/// One node of a lockfile.
#[derive(Debug)]
pub struct Node {
    pub original: Option<Ref>,
    pub locked: Option<Locked>,
    /// Edges to other nodes. On the root node this names the flake's own direct
    /// inputs; values are either a node name or a follows-path.
    pub inputs: TextMap<InputEdge>,
}

/// An entry in a node's `inputs` map: either `"node"` or `["parent", "child"]`.
#[derive(Debug)]
pub enum InputEdge {
    Node(String),
    Follows(Vec<String>),
}

impl InputEdge {
    /// The node this edge resolves to, for the direct-input check.
    pub open spec fn target(self) -> Option<Seq<char>> {
        match self {
            InputEdge::Node(n) => Some(n@),
            InputEdge::Follows(path) => if path@.len() > 0 {
                Some(path@[0]@)
            } else {
                None
            },
        }
    }

    /// The node this edge resolves to, for the direct-input check.
    pub fn node_name(&self) -> (r: Option<&str>)
        ensures
            match r {
                Some(n) => self.target() == Some(n@),
                None => self.target() is None,
            },
    {
        match self {
            InputEdge::Node(n) => Some(n.as_str()),
            InputEdge::Follows(path) => if path.len() > 0 {
                Some(path[0].as_str())
            } else {
                None
            },
        }
    }
}

/// The flakeref as written by the user, before resolution.
#[derive(Debug)]
pub struct Ref {
    pub kind: Option<String>,
    pub owner: Option<String>,
    pub repo: Option<String>,
    pub git_ref: Option<String>,
    pub url: Option<String>,
    /// Present on `path` inputs, which are recognized and skipped.
    pub path: Option<String>,
    /// Present on `indirect` (registry) inputs, likewise recognized and skipped.
    pub id: Option<String>,
}

/// The resolved pin.
#[derive(Debug)]
pub struct Locked {
    pub rev: Option<String>,
    pub nar_hash: Option<String>,
    pub last_modified: Option<i64>,
}

impl Locked {
    /// Which version this is.
    pub open spec fn version(self) -> Option<Seq<char>> {
        match self.rev {
            Some(rev) => Some(rev@),
            None => text::view_of(self.nar_hash),
        }
    }

    /// Stable identifier for "which version is this". Prefer `rev`; fall back to
    /// `nar_hash` for inputs that have no revision (tarballs, paths).
    pub fn version_id(&self) -> (r: Option<&str>)
        ensures
            match r {
                Some(v) => self.version() == Some(v@),
                None => self.version() is None,
            },
    {
        match &self.rev {
            Some(rev) => Some(rev.as_str()),
            None => match &self.nar_hash {
                Some(hash) => Some(hash.as_str()),
                None => None,
            },
        }
    }
}

// ---------------------------------------------------------------------------
// Identities
// ---------------------------------------------------------------------------

/// A normalized input identity: the thing divergent pins are grouped under.
///
/// GitHub owner/repo names are case-insensitive upstream, so `NixOS/nixpkgs` and
/// `nixos/nixpkgs` fold together here. Distinct `ref`s (`nixpkgs-unstable` vs
/// `nixos-unstable`) stay separate: they are genuinely different branches.
#[derive(Debug, PartialEq, Eq, PartialOrd, Ord, Hash)]
pub struct Identity {
    pub kind: String,
    pub owner: String,
    pub repo: String,
    pub git_ref: String,
}

/// What an [`Identity`] says.
pub struct IdentityView {
    pub kind: Seq<char>,
    pub owner: Seq<char>,
    pub repo: Seq<char>,
    pub git_ref: Seq<char>,
}

impl View for Identity {
    type V = IdentityView;

    open spec fn view(&self) -> IdentityView {
        IdentityView {
            kind: self.kind@,
            owner: self.owner@,
            repo: self.repo@,
            git_ref: self.git_ref@,
        }
    }
}

impl Clone for Identity {
    fn clone(&self) -> (r: Self)
        ensures
            r == *self,
    {
        Identity {
            kind: self.kind.clone(),
            owner: self.owner.clone(),
            repo: self.repo.clone(),
            git_ref: self.git_ref.clone(),
        }
    }
}

/// The text of an optional string, empty where there is none.
pub open spec fn or_empty(o: Option<String>) -> Seq<char> {
    match o {
        Some(t) => t@,
        None => Seq::empty(),
    }
}

/// The identity a flakeref declares.
///
/// `path` and `indirect` inputs are local or registry-relative. They are not
/// shared artifacts, so deduplicating them across projects is meaningless and
/// would produce bogus groups. Forges other than GitHub identify by URL instead
/// of owner/repo.
pub open spec fn identity_in(r: Ref) -> Option<IdentityView> {
    let kind = or_empty(r.kind);
    if kind == "path"@ || kind == "indirect"@ || kind.len() == 0 {
        None
    } else if r.owner is Some && r.repo is Some {
        Some(
            IdentityView {
                kind,
                owner: text::lowercase(or_empty(r.owner)),
                repo: text::lowercase(or_empty(r.repo)),
                git_ref: or_empty(r.git_ref),
            },
        )
    } else if r.url is Some {
        Some(
            IdentityView {
                kind,
                owner: Seq::empty(),
                repo: text::strip_suffixes(or_empty(r.url), ".git"@),
                git_ref: or_empty(r.git_ref),
            },
        )
    } else {
        None
    }
}

impl IdentityView {
    /// The flakeref a project would declare to track this identity's ref.
    pub open spec fn url_text(self) -> Seq<char> {
        let base = if self.owner.len() == 0 {
            self.repo
        } else {
            self.kind + ":"@ + self.owner + "/"@ + self.repo
        };
        if self.git_ref.len() == 0 {
            base
        } else if self.owner.len() == 0 {
            let sep = if base.contains('?') {
                '&'
            } else {
                '?'
            };
            base.push(sep) + "ref="@ + self.git_ref
        } else {
            base + "/"@ + self.git_ref
        }
    }

    /// How the identity is shown.
    pub open spec fn shown(self) -> Seq<char> {
        let base = if self.owner.len() == 0 {
            self.repo
        } else {
            self.owner + "/"@ + self.repo
        };
        if self.git_ref.len() == 0 {
            base
        } else {
            base + "@"@ + self.git_ref
        }
    }

    /// The repository, whatever the ref.
    pub open spec fn key(self) -> MergeKeyView {
        MergeKeyView { kind: self.kind, owner: self.owner, repo: self.repo }
    }
}

fn unwrapped(o: &Option<String>) -> (r: String)
    ensures
        r@ == or_empty(*o),
{
    match o {
        Some(t) => t.clone(),
        None => String::new(),
    }
}

impl Identity {
    /// The identity a flakeref declares, if it is one worth grouping by.
    pub fn from_ref(r: &Ref) -> (id: Option<Self>)
        ensures
            match id {
                Some(i) => identity_in(*r) == Some(i@),
                None => identity_in(*r) is None,
            },
    {
        let kind = unwrapped(&r.kind);
        if text::same(kind.as_str(), "path") || text::same(kind.as_str(), "indirect")
            || kind.as_str().is_empty() {
            return None;
        }
        let git_ref = unwrapped(&r.git_ref);
        if r.owner.is_some() && r.repo.is_some() {
            let owner = text::to_lowercase(unwrapped(&r.owner).as_str());
            let repo = text::to_lowercase(unwrapped(&r.repo).as_str());
            return Some(Identity { kind, owner, repo, git_ref });
        }
        match &r.url {
            Some(url) => Some(
                Identity {
                    kind,
                    owner: String::new(),
                    repo: text::without_suffixes(url.as_str(), ".git"),
                    git_ref,
                },
            ),
            None => None,
        }
    }

    /// Whether two identities say the same.
    pub fn same(&self, other: &Identity) -> (r: bool)
        ensures
            r == (self@ == other@),
    {
        self.kind == other.kind && self.owner == other.owner && self.repo == other.repo
            && self.git_ref == other.git_ref
    }

    /// What must match for this identity to be merged with another.
    pub fn merge_key(&self) -> (r: MergeKey)
        ensures
            r@ == self@.key(),
    {
        MergeKey { kind: self.kind.clone(), owner: self.owner.clone(), repo: self.repo.clone() }
    }

    /// The flakeref a project would declare to track this identity's ref.
    ///
    /// This is what gets written into `flake.nix` when merging: a branch-level
    /// url, not a pinned revision. The revision is the lockfile's business, and
    /// baking one into `flake.nix` would freeze the input permanently.
    pub fn url(&self) -> (r: String)
        ensures
            r@ == self@.url_text(),
    {
        if self.owner.as_str().is_empty() {
            let mut base = self.repo.clone();
            if self.git_ref.as_str().is_empty() {
                return base;
            }
            // Forges other than GitHub carry the ref as a query parameter.
            let sep = if text::contains_char(base.as_str(), '?') {
                '&'
            } else {
                '?'
            };
            base.push(sep);
            text::cat3(base.as_str(), "ref=", self.git_ref.as_str())
        } else {
            let base = text::cat5(
                self.kind.as_str(),
                ":",
                self.owner.as_str(),
                "/",
                self.repo.as_str(),
            );
            if self.git_ref.as_str().is_empty() {
                return base;
            }
            text::cat3(base.as_str(), "/", self.git_ref.as_str())
        }
    }

    /// How the identity is shown.
    pub fn to_text(&self) -> (r: String)
        ensures
            r@ == self@.shown(),
    {
        let base = if self.owner.as_str().is_empty() {
            self.repo.clone()
        } else {
            text::cat3(self.owner.as_str(), "/", self.repo.as_str())
        };
        if self.git_ref.as_str().is_empty() {
            base
        } else {
            text::cat3(base.as_str(), "@", self.git_ref.as_str())
        }
    }
}

/// What must match for two identities to be *mergeable*: the same upstream
/// repository, ignoring which ref each project tracks.
///
/// Grouping deliberately keeps `nixpkgs-unstable` and `nixos-unstable` apart,
/// because converging them silently would change which branch a project follows.
/// Merging is the user saying "these are the same thing to me, move them onto one
/// ref" — so it needs a coarser key than [`Identity`], and it stays opt-in.
#[derive(Debug, PartialEq, Eq, PartialOrd, Ord, Hash)]
pub struct MergeKey {
    pub kind: String,
    pub owner: String,
    pub repo: String,
}

/// What a [`MergeKey`] says.
pub struct MergeKeyView {
    pub kind: Seq<char>,
    pub owner: Seq<char>,
    pub repo: Seq<char>,
}

impl View for MergeKey {
    type V = MergeKeyView;

    open spec fn view(&self) -> MergeKeyView {
        MergeKeyView { kind: self.kind@, owner: self.owner@, repo: self.repo@ }
    }
}

impl MergeKey {
    /// Whether two keys say the same.
    pub fn same(&self, other: &MergeKey) -> (r: bool)
        ensures
            r == (self@ == other@),
    {
        self.kind == other.kind && self.owner == other.owner && self.repo == other.repo
    }
}

/// Spelling the owner or the repository of a GitHub flakeref in capitals makes no
/// other identity of it.
pub proof fn law_case_is_folded(a: Ref, b: Ref)
    requires
        a.kind == b.kind,
        a.git_ref == b.git_ref,
        a.owner is Some && a.repo is Some,
        b.owner is Some && b.repo is Some,
        text::lowercase(or_empty(a.owner)) == text::lowercase(or_empty(b.owner)),
        text::lowercase(or_empty(a.repo)) == text::lowercase(or_empty(b.repo)),
    ensures
        identity_in(a) == identity_in(b),
{
}

/// Distinct refs stay separate, and can still be merged.
pub proof fn law_refs_stay_apart_but_mergeable(a: Ref, b: Ref)
    requires
        identity_in(a) is Some,
        identity_in(b) is Some,
        a.kind == b.kind && a.owner == b.owner && a.repo == b.repo && a.url == b.url,
        or_empty(a.git_ref) != or_empty(b.git_ref),
    ensures
        identity_in(a) != identity_in(b),
        identity_in(a)->0.key() == identity_in(b)->0.key(),
{
}

/// Local and registry-relative inputs have no identity.
pub proof fn law_local_inputs_are_not_grouped(r: Ref)
    requires
        or_empty(r.kind) == "path"@ || or_empty(r.kind) == "indirect"@,
    ensures
        identity_in(r) is None,
{
}

/// `.git`, written `n` times.
pub open spec fn gits(n: nat) -> Seq<char>
    decreases n,
{
    if n == 0 {
        Seq::empty()
    } else {
        gits((n - 1) as nat) + seq!['.', 'g', 'i', 't']
    }
}

/// An input has an identity just when its flakeref names a kind that is shared between
/// projects, and a repository by owner and name or by its url.
pub proof fn law_what_can_be_shared_has_an_identity(r: Ref)
    ensures
        identity_in(r) is Some <==> {
            &&& r.kind matches Some(kind) && kind@.len() > 0 && kind@ != "path"@ && kind@
                != "indirect"@
            &&& r.url is Some || (r.owner is Some && r.repo is Some)
        },
{
}

/// An identity keeps the kind and the ref as they were declared, and a ref that was not
/// declared is empty. Owner and name of a repository are kept but for capitals.
pub proof fn law_an_identity_keeps_what_was_declared(r: Ref)
    requires
        identity_in(r) is Some,
    ensures
        ({
            let id = identity_in(r)->0;
            &&& r.kind matches Some(kind) && id.kind == kind@
            &&& match r.git_ref {
                Some(git_ref) => id.git_ref == git_ref@,
                None => id.git_ref.len() == 0,
            }
            &&& match (r.owner, r.repo) {
                (Some(owner), Some(repo)) => folds(owner@, id.owner) && folds(repo@, id.repo),
                _ => id.owner.len() == 0,
            }
        }),
{
    if let (Some(owner), Some(repo)) = (r.owner, r.repo) {
        lemma_folds(owner@);
        lemma_folds(repo@);
    }
}

/// Whether `b` is `a` with each capital of the alphabet made small, and nothing else
/// changed.
pub open spec fn folds(a: Seq<char>, b: Seq<char>) -> bool {
    &&& a.len() == b.len()
    &&& forall|i: int|
        0 <= i < a.len() ==> if 'A' <= #[trigger] a[i] <= 'Z' {
            b[i] as int - 'a' as int == a[i] as int - 'A' as int
        } else {
            b[i] == a[i]
        }
}

proof fn lemma_folds(s: Seq<char>)
    ensures
        folds(s, text::lowercase(s)),
{
    let t = text::lowercase(s);
    assert forall|i: int| 0 <= i < s.len() implies if 'A' <= #[trigger] s[i] <= 'Z' {
        t[i] as int - 'a' as int == s[i] as int - 'A' as int
    } else {
        t[i] == s[i]
    } by {
        assert(t[i] == text::lower(s[i]));
    }
}

/// An input that is known by its url is told by it: the identity's repository is the
/// url, from which each `.git` at the end was taken, and none that stands elsewhere.
pub proof fn law_a_url_input_is_told_by_its_url(r: Ref, url: Seq<char>)
    requires
        identity_in(r) is Some,
        r.owner is None || r.repo is None,
        text::view_of(r.url) == Some(url),
    ensures
        ({
            let repo = identity_in(r)->0.repo;
            &&& exists|n: nat| url == repo + #[trigger] gits(n)
            &&& !is_git(repo)
            &&& !is_git(url) ==> repo == url
        }),
{
    reveal_strlit(".git");
    assert(".git"@ =~= seq!['.', 'g', 'i', 't']);
    lemma_stripped(url);
}

/// Whether `s` ends in `.git`.
pub open spec fn is_git(s: Seq<char>) -> bool {
    s.len() >= 4 && s.skip(s.len() - 4) == seq!['.', 'g', 'i', 't']
}

proof fn lemma_stripped(s: Seq<char>)
    ensures
        ({
            let t = text::strip_suffixes(s, seq!['.', 'g', 'i', 't']);
            &&& exists|n: nat| s == t + #[trigger] gits(n)
            &&& !is_git(t)
            &&& !is_git(s) ==> t == s
        }),
    decreases s.len(),
{
    let git = seq!['.', 'g', 'i', 't'];
    let t = text::strip_suffixes(s, git);
    if s.len() >= 4 {
        assert(s.skip(s.len() - 4) =~= s.subrange(s.len() - 4, s.len() as int));
    }
    if text::ends(s, git) {
        let head = s.take(s.len() - 4);
        lemma_stripped(head);
        let n = choose|n: nat| head == t + #[trigger] gits(n);
        assert(gits(n + 1) == gits(n) + git);
        assert(s =~= head + git);
        assert(s =~= t + gits(n + 1));
    } else {
        assert(gits(0) =~= Seq::<char>::empty());
        assert(s =~= t + gits(0));
    }
}

/// Inputs that are known by their urls have one identity only if the urls are the same
/// but for `.git` at their ends: unrelated repositories are never grouped together.
pub proof fn law_unrelated_urls_stay_apart(a: Ref, b: Ref, x: Seq<char>, y: Seq<char>)
    requires
        identity_in(a) is Some,
        identity_in(a) == identity_in(b),
        a.owner is None || a.repo is None,
        b.owner is None || b.repo is None,
        text::view_of(a.url) == Some(x),
        text::view_of(b.url) == Some(y),
    ensures
        exists|base: Seq<char>, m: nat, n: nat|
            x == #[trigger] (base + gits(m)) && y == #[trigger] (base + gits(n)),
        !is_git(x) && !is_git(y) ==> x == y,
{
    law_a_url_input_is_told_by_its_url(a, x);
    law_a_url_input_is_told_by_its_url(b, y);
    let base = identity_in(a)->0.repo;
    let m = choose|m: nat| x == base + #[trigger] gits(m);
    let n = choose|n: nat| y == base + #[trigger] gits(n);
    assert(x == base + gits(m) && y == base + gits(n));
}

/// Repositories that differ in kind, owner or name have different identities: with
/// owner and name, two flakerefs are grouped together only if these are spelled alike
/// but for capitals, and the ref is the same.
pub proof fn law_different_repositories_stay_apart(a: Ref, b: Ref)
    requires
        identity_in(a) is Some,
        identity_in(a) == identity_in(b),
    ensures
        a.kind matches Some(k) && b.kind matches Some(l) && k@ == l@,
        match (a.git_ref, b.git_ref) {
            (Some(x), Some(y)) => x@ == y@,
            (Some(x), None) => x@.len() == 0,
            (None, Some(y)) => y@.len() == 0,
            (None, None) => true,
        },
        (a.owner, a.repo, b.owner, b.repo) matches (Some(o), Some(r), Some(p), Some(q)) ==> alike(
            o@,
            p@,
        ) && alike(r@, q@),
{
    law_an_identity_keeps_what_was_declared(a);
    law_an_identity_keeps_what_was_declared(b);
    if let (Some(o), Some(r), Some(p), Some(q)) = (a.owner, a.repo, b.owner, b.repo) {
        lemma_alike(o@, p@, identity_in(a)->0.owner);
        lemma_alike(r@, q@, identity_in(a)->0.repo);
    }
}

/// Whether two texts are spelled alike but for capitals.
pub open spec fn alike(a: Seq<char>, b: Seq<char>) -> bool {
    &&& a.len() == b.len()
    &&& forall|i: int|
        #![trigger a[i]]
        #![trigger b[i]]
        0 <= i < a.len() ==> a[i] == b[i] || ('A' <= a[i] <= 'Z' && b[i] as int == a[i] as int + 32)
            || ('A' <= b[i] <= 'Z' && a[i] as int == b[i] as int + 32)
}

proof fn lemma_alike(a: Seq<char>, b: Seq<char>, c: Seq<char>)
    requires
        folds(a, c),
        folds(b, c),
    ensures
        alike(a, b),
{
    assert forall|i: int| 0 <= i < a.len() implies a[i] == b[i] || ('A' <= a[i] <= 'Z'
        && b[i] as int == a[i] as int + 32) || ('A' <= b[i] <= 'Z' && a[i] as int == b[i] as int
        + 32) by {
        assert('a' as int == 97 && 'A' as int == 65);
        assert(a[i] == a[i]);
        assert(b[i] == b[i]);
    }
}

/// The url that tracks an identity names its repository and its ref: it begins with the
/// repository, nothing stands behind that where there is no ref, and where there is one
/// it ends with it. Two refs of one repository never have the same url.
pub proof fn law_a_url_names_repository_and_ref(a: IdentityView, b: IdentityView)
    requires
        a.kind == b.kind,
        a.owner == b.owner,
        a.repo == b.repo,
    ensures
        ({
            let base = if a.owner.len() == 0 {
                a.repo
            } else {
                a.kind + seq![':'] + a.owner + seq!['/'] + a.repo
            };
            &&& text::begins(a.url_text(), base)
            &&& a.git_ref.len() == 0 ==> a.url_text() == base
            &&& a.git_ref.len() > 0 && a.owner.len() > 0 ==> a.url_text() == base + seq!['/']
                + a.git_ref
            &&& text::ends(a.url_text(), a.git_ref)
        }),
        a.url_text() == b.url_text() <==> a.git_ref == b.git_ref,
{
    reveal_strlit(":");
    reveal_strlit("/");
    reveal_strlit("ref=");
    assert(":"@ =~= seq![':']);
    assert("/"@ =~= seq!['/']);
    let base = if a.owner.len() == 0 {
        a.repo
    } else {
        a.kind + seq![':'] + a.owner + seq!['/'] + a.repo
    };
    let x = a.url_text();
    let y = b.url_text();
    assert(x.subrange(0, base.len() as int) =~= base);
    assert(x.subrange(x.len() - a.git_ref.len(), x.len() as int) =~= a.git_ref);
    assert(y.subrange(y.len() - b.git_ref.len(), y.len() as int) =~= b.git_ref);
    if a.git_ref == b.git_ref {
        assert(a == b);
    }
}

// ---------------------------------------------------------------------------
// The order of identities
// ---------------------------------------------------------------------------

/// The order of identities: by kind, owner, repository, then ref.
pub open spec fn identity_lt(a: IdentityView, b: IdentityView) -> bool {
    if a.kind != b.kind {
        text::chars_lt(a.kind, b.kind)
    } else if a.owner != b.owner {
        text::chars_lt(a.owner, b.owner)
    } else if a.repo != b.repo {
        text::chars_lt(a.repo, b.repo)
    } else {
        text::chars_lt(a.git_ref, b.git_ref)
    }
}

/// Two refs can be merged just when they are of one repository: a key forgets the ref and
/// nothing else.
pub proof fn law_a_key_forgets_only_the_ref(a: IdentityView, b: IdentityView)
    ensures
        a.key() == b.key() <==> a.kind == b.kind && a.owner == b.owner && a.repo == b.repo,
{
}

/// Identities are ordered by kind, then by owner, then by repository, and then by ref.
pub proof fn law_the_first_part_that_differs_decides(a: IdentityView, b: IdentityView)
    ensures
        text::chars_lt(a.kind, b.kind) ==> identity_lt(a, b),
        a.kind == b.kind && text::chars_lt(a.owner, b.owner) ==> identity_lt(a, b),
        a.kind == b.kind && a.owner == b.owner && text::chars_lt(a.repo, b.repo) ==> identity_lt(
            a,
            b,
        ),
        a.kind == b.kind && a.owner == b.owner && a.repo == b.repo ==> identity_lt(a, b)
            == text::chars_lt(a.git_ref, b.git_ref),
        identity_lt(a, b) ==> !identity_lt(b, a),
{
    text::lemma_chars_lt_irreflexive(a.kind);
    text::lemma_chars_lt_irreflexive(a.owner);
    text::lemma_chars_lt_irreflexive(a.repo);
    if identity_lt(a, b) && identity_lt(b, a) {
        lemma_identity_transitive(a, b, a);
        lemma_identity_total(a, a);
    }
}

/// An identity is shown by its owner, its repository and its ref, and by nothing that it
/// does not have.
pub proof fn law_an_identity_is_shown_by_its_parts(id: IdentityView)
    ensures
        id.owner.len() > 0 ==> text::begins(id.shown(), id.owner) && text::occurs_at(
            id.shown(),
            id.repo,
            id.owner.len() + 1int,
        ) && id.shown()[id.owner.len() as int] == '/',
        id.owner.len() == 0 ==> text::begins(id.shown(), id.repo),
        id.git_ref.len() > 0 ==> text::ends(id.shown(), id.git_ref) && id.shown()[id.shown().len()
            - id.git_ref.len() - 1] == '@',
        id.shown().len() == id.repo.len() + (if id.owner.len() > 0 {
            id.owner.len() + 1
        } else {
            0
        }) + (if id.git_ref.len() > 0 {
            id.git_ref.len() + 1
        } else {
            0
        }),
{
    reveal_strlit("/");
    reveal_strlit("@");
    let s = id.shown();
    let n = id.owner.len() as int;
    if n > 0 {
        assert(s.subrange(0, n) =~= id.owner);
        assert(s.subrange(n + 1, n + 1 + id.repo.len()) =~= id.repo);
    } else {
        assert(s.subrange(0, id.repo.len() as int) =~= id.repo);
    }
    if id.git_ref.len() > 0 {
        assert(s.subrange(s.len() - id.git_ref.len(), s.len() as int) =~= id.git_ref);
    }
}

proof fn lemma_identity_total(a: IdentityView, b: IdentityView)
    ensures
        a == b || identity_lt(a, b) || identity_lt(b, a),
        !identity_lt(a, a),
{
    text::lemma_chars_lt_total(a.kind, b.kind);
    text::lemma_chars_lt_total(a.owner, b.owner);
    text::lemma_chars_lt_total(a.repo, b.repo);
    text::lemma_chars_lt_total(a.git_ref, b.git_ref);
    text::lemma_chars_lt_irreflexive(a.git_ref);
}

proof fn lemma_identity_transitive(a: IdentityView, b: IdentityView, c: IdentityView)
    requires
        identity_lt(a, b),
        identity_lt(b, c),
    ensures
        identity_lt(a, c),
{
    text::lemma_chars_lt_irreflexive(a.kind);
    text::lemma_chars_lt_irreflexive(a.owner);
    text::lemma_chars_lt_irreflexive(a.repo);
    if a.kind != b.kind && b.kind != c.kind {
        text::lemma_chars_lt_transitive(a.kind, b.kind, c.kind);
    } else if a.kind == b.kind && b.kind == c.kind {
        if a.owner != b.owner && b.owner != c.owner {
            text::lemma_chars_lt_transitive(a.owner, b.owner, c.owner);
        } else if a.owner == b.owner && b.owner == c.owner {
            if a.repo != b.repo && b.repo != c.repo {
                text::lemma_chars_lt_transitive(a.repo, b.repo, c.repo);
            } else if a.repo == b.repo && b.repo == c.repo {
                text::lemma_chars_lt_transitive(a.git_ref, b.git_ref, c.git_ref);
            }
        }
    }
}

fn identity_before(a: &Identity, b: &Identity) -> (r: bool)
    ensures
        r == identity_lt(a@, b@),
{
    if a.kind != b.kind {
        text::text_before(a.kind.as_str(), b.kind.as_str())
    } else if a.owner != b.owner {
        text::text_before(a.owner.as_str(), b.owner.as_str())
    } else if a.repo != b.repo {
        text::text_before(a.repo.as_str(), b.repo.as_str())
    } else {
        text::text_before(a.git_ref.as_str(), b.git_ref.as_str())
    }
}

// ---------------------------------------------------------------------------
// Pins and groups
// ---------------------------------------------------------------------------

/// One project's pin of one identity.
#[derive(Debug)]
pub struct Pin {
    /// Path to the project directory (the dir containing `flake.lock`).
    pub project: String,
    /// The input's node name within that project's lockfile.
    ///
    /// Not necessarily what the flake calls it: when two nodes would collide, Nix
    /// suffixes them (`nixpkgs_2`), so a flake declaring `nixpkgs` can have its
    /// own input stored under `nixpkgs_2`. See [`Pin::declared_name`].
    pub input_name: String,
    /// The attribute name the project's own `flake.nix` declares, when this is a
    /// direct input.
    ///
    /// This is the name to use against `flake.nix` and `--override-input`;
    /// `input_name` is a lockfile-internal identifier and may differ.
    pub declared_name: Option<String>,
    pub version: String,
    pub last_modified: Option<i64>,
    /// Whether the project's own `flake.nix` declares this input.
    ///
    /// Only direct inputs can be retargeted with `--override-input`; transitive
    /// ones belong to a dependency's lockfile, so an action against them would
    /// fail. They are recorded but excluded from the default view and the plan.
    pub direct: bool,
}

/// What a [`Pin`] says.
pub struct PinView {
    pub project: Seq<char>,
    pub input_name: Seq<char>,
    pub declared_name: Option<Seq<char>>,
    pub version: Seq<char>,
    pub last_modified: Option<i64>,
    pub direct: bool,
}

impl View for Pin {
    type V = PinView;

    open spec fn view(&self) -> PinView {
        PinView {
            project: self.project@,
            input_name: self.input_name@,
            declared_name: text::view_of(self.declared_name),
            version: self.version@,
            last_modified: self.last_modified,
            direct: self.direct,
        }
    }
}

impl Clone for Pin {
    fn clone(&self) -> (r: Self)
        ensures
            r == *self,
    {
        Pin {
            project: self.project.clone(),
            input_name: self.input_name.clone(),
            declared_name: text::copy_opt(&self.declared_name),
            version: self.version.clone(),
            last_modified: self.last_modified,
            direct: self.direct,
        }
    }
}

impl Pin {
    /// The name to use when addressing this input from outside the lockfile.
    pub open spec fn outside_name(self) -> Seq<char> {
        match self.declared_name {
            Some(name) => name@,
            None => self.input_name@,
        }
    }

    /// The name to use when addressing this input from outside the lockfile: what
    /// `flake.nix` calls it, falling back to the node name.
    pub fn declared_name(&self) -> (r: &str)
        ensures
            r@ == self.outside_name(),
    {
        match &self.declared_name {
            Some(name) => name.as_str(),
            None => self.input_name.as_str(),
        }
    }
}

/// All pins of a single identity, across every scanned project.
#[derive(Debug)]
pub struct Group {
    pub identity: Identity,
    pub pins: Vec<Pin>,
}

impl Group {
    /// Transitive pins, shown for context but never planned against: they live in
    /// a dependency's lockfile, where `--override-input` cannot reach them.
    pub fn transitive_count(&self) -> (r: usize)
        ensures
            r == self.pins@.filter(|p: Pin| !p.direct).len(),
    {
        let ghost keep = |p: Pin| !p.direct;
        let mut n: usize = 0;
        let mut i: usize = 0;
        assert(self.pins@.take(0).filter(keep).len() == 0) by {
            reveal(Seq::filter);
        }
        while i < self.pins.len()
            invariant
                n <= i <= self.pins.len(),
                keep == (|p: Pin| !p.direct),
                n == self.pins@.take(i as int).filter(keep).len(),
            decreases self.pins.len() - i,
        {
            proof {
                reveal(Seq::filter);
                assert(self.pins@.take(i + 1).drop_last() == self.pins@.take(i as int));
            }
            if !self.pins[i].direct {
                n += 1;
            }
            i += 1;
        }
        assert(self.pins@.take(i as int) == self.pins@);
        n
    }
}

// ---------------------------------------------------------------------------
// From lockfiles to groups
// ---------------------------------------------------------------------------

/// The attribute by which the first `n` entries of the root node's inputs declare
/// the node called `node`. Where several do, the last one counts.
///
/// The map is attribute name to node name, and the two differ whenever Nix had to
/// disambiguate a collision (`nixpkgs` declared, `nixpkgs_2` stored), so it is read
/// backwards here to recover what `flake.nix` actually calls each.
pub open spec fn declared_among(inputs: TextMap<InputEdge>, n: int, node: Seq<char>) -> Option<
    Seq<char>,
>
    decreases n,
{
    if n <= 0 {
        None
    } else if inputs.values_view()[n - 1].target() == Some(node) {
        Some(inputs.keys_view()[n - 1])
    } else {
        declared_among(inputs, n - 1, node)
    }
}

/// The name by which a flake declares the node called `node` of its lockfile: the
/// root node's inputs are exactly the flake's own declared inputs, and every other
/// node reached the lockfile through a dependency.
pub open spec fn declared_in(lock: LockFile, node: Seq<char>) -> Option<Seq<char>> {
    match lock.nodes.at(lock.root@) {
        Some(root) => declared_among(root.inputs, root.inputs.keys_view().len() as int, node),
        None => None,
    }
}

/// The directory a lockfile belongs to.
pub open spec fn project_of(lock_path: Seq<char>) -> Seq<char> {
    match paths::parent(lock_path) {
        Some(dir) => dir,
        None => lock_path,
    }
}

/// What the node called `name` contributes: its identity and the pin of it. The
/// root contributes nothing, nor does a node that is not locked, has no identity
/// or no version.
pub open spec fn node_entry(
    project: Seq<char>,
    lock: LockFile,
    name: Seq<char>,
    node: Node,
) -> Option<(IdentityView, PinView)> {
    if name == lock.root@ || node.original is None || node.locked is None {
        None
    } else {
        match (identity_in(node.original->0), (node.locked->0).version()) {
            (Some(id), Some(version)) => {
                let declared_name = declared_in(lock, name);
                Some(
                    (
                        id,
                        PinView {
                            project,
                            input_name: name,
                            declared_name,
                            version,
                            last_modified: (node.locked->0).last_modified,
                            direct: declared_name is Some,
                        },
                    ),
                )
            },
            _ => None,
        }
    }
}

/// What the first `n` nodes of a lockfile contribute, in the order of their names.
pub open spec fn node_entries(project: Seq<char>, lock: LockFile, n: int) -> Seq<
    (IdentityView, PinView),
>
    decreases n,
{
    if n <= 0 {
        Seq::empty()
    } else {
        let head = node_entries(project, lock, n - 1);
        match node_entry(
            project,
            lock,
            lock.nodes.keys_view()[n - 1],
            lock.nodes.values_view()[n - 1],
        ) {
            Some(entry) => head.push(entry),
            None => head,
        }
    }
}

/// What the lockfiles contribute, one after another. One that could not be parsed
/// contributes nothing.
pub open spec fn lock_entries(locks: Seq<(String, Result<LockFile, String>)>) -> Seq<
    (IdentityView, PinView),
>
    decreases locks.len(),
{
    if locks.len() == 0 {
        Seq::empty()
    } else {
        let head = lock_entries(locks.drop_last());
        match locks.last().1 {
            Ok(lock) => head + node_entries(
                project_of(locks.last().0@),
                lock,
                lock.nodes.keys_view().len() as int,
            ),
            Err(_) => head,
        }
    }
}

/// The lockfiles that could not be parsed, with the reason.
pub open spec fn lock_errors(locks: Seq<(String, Result<LockFile, String>)>) -> Seq<
    (Seq<char>, Seq<char>),
>
    decreases locks.len(),
{
    if locks.len() == 0 {
        Seq::empty()
    } else {
        let head = lock_errors(locks.drop_last());
        match locks.last().1 {
            Ok(_) => head,
            Err(e) => head.push((locks.last().0@, e@)),
        }
    }
}

/// The pins of the identity `id`, in the order they were contributed.
pub open spec fn pins_with(entries: Seq<(IdentityView, PinView)>, id: IdentityView) -> Seq<PinView>
    decreases entries.len(),
{
    if entries.len() == 0 {
        Seq::empty()
    } else {
        let head = pins_with(entries.drop_last(), id);
        if entries.last().0 == id {
            head.push(entries.last().1)
        } else {
            head
        }
    }
}

/// What a list of pins says.
pub open spec fn pin_views(pins: Seq<Pin>) -> Seq<PinView> {
    pins.map_values(|p: Pin| p@)
}

/// Whether one of `groups` is that of `id`.
pub open spec fn has_group(groups: Seq<Group>, id: IdentityView) -> bool {
    exists|i: int| 0 <= i < groups.len() && (#[trigger] groups[i]).identity@ == id
}

/// Whether `groups` is what the entries amount to: one group for each identity, in
/// ascending order, each with the pins of its identity in the order they came.
pub open spec fn groups_of(groups: Seq<Group>, entries: Seq<(IdentityView, PinView)>) -> bool {
    &&& forall|i: int, j: int|
        0 <= i < j < groups.len() ==> identity_lt(
            (#[trigger] groups[i]).identity@,
            (#[trigger] groups[j]).identity@,
        )
    &&& forall|i: int|
        0 <= i < groups.len() ==> pin_views((#[trigger] groups[i]).pins@) == pins_with(
            entries,
            groups[i].identity@,
        ) && groups[i].pins@.len() > 0
    &&& forall|e: int|
        0 <= e < entries.len() ==> has_group(groups, (#[trigger] entries[e]).0)
}

fn declared(lock: &LockFile, node: &str) -> (r: Option<String>)
    ensures
        text::view_of(r) == declared_in(*lock, node@),
{
    let root = match lock.nodes.get(lock.root.as_str()) {
        Some(root) => root,
        None => {
            return None;
        },
    };
    let n: usize = root.inputs.len();
    let mut i: usize = n;
    while i > 0
        invariant
            i <= n,
            n == root.inputs.keys_view().len(),
            n == root.inputs.values_view().len(),
            lock.nodes.at(lock.root@) == Some(*root),
            declared_among(root.inputs, i as int, node@) == declared_among(
                root.inputs,
                n as int,
                node@,
            ),
        decreases i,
    {
        match root.inputs.value(i - 1).node_name() {
            Some(name) => {
                if text::same(name, node) {
                    return Some(root.inputs.key(i - 1).clone());
                }
            },
            None => {},
        }
        i -= 1;
    }
    None
}

/// Put the pin of one entry into its group.
fn add_entry(
    groups: &mut Vec<Group>,
    identity: Identity,
    pin: Pin,
    Ghost(entries): Ghost<Seq<(IdentityView, PinView)>>,
)
    requires
        groups_of(old(groups)@, entries),
    ensures
        groups_of(final(groups)@, entries.push((identity@, pin@))),
{
    let ghost before = groups@;
    let ghost more = entries.push((identity@, pin@));
    let mut k: usize = 0;
    while k < groups.len() && identity_before(&groups[k].identity, &identity)
        invariant
            k <= groups.len(),
            groups@ == before,
            forall|j: int| 0 <= j < k ==> identity_lt((#[trigger] before[j]).identity@, identity@),
        decreases groups.len() - k,
    {
        k += 1;
    }
    assert(more.drop_last() == entries);
    if k < groups.len() && groups[k].identity.same(&identity) {
        let mut group = groups.remove(k);
        let ghost old_pins = group.pins@;
        group.pins.push(pin);
        assert(pin_views(group.pins@) == pin_views(old_pins).push(pin@));
        groups.insert(k, group);
        let ghost after = groups@;
        assert(after == before.update(k as int, group));
        proof {
            assert forall|i: int| 0 <= i < after.len() implies pin_views(
                (#[trigger] after[i]).pins@,
            ) == pins_with(more, after[i].identity@) && after[i].pins@.len() > 0 by {
                assert(after[i].identity@ == before[i].identity@);
                assert(pin_views(before[i].pins@) == pins_with(entries, before[i].identity@));
                lemma_distinct(before, i, k as int);
            }
            assert forall|i: int, j: int| 0 <= i < j < after.len() implies identity_lt(
                (#[trigger] after[i]).identity@,
                (#[trigger] after[j]).identity@,
            ) by {
                assert(before[i].identity@ == after[i].identity@);
                assert(before[j].identity@ == after[j].identity@);
            }
            assert forall|e: int| 0 <= e < more.len() implies has_group(
                after,
                (#[trigger] more[e]).0,
            ) by {
                if e < entries.len() {
                    assert(more[e] == entries[e]);
                    let i = choose|i: int|
                        0 <= i < before.len() && (#[trigger] before[i]).identity@ == entries[e].0;
                    assert(after[i].identity@ == entries[e].0);
                } else {
                    assert(after[k as int].identity@ == identity@);
                }
            }
        }
    } else {
        let mut pins: Vec<Pin> = Vec::new();
        pins.push(pin);
        assert(pin_views(pins@) == seq![pin@]);
        let group = Group { identity, pins };
        groups.insert(k, group);
        let ghost after = groups@;
        proof {
            lemma_gap(before, identity@, k as int);
            lemma_no_pins(before, entries, identity@);
            assert(pins_with(more, identity@) == seq![pin@]);
            assert forall|i: int| 0 <= i < after.len() implies pin_views(
                (#[trigger] after[i]).pins@,
            ) == pins_with(more, after[i].identity@) && after[i].pins@.len() > 0 by {
                if i < k {
                    assert(after[i] == before[i]);
                    lemma_identity_total(before[i].identity@, identity@);
                } else if i > k {
                    assert(after[i] == before[i - 1]);
                    lemma_identity_total(identity@, identity@);
                }
            }
            assert forall|i: int, j: int| 0 <= i < j < after.len() implies identity_lt(
                (#[trigger] after[i]).identity@,
                (#[trigger] after[j]).identity@,
            ) by {
                let a = if i < k { i } else { i - 1 };
                let b = if j < k { j } else { j - 1 };
                if i != k && j != k {
                    assert(after[i] == before[a] && after[j] == before[b]);
                } else if i == k {
                    assert(after[j] == before[b]);
                } else {
                    assert(after[i] == before[a]);
                }
            }
            assert forall|e: int| 0 <= e < more.len() implies has_group(
                after,
                (#[trigger] more[e]).0,
            ) by {
                if e < entries.len() {
                    assert(more[e] == entries[e]);
                    let i = choose|i: int|
                        0 <= i < before.len() && (#[trigger] before[i]).identity@ == entries[e].0;
                    if i < k {
                        assert(after[i] == before[i]);
                    } else {
                        assert(after[i + 1] == before[i]);
                    }
                } else {
                    assert(after[k as int].identity@ == identity@);
                }
            }
        }
    }
}

proof fn lemma_distinct(groups: Seq<Group>, i: int, k: int)
    requires
        0 <= i < groups.len(),
        0 <= k < groups.len(),
        forall|i: int, j: int|
            0 <= i < j < groups.len() ==> identity_lt(
                (#[trigger] groups[i]).identity@,
                (#[trigger] groups[j]).identity@,
            ),
    ensures
        groups[i].identity@ == groups[k].identity@ ==> i == k,
{
    lemma_identity_total(groups[i].identity@, groups[k].identity@);
    lemma_identity_total(groups[k].identity@, groups[i].identity@);
}

/// Where an identity has no group, those before `k` come before it and the others
/// after it.
proof fn lemma_gap(groups: Seq<Group>, id: IdentityView, k: int)
    requires
        0 <= k <= groups.len(),
        forall|i: int, j: int|
            0 <= i < j < groups.len() ==> identity_lt(
                (#[trigger] groups[i]).identity@,
                (#[trigger] groups[j]).identity@,
            ),
        forall|j: int| 0 <= j < k ==> identity_lt((#[trigger] groups[j]).identity@, id),
        k < groups.len() ==> !identity_lt(groups[k].identity@, id) && groups[k].identity@ != id,
    ensures
        forall|j: int| k <= j < groups.len() ==> identity_lt(id, (#[trigger] groups[j]).identity@),
        !has_group(groups, id),
{
    lemma_identity_total(id, id);
    assert forall|j: int| k <= j < groups.len() implies identity_lt(
        id,
        (#[trigger] groups[j]).identity@,
    ) by {
        lemma_identity_total(groups[k].identity@, id);
        if j > k {
            lemma_identity_transitive(id, groups[k].identity@, groups[j].identity@);
        }
    }
    assert forall|j: int| 0 <= j < groups.len() implies (#[trigger] groups[j]).identity@ != id by {
        if j < k {
            assert(identity_lt(groups[j].identity@, id));
        } else {
            assert(identity_lt(id, groups[j].identity@));
        }
    }
}

/// An identity without a group has no pins.
proof fn lemma_no_pins(
    groups: Seq<Group>,
    entries: Seq<(IdentityView, PinView)>,
    id: IdentityView,
)
    requires
        forall|e: int| 0 <= e < entries.len() ==> has_group(groups, (#[trigger] entries[e]).0),
        !has_group(groups, id),
    ensures
        pins_with(entries, id).len() == 0,
    decreases entries.len(),
{
    if entries.len() > 0 {
        let head = entries.drop_last();
        assert forall|e: int| 0 <= e < head.len() implies has_group(
            groups,
            (#[trigger] head[e]).0,
        ) by {
            assert(head[e] == entries[e]);
        }
        lemma_no_pins(groups, head, id);
        assert(has_group(groups, entries[entries.len() - 1].0));
    }
}

/// What a list of errors says.
pub open spec fn error_views(errors: Seq<(String, String)>) -> Seq<(Seq<char>, Seq<char>)> {
    errors.map_values(|e: (String, String)| (e.0@, e.1@))
}

fn add_lock(
    groups: &mut Vec<Group>,
    lock_path: &str,
    lock: &LockFile,
    Ghost(entries): Ghost<Seq<(IdentityView, PinView)>>,
)
    requires
        groups_of(old(groups)@, entries),
    ensures
        groups_of(
            final(groups)@,
            entries + node_entries(
                project_of(lock_path@),
                *lock,
                lock.nodes.keys_view().len() as int,
            ),
        ),
{
    let project = match paths::parent_of(lock_path) {
        Some(dir) => dir,
        None => lock_path.to_owned(),
    };
    let n: usize = lock.nodes.len();
    let mut i: usize = 0;
    assert(entries + node_entries(project@, *lock, 0) == entries);
    while i < n
        invariant
            i <= n,
            n == lock.nodes.keys_view().len(),
            n == lock.nodes.values_view().len(),
            project@ == project_of(lock_path@),
            groups_of(groups@, entries + node_entries(project@, *lock, i as int)),
        decreases n - i,
    {
        let name = lock.nodes.key(i);
        let node = lock.nodes.value(i);
        let ghost so_far = node_entries(project@, *lock, i as int);
        if *name != lock.root {
            if let (Some(original), Some(locked)) = (&node.original, &node.locked) {
                if let (Some(identity), Some(version)) = (
                    Identity::from_ref(original),
                    locked.version_id(),
                ) {
                    let declared_name = declared(lock, name.as_str());
                    let direct = declared_name.is_some();
                    let pin = Pin {
                        project: project.clone(),
                        input_name: name.clone(),
                        declared_name,
                        version: version.to_owned(),
                        last_modified: locked.last_modified,
                        direct,
                    };
                    let ghost entry = (identity@, pin@);
                    assert(node_entry(project@, *lock, name@, *node) == Some(entry));
                    add_entry(groups, identity, pin, Ghost(entries + so_far));
                    assert((entries + so_far).push(entry) == entries + so_far.push(entry));
                }
            }
        }
        i += 1;
    }
}

/// Build identity groups from parsed lockfiles, each given with its path.
///
/// A lockfile can contain the same identity twice (e.g. `nixpkgs` and `nixpkgs_2`,
/// from transitive inputs that were not followed); both are recorded, since each
/// is a separately-materialized store path. Lockfiles that could not be parsed are
/// listed with the reason, and the others are grouped all the same.
pub fn group(locks: &Vec<(String, Result<LockFile, String>)>) -> (r: (
    Vec<Group>,
    Vec<(String, String)>,
))
    ensures
        groups_of(r.0@, lock_entries(locks@)),
        error_views(r.1@) == lock_errors(locks@),
{
    let mut groups: Vec<Group> = Vec::new();
    let mut errors: Vec<(String, String)> = Vec::new();
    let mut i: usize = 0;
    while i < locks.len()
        invariant
            i <= locks.len(),
            groups_of(groups@, lock_entries(locks@.take(i as int))),
            error_views(errors@) == lock_errors(locks@.take(i as int)),
        decreases locks.len() - i,
    {
        assert(locks@.take(i + 1).drop_last() == locks@.take(i as int));
        let (lock_path, parsed) = &locks[i];
        match parsed {
            Ok(lock) => {
                add_lock(
                    &mut groups,
                    lock_path.as_str(),
                    lock,
                    Ghost(lock_entries(locks@.take(i as int))),
                );
            },
            Err(e) => {
                let ghost done = errors@;
                errors.push((lock_path.clone(), e.clone()));
                assert(error_views(errors@) == error_views(done).push((lock_path@, e@)));
            },
        }
        i += 1;
    }
    assert(locks@.take(i as int) == locks@);
    (groups, errors)
}

// ---------------------------------------------------------------------------
// What holds of the groups
// ---------------------------------------------------------------------------

/// Whether an input edge leads to the node called `node`.
pub open spec fn leads_to(edge: InputEdge, node: Seq<char>) -> bool {
    match edge {
        InputEdge::Node(name) => name@ == node,
        InputEdge::Follows(path) => path@.len() > 0 && path@[0]@ == node,
    }
}

/// Whether the flake of `lock` itself declares the node called `node`, by the attribute
/// `name`, and by none that comes behind it.
pub open spec fn declares_as(lock: LockFile, node: Seq<char>, name: Seq<char>) -> bool {
    lock.nodes.at(lock.root@) matches Some(root) && exists|k: int|
        0 <= k < root.inputs.keys_view().len() && leads_to(
            #[trigger] root.inputs.values_view()[k],
            node,
        ) && root.inputs.keys_view()[k] == name && forall|j: int|
            k < j < root.inputs.keys_view().len() ==> !leads_to(
                #[trigger] root.inputs.values_view()[j],
                node,
            )
}

/// Whether `pin`, which is one of `id`, is that of the node at `n` of the lockfile at
/// `l`: it says of that node what is locked, in which project, under which name, since
/// when, and whether the project declares it itself.
pub open spec fn comes_from(
    locks: Seq<(String, Result<LockFile, String>)>,
    l: int,
    n: int,
    id: IdentityView,
    pin: PinView,
) -> bool {
    &&& 0 <= l < locks.len()
    &&& locks[l].1 matches Ok(lock)
    &&& 0 <= n < lock.nodes.keys_view().len()
    &&& pin.input_name == lock.nodes.keys_view()[n]
    &&& pin.input_name != lock.root@
    &&& match paths::parent(locks[l].0@) {
        Some(dir) => pin.project == dir,
        None => pin.project == locks[l].0@,
    }
    &&& lock.nodes.values_view()[n].original matches Some(original) && identity_in(original)
        == Some(id)
    &&& lock.nodes.values_view()[n].locked matches Some(locked) && {
        &&& pin.last_modified == locked.last_modified
        &&& match (locked.rev, locked.nar_hash) {
            (Some(rev), _) => pin.version == rev@,
            (None, Some(hash)) => pin.version == hash@,
            (None, None) => false,
        }
    }
    &&& match pin.declared_name {
        Some(name) => pin.direct && declares_as(lock, pin.input_name, name),
        None => !pin.direct && forall|name: Seq<char>|
            !#[trigger] declares_as(lock, pin.input_name, name),
    }
}

/// Where the entries of the first `n` nodes come from.
spec fn node_origins(project: Seq<char>, lock: LockFile, n: int) -> Seq<int>
    decreases n,
{
    if n <= 0 {
        Seq::empty()
    } else {
        let head = node_origins(project, lock, n - 1);
        match node_entry(
            project,
            lock,
            lock.nodes.keys_view()[n - 1],
            lock.nodes.values_view()[n - 1],
        ) {
            Some(_) => head.push(n - 1),
            None => head,
        }
    }
}

proof fn lemma_node_origins(project: Seq<char>, lock: LockFile, n: int)
    ensures
        node_origins(project, lock, n).len() == node_entries(project, lock, n).len(),
        forall|e: int|
            0 <= e < node_entries(project, lock, n).len() ==> {
                let k = #[trigger] node_origins(project, lock, n)[e];
                &&& 0 <= k < n
                &&& node_entry(
                    project,
                    lock,
                    lock.nodes.keys_view()[k],
                    lock.nodes.values_view()[k],
                ) == Some(node_entries(project, lock, n)[e])
            },
        forall|e: int, f: int|
            0 <= e < f < node_entries(project, lock, n).len() ==> (#[trigger] node_origins(
                project,
                lock,
                n,
            )[e]) < #[trigger] node_origins(project, lock, n)[f],
        forall|k: int|
            0 <= k < n && #[trigger] node_entry(
                project,
                lock,
                lock.nodes.keys_view()[k],
                lock.nodes.values_view()[k],
            ) is Some ==> node_origins(project, lock, n).contains(k),
    decreases n,
{
    if n > 0 {
        lemma_node_origins(project, lock, n - 1);
        let head = node_origins(project, lock, n - 1);
        let all = node_origins(project, lock, n);
        assert forall|k: int|
            0 <= k < n && #[trigger] node_entry(
                project,
                lock,
                lock.nodes.keys_view()[k],
                lock.nodes.values_view()[k],
            ) is Some implies all.contains(k) by {
            if k < n - 1 {
                let e = choose|e: int| 0 <= e < head.len() && head[e] == k;
                assert(all[e] == k);
            } else {
                assert(all[all.len() - 1] == k);
            }
        }
    }
}

/// Where the entries of the lockfiles come from: the lockfile, and the node of it.
spec fn lock_origins(locks: Seq<(String, Result<LockFile, String>)>) -> Seq<(int, int)>
    decreases locks.len(),
{
    if locks.len() == 0 {
        Seq::empty()
    } else {
        let head = lock_origins(locks.drop_last());
        match locks.last().1 {
            Ok(lock) => head + node_origins(
                project_of(locks.last().0@),
                lock,
                lock.nodes.keys_view().len() as int,
            ).map_values(|k: int| (locks.len() - 1, k)),
            Err(_) => head,
        }
    }
}

/// What the node at `n` of the lockfile at `l` contributes.
spec fn entry_at(locks: Seq<(String, Result<LockFile, String>)>, l: int, n: int) -> Option<
    (IdentityView, PinView),
> {
    match locks[l].1 {
        Ok(lock) => node_entry(
            project_of(locks[l].0@),
            lock,
            lock.nodes.keys_view()[n],
            lock.nodes.values_view()[n],
        ),
        Err(_) => None,
    }
}

/// Whether `(l, n)` is a node of one of the lockfiles.
spec fn is_node(locks: Seq<(String, Result<LockFile, String>)>, l: int, n: int) -> bool {
    &&& 0 <= l < locks.len()
    &&& locks[l].1 matches Ok(lock) && 0 <= n < lock.nodes.keys_view().len()
}

spec fn earlier(a: (int, int), b: (int, int)) -> bool {
    a.0 < b.0 || (a.0 == b.0 && a.1 < b.1)
}

proof fn lemma_lock_origins(locks: Seq<(String, Result<LockFile, String>)>)
    ensures
        lock_origins(locks).len() == lock_entries(locks).len(),
        forall|e: int|
            0 <= e < lock_entries(locks).len() ==> {
                let o = #[trigger] lock_origins(locks)[e];
                is_node(locks, o.0, o.1) && entry_at(locks, o.0, o.1) == Some(
                    lock_entries(locks)[e],
                )
            },
        forall|e: int, f: int|
            0 <= e < f < lock_entries(locks).len() ==> earlier(
                #[trigger] lock_origins(locks)[e],
                #[trigger] lock_origins(locks)[f],
            ),
        forall|l: int, n: int|
            is_node(locks, l, n) && #[trigger] entry_at(locks, l, n) is Some
                ==> lock_origins(locks).contains((l, n)),
    decreases locks.len(),
{
    if locks.len() > 0 {
        let before = locks.drop_last();
        lemma_lock_origins(before);
        let head = lock_origins(before);
        let all = lock_origins(locks);
        let last = locks.len() - 1;
        match locks.last().1 {
            Ok(lock) => {
                let project = project_of(locks.last().0@);
                let size = lock.nodes.keys_view().len() as int;
                let own = node_origins(project, lock, size);
                lemma_node_origins(project, lock, size);
                assert forall|e: int| 0 <= e < lock_entries(locks).len() implies {
                    let o = #[trigger] all[e];
                    is_node(locks, o.0, o.1) && entry_at(locks, o.0, o.1) == Some(
                        lock_entries(locks)[e],
                    )
                } by {
                    if e < head.len() {
                        assert(all[e] == head[e]);
                        assert(before[head[e].0] == locks[head[e].0]);
                    } else {
                        assert(all[e] == (last, own[e - head.len()]));
                    }
                }
                assert forall|e: int, f: int| 0 <= e < f < all.len() implies earlier(
                    #[trigger] all[e],
                    #[trigger] all[f],
                ) by {
                    if f < head.len() {
                        assert(all[e] == head[e] && all[f] == head[f]);
                    } else {
                        assert(all[f] == (last, own[f - head.len()]));
                        if e < head.len() {
                            assert(all[e] == head[e]);
                        } else {
                            assert(all[e] == (last, own[e - head.len()]));
                        }
                    }
                }
                assert forall|l: int, n: int|
                    is_node(locks, l, n) && #[trigger] entry_at(
                        locks,
                        l,
                        n,
                    ) is Some implies all.contains((l, n)) by {
                    if l < last {
                        assert(before[l] == locks[l]);
                        assert(entry_at(before, l, n) is Some);
                        assert(is_node(before, l, n));
                        let e = choose|e: int| 0 <= e < head.len() && head[e] == (l, n);
                        assert(all[e] == (l, n));
                    } else {
                        assert(node_entry(
                            project,
                            lock,
                            lock.nodes.keys_view()[n],
                            lock.nodes.values_view()[n],
                        ) is Some);
                        let e = choose|e: int| 0 <= e < own.len() && own[e] == n;
                        assert(all[head.len() + e] == (l, n));
                    }
                }
            },
            Err(_) => {
                assert forall|e: int| 0 <= e < lock_entries(locks).len() implies {
                    let o = #[trigger] all[e];
                    is_node(locks, o.0, o.1) && entry_at(locks, o.0, o.1) == Some(
                        lock_entries(locks)[e],
                    )
                } by {
                    assert(before[head[e].0] == locks[head[e].0]);
                }
                assert forall|l: int, n: int|
                    is_node(locks, l, n) && #[trigger] entry_at(
                        locks,
                        l,
                        n,
                    ) is Some implies all.contains((l, n)) by {
                    assert(before[l] == locks[l]);
                    assert(entry_at(before, l, n) is Some);
                    assert(is_node(before, l, n));
                }
            },
        }
    }
}

/// Which of the entries are those of `id`.
spec fn pin_origins(entries: Seq<(IdentityView, PinView)>, id: IdentityView) -> Seq<int>
    decreases entries.len(),
{
    if entries.len() == 0 {
        Seq::empty()
    } else {
        let head = pin_origins(entries.drop_last(), id);
        if entries.last().0 == id {
            head.push(entries.len() - 1)
        } else {
            head
        }
    }
}

proof fn lemma_pin_origins(entries: Seq<(IdentityView, PinView)>, id: IdentityView)
    ensures
        pin_origins(entries, id).len() == pins_with(entries, id).len(),
        forall|p: int|
            0 <= p < pins_with(entries, id).len() ==> {
                let e = #[trigger] pin_origins(entries, id)[p];
                0 <= e < entries.len() && entries[e] == (id, pins_with(entries, id)[p])
            },
        forall|p: int, q: int|
            0 <= p < q < pins_with(entries, id).len() ==> (#[trigger] pin_origins(entries, id)[p])
                < #[trigger] pin_origins(entries, id)[q],
        forall|e: int|
            0 <= e < entries.len() && (#[trigger] entries[e]).0 == id ==> pin_origins(
                entries,
                id,
            ).contains(e),
    decreases entries.len(),
{
    if entries.len() > 0 {
        let before = entries.drop_last();
        lemma_pin_origins(before, id);
        let head = pin_origins(before, id);
        let all = pin_origins(entries, id);
        assert forall|p: int| 0 <= p < pins_with(entries, id).len() implies {
            let e = #[trigger] all[p];
            0 <= e < entries.len() && entries[e] == (id, pins_with(entries, id)[p])
        } by {
            if p < head.len() {
                assert(all[p] == head[p]);
                assert(before[head[p]] == entries[head[p]]);
            }
        }
        assert forall|p: int, q: int|
            0 <= p < q < pins_with(entries, id).len() implies (#[trigger] all[p])
            < #[trigger] all[q] by {
            assert(all[p] == head[p]);
            if q < head.len() {
                assert(all[q] == head[q]);
            }
        }
        assert forall|e: int|
            0 <= e < entries.len() && (#[trigger] entries[e]).0 == id implies all.contains(e) by {
            if e < entries.len() - 1 {
                assert(before[e] == entries[e]);
                let p = choose|p: int| 0 <= p < head.len() && head[p] == e;
                assert(all[p] == e);
            } else {
                assert(all[all.len() - 1] == e);
            }
        }
    }
}

/// What the root's inputs say of a node, read backwards.
proof fn lemma_declared_among(inputs: TextMap<InputEdge>, n: int, node: Seq<char>)
    ensures
        match declared_among(inputs, n, node) {
            Some(name) => exists|k: int|
                0 <= k < n && leads_to(#[trigger] inputs.values_view()[k], node)
                    && inputs.keys_view()[k] == name && forall|j: int|
                    k < j < n ==> !leads_to(#[trigger] inputs.values_view()[j], node),
            None => forall|k: int|
                0 <= k < n ==> !leads_to(#[trigger] inputs.values_view()[k], node),
        },
    decreases n,
{
    if n > 0 {
        lemma_declared_among(inputs, n - 1, node);
        let edge = inputs.values_view()[n - 1];
        assert(leads_to(edge, node) <==> edge.target() == Some(node));
    }
}

proof fn lemma_comes_from(
    locks: Seq<(String, Result<LockFile, String>)>,
    l: int,
    n: int,
    id: IdentityView,
    pin: PinView,
)
    requires
        is_node(locks, l, n),
        entry_at(locks, l, n) == Some((id, pin)),
    ensures
        comes_from(locks, l, n, id, pin),
{
    let lock = locks[l].1->Ok_0;
    if let Some(root) = lock.nodes.at(lock.root@) {
        lemma_declared_among(
            root.inputs,
            root.inputs.keys_view().len() as int,
            pin.input_name,
        );
    }
}

/// Every pin is that of a node of a lockfile, and says what is locked there.
pub proof fn law_every_pin_is_a_locked_node(
    locks: Seq<(String, Result<LockFile, String>)>,
    groups: Seq<Group>,
    g: int,
    p: int,
)
    requires
        groups_of(groups, lock_entries(locks)),
        0 <= g < groups.len(),
        0 <= p < groups[g].pins@.len(),
    ensures
        exists|l: int, n: int| #[trigger]
            comes_from(locks, l, n, groups[g].identity@, groups[g].pins@[p]@),
{
    let id = groups[g].identity@;
    let entries = lock_entries(locks);
    lemma_lock_origins(locks);
    lemma_pin_origins(entries, id);
    let pin = groups[g].pins@[p]@;
    assert(pin_views(groups[g].pins@)[p] == pin);
    let o = lock_origins(locks)[pin_origins(entries, id)[p]];
    lemma_comes_from(locks, o.0, o.1, id, pin);
}

/// The pins of a group stand in the order of the lockfiles and of the names in each,
/// and no node has two of them.
pub proof fn law_no_node_is_pinned_twice(
    locks: Seq<(String, Result<LockFile, String>)>,
    groups: Seq<Group>,
    g: int,
    p: int,
    q: int,
)
    requires
        groups_of(groups, lock_entries(locks)),
        0 <= g < groups.len(),
        0 <= p < q < groups[g].pins@.len(),
    ensures
        exists|l: int, n: int, k: int, m: int| #[trigger]
            comes_from(locks, l, n, groups[g].identity@, groups[g].pins@[p]@) && #[trigger]
            comes_from(locks, k, m, groups[g].identity@, groups[g].pins@[q]@) && (l < k || (l == k
                && n < m)),
{
    let id = groups[g].identity@;
    let entries = lock_entries(locks);
    lemma_lock_origins(locks);
    lemma_pin_origins(entries, id);
    let views = pin_views(groups[g].pins@);
    assert(views[p] == groups[g].pins@[p]@ && views[q] == groups[g].pins@[q]@);
    let e = pin_origins(entries, id)[p];
    let f = pin_origins(entries, id)[q];
    let a = lock_origins(locks)[e];
    let b = lock_origins(locks)[f];
    assert(earlier(a, b));
    lemma_comes_from(locks, a.0, a.1, id, views[p]);
    lemma_comes_from(locks, b.0, b.1, id, views[q]);
}

/// Every node that can be grouped is: one that is not the root, declares something with
/// an identity and is locked to a version has its pin in the group of that identity.
pub proof fn law_every_locked_node_is_pinned(
    locks: Seq<(String, Result<LockFile, String>)>,
    groups: Seq<Group>,
    l: int,
    n: int,
    lock: LockFile,
    original: Ref,
    locked: Locked,
)
    requires
        groups_of(groups, lock_entries(locks)),
        0 <= l < locks.len(),
        locks[l].1 == Ok::<LockFile, String>(lock),
        0 <= n < lock.nodes.keys_view().len(),
        lock.nodes.keys_view()[n] != lock.root@,
        lock.nodes.values_view()[n].original == Some(original),
        identity_in(original) is Some,
        lock.nodes.values_view()[n].locked == Some(locked),
        locked.rev is Some || locked.nar_hash is Some,
    ensures
        exists|g: int, p: int|
            0 <= g < groups.len() && groups[g].identity@ == identity_in(original)->0 && 0 <= p
                < groups[g].pins@.len() && comes_from(
                locks,
                l,
                n,
                groups[g].identity@,
                #[trigger] groups[g].pins@[p]@,
            ),
{
    let id = identity_in(original)->0;
    let entries = lock_entries(locks);
    lemma_lock_origins(locks);
    lemma_pin_origins(entries, id);
    assert(entry_at(locks, l, n) is Some);
    assert(is_node(locks, l, n));
    let e = choose|e: int| 0 <= e < lock_origins(locks).len() && lock_origins(locks)[e] == (l, n);
    assert(entries[e].0 == id);
    assert(has_group(groups, id));
    let g = choose|g: int| 0 <= g < groups.len() && (#[trigger] groups[g]).identity@ == id;
    let p = choose|p: int|
        0 <= p < pin_origins(entries, id).len() && pin_origins(entries, id)[p] == e;
    assert(pin_views(groups[g].pins@)[p] == groups[g].pins@[p]@);
    lemma_comes_from(locks, l, n, id, groups[g].pins@[p]@);
}

/// No identity has two groups.
pub proof fn law_an_identity_has_one_group(groups: Seq<Group>, i: int, j: int, entries: Seq<
    (IdentityView, PinView),
>)
    requires
        groups_of(groups, entries),
        0 <= i < groups.len(),
        0 <= j < groups.len(),
        groups[i].identity@ == groups[j].identity@,
    ensures
        i == j,
{
    lemma_identity_total(groups[i].identity@, groups[i].identity@);
    if i < j {
        assert(identity_lt(groups[i].identity@, groups[j].identity@));
    } else if j < i {
        assert(identity_lt(groups[j].identity@, groups[i].identity@));
    }
}

proof fn lemma_errors(locks: Seq<(String, Result<LockFile, String>)>, l: int)
    requires
        0 <= l < locks.len(),
    ensures
        locks[l].1 matches Err(e) ==> lock_errors(locks).contains((locks[l].0@, e@)),
    decreases locks.len(),
{
    if l < locks.len() - 1 {
        let head = locks.drop_last();
        lemma_errors(head, l);
        if let Err(e) = locks[l].1 {
            let some = lock_errors(head);
            let k = choose|k: int| 0 <= k < some.len() && some[k] == (locks[l].0@, e@);
            assert(lock_errors(locks)[k] == some[k]);
        }
    } else if let Err(e) = locks[l].1 {
        let all = lock_errors(locks);
        assert(all[all.len() - 1] == (locks[l].0@, e@));
    }
}

/// A lockfile that could not be read is reported with the reason, and contributes no
/// pin; one that could be read is never reported.
pub proof fn law_a_broken_lockfile_is_reported(
    locks: Seq<(String, Result<LockFile, String>)>,
    l: int,
    k: int,
)
    requires
        0 <= l < locks.len(),
        0 <= k < lock_errors(locks).len(),
    ensures
        locks[l].1 matches Err(e) ==> lock_errors(locks).contains((locks[l].0@, e@)),
        exists|m: int|
            0 <= m < locks.len() && ((#[trigger] locks[m]).1 matches Err(e) && lock_errors(
                locks,
            )[k] == (locks[m].0@, e@)),
    decreases locks.len(),
{
    lemma_errors(locks, l);
    let head = locks.drop_last();
    if k < lock_errors(head).len() {
        law_a_broken_lockfile_is_reported(head, 0, k);
        let m = choose|m: int|
            0 <= m < head.len() && ((#[trigger] head[m]).1 matches Err(e) && lock_errors(head)[k]
                == (head[m].0@, e@));
        assert(locks[m] == head[m]);
    } else {
        assert(locks[locks.len() - 1] == locks.last());
    }
}

} // verus!
