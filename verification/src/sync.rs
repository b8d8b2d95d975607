//! Applying a chosen version to the projects that diverge from it.
//!
//! Lockfiles are never edited by hand. Rewriting `rev` in place would leave the
//! `narHash` and `lastModified` inconsistent with it, producing a lockfile Nix
//! rejects or, worse, silently mistrusts. Instead `nix flake update
//! --override-input` is driven, which re-resolves the input properly.
use crate::command;
use crate::command::{Invocation, Ran};
use crate::lock::{Group, Identity, IdentityView, Pin};
use crate::nix_edit;
use crate::paths;
use crate::text;
use vstd::prelude::*;

verus! {

/// A single project-level edit: point `input_name` at `target_version`.
#[derive(Debug)]
pub struct Action {
    pub project: String,
    pub input_name: String,
    pub identity: Identity,
    /// Retained for diagnostics.
    pub from_version: String,
    pub target_version: String,
    /// The declared ref this input is being moved *off*, when merging.
    ///
    /// `Some` means the project's `flake.nix` currently declares a different
    /// flakeref than `identity`, and must be rewritten before the lockfile can be
    /// resolved against the merged ref. `None` is a plain revision sync, which
    /// never touches `flake.nix`.
    pub from_identity: Option<Identity>,
}

/// What an [`Action`] says.
pub struct ActionView {
    pub project: Seq<char>,
    pub input_name: Seq<char>,
    pub identity: IdentityView,
    pub from_version: Seq<char>,
    pub target_version: Seq<char>,
    pub from_identity: Option<IdentityView>,
}

impl View for Action {
    type V = ActionView;

    open spec fn view(&self) -> ActionView {
        ActionView {
            project: self.project@,
            input_name: self.input_name@,
            identity: self.identity@,
            from_version: self.from_version@,
            target_version: self.target_version@,
            from_identity: match self.from_identity {
                Some(id) => Some(id@),
                None => None,
            },
        }
    }
}

impl Clone for Action {
    fn clone(&self) -> (r: Self)
        ensures
            r == *self,
    {
        Action {
            project: self.project.clone(),
            input_name: self.input_name.clone(),
            identity: self.identity.clone(),
            from_version: self.from_version.clone(),
            target_version: self.target_version.clone(),
            from_identity: match &self.from_identity {
                Some(id) => Some(id.clone()),
                None => None,
            },
        }
    }
}

impl Action {
    /// Whether this action rewrites `flake.nix` as well as the lockfile.
    pub fn changes_ref(&self) -> (r: bool)
        ensures
            r == (self@.from_identity is Some),
    {
        self.from_identity.is_some()
    }

    /// The url this action would write into `flake.nix`, if any.
    pub fn target_url(&self) -> (r: Option<String>)
        ensures
            text::view_of(r) == self@.url_to_write(),
    {
        if self.changes_ref() {
            Some(self.identity.url())
        } else {
            None
        }
    }
}

impl ActionView {
    /// The url this action would write into `flake.nix`, if any.
    pub open spec fn url_to_write(self) -> Option<Seq<char>> {
        if self.from_identity is Some {
            Some(self.identity.url_text())
        } else {
            None
        }
    }
}

/// The action that brings `pin` to `target` of `identity`, off `from` when that is
/// not what the project declares.
pub open spec fn action_on(
    pin: Pin,
    identity: IdentityView,
    target: Seq<char>,
    from: Option<IdentityView>,
) -> ActionView {
    ActionView {
        project: pin.project@,
        input_name: pin.outside_name(),
        identity,
        from_version: pin.version@,
        target_version: target,
        from_identity: from,
    }
}

/// The action bringing one pin to `target_version`.
///
/// Callers decide which pins are eligible: only direct inputs can be reached by
/// `--override-input`, and only rooted projects free anything by moving.
pub fn action_for(group: &Group, pin: &Pin, target_version: &str) -> (r: Action)
    ensures
        r@ == action_on(*pin, group.identity@, target_version@, None),
{
    Action {
        project: pin.project.clone(),
        input_name: pin.declared_name().to_owned(),
        identity: group.identity.clone(),
        from_version: pin.version.clone(),
        target_version: target_version.to_owned(),
        from_identity: None,
    }
}

/// The action moving one pin onto a merged identity's ref *and* revision.
pub fn merge_action_for(
    canonical: &Identity,
    from: &Identity,
    pin: &Pin,
    target_version: &str,
) -> (r: Action)
    ensures
        r@ == action_on(*pin, canonical@, target_version@, Some(from@)),
{
    Action {
        project: pin.project.clone(),
        input_name: pin.declared_name().to_owned(),
        identity: canonical.clone(),
        from_version: pin.version.clone(),
        target_version: target_version.to_owned(),
        from_identity: Some(from.clone()),
    }
}

/// The flakeref pinning `identity` at an exact revision.
pub open spec fn pinned(identity: IdentityView, version: Seq<char>) -> Seq<char> {
    if identity.owner.len() == 0 {
        identity.repo + "?rev="@ + version
    } else {
        identity.kind + ":"@ + identity.owner + "/"@ + identity.repo + "/"@ + version
    }
}

/// The flakeref pinning `identity` at an exact revision.
pub fn pinned_flakeref(identity: &Identity, version: &str) -> (r: String)
    ensures
        r@ == pinned(identity@, version@),
{
    if identity.owner.as_str().is_empty() {
        text::cat3(identity.repo.as_str(), "?rev=", version)
    } else {
        let base = text::cat5(
            identity.kind.as_str(),
            ":",
            identity.owner.as_str(),
            "/",
            identity.repo.as_str(),
        );
        text::cat3(base.as_str(), "/", version)
    }
}

/// A pinned flakeref names the revision, and nothing but the repository and the
/// revision: it ends with the revision, two revisions are never named alike, and which
/// ref the repository is tracked by makes no difference to it.
pub proof fn law_a_pinned_flakeref_names_the_revision(
    a: IdentityView,
    b: IdentityView,
    v: Seq<char>,
    w: Seq<char>,
)
    requires
        a.kind == b.kind,
        a.owner == b.owner,
        a.repo == b.repo,
    ensures
        pinned(a, v) == pinned(b, v),
        text::ends(pinned(a, v), v),
        pinned(a, v) == pinned(a, w) <==> v == w,
{
    let x = pinned(a, v);
    let y = pinned(a, w);
    assert(x.subrange(x.len() - v.len(), x.len() as int) == v);
    assert(y.subrange(y.len() - w.len(), y.len() as int) == w);
}

/// A pinned flakeref reads as Nix reads one: kind, colon, owner, slash, repository,
/// slash, revision, one after the other; or, for a repository that is known by its url,
/// that url with the revision as its `rev` parameter.
pub proof fn law_a_pinned_flakeref_reads_as_nix_does(id: IdentityView, v: Seq<char>)
    ensures
        ({
            let x = pinned(id, v);
            let k = id.kind.len() as int;
            let o = k + 1 + id.owner.len();
            let r = o + 1 + id.repo.len();
            if id.owner.len() > 0 {
                &&& x.len() == r + 1 + v.len()
                &&& x.take(k) == id.kind
                &&& x[k] == ':'
                &&& x.subrange(k + 1, o) == id.owner
                &&& x[o] == '/'
                &&& x.subrange(o + 1, r) == id.repo
                &&& x[r] == '/'
                &&& x.skip(r + 1) == v
            } else {
                let n = id.repo.len() as int;
                &&& x.take(n) == id.repo
                &&& x.subrange(n, n + 5) == seq!['?', 'r', 'e', 'v', '=']
                &&& x.skip(n + 5) == v
            }
        }),
{
    reveal_strlit(":");
    reveal_strlit("/");
    reveal_strlit("?rev=");
    let x = pinned(id, v);
    let k = id.kind.len() as int;
    let o = k + 1 + id.owner.len();
    let r = o + 1 + id.repo.len();
    let n = id.repo.len() as int;
    if id.owner.len() > 0 {
        assert(x.take(k) =~= id.kind);
        assert(x.subrange(k + 1, o) =~= id.owner);
        assert(x.subrange(o + 1, r) =~= id.repo);
        assert(x.skip(r + 1) =~= v);
    } else {
        assert(x.take(n) =~= id.repo);
        assert(x.subrange(n, n + 5) =~= seq!['?', 'r', 'e', 'v', '=']);
        assert(x.skip(n + 5) =~= v);
    }
}

/// How the rewrite of `flake.nix` is described, for an action that makes one.
pub open spec fn edit_line(a: ActionView) -> Seq<char> {
    "edit "@ + nix_edit::flake_nix(a.project) + ": inputs."@ + a.input_name + ".url = \""@
        + a.identity.url_text() + "\""@
}

/// How the update of the lockfile is described.
pub open spec fn update_line(a: ActionView) -> Seq<char> {
    "nix flake update "@ + a.input_name + " --override-input "@ + a.input_name + " "@ + pinned(
        a.identity,
        a.target_version,
    ) + " (in "@ + a.project + ")"@
}

/// The steps an action would perform, as they are described.
pub open spec fn step_lines(a: ActionView) -> Seq<Seq<char>> {
    if a.from_identity is Some {
        seq![edit_line(a), update_line(a)]
    } else {
        seq![update_line(a)]
    }
}

/// The steps an action would perform, for display in the dry-run view.
///
/// A merge is two steps, and showing only the second would understate what is
/// about to happen: the `flake.nix` rewrite is the part that edits a file the user
/// maintains by hand.
pub fn command_lines(action: &Action) -> (r: Vec<String>)
    ensures
        text::texts(r@) == step_lines(action@),
{
    let mut steps: Vec<String> = Vec::new();
    if let Some(url) = action.target_url() {
        let path = nix_edit::flake_nix_path(action.project.as_str());
        let mut line = text::cat5(
            "edit ",
            path.as_str(),
            ": inputs.",
            action.input_name.as_str(),
            ".url = \"",
        );
        line.append(url.as_str());
        line.append("\"");
        assert(line@ == edit_line(action@));
        steps.push(line);
    }
    let target = pinned_flakeref(&action.identity, action.target_version.as_str());
    let mut line = text::cat5(
        "nix flake update ",
        action.input_name.as_str(),
        " --override-input ",
        action.input_name.as_str(),
        " ",
    );
    line.append(target.as_str());
    line.append(" (in ");
    line.append(action.project.as_str());
    line.append(")");
    assert(line@ == update_line(action@));
    steps.push(line);
    assert(text::texts(steps@) == step_lines(action@));
    steps
}

/// The arguments `nix` is run with to perform an action.
pub open spec fn update_args(a: ActionView) -> Seq<Seq<char>> {
    seq![
        "flake"@,
        "update"@,
        a.input_name,
        "--override-input"@,
        a.input_name,
        pinned(a.identity, a.target_version),
    ]
}

/// The command that performs one action, or why it cannot be run: there is no
/// `flake.nix` to update.
///
/// Actions only ever name direct inputs — transitive ones are filtered out before
/// planning, since `--override-input` cannot reach them. When the action changes
/// the declared ref, the edit must already have been applied: the lockfile is
/// resolved against whatever `flake.nix` says, so the file has to be correct
/// before this runs.
pub fn apply(action: &Action, has_flake: bool) -> (r: Result<Invocation, String>)
    ensures
        match r {
            Ok(run) => has_flake && run.program@ == "nix"@ && text::texts(run.args@)
                == update_args(action@) && run.dir@ == action.project@,
            Err(e) => !has_flake && e@ == "no flake.nix in "@ + action.project@,
        },
{
    if !has_flake {
        return Err(text::cat2("no flake.nix in ", action.project.as_str()));
    }
    let target = pinned_flakeref(&action.identity, action.target_version.as_str());
    let args = command::owned_list(
        &[
            "flake",
            "update",
            action.input_name.as_str(),
            "--override-input",
            action.input_name.as_str(),
            target.as_str(),
        ],
    );
    assert(text::texts(args@) == update_args(action@));
    Ok(Invocation { program: "nix".to_owned(), args, dir: action.project.clone() })
}

/// What is run brings the input that the action is about, and no other, to the revision
/// it is to have: both times the input is named it is by the action's name for it, and
/// the last argument ends with the target.
pub proof fn law_an_update_overrides_its_own_input(a: ActionView)
    ensures
        update_args(a).len() == 6,
        update_args(a)[0] == "flake"@,
        update_args(a)[1] == "update"@,
        update_args(a)[2] == a.input_name,
        update_args(a)[3] == "--override-input"@,
        update_args(a)[4] == a.input_name,
        text::ends(update_args(a)[5], a.target_version),
        a.identity.owner.len() > 0 ==> update_args(a)[5] == a.identity.kind + seq![':']
            + a.identity.owner + seq!['/'] + a.identity.repo + seq!['/'] + a.target_version,
{
    reveal_strlit(":");
    reveal_strlit("/");
    law_a_pinned_flakeref_names_the_revision(
        a.identity,
        a.identity,
        a.target_version,
        a.target_version,
    );
    assert(":"@ =~= seq![':']);
    assert("/"@ =~= seq!['/']);
}

/// What the dry run describes is what is run: the line for the update holds the very
/// flakeref that the input is overridden with, and the line for the edit is there just
/// when a `flake.nix` is rewritten, and holds the url that is written.
pub proof fn law_the_description_is_what_is_run(a: ActionView)
    ensures
        step_lines(a).len() == if a.url_to_write() is Some {
            2nat
        } else {
            1
        },
        text::has(step_lines(a).last(), update_args(a)[5]),
        text::has(step_lines(a).last(), a.project),
        a.url_to_write() matches Some(url) ==> text::has(step_lines(a)[0], url) && text::has(
            step_lines(a)[0],
            nix_edit::flake_nix(a.project),
        ),
{
    let x = "nix flake update "@ + a.input_name + " --override-input "@ + a.input_name + " "@;
    let target = update_args(a)[5];
    let line = update_line(a);
    assert(line.subrange(x.len() as int, (x.len() + target.len()) as int) =~= target);
    assert(text::occurs_at(line, target, x.len() as int));
    let y = x + target + " (in "@;
    assert(line.subrange(y.len() as int, (y.len() + a.project.len()) as int) =~= a.project);
    assert(text::occurs_at(line, a.project, y.len() as int));
    if let Some(url) = a.url_to_write() {
        let edit = edit_line(a);
        let file = nix_edit::flake_nix(a.project);
        let head = "edit "@ + file + ": inputs."@ + a.input_name + ".url = \""@;
        assert(edit.subrange(head.len() as int, (head.len() + url.len()) as int) =~= url);
        assert(text::occurs_at(edit, url, head.len() as int));
        assert(edit.subrange("edit "@.len() as int, ("edit "@.len() + file.len()) as int) =~= file);
        assert(text::occurs_at(edit, file, "edit "@.len() as int));
    }
}

/// How an action went, given how its command ran. A failure is a genuine Nix error
/// and is surfaced verbatim.
pub fn applied(action: &Action, ran: &Ran) -> (r: Result<(), String>)
    ensures
        match (*ran, r) {
            (Ran::Succeeded, Ok(_)) => true,
            (Ran::NotStarted, Err(e)) => e@ == "running nix flake update in "@ + action.project@,
            (Ran::Failed { stderr }, Err(e)) => e@ == "nix flake update failed in "@
                + action.project@ + ": "@ + text::trim(stderr@),
            _ => false,
        },
{
    match ran {
        Ran::Succeeded => Ok(()),
        Ran::NotStarted => Err(
            text::cat2("running nix flake update in ", action.project.as_str()),
        ),
        Ran::Failed { stderr } => {
            let why = text::trimmed(stderr.as_str());
            Err(
                text::cat4(
                    "nix flake update failed in ",
                    action.project.as_str(),
                    ": ",
                    why.as_str(),
                ),
            )
        },
    }
}

/// The directory that holds a project's direnv flake-input roots.
pub open spec fn roots_dir(project: Seq<char>) -> Seq<char> {
    paths::below(paths::below(project, ".direnv"@), "flake-inputs"@)
}

/// The directory that holds a project's direnv flake-input roots.
pub fn direnv_roots_dir(project: &str) -> (r: String)
    ensures
        r@ == roots_dir(project@),
{
    let dir = paths::join(project, ".direnv");
    paths::join(dir.as_str(), "flake-inputs")
}

/// What is dropped of a project is what retains its store paths: every link in the
/// directory that is emptied counts as a root of that project.
pub proof fn law_what_is_dropped_is_what_retains(project: Seq<char>, link: Seq<char>)
    requires
        project.len() > 0,
        project.last() != '/',
        forall|k: int|
            0 <= k < project.len() ==> !#[trigger] text::occurs_at(
                paths::below(roots_dir(project), link),
                "/.direnv/"@,
                k,
            ),
    ensures
        crate::store::project_in(paths::below(roots_dir(project), link)) == Some(project),
{
    reveal_strlit("/.direnv/");
    reveal_strlit(".direnv");
    reveal_strlit("flake-inputs");
    reveal_strlit("flake-inputs/");
    let rest = "flake-inputs/"@ + link;
    let root = paths::below(roots_dir(project), link);
    assert(paths::below(project, ".direnv"@) =~= project + "/.direnv"@) by {
        reveal_strlit("/.direnv");
    }
    assert(roots_dir(project) =~= project + "/.direnv/"@ + "flake-inputs"@) by {
        reveal_strlit("/.direnv");
    }
    assert(root =~= project + "/.direnv/"@ + rest);
    assert(rest.subrange(0, 13) =~= "flake-inputs/"@);
    assert(text::occurs_at(rest, "flake-inputs/"@, 0));
    crate::store::law_a_direnv_root_belongs_to_its_project(project, rest);
}

/// What became of the files in a project's direnv roots directory.
#[derive(Debug, PartialEq, Eq)]
pub enum Removal {
    /// There is no such directory.
    Absent,
    /// It could not be listed.
    Unreadable,
    /// Each entry was tried, and this says of each whether it is gone.
    Tried(Vec<bool>),
}

/// How many of a project's stale direnv flake-input roots were removed.
///
/// This is what actually frees disk space. Removing one only unlinks the GC root
/// symlink; the store path itself is removed by the next `nix store gc`.
pub fn drop_direnv_roots(project: &str, removal: &Removal) -> (r: Result<usize, String>)
    ensures
        match (*removal, r) {
            (Removal::Absent, Ok(n)) => n == 0,
            (Removal::Unreadable, Err(e)) => e@ == "reading "@ + roots_dir(project@),
            (Removal::Tried(gone), Ok(n)) => n == gone@.filter(|g: bool| g).len(),
            _ => false,
        },
{
    match removal {
        Removal::Absent => Ok(0),
        Removal::Unreadable => {
            let dir = direnv_roots_dir(project);
            Err(text::cat2("reading ", dir.as_str()))
        },
        Removal::Tried(gone) => {
            let ghost keep = |g: bool| g;
            let mut n: usize = 0;
            let mut i: usize = 0;
            assert(gone@.take(0).filter(keep).len() == 0) by {
                reveal(Seq::filter);
            }
            while i < gone.len()
                invariant
                    n <= i <= gone.len(),
                    keep == (|g: bool| g),
                    n == gone@.take(i as int).filter(keep).len(),
                decreases gone.len() - i,
            {
                proof {
                    reveal(Seq::filter);
                    assert(gone@.take(i + 1).drop_last() == gone@.take(i as int));
                }
                if gone[i] {
                    n += 1;
                }
                i += 1;
            }
            assert(gone@.take(i as int) == gone@);
            Ok(n)
        },
    }
}

} // verus!
