//! Which flake projects are looked at, and the config that drives it.
use crate::command;
use crate::keyed::{ByPath, KeyOrder, PathSet};
use crate::lock;
use crate::order;
use crate::paths;
use crate::text;
use vstd::prelude::*;

verus! {

/// What the user can configure.
#[derive(Debug)]
pub struct Config {
    /// Directories to scan for `flake.lock` files.
    pub roots: Vec<String>,
    /// How deep below each root to descend.
    pub max_depth: usize,
    /// Paths to skip. An entry matches a project when it is equal to, or a parent
    /// of, the project directory — so listing a directory ignores everything beneath
    /// it.
    ///
    /// Relative entries are matched against the tail of the project path or of one
    /// of its ancestors, which makes `talks/nix-scala-folks` work without spelling
    /// out `$HOME`.
    pub ignore: Vec<String>,
    /// Command that renders a unified diff, receiving it on stdin.
    ///
    /// Every `flake.nix` edit is shown as a diff before and after it is applied, so
    /// nothing changes on disk that the user has not seen. `delta` is the default;
    /// anything reading a diff from stdin works, and an empty list falls back to
    /// plain built-in output.
    pub differ: Vec<String>,
    /// Command used to open a file for manual editing, with the path appended.
    ///
    /// Used for the flakes that are not rewritten automatically: rather than guess
    /// at an unfamiliar `inputs` layout, the file is handed over.
    pub editor: Vec<String>,
}

/// How deep below each root to descend, unless configured otherwise.
pub fn default_depth() -> (r: usize)
    ensures
        r == 4,
{
    4
}

/// The differ that is used unless another is configured.
pub open spec fn usual_differ() -> Seq<Seq<char>> {
    seq!["delta"@, "--paging=never"@, "--color-only"@]
}

/// `delta`, configured for capture rather than for a terminal it owns.
///
/// `--paging=never` stops it blocking on a pager, and `--color-only` keeps it from
/// drawing file headers and box-drawing rules that assume a full-width terminal —
/// the TUI supplies its own framing and re-colours each line from its diff marker,
/// so what is wanted here is the diff text, not delta's chrome.
pub fn default_differ() -> (r: Vec<String>)
    ensures
        text::texts(r@) == usual_differ(),
{
    let r = command::owned_list(&["delta", "--paging=never", "--color-only"]);
    assert(text::texts(r@) == usual_differ());
    r
}

/// The editor that is used unless another is configured.
pub open spec fn usual_editor() -> Seq<Seq<char>> {
    seq!["nvim"@]
}

/// The editor that is used unless another is configured.
pub fn default_editor() -> (r: Vec<String>)
    ensures
        text::texts(r@) == usual_editor(),
{
    let r = command::owned_list(&["nvim"]);
    assert(text::texts(r@) == usual_editor());
    r
}

/// The editor the environment asks for: `VISUAL` where it is set, `EDITOR` where it
/// is not. A blank one asks for nothing.
pub open spec fn asked_editor(visual: Option<String>, editor: Option<String>) -> Option<
    Seq<Seq<char>>,
> {
    let asked = if visual is Some {
        visual
    } else {
        editor
    };
    match asked {
        Some(s) => if text::trim(s@).len() > 0 {
            Some(text::words(s@))
        } else {
            None
        },
        None => None,
    }
}

/// Whether two lists hold the same texts.
pub fn same_texts(a: &Vec<String>, b: &Vec<String>) -> (r: bool)
    ensures
        r == (text::texts(a@) == text::texts(b@)),
{
    let ghost x = text::texts(a@);
    let ghost y = text::texts(b@);
    if a.len() != b.len() {
        assert(x.len() != y.len());
        return false;
    }
    let mut i: usize = 0;
    while i < a.len()
        invariant
            i <= a.len(),
            a.len() == b.len(),
            x == text::texts(a@),
            y == text::texts(b@),
            forall|j: int| 0 <= j < i ==> x[j] == y[j],
        decreases a.len() - i,
    {
        if a[i] != b[i] {
            assert(x[i as int] != y[i as int]);
            return false;
        }
        i += 1;
    }
    assert(x == y);
    true
}

impl Config {
    /// The configuration of someone who has not written one: the places below their
    /// home directory where projects usually live.
    pub fn default_for(home: Option<String>) -> (r: Self)
        ensures
            text::texts(r.roots@) == match home {
                Some(h) => seq![
                    paths::below(h@, "dev"@),
                    paths::below(h@, "projects"@),
                    paths::below(h@, ".nixpkgs"@),
                ],
                None => Seq::empty(),
            },
            r.max_depth == 4,
            r.ignore@.len() == 0,
            text::texts(r.differ@) == usual_differ(),
            text::texts(r.editor@) == usual_editor(),
    {
        let mut roots: Vec<String> = Vec::new();
        if let Some(h) = &home {
            roots.push(paths::join(h.as_str(), "dev"));
            roots.push(paths::join(h.as_str(), "projects"));
            roots.push(paths::join(h.as_str(), ".nixpkgs"));
            assert(text::texts(roots@) == seq![
                paths::below(h@, "dev"@),
                paths::below(h@, "projects"@),
                paths::below(h@, ".nixpkgs"@),
            ]);
        } else {
            assert(text::texts(roots@) == Seq::<Seq<char>>::empty());
        }
        Config {
            roots,
            max_depth: default_depth(),
            ignore: Vec::new(),
            differ: default_differ(),
            editor: default_editor(),
        }
    }

    /// The words that start the editor.
    pub open spec fn editor_words(self, visual: Option<String>, editor: Option<String>) -> Seq<
        Seq<char>,
    > {
        if text::texts(self.editor@) != usual_editor() {
            text::texts(self.editor@)
        } else {
            match asked_editor(visual, editor) {
                Some(asked) => asked,
                None => usual_editor(),
            }
        }
    }

    /// The editor to use, preferring `$VISUAL`/`$EDITOR` when the config still holds
    /// the default — an explicitly configured editor always wins.
    pub fn editor_command(&self, visual: &Option<String>, editor: &Option<String>) -> (r: Vec<
        String,
    >)
        ensures
            text::texts(r@) == self.editor_words(*visual, *editor),
    {
        let usual = default_editor();
        if !same_texts(&self.editor, &usual) {
            return text::copy_texts(&self.editor);
        }
        let asked = match visual {
            Some(s) => Some(s),
            None => match editor {
                Some(s) => Some(s),
                None => None,
            },
        };
        match asked {
            Some(s) => {
                let bare = text::trimmed(s.as_str());
                if bare.as_str().is_empty() {
                    usual
                } else {
                    text::words_of(s.as_str())
                }
            },
            None => usual,
        }
    }
}

/// Whether the entry `pattern` covers `project`: an absolute one when it is the
/// project or one of its ancestors; a relative one when the path of the project, or
/// of an ancestor, ends with it. Whole components are compared, so that `talks` does
/// not cover `talks-archive`.
pub open spec fn covers(pattern: Seq<char>, project: Seq<char>) -> bool {
    let whole = paths::components(project);
    let part = paths::components(pattern);
    if paths::is_absolute(pattern) {
        paths::stands_at(whole, part, 0)
    } else {
        exists|i: int| paths::stands_at(whole, part, i)
    }
}

fn pattern_covers(pattern: &str, project: &str) -> (r: bool)
    ensures
        r == covers(pattern@, project@),
{
    let whole = paths::components_of(project);
    let part = paths::components_of(pattern);
    let ghost x = text::texts(whole@);
    let ghost y = text::texts(part@);
    assert(x.len() == whole.len());
    let chars = text::to_chars(pattern);
    if chars.len() > 0 && chars[0] == '/' {
        return paths::components_at(&whole, &part, 0);
    }
    let n: usize = whole.len();
    let mut i: usize = 0;
    while i < n
        invariant
            i <= n,
            n == whole.len(),
            x == text::texts(whole@),
            y == text::texts(part@),
            x == paths::components(project@),
            y == paths::components(pattern@),
            !paths::is_absolute(pattern@),
            forall|j: int| 0 <= j < i ==> !paths::stands_at(x, y, j),
        decreases n - i,
    {
        if paths::components_at(&whole, &part, i) {
            assert(paths::stands_at(x, y, i as int));
            return true;
        }
        i += 1;
    }
    let last = paths::components_at(&whole, &part, n);
    assert(last ==> paths::stands_at(x, y, n as int));
    last
}

/// Whether `project` is excluded by any `ignore` entry.
pub open spec fn ignored(project: Seq<char>, ignore: Seq<String>) -> bool {
    exists|i: int| 0 <= i < ignore.len() && covers((#[trigger] ignore[i])@, project)
}

/// Whether `project` is excluded by any `ignore` entry.
pub fn is_ignored(project: &str, ignore: &Vec<String>) -> (r: bool)
    ensures
        r == ignored(project@, ignore@),
{
    let mut i: usize = 0;
    while i < ignore.len()
        invariant
            i <= ignore.len(),
            forall|j: int| 0 <= j < i ==> !covers((#[trigger] ignore@[j])@, project@),
        decreases ignore.len() - i,
    {
        if pattern_covers(ignore[i].as_str(), project) {
            assert(covers(ignore@[i as int]@, project@));
            return true;
        }
        i += 1;
    }
    false
}

/// Listing a directory ignores everything beneath it: what an entry covers, it
/// covers with every component sequence that continues it.
pub proof fn law_ignoring_covers_descendants(
    pattern: Seq<char>,
    project: Seq<char>,
    deeper: Seq<char>,
)
    requires
        covers(pattern, project),
        paths::components(project).is_prefix_of(paths::components(deeper)),
    ensures
        covers(pattern, deeper),
{
    let whole = paths::components(project);
    let more = paths::components(deeper);
    let part = paths::components(pattern);
    let i = if paths::is_absolute(pattern) {
        0
    } else {
        choose|i: int| paths::stands_at(whole, part, i)
    };
    assert(paths::stands_at(whole, part, i));
    assert(more.subrange(i, i + part.len()) =~= whole.subrange(i, i + part.len())) by {
        assert forall|k: int| 0 <= k < whole.len() implies whole[k] == more[k] by {
            assert(whole == more.subrange(0, whole.len() as int));
        }
    }
    assert(paths::stands_at(more, part, i));
}

/// A project is always covered by its own path.
pub proof fn law_a_path_ignores_itself(project: Seq<char>)
    ensures
        covers(project, project),
{
    let c = paths::components(project);
    assert(c.subrange(0, c.len() as int) =~= c);
    assert(paths::stands_at(c, c, 0));
}

/// Whether the walk stays out of a directory of this name.
///
/// `.git` and `.direnv` are skipped: the latter contains materialized copies of
/// flake inputs, whose own lockfiles are not projects the user maintains and would
/// badly skew the divergence counts.
pub fn is_skipped(name: &str) -> (r: bool)
    ensures
        r == (name@ == ".git"@ || name@ == ".direnv"@ || name@ == "result"@),
{
    text::same(name, ".git") || text::same(name, ".direnv") || text::same(name, "result")
}

/// Whether a file of this name is a lockfile.
pub fn is_lockfile(name: &str) -> (r: bool)
    ensures
        r == (name@ == "flake.lock"@),
{
    text::same(name, "flake.lock")
}

/// Those of the lockfiles found whose project is not ignored.
pub open spec fn wanted(found: Seq<String>, ignore: Seq<String>) -> Seq<Seq<char>>
    decreases found.len(),
{
    if found.len() == 0 {
        Seq::empty()
    } else {
        let head = wanted(found.drop_last(), ignore);
        if ignored(lock::project_of(found.last()@), ignore) {
            head
        } else {
            head.push(found.last()@)
        }
    }
}

/// The lockfiles to work with, given those found under the configured roots: not
/// those of ignored projects, each once, in ascending order.
pub fn find_lockfiles(cfg: &Config, found: &Vec<String>) -> (r: Vec<String>)
    ensures
        text::texts(r@) == order::added_all(
            Seq::empty(),
            wanted(found@, cfg.ignore@),
            ByPath::rel(),
        ),
{
    let mut out = PathSet::new();
    let mut i: usize = 0;
    while i < found.len()
        invariant
            i <= found.len(),
            out@ == order::added_all(
                Seq::empty(),
                wanted(found@.take(i as int), cfg.ignore@),
                ByPath::rel(),
            ),
        decreases found.len() - i,
    {
        assert(found@.take(i + 1).drop_last() == found@.take(i as int));
        let project = match paths::parent_of(found[i].as_str()) {
            Some(dir) => dir,
            None => found[i].clone(),
        };
        if !is_ignored(project.as_str(), &cfg.ignore) {
            let ghost head = wanted(found@.take(i as int), cfg.ignore@);
            assert(head.push(found@[i as int]@).drop_last() == head);
            out.insert(found[i].clone());
        }
        i += 1;
    }
    assert(found@.take(i as int) == found@);
    out.to_vec()
}

// ---------------------------------------------------------------------------
// What holds of the scan
// ---------------------------------------------------------------------------

/// A bare name ignores every project that is called so or lies below a directory that
/// is, and no other.
pub proof fn law_a_name_ignores_what_is_called_so(name: Seq<char>, project: Seq<char>)
    requires
        paths::is_piece(name),
    ensures
        covers(name, project) <==> paths::components(project).contains(name),
{
    let whole = paths::components(project);
    let part = seq![name];
    paths::law_components_are_read_back(part);
    assert(text::joined(part, seq!['/']) == name);
    assert(paths::components(name) == part);
    assert(name.contains(name[0]));
    if covers(name, project) {
        let i = choose|i: int| paths::stands_at(whole, part, i);
        assert(whole.subrange(i, i + 1)[0] == whole[i]);
        assert(part[0] == name);
    }
    if whole.contains(name) {
        let i = choose|i: int| 0 <= i < whole.len() && whole[i] == name;
        assert(whole.subrange(i, i + 1) =~= part);
        assert(paths::stands_at(whole, part, i));
    }
}

/// A path from the root ignores what it leads to and all below it, and nothing else.
pub proof fn law_a_path_ignores_what_lies_below_it(pattern: Seq<char>, project: Seq<char>)
    requires
        paths::is_absolute(pattern),
    ensures
        covers(pattern, project) <==> {
            let part = paths::components(pattern);
            let whole = paths::components(project);
            &&& part.len() <= whole.len()
            &&& forall|i: int| 0 <= i < part.len() ==> #[trigger] part[i] == whole[i]
        },
{
    let part = paths::components(pattern);
    let whole = paths::components(project);
    if covers(pattern, project) {
        assert forall|i: int| 0 <= i < part.len() implies #[trigger] part[i] == whole[i] by {
            assert(whole.subrange(0, part.len() as int)[i] == whole[i]);
        }
    }
    if part.len() <= whole.len() && forall|i: int|
        0 <= i < part.len() ==> #[trigger] part[i] == whole[i] {
        assert(whole.subrange(0, part.len() as int) =~= part);
    }
}

/// Worked with are the lockfiles that were found, but for those in an ignored directory.
pub proof fn law_every_lockfile_is_wanted_unless_ignored(
    found: Seq<String>,
    ignore: Seq<String>,
    path: Seq<char>,
)
    ensures
        wanted(found, ignore).contains(path) <==> (exists|i: int|
            0 <= i < found.len() && (#[trigger] found[i])@ == path) && match paths::parent(path) {
            Some(dir) => !ignored(dir, ignore),
            None => !ignored(path, ignore),
        },
    decreases found.len(),
{
    if found.len() > 0 {
        let head = found.drop_last();
        let n = head.len() as int;
        law_every_lockfile_is_wanted_unless_ignored(head, ignore, path);
        let a = wanted(head, ignore);
        let b = wanted(found, ignore);
        assert(found[n] == found.last());
        if b.contains(path) {
            let k = choose|k: int| 0 <= k < b.len() && b[k] == path;
            if k < a.len() {
                assert(a[k] == path);
                assert(a.contains(path));
                let i = choose|i: int| 0 <= i < head.len() && (#[trigger] head[i])@ == path;
                assert(found[i] == head[i]);
            }
        }
        if (exists|i: int| 0 <= i < found.len() && (#[trigger] found[i])@ == path) && !ignored(
            lock::project_of(path),
            ignore,
        ) {
            let i = choose|i: int| 0 <= i < found.len() && (#[trigger] found[i])@ == path;
            if i < n {
                assert(head[i] == found[i]);
                let k = choose|k: int| 0 <= k < a.len() && a[k] == path;
                assert(b[k] == path);
            } else {
                assert(b[a.len() as int] == path);
            }
        }
    }
}

/// A configured editor is used whatever the environment says; without one `VISUAL`
/// counts before `EDITOR`, and a blank one counts for nothing.
pub proof fn law_which_editor_is_used(
    cfg: Config,
    visual: Option<String>,
    editor: Option<String>,
)
    ensures
        text::texts(cfg.editor@) != seq!["nvim"@] ==> cfg.editor_words(visual, editor)
            == text::texts(cfg.editor@),
        text::texts(cfg.editor@) == seq!["nvim"@] ==> match (visual, editor) {
            (Some(s), _) => text::trim(s@).len() > 0 ==> cfg.editor_words(visual, editor)
                == text::words(s@),
            (None, Some(s)) => text::trim(s@).len() > 0 ==> cfg.editor_words(visual, editor)
                == text::words(s@),
            (None, None) => cfg.editor_words(visual, editor) == seq!["nvim"@],
        },
{
}

} // verus!
