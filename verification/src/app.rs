//! Application state, independent of rendering.
use crate::diff;
use crate::indices;
use crate::keyed;
use crate::keyed::{ByPath, ByText, KeyOrder, PathMap, PathSet, TextSet};
use crate::lock::{Group, Identity, IdentityView, Pin};
use crate::nix_edit;
use crate::nix_edit::PendingEdit;
use crate::order;
use crate::paths;
use crate::progress;
use crate::progress::TimeSpan;
use crate::scan::Config;
use crate::store;
use crate::store::{RootRow, RootRowView, RootedPath};
use crate::sync;
use crate::sync::{Action, ActionView};
use crate::text;
use std::collections::{BTreeMap, BTreeSet};
use vstd::prelude::*;

verus! {

// ---------------------------------------------------------------------------
// Names
// ---------------------------------------------------------------------------

/// How a project is called: by the last component of its path, or by the whole path
/// where that has none.
pub open spec fn name_of(path: Seq<char>) -> Seq<char> {
    match paths::file_name(path) {
        Some(name) => name,
        None => path,
    }
}

/// Last path component, which is how a project is recognizable at a glance.
pub fn project_name(path: &str) -> (r: String)
    ensures
        r@ == name_of(path@),
{
    match paths::file_name_of(path) {
        Some(name) => name,
        None => path.to_owned(),
    }
}

/// The names of the projects of `pins`, in order, each once.
pub open spec fn names_in(pins: Seq<Pin>) -> Seq<Seq<char>>
    decreases pins.len(),
{
    if pins.len() == 0 {
        Seq::empty()
    } else {
        let head = names_in(pins.drop_last());
        let name = name_of(pins.last().project@);
        if head.contains(name) {
            head
        } else {
            head.push(name)
        }
    }
}

/// One distinct version of the selected group, with every pin holding it.
#[derive(Debug)]
pub struct VersionRow {
    pub version: String,
    pub last_modified: Option<i64>,
    pub pins: Vec<Pin>,
}

/// What a [`VersionRow`] says.
#[verifier::ext_equal]
pub struct VersionRowView {
    pub version: Seq<char>,
    pub last_modified: Option<i64>,
    pub pins: Seq<Pin>,
}

impl View for VersionRow {
    type V = VersionRowView;

    open spec fn view(&self) -> VersionRowView {
        VersionRowView {
            version: self.version@,
            last_modified: self.last_modified,
            pins: self.pins@,
        }
    }
}

fn contains_text(list: &Vec<String>, x: &str) -> (r: bool)
    ensures
        r == text::texts(list@).contains(x@),
{
    let ghost all = text::texts(list@);
    let mut i: usize = 0;
    while i < list.len()
        invariant
            i <= list.len(),
            all == text::texts(list@),
            forall|j: int| 0 <= j < i ==> all[j] != x@,
        decreases list.len() - i,
    {
        if text::same(list[i].as_str(), x) {
            assert(all[i as int] == x@);
            return true;
        }
        i += 1;
    }
    false
}

impl VersionRow {
    /// How many pins hold this version.
    pub fn count(&self) -> (r: usize)
        ensures
            r == self.pins@.len(),
    {
        self.pins.len()
    }

    /// Project basenames, in pin order, deduplicated.
    ///
    /// A single project can pin one identity twice (`nixpkgs` and `nixpkgs_2`), so
    /// this is shorter than `count()` when transitive inputs are involved.
    pub fn project_names(&self) -> (r: Vec<String>)
        ensures
            text::texts(r@) == names_in(self.pins@),
    {
        let mut names: Vec<String> = Vec::new();
        let mut i: usize = 0;
        assert(text::texts(names@) == names_in(self.pins@.take(0)));
        while i < self.pins.len()
            invariant
                i <= self.pins.len(),
                text::texts(names@) == names_in(self.pins@.take(i as int)),
            decreases self.pins.len() - i,
        {
            assert(self.pins@.take(i + 1).drop_last() == self.pins@.take(i as int));
            let name = project_name(self.pins[i].project.as_str());
            let ghost done = names@;
            if !contains_text(&names, name.as_str()) {
                names.push(name);
                assert(text::texts(names@) == text::texts(done).push(name@));
            }
            i += 1;
        }
        assert(self.pins@.take(i as int) == self.pins@);
        names
    }
}

/// The note that `hidden` names are not shown.
pub open spec fn more_text(hidden: nat) -> Seq<char> {
    if hidden == 0 {
        Seq::empty()
    } else {
        ", +"@ + text::dec(hidden) + " more"@
    }
}

/// The first `take` names, and how many more there are.
pub open spec fn names_shown(names: Seq<Seq<char>>, take: int) -> Seq<char> {
    text::joined(names.take(take), ", "@) + more_text((names.len() - take) as nat)
}

/// How many more names there are, where a character and the mark that the name is cut
/// fit beside it; a row has no room for a bare count.
pub open spec fn note_beside(names: Seq<Seq<char>>, width: int) -> Seq<char> {
    let note = more_text((names.len() - 1) as nat);
    if note.len() + 2 <= width {
        note
    } else {
        Seq::empty()
    }
}

/// How many characters of the first name are shown where it is cut to fit.
pub open spec fn clip(names: Seq<Seq<char>>, width: int) -> int {
    let room = width - note_beside(names, width).len() - 1;
    if room <= 0 {
        0
    } else if room < names[0].len() {
        room
    } else {
        names[0].len() as int
    }
}

/// The first name cut to fit, and how many more there are if there is room to tell.
pub open spec fn name_clipped(names: Seq<Seq<char>>, width: int) -> Seq<char> {
    names[0].take(clip(names, width)) + "…"@ + note_beside(names, width)
}

/// The most names, up to `take`, that fit into `width` characters.
pub open spec fn names_fitting(names: Seq<Seq<char>>, width: int, take: int) -> Seq<char>
    decreases take,
{
    if take <= 0 {
        name_clipped(names, width)
    } else if names_shown(names, take).len() <= width {
        names_shown(names, take)
    } else {
        names_fitting(names, width, take - 1)
    }
}

/// The names as they are shown in `width` characters.
pub open spec fn fitted(names: Seq<Seq<char>>, width: int) -> Seq<char> {
    if names.len() == 0 {
        Seq::empty()
    } else {
        names_fitting(names, width, names.len() as int)
    }
}

fn hidden_note(hidden: usize) -> (r: String)
    ensures
        r@ == more_text(hidden as nat),
{
    if hidden == 0 {
        String::new()
    } else {
        text::cat3(", +", text::count_text(hidden).as_str(), " more")
    }
}

/// Join names to fit `width` columns, eliding the tail as `+N more`.
///
/// Always emits at least one name (truncated if it alone overflows) so a row never
/// degrades to a bare count: where the count leaves no room for a name, it is left out.
pub fn fit_names(names: &Vec<String>, width: usize) -> (r: String)
    ensures
        r@ == fitted(text::texts(names@), width as int),
{
    let ghost all = text::texts(names@);
    let n: usize = names.len();
    if n == 0 {
        return String::new();
    }
    // Try the longest prefix of names that leaves room for its own suffix.
    let mut take: usize = n;
    while take > 0
        invariant
            take <= n,
            n == names.len(),
            all == text::texts(names@),
            names_fitting(all, width as int, take as int) == fitted(all, width as int),
        decreases take,
    {
        let shown = text::join_texts(names, take, ", ");
        let line = text::cat2(shown.as_str(), hidden_note(n - take).as_str());
        if text::char_count(line.as_str()) <= width {
            return line;
        }
        take -= 1;
    }
    let whole = hidden_note(n - 1);
    let used = text::to_chars(whole.as_str()).len();
    let note = if used <= width && width - used >= 2 {
        whole
    } else {
        String::new()
    };
    let first = text::to_chars(names[0].as_str());
    assert(first@ == all[0]);
    let beside = text::to_chars(note.as_str()).len();
    let room: usize = if beside < width {
        width - beside - 1
    } else {
        0
    };
    let shown: usize = if room < first.len() {
        room
    } else {
        first.len()
    };
    let clipped = text::slice_text(&first, 0, shown);
    assert(clipped@ == all[0].take(shown as int));
    text::cat3(clipped.as_str(), "…", note.as_str())
}

proof fn lemma_names_fitting(names: Seq<Seq<char>>, width: int, take: int)
    requires
        names.len() > 0,
        width >= 1,
    ensures
        names_fitting(names, width, take).len() <= width,
    decreases take,
{
    reveal_strlit("…");
    if take > 0 && names_shown(names, take).len() > width {
        lemma_names_fitting(names, width, take - 1);
    }
}

/// The names never take more room than there is, if there is any.
pub proof fn law_names_fit(names: Seq<Seq<char>>, width: int)
    requires
        width >= 1,
    ensures
        fitted(names, width).len() <= width,
{
    if names.len() > 0 {
        lemma_names_fitting(names, width, names.len() as int);
    }
}

/// Something of the first name is always shown where there is room for a character and
/// the mark that it is cut: all of it, or as much of it as fits, and where it is cut,
/// that is marked. No row degrades to a bare count.
pub proof fn law_the_first_name_is_always_shown(names: Seq<Seq<char>>, width: int)
    requires
        names.len() > 0,
        names[0].len() > 0,
        width >= 2,
    ensures
        fitted(names, width).len() > 0,
        fitted(names, width)[0] == names[0][0],
        text::begins(fitted(names, width), names[0]) || exists|n: int|
            0 < n <= names[0].len() && text::begins(
                fitted(names, width),
                #[trigger] names[0].take(n) + "…"@,
            ),
{
    let shown = fitted(names, width);
    lemma_first_name_shown(names, width, names.len() as int);
    if text::begins(shown, names[0]) {
        assert(shown.subrange(0, names[0].len() as int)[0] == shown[0]);
    } else {
        let n = choose|n: int|
            0 < n <= names[0].len() && text::begins(shown, #[trigger] names[0].take(n) + "…"@);
        let start = names[0].take(n) + "…"@;
        assert(shown.subrange(0, start.len() as int)[0] == shown[0]);
        assert(start[0] == names[0][0]);
    }
}

proof fn lemma_joined_begins(names: Seq<Seq<char>>, sep: Seq<char>)
    requires
        names.len() > 0,
    ensures
        text::begins(text::joined(names, sep), names[0]),
    decreases names.len(),
{
    let all = text::joined(names, sep);
    if names.len() == 1 {
        assert(all.take(names[0].len() as int) == names[0]);
    } else {
        let head = text::joined(names.drop_last(), sep);
        lemma_joined_begins(names.drop_last(), sep);
        assert(all.subrange(0, names[0].len() as int) == head.subrange(0, names[0].len() as int));
    }
}

proof fn lemma_first_name_shown(names: Seq<Seq<char>>, width: int, take: int)
    requires
        0 <= take <= names.len(),
        names.len() > 0,
        names[0].len() > 0,
        width >= 2,
    ensures
        text::begins(names_fitting(names, width, take), names[0]) || exists|n: int|
            0 < n <= names[0].len() && text::begins(
                names_fitting(names, width, take),
                #[trigger] names[0].take(n) + "…"@,
            ),
    decreases take,
{
    if take == 0 {
        let shown = names[0].take(clip(names, width)) + "…"@;
        let note = note_beside(names, width);
        assert((shown + note).subrange(0, shown.len() as int) == shown);
    } else if names_shown(names, take).len() <= width {
        let some = text::joined(names.take(take), ", "@);
        lemma_joined_begins(names.take(take), ", "@);
        let all = names_shown(names, take);
        assert(all.subrange(0, names[0].len() as int) == some.subrange(0, names[0].len() as int));
    } else {
        lemma_first_name_shown(names, width, take - 1);
    }
}

/// All names are shown where they fit.
pub proof fn law_all_names_are_shown_where_they_fit(names: Seq<Seq<char>>, width: int)
    requires
        names.len() > 0,
        text::joined(names, ", "@).len() <= width,
    ensures
        fitted(names, width) == text::joined(names, ", "@),
{
    assert(names.take(names.len() as int) == names);
    assert(names_shown(names, names.len() as int) == text::joined(names, ", "@));
}

/// The longest start of `s` that takes at most `limit` bytes, from `k` characters
/// on.
pub open spec fn start_within(s: Seq<char>, limit: nat, k: int) -> int
    decreases s.len() - k,
{
    if 0 <= k < s.len() && text::byte_at(s, k + 1) <= limit {
        start_within(s, limit, k + 1)
    } else {
        k
    }
}

/// The start of `s` that takes at most `limit` bytes.
pub open spec fn cut_to(s: Seq<char>, limit: nat) -> Seq<char> {
    s.take(start_within(s, limit, 0))
}

/// A revision as it is shown: its first twelve bytes, or the first eight of a
/// content hash.
pub open spec fn shortened(version: Seq<char>) -> Seq<char> {
    if text::begins(version, "sha256-"@) {
        "nar:"@ + cut_to(version.skip("sha256-"@.len() as int), 8)
    } else if text::byte_at(version, version.len() as int) > 12 {
        cut_to(version, 12)
    } else {
        version
    }
}

fn cut_text(s: &str, limit: usize) -> (r: String)
    ensures
        r@ == cut_to(s@, limit as nat),
{
    let x = text::to_chars(s);
    let bytes = s.as_bytes();
    assert(bytes@.len() == bytes.len());
    let mut k: usize = 0;
    let mut next: usize = if x.len() > 0 {
        text::byte_offset(&x, 1)
    } else {
        0
    };
    while k < x.len() && next <= limit
        invariant
            k <= x.len(),
            x@ == s@,
            vstd::utf8::encode_utf8(x@).len() <= usize::MAX,
            k < x.len() ==> next == text::byte_at(x@, k + 1),
            start_within(s@, limit as nat, k as int) == start_within(s@, limit as nat, 0),
        decreases x.len() - k,
    {
        k += 1;
        if k < x.len() {
            next = text::byte_offset(&x, k + 1);
        }
    }
    let r = text::slice_text(&x, 0, k);
    assert(r@ == s@.take(k as int));
    r
}

/// Abbreviate a git revision for display.
pub fn short(version: &str) -> (r: String)
    ensures
        r@ == shortened(version@),
{
    let x = text::to_chars(version);
    if text::begins_with(version, "sha256-") {
        let mark = text::to_chars("sha256-");
        let rest = text::slice_text(&x, mark.len(), x.len());
        assert(rest@ == version@.skip("sha256-"@.len() as int));
        let cut = cut_text(rest.as_str(), 8);
        return text::cat2("nar:", cut.as_str());
    }
    assert(version@.take(version@.len() as int) == version@);
    if version.as_bytes().len() > 12 {
        cut_text(version, 12)
    } else {
        version.to_owned()
    }
}

// ---------------------------------------------------------------------------
// Screens, steps and outcomes
// ---------------------------------------------------------------------------

#[derive(Debug, Clone, Copy, PartialEq, Eq, Structural)]
pub enum Pane {
    Groups,
    Versions,
    /// The details pane, focusable so its project list can be scrolled.
    Details,
}

#[derive(Debug, Clone, Copy, PartialEq, Eq, Structural)]
pub enum Mode {
    Browse,
    /// Showing the commands that would run, awaiting confirm.
    Confirm,
    /// Actions are running; showing live progress.
    ///
    /// A plan can be dozens of `nix flake update` invocations, each taking seconds,
    /// so without this the TUI would sit frozen on the confirm screen for minutes
    /// and look hung.
    Running,
    /// Actions have run; showing the outcome.
    Report,
    /// Showing what holds each rooted store path. Read-only.
    Roots,
}

/// What an action is doing right now, for the running display.
#[derive(Debug, Clone, Copy, PartialEq, Eq, Structural)]
pub enum Step {
    /// Rewriting `flake.nix` — fast, local, no network.
    Editing,
    /// `nix flake update` — the slow part, and usually network-bound.
    Updating,
    /// Removing a project's stale direnv GC roots.
    DroppingRoots,
}

impl Step {
    /// How the step is called.
    pub open spec fn label_text(self) -> Seq<char> {
        match self {
            Step::Editing => "editing flake.nix"@,
            Step::Updating => "nix flake update"@,
            Step::DroppingRoots => "dropping GC roots"@,
        }
    }

    /// How the step is called.
    pub fn label(self) -> (r: &'static str)
        ensures
            r@ == self.label_text(),
    {
        match self {
            Step::Editing => "editing flake.nix",
            Step::Updating => "nix flake update",
            Step::DroppingRoots => "dropping GC roots",
        }
    }
}

/// One completed step's result, kept structured so the UI can style it.
#[derive(Debug)]
pub struct Outcome {
    pub ok: bool,
    pub text: String,
}

/// Live state of an executing plan.
///
/// Held on `App` so rendering stays a pure function of state: the execution updates
/// this and asks for a redraw, and the screens read it like anything else.
#[derive(Debug)]
pub struct Running {
    /// Total units of work: one per action, plus one per project whose roots are
    /// dropped at the end.
    pub total: usize,
    pub done: usize,
    /// What is happening right now, if anything: the step, the project, the input.
    pub current: Option<(Step, String, String)>,
    /// Outcomes so far, newest last. Mirrors what ends up in the report.
    pub log: Vec<Outcome>,
}

/// How many of the outcomes are failures.
pub open spec fn failed_in(log: Seq<Outcome>) -> nat {
    log.filter(|o: Outcome| !o.ok).len()
}

impl Running {
    /// A run that has `total` units of work ahead of it.
    pub fn new(total: usize) -> (r: Self)
        ensures
            r.total == total,
            r.done == 0,
            r.current is None,
            r.log@.len() == 0,
    {
        Running { total, done: 0, current: None, log: Vec::new() }
    }

    /// How many steps have failed.
    pub fn failures(&self) -> (r: usize)
        ensures
            r == failed_in(self.log@),
    {
        let ghost keep = |o: Outcome| !o.ok;
        let mut n: usize = 0;
        let mut i: usize = 0;
        assert(self.log@.take(0).filter(keep).len() == 0) by {
            reveal(Seq::filter);
        }
        while i < self.log.len()
            invariant
                n <= i <= self.log.len(),
                keep == (|o: Outcome| !o.ok),
                n == self.log@.take(i as int).filter(keep).len(),
            decreases self.log.len() - i,
        {
            proof {
                reveal(Seq::filter);
                assert(self.log@.take(i + 1).drop_last() == self.log@.take(i as int));
            }
            if !self.log[i].ok {
                n += 1;
            }
            i += 1;
        }
        assert(self.log@.take(i as int) == self.log@);
        n
    }

    /// Remaining time after `elapsed`, extrapolated from the average rate so far.
    ///
    /// Blank until something has finished: `nix flake update` timings vary by an
    /// order of magnitude depending on what is already in the store, so an estimate
    /// from zero samples would be actively misleading.
    pub fn eta(&self, elapsed: &TimeSpan) -> (r: Option<TimeSpan>)
        ensures
            match r {
                Some(t) => progress::remaining_nanos(elapsed@, self.done as nat, self.total as nat)
                    == Some(t@),
                None => progress::remaining_nanos(elapsed@, self.done as nat, self.total as nat)
                    is None,
            },
    {
        progress::remaining(elapsed, self.done, self.total)
    }
}

/// A `flake.nix` edit, rendered for review.
///
/// Holds the computed edit alongside its rendered diff so the confirm screen can
/// show exactly what will be written, and the same edit can then be applied without
/// recomputing it from a file that may have changed underneath.
#[derive(Debug)]
pub struct EditPreview {
    pub project: String,
    pub input_name: String,
    /// `Ok` holds the planned edit; `Err` explains why this project cannot be
    /// rewritten automatically, so the user can open it themselves.
    pub edit: Result<PendingEdit, String>,
    pub rendered: String,
}

impl EditPreview {
    /// Whether this project cannot be rewritten automatically.
    pub fn is_error(&self) -> (r: bool)
        ensures
            r == (self.edit is Err),
    {
        self.edit.is_err()
    }
}

/// A user-declared merge: several identities of one repo, converged onto one ref.
///
/// Merging is opt-in and reversible — it is recorded here rather than applied to
/// the groups, so unmerging is just dropping this entry and nothing has to be
/// re-derived from disk.
#[derive(Debug)]
pub struct Merge {
    /// The ref every member will be rewritten to declare.
    pub canonical: Identity,
    /// Indices of the groups that this merge covers, canonical included.
    pub members: Vec<usize>,
}

/// How far measuring the rooted store paths has come.
#[derive(Debug, Clone, Copy, PartialEq, Eq, Structural)]
pub struct Sizing {
    pub done: usize,
    pub total: usize,
}

// ---------------------------------------------------------------------------
// The state
// ---------------------------------------------------------------------------

/// Everything the screens show and the keys change.
#[derive(Debug)]
pub struct App {
    pub groups: Vec<Group>,
    pub roots: PathMap<RootedPath>,
    pub parse_errors: Vec<(String, String)>,
    /// Active merges, keyed by the index of the canonical group.
    pub merges: BTreeMap<usize, Merge>,
    /// Groups marked for merging but not yet merged, awaiting a canonical pick.
    pub merge_marks: BTreeSet<usize>,
    pub group_idx: usize,
    pub version_idx: usize,
    pub pane: Pane,
    pub mode: Mode,
    pub show_all: bool,
    /// Restrict to projects that actually hold a GC root.
    ///
    /// On by default: converging a project that roots nothing frees no disk space,
    /// so touching its lockfile is churn for no benefit.
    pub rooted_only: bool,
    /// Projects holding at least one GC root, derived from `roots`.
    pub rooted: PathSet,
    /// Per-group chosen target version, keyed by index into `groups`.
    pub targets: BTreeMap<usize, String>,
    pub pending: Vec<Action>,
    /// Rendered diffs of the `flake.nix` edits in `pending`, shown before they are
    /// applied so nothing changes on disk unseen.
    pub pending_diffs: Vec<EditPreview>,
    pub report: Vec<String>,
    /// Live progress while a plan executes; `None` outside `Mode::Running`.
    pub running: Option<Running>,
    pub status: String,
    /// Scan configuration, carried for the configurable differ and editor.
    pub config: Config,
    /// Scroll offset of the details pane, for groups with many projects.
    pub details_scroll: u16,
    /// The highlighted row of the roots view.
    pub roots_idx: usize,
    /// Restrict the roots view to paths that dropping direnv roots alone frees.
    pub roots_freeable_only: bool,
    /// Leave running processes out of the roots view. On by default: they swamp the
    /// list, and say nothing about whether a path is durably pinned.
    pub roots_hide_process: bool,
    /// The screen the roots view was opened from.
    pub roots_from: Mode,
    /// How far measuring the store paths has come; `None` when all are measured.
    pub sizing: Option<Sizing>,
    /// The store paths measured so far.
    pub measured: PathSet,
}

/// What decides which groups are listed and which pins count: the groups, the
/// merges, and the filters.
#[verifier::ext_equal]
pub struct Listing {
    pub groups: Seq<Group>,
    pub merges: Map<usize, Merge>,
    pub rooted_only: bool,
    pub rooted: Seq<Seq<char>>,
    pub show_all: bool,
}

/// The versions that `pins` pin.
pub open spec fn versions(pins: Seq<Pin>) -> Seq<Seq<char>> {
    pins.map_values(|p: Pin| p.version@)
}

/// When a pin was last modified, for comparing: never counts as the earliest time.
pub open spec fn time_of(pin: Pin) -> i64 {
    match pin.last_modified {
        Some(t) => t,
        None => i64::MIN,
    }
}

/// The newest of `pins`, the last of several that are equally new.
pub open spec fn newest(pins: Seq<Pin>) -> Option<Pin>
    decreases pins.len(),
{
    if pins.len() == 0 {
        None
    } else {
        match newest(pins.drop_last()) {
            Some(best) => if time_of(pins.last()) >= time_of(best) {
                Some(pins.last())
            } else {
                Some(best)
            },
            None => Some(pins.last()),
        }
    }
}

impl Listing {
    /// Whether a pin is one that can and should be acted on.
    pub open spec fn acts_on(self, pin: Pin) -> bool {
        pin.direct && (!self.rooted_only || order::holds(self.rooted, pin.project@, ByPath::rel()))
    }

    /// Those of `pins` that are acted on.
    pub open spec fn acting(self, pins: Seq<Pin>) -> Seq<Pin> {
        pins.filter(|p: Pin| self.acts_on(p))
    }

    /// The pins of the groups `members`, one after another.
    pub open spec fn member_pins(self, members: Seq<usize>) -> Seq<Pin>
        decreases members.len(),
    {
        if members.len() == 0 {
            Seq::empty()
        } else {
            let head = self.member_pins(members.drop_last());
            if members.last() < self.groups.len() {
                head + self.groups[members.last() as int].pins@
            } else {
                head
            }
        }
    }

    /// Every pin belonging to a group, following a merge into its members.
    pub open spec fn pins_at(self, gi: usize) -> Seq<Pin> {
        if self.merges.contains_key(gi) {
            self.member_pins(self.merges[gi].members@)
        } else if gi < self.groups.len() {
            self.groups[gi as int].pins@
        } else {
            Seq::empty()
        }
    }

    /// The pins of a group that are acted on.
    pub open spec fn acting_at(self, gi: usize) -> Seq<Pin> {
        self.acting(self.pins_at(gi))
    }

    /// How many versions the acting pins of a group have.
    pub open spec fn revs_at(self, gi: usize) -> nat {
        versions(self.acting_at(gi)).to_set().len()
    }

    /// Whether a group diverges, counting a merge's members together.
    pub open spec fn diverges_at(self, gi: usize) -> bool {
        self.revs_at(gi) > 1
    }

    /// Whether the merge at `key` covers the group `gi`.
    pub open spec fn covers(self, key: usize, gi: usize) -> bool {
        self.merges.contains_key(key) && self.merges[key].members@.contains(gi)
    }

    /// Whether the merge at `key` is the first that covers the group `gi`.
    pub open spec fn first_covers(self, key: usize, gi: usize) -> bool {
        self.covers(key, gi) && forall|k: usize| k < key ==> !self.covers(k, gi)
    }

    /// Whether a group has been folded into another group's merge.
    pub open spec fn absorbed(self, gi: usize) -> bool {
        &&& !self.merges.contains_key(gi)
        &&& exists|key: usize| #[trigger]
            self.first_covers(key, gi) && self.merges[key].members@[0] != gi
    }

    /// Whether a group is listed.
    pub open spec fn lists(self, gi: usize) -> bool {
        !self.absorbed(gi) && (self.show_all || self.diverges_at(gi))
    }

    /// The groups below `n` that are listed, in order.
    pub open spec fn listed_below(self, n: int) -> Seq<usize>
        decreases n,
    {
        if n <= 0 {
            Seq::empty()
        } else if self.lists((n - 1) as usize) {
            self.listed_below(n - 1).push((n - 1) as usize)
        } else {
            self.listed_below(n - 1)
        }
    }

    /// The groups that are listed, in order.
    pub open spec fn visible(self) -> Seq<usize> {
        self.listed_below(self.groups.len() as int)
    }

    /// The version a group would converge on if selected: its newest in use.
    pub open spec fn suggestion(self, gi: usize) -> Option<Seq<char>> {
        if self.diverges_at(gi) {
            match newest(self.acting_at(gi)) {
                Some(pin) => Some(pin.version@),
                None => None,
            }
        } else {
            None
        }
    }

    /// The identity a group presents: its merge's canonical ref, or its own.
    pub open spec fn identity_at(self, gi: usize) -> Option<Identity> {
        if self.merges.contains_key(gi) {
            Some(self.merges[gi].canonical)
        } else if gi < self.groups.len() {
            Some(self.groups[gi as int].identity)
        } else {
            None
        }
    }
}

proof fn lemma_listed_below(l: Listing, n: int)
    requires
        0 <= n <= usize::MAX,
    ensures
        l.listed_below(n).len() <= n,
        indices::rising(l.listed_below(n)),
        forall|k: int|
            0 <= k < l.listed_below(n).len() ==> (#[trigger] l.listed_below(n)[k]) < n && l.lists(
                l.listed_below(n)[k],
            ),
        forall|gi: usize| gi < n && l.lists(gi) ==> l.listed_below(n).contains(gi),
    decreases n,
{
    if n > 0 {
        lemma_listed_below(l, n - 1);
        let head = l.listed_below(n - 1);
        let all = l.listed_below(n);
        assert forall|gi: usize| gi < n && l.lists(gi) implies all.contains(gi) by {
            if gi < n - 1 {
                assert(head.contains(gi));
                let k = choose|k: int| 0 <= k < head.len() && head[k] == gi;
                assert(all[k] == gi);
            } else {
                assert(all[all.len() - 1] == gi);
            }
        }
    }
}

impl App {
    /// What decides which groups are listed and which pins count.
    pub open spec fn listing(self) -> Listing {
        Listing {
            groups: self.groups@,
            merges: self.merges@,
            rooted_only: self.rooted_only,
            rooted: self.rooted@,
            show_all: self.show_all,
        }
    }

    /// The chosen versions.
    pub open spec fn chosen(self) -> Map<usize, Seq<char>> {
        self.targets@.map_values(|t: String| t@)
    }

    /// The group under the cursor.
    pub open spec fn selected(self) -> Option<usize> {
        let visible = self.listing().visible();
        if self.group_idx < visible.len() {
            Some(visible[self.group_idx as int])
        } else {
            None
        }
    }

    /// Whether the state hangs together: selections, marks and merges are about
    /// groups that exist, each merge lists its canonical group first, and the rooted
    /// projects are those that retain a store path.
    pub open spec fn wf(self) -> bool {
        &&& forall|gi: usize| #[trigger] self.targets@.contains_key(gi) ==> gi < self.groups@.len()
        &&& forall|gi: usize| #[trigger] self.merge_marks@.contains(gi) ==> gi < self.groups@.len()
        &&& self.merges_ok()
        &&& forall|x: Seq<char>| #[trigger]
            self.rooted.has(x) <==> order::holds(
                store::retainers(self.roots.values_view()),
                x,
                ByPath::rel(),
            )
    }

    /// Whether every merge is about groups that exist, its canonical group first.
    pub open spec fn merges_ok(self) -> bool {
        forall|gi: usize| #[trigger]
            self.merges@.contains_key(gi) ==> self.merge_ok(gi, self.merges@[gi])
    }

    /// Whether a merge keyed by `gi` is about groups that exist, `gi` first.
    pub open spec fn merge_ok(self, gi: usize, m: Merge) -> bool {
        &&& gi < self.groups@.len()
        &&& m.members@.len() > 0
        &&& m.members@[0] == gi
        &&& forall|k: int| 0 <= k < m.members@.len() ==> (#[trigger] m.members@[k])
            < self.groups@.len()
    }

    /// The state to begin with. Nothing is selected: staging every divergent group by
    /// default would make a destructive plan the path of least resistance.
    pub fn new(
        groups: Vec<Group>,
        roots: PathMap<RootedPath>,
        parse_errors: Vec<(String, String)>,
        config: Config,
    ) -> (r: Self)
        ensures
            r.wf(),
            r.groups == groups,
            r.roots == roots,
            r.parse_errors == parse_errors,
            r.config == config,
            r.merges@ == Map::<usize, Merge>::empty(),
            r.merge_marks@ == Set::<usize>::empty(),
            r.targets@ == Map::<usize, String>::empty(),
            r.group_idx == 0,
            r.version_idx == 0,
            r.pane == Pane::Groups,
            r.mode == Mode::Browse,
            !r.show_all,
            r.rooted_only,
            r.rooted@ == order::added_all(
                Seq::empty(),
                store::retainers(roots.values_view()),
                ByPath::rel(),
            ),
            r.pending@.len() == 0,
            r.pending_diffs@.len() == 0,
            r.report@.len() == 0,
            r.running is None,
            r.status@ == "nothing selected — Enter picks a version, A selects all"@,
            r.details_scroll == 0,
            r.roots_idx == 0,
            !r.roots_freeable_only,
            r.roots_hide_process,
            r.roots_from == Mode::Browse,
            r.sizing is None,
            r.measured@.len() == 0,
    {
        let rooted = store::rooted_projects(&roots);
        App {
            groups,
            roots,
            parse_errors,
            merges: BTreeMap::new(),
            merge_marks: BTreeSet::new(),
            group_idx: 0,
            version_idx: 0,
            pane: Pane::Groups,
            mode: Mode::Browse,
            show_all: false,
            rooted_only: true,
            rooted,
            targets: BTreeMap::new(),
            pending: Vec::new(),
            pending_diffs: Vec::new(),
            report: Vec::new(),
            running: None,
            status: "nothing selected — Enter picks a version, A selects all".to_owned(),
            config,
            details_scroll: 0,
            roots_idx: 0,
            roots_freeable_only: false,
            roots_hide_process: true,
            roots_from: Mode::Browse,
            sizing: None,
            measured: PathSet::new(),
        }
    }

    // -----------------------------------------------------------------------
    // Pins
    // -----------------------------------------------------------------------

    /// Whether a pin is one this tool can and should act on.
    ///
    /// Two independent reasons to exclude one: it is transitive (no
    /// `--override-input` can reach it), or its project holds no GC root (so
    /// converging it frees nothing).
    pub fn is_actionable(&self, pin: &Pin) -> (r: bool)
        ensures
            r == self.listing().acts_on(*pin),
    {
        pin.direct && (!self.rooted_only || self.rooted.contains(pin.project.as_str()))
    }

    /// The pins of one group that are acted on, whatever it is merged with.
    pub fn actionable_pins<'a>(&'a self, group: &'a Group) -> (r: Vec<&'a Pin>)
        ensures
            r@.unref() == self.listing().acting(group.pins@),
    {
        let ghost l = self.listing();
        let mut r: Vec<&Pin> = Vec::new();
        let mut i: usize = 0;
        assert(r@.unref() == l.acting(group.pins@.take(0))) by {
            reveal(Seq::filter);
        }
        while i < group.pins.len()
            invariant
                i <= group.pins.len(),
                l == self.listing(),
                r@.unref() == l.acting(group.pins@.take(i as int)),
            decreases group.pins.len() - i,
        {
            proof {
                reveal(Seq::filter);
                assert(group.pins@.take(i + 1).drop_last() == group.pins@.take(i as int));
            }
            let ghost done = r@;
            if self.is_actionable(&group.pins[i]) {
                r.push(&group.pins[i]);
                assert(r@.unref() == done.unref().push(group.pins@[i as int]));
            }
            i += 1;
        }
        assert(group.pins@.take(i as int) == group.pins@);
        r
    }

    /// Every pin belonging to a group, following a merge into its members.
    ///
    /// This is what makes a merged group behave as one input everywhere else:
    /// divergence, version rows, suggestion and planning all read pins through here,
    /// so none of them need to know merging exists.
    pub fn pins_of(&self, group_index: usize) -> (r: Vec<&Pin>)
        ensures
            r@.unref() == self.listing().pins_at(group_index),
    {
        let ghost l = self.listing();
        let mut r: Vec<&Pin> = Vec::new();
        match self.merges.get(&group_index) {
            Some(m) => {
                let mut k: usize = 0;
                assert(r@.unref() == l.member_pins(m.members@.take(0)));
                while k < m.members.len()
                    invariant
                        k <= m.members.len(),
                        l == self.listing(),
                        r@.unref() == l.member_pins(m.members@.take(k as int)),
                    decreases m.members.len() - k,
                {
                    assert(m.members@.take(k + 1).drop_last() == m.members@.take(k as int));
                    let mi: usize = m.members[k];
                    if mi < self.groups.len() {
                        append_refs(&mut r, &self.groups[mi].pins);
                    }
                    k += 1;
                }
                assert(m.members@.take(k as int) == m.members@);
            },
            None => {
                if group_index < self.groups.len() {
                    append_refs(&mut r, &self.groups[group_index].pins);
                    assert(r@.unref() == l.pins_at(group_index));
                } else {
                    assert(r@.unref() == l.pins_at(group_index));
                }
            },
        }
        r
    }

    /// Actionable pins of a group *by index*, so merged members are included.
    pub fn actionable_at(&self, group_index: usize) -> (r: Vec<&Pin>)
        ensures
            r@.unref() == self.listing().acting_at(group_index),
    {
        let all = self.pins_of(group_index);
        let ghost l = self.listing();
        let ghost pins = all@.unref();
        let mut r: Vec<&Pin> = Vec::new();
        let mut i: usize = 0;
        assert(r@.unref() == l.acting(pins.take(0))) by {
            reveal(Seq::filter);
        }
        while i < all.len()
            invariant
                i <= all.len(),
                l == self.listing(),
                pins == all@.unref(),
                r@.unref() == l.acting(pins.take(i as int)),
            decreases all.len() - i,
        {
            proof {
                reveal(Seq::filter);
                assert(pins.take(i + 1).drop_last() == pins.take(i as int));
            }
            let ghost done = r@;
            if self.is_actionable(all[i]) {
                r.push(all[i]);
                assert(r@.unref() == done.unref().push(pins[i as int]));
            }
            i += 1;
        }
        assert(pins.take(i as int) == pins);
        r
    }

    /// Distinct versions among a group's actionable pins.
    pub fn distinct_versions(&self, group: &Group) -> (r: usize)
        ensures
            r == versions(self.listing().acting(group.pins@)).to_set().len(),
    {
        let pins = self.actionable_pins(group);
        count_versions(&pins)
    }

    /// Distinct versions of a group by index, across a merge's members.
    pub fn distinct_versions_at(&self, group_index: usize) -> (r: usize)
        ensures
            r == self.listing().revs_at(group_index),
    {
        let pins = self.actionable_at(group_index);
        count_versions(&pins)
    }

    /// Whether the actionable pins of one group have more than one version.
    pub fn is_divergent(&self, group: &Group) -> (r: bool)
        ensures
            r == (versions(self.listing().acting(group.pins@)).to_set().len() > 1),
    {
        self.distinct_versions(group) > 1
    }

    /// Whether a group diverges, counting a merge's members together.
    ///
    /// A merge can create divergence where neither member had any: two projects each
    /// internally consistent but on different refs and revisions.
    pub fn is_divergent_at(&self, group_index: usize) -> (r: bool)
        ensures
            r == self.listing().diverges_at(group_index),
    {
        self.distinct_versions_at(group_index) > 1
    }

    /// The version a group would converge on if selected: its newest in use.
    ///
    /// Offered as a suggestion rather than applied up front — staging every divergent
    /// group by default makes a destructive plan the path of least resistance.
    pub fn suggested_target(&self, group_index: usize) -> (r: Option<&str>)
        ensures
            match r {
                Some(v) => self.listing().suggestion(group_index) == Some(v@),
                None => self.listing().suggestion(group_index) is None,
            },
    {
        if !self.is_divergent_at(group_index) {
            return None;
        }
        let pins = self.actionable_at(group_index);
        match newest_pin(&pins) {
            Some(pin) => Some(pin.version.as_str()),
            None => None,
        }
    }

    /// Whether this group has been folded into another group's merge, and so should
    /// not be listed in its own right.
    pub fn is_absorbed(&self, group_index: usize) -> (r: bool)
        ensures
            r == self.listing().absorbed(group_index),
    {
        let ghost l = self.listing();
        if self.merges.contains_key(&group_index) {
            return false;
        }
        let keys = indices::map_keys(&self.merges);
        let mut i: usize = 0;
        while i < keys.len()
            invariant
                i <= keys.len(),
                l == self.listing(),
                !l.merges.contains_key(group_index),
                indices::rising(keys@),
                forall|k: usize| keys@.contains(k) <==> l.merges.contains_key(k),
                forall|j: int| 0 <= j < i ==> !l.covers(#[trigger] keys@[j], group_index),
            decreases keys.len() - i,
        {
            let key: usize = keys[i];
            assert(keys@.contains(key));
            if let Some(m) = self.merges.get(&key) {
                if contains_index(&m.members, group_index) {
                    assert forall|k: usize| k < key implies !l.covers(k, group_index) by {
                        if l.merges.contains_key(k) {
                            assert(keys@.contains(k));
                            let j = choose|j: int| 0 <= j < keys@.len() && keys@[j] == k;
                            assert(j < i);
                        }
                    }
                    assert(l.first_covers(key, group_index));
                    let first: usize = m.members[0];
                    if first == group_index {
                        assert forall|k: usize| #[trigger]
                            l.first_covers(k, group_index) implies k == key by {
                            assert(l.covers(k, group_index));
                            assert(!(k < key) && !(key < k));
                        }
                    }
                    return first != group_index;
                }
            }
            i += 1;
        }
        assert forall|k: usize| !l.covers(k, group_index) by {
            if l.merges.contains_key(k) {
                assert(keys@.contains(k));
            }
        }
        false
    }

    /// The identity a group presents: its merge's canonical ref, or its own.
    pub fn identity_of(&self, group_index: usize) -> (r: Option<&Identity>)
        ensures
            match r {
                Some(id) => self.listing().identity_at(group_index) == Some(*id),
                None => self.listing().identity_at(group_index) is None,
            },
    {
        match self.merges.get(&group_index) {
            Some(m) => Some(&m.canonical),
            None => if group_index < self.groups.len() {
                Some(&self.groups[group_index].identity)
            } else {
                None
            },
        }
    }

    /// Indices of the groups currently listed, honouring the divergent filter.
    ///
    /// Groups absorbed into another group's merge are not listed on their own — the
    /// merged group stands for all of them.
    pub fn visible(&self) -> (r: Vec<usize>)
        ensures
            r@ == self.listing().visible(),
            indices::rising(r@),
            forall|k: int| 0 <= k < r@.len() ==> (#[trigger] r@[k]) < self.groups@.len(),
    {
        let ghost l = self.listing();
        let mut r: Vec<usize> = Vec::new();
        let mut i: usize = 0;
        while i < self.groups.len()
            invariant
                i <= self.groups.len(),
                l == self.listing(),
                r@ == l.listed_below(i as int),
            decreases self.groups.len() - i,
        {
            if !self.is_absorbed(i) && (self.show_all || self.is_divergent_at(i)) {
                r.push(i);
            }
            i += 1;
        }
        proof {
            lemma_listed_below(l, self.groups.len() as int);
        }
        r
    }

    /// The index of the group under the cursor.
    pub fn selected_index(&self) -> (r: Option<usize>)
        ensures
            r == self.selected(),
            r matches Some(gi) ==> gi < self.groups@.len() && self.listing().lists(gi),
    {
        let visible = self.visible();
        proof {
            lemma_listed_below(self.listing(), self.groups.len() as int);
        }
        if self.group_idx < visible.len() {
            Some(visible[self.group_idx])
        } else {
            None
        }
    }

    /// The group under the cursor.
    pub fn selected_group(&self) -> (r: Option<&Group>)
        ensures
            match r {
                Some(g) => self.selected() matches Some(gi) && gi < self.groups@.len() && *g
                    == self.groups@[gi as int],
                None => self.selected() is None,
            },
    {
        match self.selected_index() {
            Some(gi) => Some(&self.groups[gi]),
            None => None,
        }
    }

    /// The version chosen for a group, if one is.
    pub fn target_for(&self, group_index: usize) -> (r: Option<&str>)
        ensures
            match r {
                Some(v) => self.chosen().contains_key(group_index) && self.chosen()[group_index]
                    == v@,
                None => !self.chosen().contains_key(group_index),
            },
    {
        match self.targets.get(&group_index) {
            Some(v) => Some(v.as_str()),
            None => None,
        }
    }

    /// How many of the listed groups diverge.
    pub fn divergent_count(&self) -> (r: usize)
        ensures
            r == self.listing().visible().filter(|gi: usize| self.listing().diverges_at(gi)).len(),
    {
        let visible = self.visible();
        let ghost keep = |gi: usize| self.listing().diverges_at(gi);
        let mut n: usize = 0;
        let mut i: usize = 0;
        assert(visible@.take(0).filter(keep).len() == 0) by {
            reveal(Seq::filter);
        }
        while i < visible.len()
            invariant
                n <= i <= visible.len(),
                keep == (|gi: usize| self.listing().diverges_at(gi)),
                n == visible@.take(i as int).filter(keep).len(),
            decreases visible.len() - i,
        {
            proof {
                reveal(Seq::filter);
                assert(visible@.take(i + 1).drop_last() == visible@.take(i as int));
            }
            if self.is_divergent_at(visible[i]) {
                n += 1;
            }
            i += 1;
        }
        assert(visible@.take(i as int) == visible@);
        n
    }
}

/// Append references to all of `pins`.
fn append_refs<'a>(r: &mut Vec<&'a Pin>, pins: &'a Vec<Pin>)
    ensures
        final(r)@.unref() == old(r)@.unref() + pins@,
{
    let ghost before = r@;
    let mut i: usize = 0;
    while i < pins.len()
        invariant
            i <= pins.len(),
            r@.unref() == before.unref() + pins@.take(i as int),
        decreases pins.len() - i,
    {
        let ghost done = r@;
        r.push(&pins[i]);
        assert(r@.unref() == done.unref().push(pins@[i as int]));
        assert(pins@.take(i + 1) == pins@.take(i as int).push(pins@[i as int]));
        i += 1;
    }
    assert(pins@.take(i as int) == pins@);
}

/// The versions that `pins` pin, each once, in ascending order.
fn version_set(pins: &Vec<&Pin>) -> (r: TextSet)
    ensures
        r@ == order::added_all(Seq::empty(), versions(pins@.unref()), ByText::rel()),
{
    let ghost all = versions(pins@.unref());
    let mut list: Vec<String> = Vec::new();
    let mut i: usize = 0;
    while i < pins.len()
        invariant
            i <= pins.len(),
            all == versions(pins@.unref()),
            text::texts(list@) == all.take(i as int),
        decreases pins.len() - i,
    {
        let ghost done = list@;
        list.push(pins[i].version.clone());
        assert(text::texts(list@) == text::texts(done).push(pins@[i as int].version@));
        assert(all.take(i + 1) == all.take(i as int).push(all[i as int]));
        i += 1;
    }
    assert(all.take(i as int) == all);
    TextSet::of(list)
}

/// How many versions `pins` pin.
fn count_versions(pins: &Vec<&Pin>) -> (r: usize)
    ensures
        r == versions(pins@.unref()).to_set().len(),
{
    let set = version_set(pins);
    proof {
        keyed::lemma_distinct_texts(versions(pins@.unref()));
    }
    set.len()
}

/// The newest of `pins`, the last of several that are equally new.
fn newest_pin<'a>(pins: &Vec<&'a Pin>) -> (r: Option<&'a Pin>)
    ensures
        match r {
            Some(p) => newest(pins@.unref()) == Some(*p),
            None => newest(pins@.unref()) is None,
        },
{
    let ghost all = pins@.unref();
    let mut best: Option<&Pin> = None;
    let mut i: usize = 0;
    while i < pins.len()
        invariant
            i <= pins.len(),
            all == pins@.unref(),
            match best {
                Some(p) => newest(all.take(i as int)) == Some(*p),
                None => newest(all.take(i as int)) is None,
            },
        decreases pins.len() - i,
    {
        assert(all.take(i + 1).drop_last() == all.take(i as int));
        let p = pins[i];
        let newer = match best {
            Some(b) => pin_time(p) >= pin_time(b),
            None => true,
        };
        if newer {
            best = Some(p);
        }
        i += 1;
    }
    assert(all.take(i as int) == all);
    best
}

fn pin_time(pin: &Pin) -> (r: i64)
    ensures
        r == time_of(*pin),
{
    match pin.last_modified {
        Some(t) => t,
        None => i64::MIN,
    }
}

fn contains_index(list: &Vec<usize>, x: usize) -> (r: bool)
    ensures
        r == list@.contains(x),
{
    let mut i: usize = 0;
    while i < list.len()
        invariant
            i <= list.len(),
            forall|j: int| 0 <= j < i ==> list@[j] != x,
        decreases list.len() - i,
    {
        if list[i] == x {
            return true;
        }
        i += 1;
    }
    false
}

// ---------------------------------------------------------------------------
// Versions of the selected group
// ---------------------------------------------------------------------------

/// Whether `a` is an earlier time than `b`. Never is the earliest.
pub open spec fn earlier(a: Option<i64>, b: Option<i64>) -> bool {
    match (a, b) {
        (None, Some(_)) => true,
        (Some(x), Some(y)) => x < y,
        _ => false,
    }
}

/// The latest time at which one of `pins` was modified.
pub open spec fn latest(pins: Seq<Pin>) -> Option<i64>
    decreases pins.len(),
{
    if pins.len() == 0 {
        None
    } else {
        let head = latest(pins.drop_last());
        if earlier(head, pins.last().last_modified) {
            pins.last().last_modified
        } else {
            head
        }
    }
}

/// The order of pins within a version: by project, then by input name.
pub open spec fn pin_lt() -> spec_fn(Pin, Pin) -> bool {
    |a: Pin, b: Pin|
        paths::path_lt(a.project@, b.project@) || (paths::same_path(a.project@, b.project@)
            && text::chars_lt(a.input_name@, b.input_name@))
}

/// The pins among `pins` that pin `version`.
pub open spec fn pinning(pins: Seq<Pin>, version: Seq<char>) -> Seq<Pin> {
    pins.filter(|p: Pin| p.version@ == version)
}

/// The row of one version: when it was last locked, and who pins it.
pub open spec fn row_for(pins: Seq<Pin>, version: Seq<char>) -> VersionRowView {
    VersionRowView {
        version,
        last_modified: latest(pinning(pins, version)),
        pins: order::sorted(pinning(pins, version), pin_lt()),
    }
}

/// The order of rows: the latest first.
pub open spec fn later() -> spec_fn(VersionRowView, VersionRowView) -> bool {
    |a: VersionRowView, b: VersionRowView| earlier(b.last_modified, a.last_modified)
}

/// The versions that `pins` pin, with the pins of each, newest first and otherwise
/// in ascending order.
pub open spec fn rows_for(pins: Seq<Pin>) -> Seq<VersionRowView> {
    order::sorted(
        order::added_all(Seq::empty(), versions(pins), ByText::rel()).map_values(
            |v: Seq<char>| row_for(pins, v),
        ),
        later(),
    )
}

/// What a list of rows says.
pub open spec fn version_row_views(rows: Seq<VersionRow>) -> Seq<VersionRowView> {
    rows.map_values(|r: VersionRow| r@)
}

fn is_earlier(a: Option<i64>, b: Option<i64>) -> (r: bool)
    ensures
        r == earlier(a, b),
{
    match (a, b) {
        (None, Some(_)) => true,
        (Some(x), Some(y)) => x < y,
        _ => false,
    }
}

fn pin_before(a: &Pin, b: &Pin) -> (r: bool)
    ensures
        r == pin_lt()(*a, *b),
{
    paths::path_before(a.project.as_str(), b.project.as_str()) || (paths::is_same_path(
        a.project.as_str(),
        b.project.as_str(),
    ) && text::text_before(a.input_name.as_str(), b.input_name.as_str()))
}

fn row_before(a: &VersionRow, b: &VersionRow) -> (r: bool)
    ensures
        r == later()(a@, b@),
{
    is_earlier(b.last_modified, a.last_modified)
}

/// The row of one version among `pins`.
fn version_row(pins: &Vec<&Pin>, version: &str) -> (r: VersionRow)
    ensures
        r@ == row_for(pins@.unref(), version@),
{
    let ghost all = pins@.unref();
    let ghost keep = |p: Pin| p.version@ == version@;
    let mut found: Vec<Pin> = Vec::new();
    let mut last_modified: Option<i64> = None;
    let mut i: usize = 0;
    assert(found@ == all.take(0).filter(keep)) by {
        reveal(Seq::filter);
    }
    while i < pins.len()
        invariant
            i <= pins.len(),
            all == pins@.unref(),
            keep == (|p: Pin| p.version@ == version@),
            found@ == all.take(i as int).filter(keep),
            last_modified == latest(found@),
        decreases pins.len() - i,
    {
        proof {
            reveal(Seq::filter);
            assert(all.take(i + 1).drop_last() == all.take(i as int));
        }
        let p = pins[i];
        if text::same(p.version.as_str(), version) {
            let ghost done = found@;
            found.push(p.clone());
            assert(found@.drop_last() == done);
            if is_earlier(last_modified, p.last_modified) {
                last_modified = p.last_modified;
            }
        }
        i += 1;
    }
    assert(all.take(i as int) == all);
    let sorted = order::sort_by(found, pin_before, Ghost(pin_lt()));
    VersionRow { version: version.to_owned(), last_modified, pins: sorted }
}

impl App {
    /// The rows of the group under the cursor.
    pub open spec fn rows_view(self) -> Seq<VersionRowView> {
        match self.selected() {
            Some(gi) => rows_for(self.listing().acting_at(gi)),
            None => Seq::empty(),
        }
    }

    /// The row under the cursor.
    pub open spec fn row_view(self) -> Option<VersionRowView> {
        if self.version_idx < self.rows_view().len() {
            Some(self.rows_view()[self.version_idx as int])
        } else {
            None
        }
    }

    /// Versions of the selected group, newest first, with the pins holding each.
    pub fn version_rows(&self) -> (r: Vec<VersionRow>)
        ensures
            version_row_views(r@) == self.rows_view(),
    {
        let mut rows: Vec<VersionRow> = Vec::new();
        let gi = match self.selected_index() {
            Some(gi) => gi,
            None => {
                assert(version_row_views(rows@) == Seq::<VersionRowView>::empty());
                return rows;
            },
        };
        let pins = self.actionable_at(gi);
        let ghost all = pins@.unref();
        let set = version_set(&pins);
        let ghost want = set@.map_values(|v: Seq<char>| row_for(all, v));
        let mut i: usize = 0;
        while i < set.len()
            invariant
                i <= set@.len(),
                all == pins@.unref(),
                want == set@.map_values(|v: Seq<char>| row_for(all, v)),
                version_row_views(rows@) == want.take(i as int),
            decreases set@.len() - i,
        {
            let row = version_row(&pins, set.get(i).as_str());
            let ghost done = rows@;
            rows.push(row);
            assert(version_row_views(rows@) == version_row_views(done).push(row@));
            assert(want.take(i + 1) == want.take(i as int).push(want[i as int]));
            i += 1;
        }
        assert(want.take(i as int) == want);
        let ghost lt = |a: VersionRow, b: VersionRow| later()(a@, b@);
        let ghost view = |r: VersionRow| r@;
        proof {
            order::lemma_sorted_map(rows@, view, lt, later());
        }
        order::sort_by(rows, row_before, Ghost(lt))
    }

    /// The version row currently highlighted in the versions pane.
    pub fn selected_version_row(&self) -> (r: Option<VersionRow>)
        ensures
            match r {
                Some(row) => self.row_view() == Some(row@),
                None => self.row_view() is None,
            },
    {
        let mut rows = self.version_rows();
        assert(version_row_views(rows@).len() == rows@.len());
        if self.version_idx < rows.len() {
            assert(version_row_views(rows@)[self.version_idx as int]
                == rows@[self.version_idx as int]@);
            Some(rows.remove(self.version_idx))
        } else {
            None
        }
    }
}

proof fn lemma_pin_order()
    ensures
        order::is_strict_order(pin_lt()),
{
    paths::lemma_path_order();
    paths::lemma_text_order();
    let lt = pin_lt();
    let p = paths::by_path();
    let t = paths::by_text();
    assert forall|a: Pin| !#[trigger] lt(a, a) by {
        assert(!p(a.project@, a.project@));
        assert(!t(a.input_name@, a.input_name@));
    }
    assert forall|a: Pin, b: Pin, c: Pin| #[trigger]
        lt(a, b) && #[trigger] lt(b, c) implies lt(a, c) by {
        assert(p(a.project@, b.project@) && p(b.project@, c.project@) ==> p(
            a.project@,
            c.project@,
        ));
        assert(t(a.input_name@, b.input_name@) && t(b.input_name@, c.input_name@) ==> t(
            a.input_name@,
            c.input_name@,
        ));
        assert(paths::same_path(a.project@, b.project@) ==> (p(b.project@, c.project@) ==> p(
            a.project@,
            c.project@,
        )));
        assert(paths::same_path(b.project@, c.project@) ==> (p(a.project@, b.project@) ==> p(
            a.project@,
            c.project@,
        )));
    }
    assert forall|a: Pin, b: Pin, c: Pin| #[trigger]
        lt(a, c) implies #[trigger] lt(a, b) || lt(b, c) by {
        assert(p(a.project@, c.project@) ==> p(a.project@, b.project@) || p(
            b.project@,
            c.project@,
        ));
        assert(t(a.input_name@, c.input_name@) ==> t(a.input_name@, b.input_name@) || t(
            b.input_name@,
            c.input_name@,
        ));
        if paths::same_path(a.project@, c.project@) && !p(a.project@, b.project@) && !p(
            b.project@,
            c.project@,
        ) {
            assert(!paths::path_lt(b.project@, a.project@)) by {
                if paths::path_lt(b.project@, a.project@) {
                    assert(p(b.project@, c.project@));
                }
            }
            assert(!paths::path_lt(a.project@, b.project@));
            assert(paths::same_path(a.project@, b.project@));
        }
    }
}

proof fn lemma_later_order()
    ensures
        order::is_strict_order(later()),
{
}

/// The rows of a group tell its acting pins apart by version and leave none out:
/// every row holds just the pins of its version, and no version has two rows or
/// none.
pub proof fn law_rows_partition_the_pins(pins: Seq<Pin>)
    ensures
        rows_for(pins).len() == versions(pins).to_set().len(),
        forall|i: int|
            0 <= i < rows_for(pins).len() ==> {
                let row = #[trigger] rows_for(pins)[i];
                &&& versions(pins).contains(row.version)
                &&& row.pins.to_multiset() == pinning(pins, row.version).to_multiset()
            },
        forall|v: Seq<char>|
            versions(pins).contains(v) ==> exists|i: int|
                0 <= i < rows_for(pins).len() && (#[trigger] rows_for(pins)[i]).version == v,
        forall|i: int, j: int|
            0 <= i < j < rows_for(pins).len() ==> !earlier(
                (#[trigger] rows_for(pins)[i]).last_modified,
                (#[trigger] rows_for(pins)[j]).last_modified,
            ),
{
    broadcast use vstd::seq_lib::group_to_multiset_ensures;

    let set = order::added_all(Seq::empty(), versions(pins), ByText::rel());
    let made = set.map_values(|v: Seq<char>| row_for(pins, v));
    let rows = rows_for(pins);
    keyed::lemma_distinct_texts(versions(pins));
    lemma_later_order();
    lemma_pin_order();
    order::law_sorted(made, later());
    assert forall|i: int| 0 <= i < rows.len() implies {
        let row = #[trigger] rows[i];
        &&& versions(pins).contains(row.version)
        &&& row.pins.to_multiset() == pinning(pins, row.version).to_multiset()
    } by {
        let row = rows[i];
        assert(rows.to_multiset().count(row) > 0);
        assert(made.contains(row));
        let k = choose|k: int| 0 <= k < made.len() && made[k] == row;
        assert(made[k] == row_for(pins, set[k]));
        assert(set.contains(set[k]));
        order::law_sorted(pinning(pins, row.version), pin_lt());
    }
    assert forall|v: Seq<char>| versions(pins).contains(v) implies exists|i: int|
        0 <= i < rows.len() && (#[trigger] rows[i]).version == v by {
        assert(set.contains(v));
        let k = choose|k: int| 0 <= k < set.len() && set[k] == v;
        assert(made[k] == row_for(pins, v));
        assert(made.contains(made[k]));
        assert(made.to_multiset().count(made[k]) > 0);
        assert(rows.contains(made[k]));
        let i = choose|i: int| 0 <= i < rows.len() && rows[i] == made[k];
        assert(rows[i].version == v);
    }
    assert forall|i: int, j: int| 0 <= i < j < rows.len() implies !earlier(
        (#[trigger] rows[i]).last_modified,
        (#[trigger] rows[j]).last_modified,
    ) by {
        assert(!later()(rows[j], rows[i]));
    }
}

proof fn lemma_newest(pins: Seq<Pin>)
    requires
        pins.len() > 0,
    ensures
        newest(pins) matches Some(best) && pins.contains(best) && forall|i: int|
            0 <= i < pins.len() ==> time_of(#[trigger] pins[i]) <= time_of(best),
    decreases pins.len(),
{
    let head = pins.drop_last();
    if head.len() > 0 {
        lemma_newest(head);
        let best = newest(head)->0;
        let k = choose|k: int| 0 <= k < head.len() && head[k] == best;
        assert(pins[k] == best);
        assert forall|i: int| 0 <= i < pins.len() implies time_of(#[trigger] pins[i]) <= time_of(
            newest(pins)->0,
        ) by {
            if i < head.len() {
                assert(head[i] == pins[i]);
            }
        }
    }
    assert(pins[pins.len() - 1] == pins.last());
}

/// Each divergent group has a suggestion, and it is the newest version already in
/// use among the pins that count; a group that does not diverge has none.
pub proof fn law_suggestion_is_the_newest_in_use(l: Listing, gi: usize)
    ensures
        l.suggestion(gi) is Some <==> l.diverges_at(gi),
        l.diverges_at(gi) ==> exists|i: int|
            0 <= i < l.acting_at(gi).len() && l.suggestion(gi) == Some(
                (#[trigger] l.acting_at(gi)[i]).version@,
            ) && forall|j: int|
                0 <= j < l.acting_at(gi).len() ==> time_of(#[trigger] l.acting_at(gi)[j])
                    <= time_of(l.acting_at(gi)[i]),
{
    let pins = l.acting_at(gi);
    if l.diverges_at(gi) {
        if pins.len() == 0 {
            assert(versions(pins).to_set() =~= Set::<Seq<char>>::empty());
        }
        lemma_newest(pins);
        let best = newest(pins)->0;
        let i = choose|i: int| 0 <= i < pins.len() && pins[i] == best;
        assert(l.suggestion(gi) == Some(pins[i].version@));
    }
}

/// Transitive pins never count, whatever the filters: only a dependency's lockfile
/// holds them, which `--override-input` cannot reach. With the rooted filter on,
/// neither do pins of projects that hold no GC root.
pub proof fn law_only_reachable_pins_count(l: Listing, gi: usize, i: int)
    requires
        0 <= i < l.acting_at(gi).len(),
    ensures
        l.acting_at(gi)[i].direct,
        l.rooted_only ==> order::holds(l.rooted, l.acting_at(gi)[i].project@, ByPath::rel()),
{
    l.pins_at(gi).lemma_filter_pred(|p: Pin| l.acts_on(p), i);
}

// ---------------------------------------------------------------------------
// Counts and savings
// ---------------------------------------------------------------------------

/// The projects of those of `pins` that do not pin `version`.
pub open spec fn movers(pins: Seq<Pin>, version: Seq<char>) -> Seq<Seq<char>>
    decreases pins.len(),
{
    if pins.len() == 0 {
        Seq::empty()
    } else {
        let head = movers(pins.drop_last(), version);
        if pins.last().version@ == version {
            head
        } else {
            head.push(pins.last().project@)
        }
    }
}

/// The projects that would be moved off the version they pin, for the targets of the
/// groups `keys`.
pub open spec fn all_movers(l: Listing, chosen: Map<usize, Seq<char>>, keys: Seq<usize>) -> Seq<
    Seq<char>,
>
    decreases keys.len(),
{
    if keys.len() == 0 {
        Seq::empty()
    } else {
        all_movers(l, chosen, keys.drop_last()) + movers(
            l.acting_at(keys.last()),
            chosen[keys.last()],
        )
    }
}

/// The projects of the direct pins of `pins`.
pub open spec fn direct_projects(pins: Seq<Pin>) -> Seq<Seq<char>>
    decreases pins.len(),
{
    if pins.len() == 0 {
        Seq::empty()
    } else {
        let head = direct_projects(pins.drop_last());
        if pins.last().direct {
            head.push(pins.last().project@)
        } else {
            head
        }
    }
}

/// The projects of the direct pins of all `groups`.
pub open spec fn all_direct_projects(groups: Seq<Group>) -> Seq<Seq<char>>
    decreases groups.len(),
{
    if groups.len() == 0 {
        Seq::empty()
    } else {
        all_direct_projects(groups.drop_last()) + direct_projects(groups.last().pins@)
    }
}

/// Put the projects of those of `pins` that do not pin `version` into `set`.
fn add_movers(
    set: &mut PathSet,
    pins: &Vec<&Pin>,
    version: &str,
    Ghost(before): Ghost<Seq<Seq<char>>>,
)
    requires
        old(set)@ == order::added_all(Seq::empty(), before, ByPath::rel()),
    ensures
        final(set)@ == order::added_all(
            Seq::empty(),
            before + movers(pins@.unref(), version@),
            ByPath::rel(),
        ),
{
    let ghost all = pins@.unref();
    let mut i: usize = 0;
    assert(before + movers(all.take(0), version@) == before);
    while i < pins.len()
        invariant
            i <= pins.len(),
            all == pins@.unref(),
            set@ == order::added_all(
                Seq::empty(),
                before + movers(all.take(i as int), version@),
                ByPath::rel(),
            ),
        decreases pins.len() - i,
    {
        assert(all.take(i + 1).drop_last() == all.take(i as int));
        if !text::same(pins[i].version.as_str(), version) {
            let ghost xs = before + movers(all.take(i as int), version@);
            let ghost x = pins@[i as int].project@;
            set.insert(pins[i].project.clone());
            assert(xs.push(x).drop_last() == xs);
            assert(xs.push(x) == before + movers(all.take(i + 1), version@));
        }
        i += 1;
    }
    assert(all.take(i as int) == all);
}

impl App {
    /// The projects the current selections would move.
    pub open spec fn moving(self) -> Seq<Seq<char>> {
        all_movers(self.listing(), self.chosen(), indices::listed(self.targets@.dom()))
    }

    /// Bytes freed if the current selections are applied and the affected projects'
    /// direnv roots are dropped, and across how many store paths.
    pub fn estimated_savings(&self) -> (r: (u64, usize))
        ensures
            r.0 == store::capped(store::freed_bytes(self.roots.values_view(), self.moving())),
            r.1 == store::freed_count(self.roots.values_view(), self.moving()),
    {
        let ghost l = self.listing();
        let ghost chosen = self.chosen();
        let keys = indices::map_keys(&self.targets);
        let mut projects = PathSet::new();
        let mut i: usize = 0;
        while i < keys.len()
            invariant
                i <= keys.len(),
                l == self.listing(),
                chosen == self.chosen(),
                forall|j: int|
                    0 <= j < keys.len() ==> self.targets@.contains_key(#[trigger] keys@[j]),
                projects@ == order::added_all(
                    Seq::empty(),
                    all_movers(l, chosen, keys@.take(i as int)),
                    ByPath::rel(),
                ),
            decreases keys.len() - i,
        {
            let gi: usize = keys[i];
            assert(keys@.take(i + 1).drop_last() == keys@.take(i as int));
            assert(self.targets@.contains_key(keys@[i as int]));
            if let Some(target) = self.targets.get(&gi) {
                let pins = self.actionable_at(gi);
                add_movers(
                    &mut projects,
                    &pins,
                    target.as_str(),
                    Ghost(all_movers(l, chosen, keys@.take(i as int))),
                );
            }
            i += 1;
        }
        proof {
            assert(keys@.take(i as int) == keys@);
            ByPath::strict();
            order::lemma_added_all(Seq::empty(), self.moving(), ByPath::rel());
            store::lemma_freed_same(self.roots.values_view(), projects@, self.moving());
        }
        store::reclaimable(&self.roots, &projects)
    }

    /// Pins excluded only because their project roots nothing.
    pub fn unrooted_count(&self, group: &Group) -> (r: usize)
        ensures
            r == group.pins@.filter(|p: Pin| p.direct && !self.rooted.has(p.project@)).len(),
    {
        let ghost keep = |p: Pin| p.direct && !self.rooted.has(p.project@);
        let mut n: usize = 0;
        let mut i: usize = 0;
        assert(group.pins@.take(0).filter(keep).len() == 0) by {
            reveal(Seq::filter);
        }
        while i < group.pins.len()
            invariant
                n <= i <= group.pins.len(),
                keep == (|p: Pin| p.direct && !self.rooted.has(p.project@)),
                n == group.pins@.take(i as int).filter(keep).len(),
            decreases group.pins.len() - i,
        {
            proof {
                reveal(Seq::filter);
                assert(group.pins@.take(i + 1).drop_last() == group.pins@.take(i as int));
            }
            if group.pins[i].direct && !self.rooted.contains(group.pins[i].project.as_str()) {
                n += 1;
            }
            i += 1;
        }
        assert(group.pins@.take(i as int) == group.pins@);
        n
    }

    /// Every project with a direct pin, each once.
    pub open spec fn all_projects(self) -> Seq<Seq<char>> {
        order::added_all(Seq::empty(), all_direct_projects(self.groups@), ByPath::rel())
    }

    /// How many of the projects hold a GC root.
    pub open spec fn rooted_among(self) -> nat {
        self.all_projects().filter(|p: Seq<char>| self.rooted.has(p)).len()
    }

    /// Projects currently in scope, and how many the rooted-only filter hides.
    pub fn project_scope(&self) -> (r: (usize, usize))
        ensures
            self.rooted_only ==> r.0 == self.rooted_among() && r.1 == self.all_projects().len()
                - self.rooted_among(),
            !self.rooted_only ==> r.0 == self.all_projects().len() && r.1 == 0,
    {
        let mut all = PathSet::new();
        let mut g: usize = 0;
        while g < self.groups.len()
            invariant
                g <= self.groups.len(),
                all@ == order::added_all(
                    Seq::empty(),
                    all_direct_projects(self.groups@.take(g as int)),
                    ByPath::rel(),
                ),
            decreases self.groups.len() - g,
        {
            let pins = &self.groups[g].pins;
            let ghost head = all_direct_projects(self.groups@.take(g as int));
            assert(self.groups@.take(g + 1).drop_last() == self.groups@.take(g as int));
            let mut i: usize = 0;
            assert(head + direct_projects(pins@.take(0)) == head);
            while i < pins.len()
                invariant
                    i <= pins.len(),
                    all@ == order::added_all(
                        Seq::empty(),
                        head + direct_projects(pins@.take(i as int)),
                        ByPath::rel(),
                    ),
                decreases pins.len() - i,
            {
                assert(pins@.take(i + 1).drop_last() == pins@.take(i as int));
                if pins[i].direct {
                    let ghost xs = head + direct_projects(pins@.take(i as int));
                    let ghost x = pins@[i as int].project@;
                    all.insert(pins[i].project.clone());
                    assert(xs.push(x).drop_last() == xs);
                    assert(xs.push(x) == head + direct_projects(pins@.take(i + 1)));
                }
                i += 1;
            }
            assert(pins@.take(i as int) == pins@);
            g += 1;
        }
        assert(self.groups@.take(g as int) == self.groups@);
        let ghost keep = |p: Seq<char>| self.rooted.has(p);
        let mut rooted: usize = 0;
        let mut k: usize = 0;
        assert(all@.take(0).filter(keep).len() == 0) by {
            reveal(Seq::filter);
        }
        while k < all.len()
            invariant
                rooted <= k <= all@.len(),
                keep == (|p: Seq<char>| self.rooted.has(p)),
                rooted == all@.take(k as int).filter(keep).len(),
            decreases all@.len() - k,
        {
            proof {
                reveal(Seq::filter);
                assert(all@.take(k + 1).drop_last() == all@.take(k as int));
            }
            if self.rooted.contains(all.get(k).as_str()) {
                rooted += 1;
            }
            k += 1;
        }
        assert(all@.take(k as int) == all@);
        if self.rooted_only {
            (rooted, all.len() - rooted)
        } else {
            (all.len(), 0)
        }
    }
}

// ---------------------------------------------------------------------------
// Selecting versions
// ---------------------------------------------------------------------------

/// `base` with the suggestion of each group in `list` that has one.
pub open spec fn with_suggestions(
    l: Listing,
    list: Seq<usize>,
    base: Map<usize, Seq<char>>,
) -> Map<usize, Seq<char>>
    decreases list.len(),
{
    if list.len() == 0 {
        base
    } else {
        let m = with_suggestions(l, list.drop_last(), base);
        match l.suggestion(list.last()) {
            Some(v) => m.insert(list.last(), v),
            None => m,
        }
    }
}

/// How many of the groups in `list` have a suggestion.
pub open spec fn suggestion_count(l: Listing, list: Seq<usize>) -> nat
    decreases list.len(),
{
    if list.len() == 0 {
        0
    } else {
        suggestion_count(l, list.drop_last()) + if l.suggestion(list.last()) is Some {
            1nat
        } else {
            0
        }
    }
}

/// Those selections that still name a listed, divergent group.
pub open spec fn still_meant(l: Listing, targets: Map<usize, String>) -> Map<usize, String> {
    targets.restrict(Set::new(|gi: usize| !l.absorbed(gi) && l.diverges_at(gi)))
}

impl App {
    /// Opt into the suggested target for every divergent group at once.
    ///
    /// Only listed groups: an absorbed member is represented by its merge, and
    /// selecting it separately would plan the same pins twice.
    pub fn select_all_suggested(&mut self)
        ensures
            final(self).chosen() == with_suggestions(
                old(self).listing(),
                old(self).listing().visible(),
                old(self).chosen(),
            ),
            final(self).status@ == "selected "@ + text::dec(
                suggestion_count(old(self).listing(), old(self).listing().visible()),
            ) + " group(s) at newest in use"@,
            *final(self) == (App {
                targets: final(self).targets,
                status: final(self).status,
                ..*old(self)
            }),
            old(self).wf() ==> final(self).wf(),
    {
        let visible = self.visible();
        let ghost l = self.listing();
        let ghost before = *self;
        let mut n: usize = 0;
        let mut i: usize = 0;
        while i < visible.len()
            invariant
                n <= i <= visible.len(),
                l == before.listing(),
                *self == (App { targets: self.targets, ..before }),
                self.chosen() == with_suggestions(l, visible@.take(i as int), before.chosen()),
                n == suggestion_count(l, visible@.take(i as int)),
                forall|k: int| 0 <= k < visible@.len() ==> (#[trigger] visible@[k])
                    < before.groups@.len(),
                forall|gi: usize| #[trigger]
                    self.targets@.contains_key(gi) ==> before.targets@.contains_key(gi) || gi
                        < before.groups@.len(),
            decreases visible.len() - i,
        {
            assert(visible@.take(i + 1).drop_last() == visible@.take(i as int));
            let gi: usize = visible[i];
            let pick = match self.suggested_target(gi) {
                Some(v) => Some(v.to_owned()),
                None => None,
            };
            let ghost chosen = self.chosen();
            if let Some(v) = pick {
                self.targets.insert(gi, v);
                assert(self.chosen() == chosen.insert(gi, v@));
                n += 1;
            }
            i += 1;
        }
        assert(visible@.take(i as int) == visible@);
        self.status = text::cat3(
            "selected ",
            text::count_text(n).as_str(),
            " group(s) at newest in use",
        );
    }

    /// Drop every selection, returning to an empty plan.
    pub fn select_none(&mut self)
        ensures
            final(self).targets@ == Map::<usize, String>::empty(),
            final(self).status@ == "selection cleared"@,
            *final(self) == (App {
                targets: final(self).targets,
                status: final(self).status,
                ..*old(self)
            }),
            old(self).wf() ==> final(self).wf(),
    {
        self.targets.clear();
        self.status = "selection cleared".to_owned();
    }

    /// Choose the highlighted version as this group's sync target.
    pub fn choose_version(&mut self)
        ensures
            match (old(self).selected(), old(self).row_view()) {
                (Some(gi), Some(row)) => {
                    &&& final(self).chosen() == old(self).chosen().insert(gi, row.version)
                    &&& final(self).status@ == "target set to "@ + shortened(row.version)
                    &&& *final(self) == (App {
                        targets: final(self).targets,
                        status: final(self).status,
                        ..*old(self)
                    })
                },
                _ => *final(self) == *old(self),
            },
            old(self).wf() ==> final(self).wf(),
    {
        let gi = match self.selected_index() {
            Some(gi) => gi,
            None => {
                return;
            },
        };
        let row = match self.selected_version_row() {
            Some(row) => row,
            None => {
                return;
            },
        };
        let ghost chosen = self.chosen();
        self.status = text::cat2("target set to ", short(row.version.as_str()).as_str());
        let version = row.version;
        self.targets.insert(gi, version);
        assert(self.chosen() == chosen.insert(gi, version@));
    }

    /// Drop the selected group from the plan entirely.
    pub fn clear_target(&mut self)
        ensures
            match old(self).selected() {
                Some(gi) => {
                    &&& final(self).targets@ == old(self).targets@.remove(gi)
                    &&& final(self).status@ == "group excluded from plan"@
                    &&& *final(self) == (App {
                        targets: final(self).targets,
                        status: final(self).status,
                        ..*old(self)
                    })
                },
                None => *final(self) == *old(self),
            },
            old(self).wf() ==> final(self).wf(),
    {
        if let Some(gi) = self.selected_index() {
            self.targets.remove(&gi);
            self.status = "group excluded from plan".to_owned();
        }
    }

    /// Drop the selections of the groups that are not listed or do not diverge.
    fn drop_stale_targets(&mut self)
        ensures
            final(self).targets@ == still_meant(old(self).listing(), old(self).targets@),
            *final(self) == (App { targets: final(self).targets, ..*old(self) }),
    {
        let keys = indices::map_keys(&self.targets);
        let ghost before = *self;
        let ghost l = self.listing();
        let mut i: usize = 0;
        while i < keys.len()
            invariant
                i <= keys.len(),
                l == before.listing(),
                *self == (App { targets: self.targets, ..before }),
                forall|gi: usize| #[trigger]
                    self.targets@.contains_key(gi) <==> before.targets@.contains_key(gi)
                        && !(keys@.take(i as int).contains(gi) && (l.absorbed(gi)
                        || !l.diverges_at(gi))),
                forall|gi: usize| #[trigger]
                    self.targets@.contains_key(gi) ==> self.targets@[gi] == before.targets@[gi],
            decreases keys.len() - i,
        {
            let gi: usize = keys[i];
            let ghost so_far = keys@.take(i as int);
            let ghost next = keys@.take(i + 1);
            assert(next == so_far.push(gi));
            assert forall|x: usize| next.contains(x) <==> so_far.contains(x) || x == gi by {
                if so_far.contains(x) {
                    let k = choose|k: int| 0 <= k < so_far.len() && so_far[k] == x;
                    assert(next[k] == x);
                }
                if x == gi {
                    assert(next[i as int] == x);
                }
            }
            if self.is_absorbed(gi) || !self.is_divergent_at(gi) {
                self.targets.remove(&gi);
            }
            i += 1;
        }
        assert(keys@.take(i as int) == keys@);
        assert(self.targets@ =~= still_meant(l, before.targets@));
    }

    /// Include the projects without a GC root, or leave them out again. Selections
    /// that then name no divergent group are dropped.
    pub fn toggle_rooted_only(&mut self)
        ensures
            final(self).rooted_only == !old(self).rooted_only,
            final(self).targets@ == old(self).targets@.restrict(
                Set::new(|gi: usize| final(self).listing().diverges_at(gi)),
            ),
            final(self).status@ == if final(self).rooted_only {
                "showing only projects with GC roots"@
            } else {
                "showing all projects, including unrooted"@
            },
            *final(self) == (App {
                rooted_only: final(self).rooted_only,
                targets: final(self).targets,
                group_idx: 0,
                version_idx: 0,
                details_scroll: 0,
                status: final(self).status,
                ..*old(self)
            }),
            old(self).wf() ==> final(self).wf(),
    {
        let keys = indices::map_keys(&self.targets);
        self.rooted_only = !self.rooted_only;
        let ghost before = *self;
        let ghost l = self.listing();
        let mut i: usize = 0;
        while i < keys.len()
            invariant
                i <= keys.len(),
                l == before.listing(),
                *self == (App { targets: self.targets, ..before }),
                forall|gi: usize| #[trigger]
                    self.targets@.contains_key(gi) <==> before.targets@.contains_key(gi)
                        && !(keys@.take(i as int).contains(gi) && !l.diverges_at(gi)),
                forall|gi: usize| #[trigger]
                    self.targets@.contains_key(gi) ==> self.targets@[gi] == before.targets@[gi],
            decreases keys.len() - i,
        {
            let gi: usize = keys[i];
            let ghost so_far = keys@.take(i as int);
            let ghost next = keys@.take(i + 1);
            assert(next == so_far.push(gi));
            assert forall|x: usize| next.contains(x) <==> so_far.contains(x) || x == gi by {
                if so_far.contains(x) {
                    let k = choose|k: int| 0 <= k < so_far.len() && so_far[k] == x;
                    assert(next[k] == x);
                }
                if x == gi {
                    assert(next[i as int] == x);
                }
            }
            if !self.is_divergent_at(gi) {
                self.targets.remove(&gi);
            }
            i += 1;
        }
        assert(keys@.take(i as int) == keys@);
        self.group_idx = 0;
        self.version_idx = 0;
        self.details_scroll = 0;
        self.status = if self.rooted_only {
            "showing only projects with GC roots".to_owned()
        } else {
            "showing all projects, including unrooted".to_owned()
        };
        assert(self.listing() == l);
        assert(self.targets@ =~= old(self).targets@.restrict(
            Set::new(|gi: usize| self.listing().diverges_at(gi)),
        ));
    }
}

// ---------------------------------------------------------------------------
// Merging refs
// ---------------------------------------------------------------------------

/// The first of `marks` whose group is of another repository than `key`.
pub open spec fn first_foreign(
    groups: Seq<Group>,
    marks: Seq<usize>,
    key: crate::lock::MergeKeyView,
) -> Option<usize>
    decreases marks.len(),
{
    if marks.len() == 0 {
        None
    } else if groups[marks[0] as int].identity@.key() != key {
        Some(marks[0])
    } else {
        first_foreign(groups, marks.drop_first(), key)
    }
}

/// The groups a merge onto `gi` covers: `gi` first, then the other marked ones.
pub open spec fn merged_members(gi: usize, marks: Seq<usize>) -> Seq<usize> {
    seq![gi] + marks.filter(|i: usize| i != gi)
}

/// The pins of the groups `members` that declare another ref than `canonical` and
/// are acted on, with the ref they declare.
pub open spec fn off_ref(l: Listing, members: Seq<usize>, canonical: IdentityView) -> Seq<
    (Pin, Identity),
>
    decreases members.len(),
{
    if members.len() == 0 {
        Seq::empty()
    } else {
        let head = off_ref(l, members.drop_last(), canonical);
        let mi = members.last();
        if mi < l.groups.len() && l.groups[mi as int].identity@ != canonical {
            let g = l.groups[mi as int];
            head + l.acting(g.pins@).map_values(|p: Pin| (p, g.identity))
        } else {
            head
        }
    }
}

impl Listing {
    /// Whether the group `i` could join a merge with the group `gi`: same repo,
    /// different group, not merged yet, and with something to act on.
    pub open spec fn could_join(self, i: usize, gi: usize) -> bool {
        &&& i != gi
        &&& i < self.groups.len()
        &&& gi < self.groups.len()
        &&& !self.absorbed(i)
        &&& !self.merges.contains_key(i)
        &&& self.groups[i as int].identity@.key() == self.groups[gi as int].identity@.key()
        &&& self.acting_at(i).len() > 0
    }

    /// The groups below `n` that could join a merge with `gi`.
    pub open spec fn candidates_below(self, gi: usize, n: int) -> Seq<usize>
        decreases n,
    {
        if n <= 0 {
            Seq::empty()
        } else if self.could_join((n - 1) as usize, gi) {
            self.candidates_below(gi, n - 1).push((n - 1) as usize)
        } else {
            self.candidates_below(gi, n - 1)
        }
    }
}

impl App {
    /// Groups that could join a merge with `group_index`: same repo, different ref.
    ///
    /// A ref with nothing actionable in the current scope cannot contribute to a
    /// merge, so offering it would be a dead end.
    pub fn merge_candidates(&self, group_index: usize) -> (r: Vec<usize>)
        ensures
            r@ == self.listing().candidates_below(group_index, self.groups@.len() as int),
            forall|k: int| 0 <= k < r@.len() ==> (#[trigger] r@[k]) < self.groups@.len(),
    {
        let ghost l = self.listing();
        let mut r: Vec<usize> = Vec::new();
        if group_index >= self.groups.len() {
            proof {
                lemma_no_candidates(l, group_index, self.groups.len() as int);
            }
            return r;
        }
        let key = self.groups[group_index].identity.merge_key();
        let mut i: usize = 0;
        while i < self.groups.len()
            invariant
                i <= self.groups.len(),
                l == self.listing(),
                group_index < self.groups.len(),
                key@ == self.groups@[group_index as int].identity@.key(),
                r@ == l.candidates_below(group_index, i as int),
                forall|k: int| 0 <= k < r@.len() ==> (#[trigger] r@[k]) < self.groups@.len(),
            decreases self.groups.len() - i,
        {
            if i != group_index && !self.is_absorbed(i) && !self.merges.contains_key(&i)
                && self.groups[i].identity.merge_key().same(&key) {
                let pins = self.actionable_at(i);
                assert(pins@.unref().len() == pins@.len());
                if pins.len() > 0 {
                    r.push(i);
                }
            }
            i += 1;
        }
        r
    }

    /// The group that keeps `gi` from being marked: one already marked, of another
    /// repository.
    pub open spec fn foreign_mark(self, gi: usize) -> Option<usize> {
        first_foreign(
            self.groups@,
            indices::listed(self.merge_marks@),
            self.groups@[gi as int].identity@.key(),
        )
    }

    /// What marking says, with `n` groups marked.
    pub open spec fn marked_text(self, gi: usize, n: nat) -> Seq<char> {
        if n < 2 {
            self.groups@[gi as int].identity@.shown()
                + " marked — mark another ref, then M to merge"@
        } else {
            text::dec(n) + " refs marked — M merges them onto the highlighted one"@
        }
    }

    /// Whether `after` is `self` with the merge keyed by `gi` undone.
    pub open spec fn is_unmerged(self, after: App, gi: usize) -> bool {
        if self.merges@.contains_key(gi) {
            let m = self.merges@[gi];
            &&& after.merges@ == self.merges@.remove(gi)
            &&& after.targets@ == self.targets@.remove(gi)
            &&& after.status@ == "unmerged "@ + m.canonical@.shown() + " ("@ + text::dec(
                m.members@.len(),
            ) + " refs)"@
            &&& after == (App {
                merges: after.merges,
                targets: after.targets,
                status: after.status,
                group_idx: 0,
                version_idx: 0,
                ..self
            })
        } else {
            after == self
        }
    }

    /// Whether `after` is `self` with the marked groups merged onto `gi`.
    pub open spec fn is_merged(self, after: App, gi: usize) -> bool {
        &&& after.merges@.contains_key(gi)
        &&& after.merges@ == self.merges@.insert(gi, after.merges@[gi])
        &&& after.merges@[gi].canonical == self.groups@[gi as int].identity
        &&& after.merges@[gi].members@ == merged_members(gi, indices::listed(self.merge_marks@))
        &&& after.merge_marks@ == Set::<usize>::empty()
        &&& after.targets@ == still_meant(after.listing(), self.targets@)
        &&& after.status@ == "merged "@ + text::dec(after.merges@[gi].members@.len())
            + " refs onto "@ + self.groups@[gi as int].identity@.shown()
        &&& after == (App {
            merges: after.merges,
            merge_marks: after.merge_marks,
            targets: after.targets,
            group_idx: 0,
            version_idx: 0,
            status: after.status,
            ..self
        })
    }

    /// Mark or unmark the highlighted group as a merge participant.
    ///
    /// Marking is separate from merging so several refs can be chosen before
    /// committing, and so the canonical one is picked explicitly rather than inferred
    /// from cursor position. Only same-repo groups can merge; marking across repos is
    /// a mistake worth refusing loudly rather than discovering at commit time.
    pub fn toggle_merge_mark(&mut self)
        requires
            old(self).wf(),
        ensures
            final(self).wf(),
            match old(self).selected() {
                None => *final(self) == *old(self),
                Some(gi) => if old(self).merges@.contains_key(gi) {
                    old(self).is_unmerged(*final(self), gi)
                } else if old(self).merge_marks@.contains(gi) {
                    &&& final(self).merge_marks@ == old(self).merge_marks@.remove(gi)
                    &&& final(self).status@ == old(self).groups@[gi as int].identity@.shown()
                        + " unmarked"@
                    &&& *final(self) == (App {
                        merge_marks: final(self).merge_marks,
                        status: final(self).status,
                        ..*old(self)
                    })
                } else {
                    match old(self).foreign_mark(gi) {
                        Some(other) => {
                            &&& final(self).status@ == "cannot merge "@ + old(
                                self,
                            ).groups@[gi as int].identity@.shown() + " with "@ + old(
                                self,
                            ).groups@[other as int].identity@.shown() + " — different repos"@
                            &&& *final(self) == (App { status: final(self).status, ..*old(self) })
                        },
                        None => {
                            &&& final(self).merge_marks@ == old(self).merge_marks@.insert(gi)
                            &&& final(self).status@ == old(self).marked_text(
                                gi,
                                final(self).merge_marks@.len(),
                            )
                            &&& *final(self) == (App {
                                merge_marks: final(self).merge_marks,
                                status: final(self).status,
                                ..*old(self)
                            })
                        },
                    }
                },
            },
    {
        let gi = match self.selected_index() {
            Some(gi) => gi,
            None => {
                return;
            },
        };
        if self.merges.contains_key(&gi) {
            self.unmerge(gi);
            return;
        }
        if self.merge_marks.contains(&gi) {
            self.merge_marks.remove(&gi);
            let name = self.groups[gi].identity.to_text();
            self.status = text::cat2(name.as_str(), " unmarked");
            return;
        }
        let key = self.groups[gi].identity.merge_key();
        let marks = indices::set_members(&self.merge_marks);
        let ghost before = *self;
        let mut i: usize = 0;
        assert(marks@.skip(0) == marks@);
        while i < marks.len()
            invariant
                i <= marks.len(),
                gi < before.groups@.len(),
                key@ == before.groups@[gi as int].identity@.key(),
                *self == before,
                before == *old(self),
                before.wf(),
                before.selected() == Some(gi),
                !before.merges@.contains_key(gi),
                !before.merge_marks@.contains(gi),
                marks@ == indices::listed(before.merge_marks@),
                forall|j: int| 0 <= j < marks.len() ==> (#[trigger] marks@[j])
                    < before.groups@.len(),
                first_foreign(before.groups@, marks@.skip(i as int), key@)
                    == before.foreign_mark(gi),
            decreases marks.len() - i,
        {
            let other: usize = marks[i];
            assert(marks@[i as int] < before.groups@.len());
            if !self.groups[other].identity.merge_key().same(&key) {
                let mine = self.groups[gi].identity.to_text();
                let theirs = self.groups[other].identity.to_text();
                self.status = text::cat5(
                    "cannot merge ",
                    mine.as_str(),
                    " with ",
                    theirs.as_str(),
                    " — different repos",
                );
                return;
            }
            assert(marks@.skip(i as int).drop_first() == marks@.skip(i + 1));
            i += 1;
        }
        self.merge_marks.insert(gi);
        let n: usize = self.merge_marks.len();
        self.status = if n < 2 {
            let name = self.groups[gi].identity.to_text();
            text::cat2(name.as_str(), " marked — mark another ref, then M to merge")
        } else {
            text::cat2(
                text::count_text(n).as_str(),
                " refs marked — M merges them onto the highlighted one",
            )
        };
    }

    /// Merge the marked groups, adopting the highlighted group's ref as canonical.
    pub fn commit_merge(&mut self)
        ensures
            match old(self).selected() {
                None => *final(self) == *old(self),
                Some(gi) => if old(self).merge_marks@.len() < 2 {
                    &&& final(self).status@ == "mark at least two refs with m before merging"@
                    &&& *final(self) == (App { status: final(self).status, ..*old(self) })
                } else if !old(self).merge_marks@.contains(gi) {
                    &&& final(self).status@
                        == "highlight one of the marked refs — it becomes the canonical one"@
                    &&& *final(self) == (App { status: final(self).status, ..*old(self) })
                } else {
                    old(self).is_merged(*final(self), gi)
                },
            },
            old(self).wf() ==> final(self).wf(),
    {
        let gi = match self.selected_index() {
            Some(gi) => gi,
            None => {
                return;
            },
        };
        if self.merge_marks.len() < 2 {
            self.status = "mark at least two refs with m before merging".to_owned();
            return;
        }
        if !self.merge_marks.contains(&gi) {
            self.status =
            "highlight one of the marked refs — it becomes the canonical one".to_owned();
            return;
        }
        // Canonical first, so the merged group is listed at its position.
        let marks = indices::set_members(&self.merge_marks);
        let mut members: Vec<usize> = Vec::new();
        members.push(gi);
        let mut i: usize = 0;
        assert(members@ == merged_members(gi, marks@.take(0))) by {
            reveal(Seq::filter);
        }
        while i < marks.len()
            invariant
                i <= marks.len(),
                members@ == merged_members(gi, marks@.take(i as int)),
                forall|k: int|
                    0 < k < members@.len() ==> marks@.contains(#[trigger] members@[k]),
            decreases marks.len() - i,
        {
            proof {
                reveal(Seq::filter);
                assert(marks@.take(i + 1).drop_last() == marks@.take(i as int));
            }
            if marks[i] != gi {
                members.push(marks[i]);
                assert(members@ == merged_members(gi, marks@.take(i + 1)));
                assert(marks@.contains(marks@[i as int]));
            }
            i += 1;
        }
        assert(marks@.take(i as int) == marks@);
        let canonical = self.groups[gi].identity.clone();
        let name = canonical.to_text();
        let n: usize = members.len();
        self.merges.insert(gi, Merge { canonical, members });
        self.merge_marks.clear();
        // Selections keyed by absorbed groups no longer denote anything listed.
        self.drop_stale_targets();
        self.group_idx = 0;
        self.version_idx = 0;
        self.status = text::cat4(
            "merged ",
            text::count_text(n).as_str(),
            " refs onto ",
            name.as_str(),
        );
    }

    /// Undo a merge, restoring its members as independent groups.
    pub fn unmerge(&mut self, group_index: usize)
        ensures
            old(self).is_unmerged(*final(self), group_index),
            old(self).wf() ==> final(self).wf(),
    {
        if !self.merges.contains_key(&group_index) {
            return;
        }
        if let Some(m) = self.merges.remove(&group_index) {
            self.targets.remove(&group_index);
            let name = m.canonical.to_text();
            self.status = text::cat5(
                "unmerged ",
                name.as_str(),
                " (",
                text::count_text(m.members.len()).as_str(),
                " refs)",
            );
            self.group_idx = 0;
            self.version_idx = 0;
        }
    }

    /// Projects whose `flake.nix` must change for a merge: those declaring a ref other
    /// than the canonical one.
    ///
    /// Pins already on the canonical ref need no edit — only a revision sync.
    pub fn ref_changes(&self, group_index: usize) -> (r: Vec<(&Pin, &Identity)>)
        ensures
            r@.unref() == if self.merges@.contains_key(group_index) {
                off_ref(
                    self.listing(),
                    self.merges@[group_index].members@,
                    self.merges@[group_index].canonical@,
                )
            } else {
                Seq::empty()
            },
    {
        let ghost l = self.listing();
        let mut r: Vec<(&Pin, &Identity)> = Vec::new();
        let m = match self.merges.get(&group_index) {
            Some(m) => m,
            None => {
                assert(r@.unref() == Seq::<(Pin, Identity)>::empty());
                return r;
            },
        };
        let mut k: usize = 0;
        assert(r@.unref() == off_ref(l, m.members@.take(0), m.canonical@));
        while k < m.members.len()
            invariant
                k <= m.members.len(),
                l == self.listing(),
                r@.unref() == off_ref(l, m.members@.take(k as int), m.canonical@),
            decreases m.members.len() - k,
        {
            assert(m.members@.take(k + 1).drop_last() == m.members@.take(k as int));
            let mi: usize = m.members[k];
            if mi < self.groups.len() && !self.groups[mi].identity.same(&m.canonical) {
                let g = &self.groups[mi];
                let pins = self.actionable_pins(g);
                let ghost head = r@.unref();
                let ghost want = l.acting(g.pins@).map_values(|p: Pin| (p, g.identity));
                let mut i: usize = 0;
                while i < pins.len()
                    invariant
                        i <= pins.len(),
                        pins@.unref() == l.acting(g.pins@),
                        want == l.acting(g.pins@).map_values(|p: Pin| (p, g.identity)),
                        r@.unref() == head + want.take(i as int),
                    decreases pins.len() - i,
                {
                    let ghost done = r@;
                    r.push((pins[i], &g.identity));
                    assert(r@.unref() == done.unref().push((*pins@[i as int], g.identity)));
                    assert(pins@.unref()[i as int] == *pins@[i as int]);
                    assert(want.take(i + 1) == want.take(i as int).push(want[i as int]));
                    i += 1;
                }
                assert(pins@.unref().len() == pins@.len());
                assert(want.take(i as int) == want);
            }
            k += 1;
        }
        assert(m.members@.take(k as int) == m.members@);
        r
    }
}

proof fn lemma_no_candidates(l: Listing, gi: usize, n: int)
    requires
        gi >= l.groups.len(),
        n <= l.groups.len(),
    ensures
        l.candidates_below(gi, n) == Seq::<usize>::empty(),
    decreases n,
{
    if n > 0 {
        lemma_no_candidates(l, gi, n - 1);
    }
}

/// Merging is reversible: undoing a merge leaves the groups as they were listed
/// before it, with the same pins, identities and divergence. Said of a group that
/// was not merged already.
pub proof fn law_unmerging_restores_what_was_there(
    before: App,
    merged: App,
    after: App,
    gi: usize,
)
    requires
        !before.merges@.contains_key(gi),
        before.is_merged(merged, gi),
        merged.is_unmerged(after, gi),
    ensures
        after.merges@ == before.merges@,
        after.listing() == before.listing(),
        after.listing().visible() == before.listing().visible(),
        after == (App {
            merges: after.merges,
            merge_marks: after.merge_marks,
            targets: after.targets,
            group_idx: 0,
            version_idx: 0,
            status: after.status,
            ..before
        }),
{
    assert(after.merges@ =~= before.merges@);
    assert(after.listing() =~= before.listing());
}

/// A merged group stands for all its members: the others are no longer listed on
/// their own, and its pins are those of every member. Said of groups that no other
/// merge covers.
pub proof fn law_a_merge_absorbs_its_members(l: Listing, gi: usize, k: int)
    requires
        l.merges.contains_key(gi),
        l.merges[gi].members@.len() > 0,
        l.merges[gi].members@[0] == gi,
        0 < k < l.merges[gi].members@.len(),
        !l.merges.contains_key(l.merges[gi].members@[k]),
        forall|other: usize| other != gi ==> !#[trigger] l.covers(
            other,
            l.merges[gi].members@[k],
        ),
    ensures
        l.absorbed(l.merges[gi].members@[k]),
        !l.lists(l.merges[gi].members@[k]),
        !l.absorbed(gi),
        l.pins_at(gi) == l.member_pins(l.merges[gi].members@),
{
    let mi = l.merges[gi].members@[k];
    assert(l.merges[gi].members@.contains(mi));
    assert(l.covers(gi, mi));
    assert(l.first_covers(gi, mi));
}

/// Nothing is merged unless asked for: without merges every group stands for itself.
pub proof fn law_merging_is_opt_in(l: Listing, gi: usize)
    requires
        l.merges == Map::<usize, Merge>::empty(),
        gi < l.groups.len(),
    ensures
        !l.absorbed(gi),
        l.pins_at(gi) == l.groups[gi as int].pins@,
        l.identity_at(gi) == Some(l.groups[gi as int].identity),
{
}

// ---------------------------------------------------------------------------
// The plan
// ---------------------------------------------------------------------------

/// The actions that bring the acting ones of `pins` to `target` of `identity`, in
/// order. Where `from` is what they declare now, each is moved off it, whatever
/// revision it has: the declaration is wrong even then. Otherwise those that already
/// pin the target need nothing.
pub open spec fn pin_actions(
    l: Listing,
    pins: Seq<Pin>,
    identity: IdentityView,
    target: Seq<char>,
    from: Option<IdentityView>,
) -> Seq<ActionView>
    decreases pins.len(),
{
    if pins.len() == 0 {
        Seq::empty()
    } else {
        let head = pin_actions(l, pins.drop_last(), identity, target, from);
        let pin = pins.last();
        if l.acts_on(pin) && (from is Some || pin.version@ != target) {
            head.push(sync::action_on(pin, identity, target, from))
        } else {
            head
        }
    }
}

/// The actions for one group that is merged onto `canonical`.
pub open spec fn member_actions(
    l: Listing,
    group: Group,
    canonical: IdentityView,
    target: Seq<char>,
) -> Seq<ActionView> {
    if group.identity@ == canonical {
        pin_actions(l, group.pins@, canonical, target, None)
    } else {
        pin_actions(l, group.pins@, canonical, target, Some(group.identity@))
    }
}

/// The actions for the groups `members` of a merge, one after another.
pub open spec fn merge_actions(
    l: Listing,
    members: Seq<usize>,
    canonical: IdentityView,
    target: Seq<char>,
) -> Seq<ActionView>
    decreases members.len(),
{
    if members.len() == 0 {
        Seq::empty()
    } else {
        merge_actions(l, members.drop_last(), canonical, target) + member_actions(
            l,
            l.groups[members.last() as int],
            canonical,
            target,
        )
    }
}

/// The actions that bring one selected group to its target.
pub open spec fn group_actions(l: Listing, gi: usize, target: Seq<char>) -> Seq<ActionView> {
    if l.merges.contains_key(gi) {
        merge_actions(l, l.merges[gi].members@, l.merges[gi].canonical@, target)
    } else {
        let g = l.groups[gi as int];
        pin_actions(l, g.pins@, g.identity@, target, None)
    }
}

/// The actions for the selected groups `keys`, one after another.
pub open spec fn all_actions(
    l: Listing,
    chosen: Map<usize, Seq<char>>,
    keys: Seq<usize>,
) -> Seq<ActionView>
    decreases keys.len(),
{
    if keys.len() == 0 {
        Seq::empty()
    } else {
        all_actions(l, chosen, keys.drop_last()) + group_actions(
            l,
            keys.last(),
            chosen[keys.last()],
        )
    }
}

/// The order of actions: those that rewrite a `flake.nix` first, since they are the
/// reviewable part of the plan; then by project.
pub open spec fn action_lt() -> spec_fn(ActionView, ActionView) -> bool {
    |a: ActionView, b: ActionView|
        if (a.from_identity is Some) == (b.from_identity is Some) {
            paths::path_lt(a.project, b.project)
        } else {
            a.from_identity is Some
        }
}

/// What a list of actions says.
pub open spec fn action_views(actions: Seq<Action>) -> Seq<ActionView> {
    actions.map_values(|a: Action| a@)
}

fn action_before(a: &Action, b: &Action) -> (r: bool)
    ensures
        r == action_lt()(a@, b@),
{
    if a.changes_ref() == b.changes_ref() {
        paths::path_before(a.project.as_str(), b.project.as_str())
    } else {
        a.changes_ref()
    }
}

proof fn lemma_action_order()
    ensures
        order::is_strict_order(action_lt()),
{
    paths::lemma_path_order();
    let lt = action_lt();
    let p = paths::by_path();
    assert forall|a: ActionView| !#[trigger] lt(a, a) by {
        assert(!p(a.project, a.project));
    }
    assert forall|a: ActionView, b: ActionView, c: ActionView| #[trigger]
        lt(a, b) && #[trigger] lt(b, c) implies lt(a, c) by {
        assert(p(a.project, b.project) && p(b.project, c.project) ==> p(a.project, c.project));
    }
    assert forall|a: ActionView, b: ActionView, c: ActionView| #[trigger]
        lt(a, c) implies #[trigger] lt(a, b) || lt(b, c) by {
        assert(p(a.project, c.project) ==> p(a.project, b.project) || p(b.project, c.project));
    }
}

impl App {
    /// The actions the current selections amount to, in the order they are run.
    pub open spec fn plan(self) -> Seq<ActionView> {
        order::sorted(
            all_actions(self.listing(), self.chosen(), indices::listed(self.targets@.dom())),
            action_lt(),
        )
    }

    /// Append the actions of the acting pins of `group`.
    fn add_pin_actions(
        &self,
        actions: &mut Vec<Action>,
        group: &Group,
        canonical: &Identity,
        off: bool,
        target: &str,
    )
        requires
            !off ==> group.identity@ == canonical@,
        ensures
            action_views(final(actions)@) == action_views(old(actions)@) + pin_actions(
                self.listing(),
                group.pins@,
                canonical@,
                target@,
                if off {
                    Some(group.identity@)
                } else {
                    None
                },
            ),
    {
        let ghost l = self.listing();
        let ghost before = action_views(actions@);
        let ghost from = if off {
            Some(group.identity@)
        } else {
            None
        };
        let mut i: usize = 0;
        assert(before + pin_actions(l, group.pins@.take(0), canonical@, target@, from) == before);
        while i < group.pins.len()
            invariant
                i <= group.pins.len(),
                l == self.listing(),
                from == if off {
                    Some(group.identity@)
                } else {
                    None
                },
                !off ==> group.identity@ == canonical@,
                action_views(actions@) == before + pin_actions(
                    l,
                    group.pins@.take(i as int),
                    canonical@,
                    target@,
                    from,
                ),
            decreases group.pins.len() - i,
        {
            assert(group.pins@.take(i + 1).drop_last() == group.pins@.take(i as int));
            let pin = &group.pins[i];
            let ghost head = pin_actions(l, group.pins@.take(i as int), canonical@, target@, from);
            let ghost done = actions@;
            if self.is_actionable(pin) && (off || !text::same(pin.version.as_str(), target)) {
                let action = if off {
                    sync::merge_action_for(canonical, &group.identity, pin, target)
                } else {
                    sync::action_for(group, pin, target)
                };
                actions.push(action);
                assert(action_views(actions@) == action_views(done).push(action@));
                assert(before + head.push(action@) == (before + head).push(action@));
            }
            i += 1;
        }
        assert(group.pins@.take(i as int) == group.pins@);
    }

    /// Append the actions that bring one selected group to its target.
    fn add_group_actions(&self, actions: &mut Vec<Action>, gi: usize, target: &str)
        requires
            self.wf(),
            gi < self.groups@.len(),
        ensures
            action_views(final(actions)@) == action_views(old(actions)@) + group_actions(
                self.listing(),
                gi,
                target@,
            ),
    {
        let ghost l = self.listing();
        let ghost before = action_views(actions@);
        match self.merges.get(&gi) {
            Some(m) => {
                assert(self.merge_ok(gi, *m)) by {
                    assert(self.merges@.contains_key(gi));
                }
                let mut k: usize = 0;
                assert(before + merge_actions(l, m.members@.take(0), m.canonical@, target@)
                    == before);
                while k < m.members.len()
                    invariant
                        k <= m.members.len(),
                        l == self.listing(),
                        self.merge_ok(gi, *m),
                        action_views(actions@) == before + merge_actions(
                            l,
                            m.members@.take(k as int),
                            m.canonical@,
                            target@,
                        ),
                    decreases m.members.len() - k,
                {
                    assert(m.members@.take(k + 1).drop_last() == m.members@.take(k as int));
                    let mi: usize = m.members[k];
                    assert(m.members@[k as int] < self.groups@.len());
                    let group = &self.groups[mi];
                    let off = !group.identity.same(&m.canonical);
                    let ghost head = merge_actions(
                        l,
                        m.members@.take(k as int),
                        m.canonical@,
                        target@,
                    );
                    self.add_pin_actions(actions, group, &m.canonical, off, target);
                    let ghost more = member_actions(l, *group, m.canonical@, target@);
                    assert(before + (head + more) == (before + head) + more);
                    k += 1;
                }
                assert(m.members@.take(k as int) == m.members@);
            },
            None => {
                let group = &self.groups[gi];
                self.add_pin_actions(actions, group, &group.identity, false, target);
            },
        }
    }

    /// Build the action list and move to confirmation.
    ///
    /// A merged group yields two kinds of action: pins already on the canonical ref
    /// need only a revision sync, while pins on a different ref also need their
    /// `flake.nix` rewritten. A pin on a non-canonical ref is included even when its
    /// revision already matches the target — the declaration is still wrong, and
    /// leaving it would silently un-merge on the next update.
    ///
    /// The diffs of the rewrites are not there yet: see [`App::compute_diffs`].
    pub fn stage(&mut self)
        requires
            old(self).wf(),
        ensures
            final(self).wf(),
            if old(self).plan().len() == 0 {
                &&& final(self).status@ == "nothing to do"@
                &&& *final(self) == (App { status: final(self).status, ..*old(self) })
            } else {
                &&& action_views(final(self).pending@) == old(self).plan()
                &&& final(self).pending_diffs@.len() == 0
                &&& *final(self) == (App {
                    pending: final(self).pending,
                    pending_diffs: final(self).pending_diffs,
                    mode: Mode::Confirm,
                    ..*old(self)
                })
            },
    {
        let ghost l = self.listing();
        let ghost chosen = self.chosen();
        let keys = indices::map_keys(&self.targets);
        let mut actions: Vec<Action> = Vec::new();
        let mut i: usize = 0;
        assert(action_views(actions@) == all_actions(l, chosen, keys@.take(0)));
        while i < keys.len()
            invariant
                i <= keys.len(),
                self.wf(),
                l == self.listing(),
                chosen == self.chosen(),
                forall|j: int|
                    0 <= j < keys.len() ==> self.targets@.contains_key(#[trigger] keys@[j]),
                action_views(actions@) == all_actions(l, chosen, keys@.take(i as int)),
            decreases keys.len() - i,
        {
            let gi: usize = keys[i];
            assert(keys@.take(i + 1).drop_last() == keys@.take(i as int));
            assert(self.targets@.contains_key(keys@[i as int]));
            if let Some(target) = self.targets.get(&gi) {
                self.add_group_actions(&mut actions, gi, target.as_str());
            }
            i += 1;
        }
        assert(keys@.take(i as int) == keys@);
        let ghost made = action_views(actions@);
        proof {
            lemma_action_order();
            order::law_sorted(made, action_lt());
        }
        assert(made.len() == actions.len());
        if actions.len() == 0 {
            self.status = "nothing to do".to_owned();
            return;
        }
        let ghost lt = |a: Action, b: Action| action_lt()(a@, b@);
        let ghost view = |a: Action| a@;
        proof {
            order::lemma_sorted_map(actions@, view, lt, action_lt());
        }
        // flake.nix rewrites first: they are the reviewable part of the plan.
        self.pending = order::sort_by(actions, action_before, Ghost(lt));
        self.pending_diffs = Vec::new();
        self.mode = Mode::Confirm;
    }
}

/// Each action is about an acting pin that is not where it should be.
proof fn lemma_pin_actions(
    l: Listing,
    pins: Seq<Pin>,
    identity: IdentityView,
    target: Seq<char>,
    from: Option<IdentityView>,
    k: int,
)
    requires
        0 <= k < pin_actions(l, pins, identity, target, from).len(),
    ensures
        exists|i: int|
            0 <= i < pins.len() && l.acts_on(#[trigger] pins[i]) && (from is Some
                || pins[i].version@ != target) && pin_actions(l, pins, identity, target, from)[k]
                == sync::action_on(pins[i], identity, target, from),
    decreases pins.len(),
{
    if pins.len() > 0 {
        let head = pins.drop_last();
        let fewer = pin_actions(l, head, identity, target, from);
        if k < fewer.len() {
            lemma_pin_actions(l, head, identity, target, from, k);
            let i = choose|i: int|
                0 <= i < head.len() && l.acts_on(#[trigger] head[i]) && (from is Some
                    || head[i].version@ != target) && fewer[k] == sync::action_on(
                    head[i],
                    identity,
                    target,
                    from,
                );
            assert(pins[i] == head[i]);
        } else {
            assert(pins[pins.len() - 1] == pins.last());
        }
    }
}

/// Every action planned for a group that is not merged is a revision sync of an
/// acting pin that is not on the target yet: no `flake.nix` is touched.
pub proof fn law_a_sync_touches_no_flake(l: Listing, gi: usize, target: Seq<char>, k: int)
    requires
        gi < l.groups.len(),
        !l.merges.contains_key(gi),
        0 <= k < group_actions(l, gi, target).len(),
    ensures
        group_actions(l, gi, target)[k].from_identity is None,
        group_actions(l, gi, target)[k].from_version != target,
        group_actions(l, gi, target)[k].target_version == target,
        group_actions(l, gi, target)[k].identity == l.groups[gi as int].identity@,
{
    let g = l.groups[gi as int];
    lemma_pin_actions(l, g.pins@, g.identity@, target, None, k);
}

proof fn lemma_pin_actions_include(
    l: Listing,
    pins: Seq<Pin>,
    identity: IdentityView,
    target: Seq<char>,
    from: Option<IdentityView>,
    i: int,
)
    requires
        0 <= i < pins.len(),
        l.acts_on(pins[i]),
        from is Some || pins[i].version@ != target,
    ensures
        pin_actions(l, pins, identity, target, from).contains(
            sync::action_on(pins[i], identity, target, from),
        ),
    decreases pins.len(),
{
    let head = pins.drop_last();
    let all = pin_actions(l, pins, identity, target, from);
    let want = sync::action_on(pins[i], identity, target, from);
    if i < head.len() {
        lemma_pin_actions_include(l, head, identity, target, from, i);
        let fewer = pin_actions(l, head, identity, target, from);
        let k = choose|k: int| 0 <= k < fewer.len() && fewer[k] == want;
        assert(all[k] == want);
    } else {
        assert(all[all.len() - 1] == want);
    }
}

proof fn lemma_merge_actions_include(
    l: Listing,
    members: Seq<usize>,
    canonical: IdentityView,
    target: Seq<char>,
    k: int,
    a: ActionView,
)
    requires
        0 <= k < members.len(),
        member_actions(l, l.groups[members[k] as int], canonical, target).contains(a),
    ensures
        merge_actions(l, members, canonical, target).contains(a),
    decreases members.len(),
{
    let head = members.drop_last();
    let x = merge_actions(l, head, canonical, target);
    let y = member_actions(l, l.groups[members.last() as int], canonical, target);
    if k < head.len() {
        lemma_merge_actions_include(l, head, canonical, target, k, a);
        let j = choose|j: int| 0 <= j < x.len() && x[j] == a;
        assert((x + y)[j] == a);
    } else {
        let j = choose|j: int| 0 <= j < y.len() && y[j] == a;
        assert((x + y)[x.len() + j] == a);
    }
}

/// An acting pin that declares another ref than the merge is planned even when its
/// revision already matches: the declaration is wrong, and leaving it would drift
/// back on the next update.
pub proof fn law_an_off_ref_pin_is_always_planned(
    l: Listing,
    gi: usize,
    target: Seq<char>,
    k: int,
    i: int,
)
    requires
        l.merges.contains_key(gi),
        0 <= k < l.merges[gi].members@.len(),
        ({
            let g = l.groups[l.merges[gi].members@[k] as int];
            &&& g.identity@ != l.merges[gi].canonical@
            &&& 0 <= i < g.pins@.len()
            &&& l.acts_on(g.pins@[i])
        }),
    ensures
        ({
            let g = l.groups[l.merges[gi].members@[k] as int];
            group_actions(l, gi, target).contains(
                sync::action_on(
                    g.pins@[i],
                    l.merges[gi].canonical@,
                    target,
                    Some(g.identity@),
                ),
            )
        }),
{
    let m = l.merges[gi];
    let g = l.groups[m.members@[k] as int];
    lemma_pin_actions_include(l, g.pins@, m.canonical@, target, Some(g.identity@), i);
    lemma_merge_actions_include(
        l,
        m.members@,
        m.canonical@,
        target,
        k,
        sync::action_on(g.pins@[i], m.canonical@, target, Some(g.identity@)),
    );
}

/// Whether the action `a` moves `pin` to `target`.
pub open spec fn moves(a: ActionView, pin: Pin, target: Seq<char>) -> bool {
    &&& a.project == pin.project@
    &&& match pin.declared_name {
        Some(name) => a.input_name == name@,
        None => a.input_name == pin.input_name@,
    }
    &&& a.from_version == pin.version@
    &&& a.target_version == target
}

/// The pins of the members of a merge are those of its groups.
proof fn lemma_member_pins(l: Listing, members: Seq<usize>, p: Pin)
    requires
        forall|k: int| 0 <= k < members.len() ==> (#[trigger] members[k]) < l.groups.len(),
    ensures
        l.member_pins(members).contains(p) <==> exists|k: int|
            0 <= k < members.len() && (#[trigger] l.groups[members[k] as int]).pins@.contains(p),
    decreases members.len(),
{
    if members.len() > 0 {
        let head = members.drop_last();
        let last = l.groups[members.last() as int];
        assert forall|k: int| 0 <= k < head.len() implies (#[trigger] head[k]) < l.groups.len() by {
            assert(head[k] == members[k]);
        }
        lemma_member_pins(l, head, p);
        let x = l.member_pins(head);
        let all = l.member_pins(members);
        assert(members[members.len() - 1] < l.groups.len());
        assert(all == x + last.pins@);
        if all.contains(p) {
            let i = choose|i: int| 0 <= i < all.len() && all[i] == p;
            if i < x.len() {
                assert(x.contains(x[i]));
                let k = choose|k: int|
                    0 <= k < head.len() && (#[trigger] l.groups[head[k] as int]).pins@.contains(p);
                assert(l.groups[members[k] as int].pins@.contains(p));
            } else {
                assert(last.pins@[i - x.len()] == p);
                assert(l.groups[members[members.len() - 1] as int].pins@.contains(p));
            }
        }
        if exists|k: int|
            0 <= k < members.len() && (#[trigger] l.groups[members[k] as int]).pins@.contains(p) {
            let k = choose|k: int|
                0 <= k < members.len() && (#[trigger] l.groups[members[k] as int]).pins@.contains(
                    p,
                );
            if k < head.len() {
                assert(l.groups[head[k] as int].pins@.contains(p));
                let i = choose|i: int| 0 <= i < x.len() && x[i] == p;
                assert(all[i] == p);
            } else {
                let i = choose|i: int| 0 <= i < last.pins@.len() && last.pins@[i] == p;
                assert(all[x.len() + i] == p);
            }
        }
    }
}

/// What is planned for one group moves its acting pins to the target, and every one
/// of them that is not there yet.
proof fn lemma_group_actions(l: Listing, gi: usize, target: Seq<char>)
    requires
        gi < l.groups.len(),
        l.merges.contains_key(gi) ==> forall|k: int|
            0 <= k < l.merges[gi].members@.len() ==> (#[trigger] l.merges[gi].members@[k])
                < l.groups.len(),
    ensures
        forall|i: int|
            0 <= i < l.acting_at(gi).len() && (#[trigger] l.acting_at(gi)[i]).version@ != target
                ==> exists|a: ActionView| #[trigger]
                group_actions(l, gi, target).contains(a) && moves(a, l.acting_at(gi)[i], target),
        forall|a: ActionView| #[trigger]
            group_actions(l, gi, target).contains(a) ==> exists|i: int|
                0 <= i < l.acting_at(gi).len() && moves(a, #[trigger] l.acting_at(gi)[i], target),
{
    let keep = |p: Pin| l.acts_on(p);
    let all = group_actions(l, gi, target);
    assert forall|i: int|
        0 <= i < l.acting_at(gi).len() && (#[trigger] l.acting_at(gi)[i]).version@
            != target implies exists|a: ActionView| #[trigger]
        all.contains(a) && moves(a, l.acting_at(gi)[i], target) by {
        let p = l.acting_at(gi)[i];
        l.pins_at(gi).lemma_filter_pred(keep, i);
        l.pins_at(gi).lemma_filter_contains_rev(keep, p);
        if l.merges.contains_key(gi) {
            let m = l.merges[gi];
            lemma_member_pins(l, m.members@, p);
            let k = choose|k: int|
                0 <= k < m.members@.len() && (#[trigger] l.groups[m.members@[k] as int]).pins@.contains(
                    p,
                );
            let g = l.groups[m.members@[k] as int];
            let j = choose|j: int| 0 <= j < g.pins@.len() && g.pins@[j] == p;
            let from = if g.identity@ == m.canonical@ {
                None
            } else {
                Some(g.identity@)
            };
            lemma_pin_actions_include(l, g.pins@, m.canonical@, target, from, j);
            let a = sync::action_on(p, m.canonical@, target, from);
            lemma_merge_actions_include(l, m.members@, m.canonical@, target, k, a);
            assert(all.contains(a));
        } else {
            let g = l.groups[gi as int];
            let j = choose|j: int| 0 <= j < g.pins@.len() && g.pins@[j] == p;
            lemma_pin_actions_include(l, g.pins@, g.identity@, target, None, j);
            assert(all.contains(sync::action_on(p, g.identity@, target, None)));
        }
    }
    assert forall|a: ActionView| #[trigger] all.contains(a) implies exists|i: int|
        0 <= i < l.acting_at(gi).len() && moves(a, #[trigger] l.acting_at(gi)[i], target) by {
        let p = if l.merges.contains_key(gi) {
            let m = l.merges[gi];
            let k = lemma_from_member(l, m.members@, m.canonical@, target, a);
            let g = l.groups[m.members@[k] as int];
            let from = if g.identity@ == m.canonical@ {
                None
            } else {
                Some(g.identity@)
            };
            let p = lemma_from_pin(l, g.pins@, m.canonical@, target, from, a);
            lemma_member_pins(l, m.members@, p);
            p
        } else {
            let g = l.groups[gi as int];
            lemma_from_pin(l, g.pins@, g.identity@, target, None, a)
        };
        assert(l.pins_at(gi).contains(p));
        let j = choose|j: int| 0 <= j < l.pins_at(gi).len() && l.pins_at(gi)[j] == p;
        l.pins_at(gi).lemma_filter_contains(keep, j);
        let i = choose|i: int| 0 <= i < l.acting_at(gi).len() && l.acting_at(gi)[i] == p;
        assert(moves(a, l.acting_at(gi)[i], target));
    }
}

/// The pin that an action is about.
proof fn lemma_from_pin(
    l: Listing,
    pins: Seq<Pin>,
    identity: IdentityView,
    target: Seq<char>,
    from: Option<IdentityView>,
    a: ActionView,
) -> (p: Pin)
    requires
        pin_actions(l, pins, identity, target, from).contains(a),
    ensures
        pins.contains(p),
        l.acts_on(p),
        moves(a, p, target),
{
    let all = pin_actions(l, pins, identity, target, from);
    let k = choose|k: int| 0 <= k < all.len() && all[k] == a;
    lemma_pin_actions(l, pins, identity, target, from, k);
    let i = choose|i: int|
        0 <= i < pins.len() && l.acts_on(#[trigger] pins[i]) && (from is Some || pins[i].version@
            != target) && all[k] == sync::action_on(pins[i], identity, target, from);
    pins[i]
}

/// The member of a merge that an action is about.
proof fn lemma_from_member(
    l: Listing,
    members: Seq<usize>,
    canonical: IdentityView,
    target: Seq<char>,
    a: ActionView,
) -> (k: int)
    requires
        merge_actions(l, members, canonical, target).contains(a),
    ensures
        0 <= k < members.len(),
        member_actions(l, l.groups[members[k] as int], canonical, target).contains(a),
    decreases members.len(),
{
    let all = merge_actions(l, members, canonical, target);
    let j = choose|j: int| 0 <= j < all.len() && all[j] == a;
    let head = members.drop_last();
    let x = merge_actions(l, head, canonical, target);
    let y = member_actions(l, l.groups[members.last() as int], canonical, target);
    if j < x.len() {
        assert(x[j] == a);
        let k = lemma_from_member(l, head, canonical, target, a);
        assert(head[k] == members[k]);
        k
    } else {
        assert(y[j - x.len()] == a);
        members.len() - 1
    }
}

/// The actions of all groups are those of each.
proof fn lemma_all_actions(
    l: Listing,
    chosen: Map<usize, Seq<char>>,
    keys: Seq<usize>,
    a: ActionView,
)
    ensures
        all_actions(l, chosen, keys).contains(a) <==> exists|j: int|
            0 <= j < keys.len() && #[trigger] group_actions(l, keys[j], chosen[keys[j]]).contains(
                a,
            ),
    decreases keys.len(),
{
    if keys.len() > 0 {
        let head = keys.drop_last();
        let x = all_actions(l, chosen, head);
        let y = group_actions(l, keys.last(), chosen[keys.last()]);
        let all = all_actions(l, chosen, keys);
        lemma_all_actions(l, chosen, head, a);
        assert(all == x + y);
        if all.contains(a) {
            let i = choose|i: int| 0 <= i < all.len() && all[i] == a;
            if i < x.len() {
                assert(x[i] == a);
                let j = choose|j: int|
                    0 <= j < head.len() && #[trigger] group_actions(
                        l,
                        head[j],
                        chosen[head[j]],
                    ).contains(a);
                assert(group_actions(l, keys[j], chosen[keys[j]]).contains(a));
            } else {
                assert(y[i - x.len()] == a);
                let j = keys.len() - 1;
                assert(group_actions(l, keys[j], chosen[keys[j]]).contains(a));
            }
        }
        if exists|j: int|
            0 <= j < keys.len() && #[trigger] group_actions(l, keys[j], chosen[keys[j]]).contains(
                a,
            ) {
            let j = choose|j: int|
                0 <= j < keys.len() && #[trigger] group_actions(
                    l,
                    keys[j],
                    chosen[keys[j]],
                ).contains(a);
            if j < head.len() {
                assert(group_actions(l, head[j], chosen[head[j]]).contains(a));
                let i = choose|i: int| 0 <= i < x.len() && x[i] == a;
                assert(all[i] == a);
            } else {
                let i = choose|i: int| 0 <= i < y.len() && y[i] == a;
                assert(all[x.len() + i] == a);
            }
        }
    }
}

/// The plan holds what the selected groups amount to, and nothing else.
proof fn lemma_plan(app: App, a: ActionView)
    requires
        app.targets@.dom().finite(),
    ensures
        app.plan().contains(a) <==> exists|gi: usize|
            app.targets@.contains_key(gi) && #[trigger] group_actions(
                app.listing(),
                gi,
                app.chosen()[gi],
            ).contains(a),
{
    let l = app.listing();
    let keys = indices::listed(app.targets@.dom());
    let all = all_actions(l, app.chosen(), keys);
    lemma_action_order();
    order::law_sorted(all, action_lt());
    indices::lemma_listed(app.targets@.dom());
    lemma_all_actions(l, app.chosen(), keys, a);
    broadcast use vstd::seq_lib::group_to_multiset_ensures;

    assert(app.plan().contains(a) <==> app.plan().to_multiset().count(a) > 0);
    assert(all.contains(a) <==> all.to_multiset().count(a) > 0);
    if all.contains(a) {
        let j = choose|j: int|
            0 <= j < keys.len() && #[trigger] group_actions(
                l,
                keys[j],
                app.chosen()[keys[j]],
            ).contains(a);
        assert(keys.contains(keys[j]));
        assert(app.targets@.contains_key(keys[j]));
    }
    if exists|gi: usize|
        app.targets@.contains_key(gi) && #[trigger] group_actions(
            l,
            gi,
            app.chosen()[gi],
        ).contains(a) {
        let gi = choose|gi: usize|
            app.targets@.contains_key(gi) && #[trigger] group_actions(
                l,
                gi,
                app.chosen()[gi],
            ).contains(a);
        assert(keys.contains(gi));
        let j = choose|j: int| 0 <= j < keys.len() && keys[j] == gi;
        assert(group_actions(l, keys[j], app.chosen()[keys[j]]).contains(a));
    }
}

/// Carrying the plan out converges every selected group: each of its acting pins is on
/// the chosen version already, or the plan moves it there.
pub proof fn law_a_plan_converges_what_is_selected(app: App, gi: usize, i: int)
    requires
        app.wf(),
        app.targets@.dom().finite(),
        app.targets@.contains_key(gi),
        0 <= i < app.listing().acting_at(gi).len(),
        app.listing().acting_at(gi)[i].version@ != app.chosen()[gi],
    ensures
        exists|k: int|
            0 <= k < app.plan().len() && moves(
                #[trigger] app.plan()[k],
                app.listing().acting_at(gi)[i],
                app.chosen()[gi],
            ),
{
    let l = app.listing();
    let pin = l.acting_at(gi)[i];
    let target = app.chosen()[gi];
    if l.merges.contains_key(gi) {
        assert(app.merge_ok(gi, app.merges@[gi]));
    }
    lemma_group_actions(l, gi, target);
    let a = choose|a: ActionView| #[trigger]
        group_actions(l, gi, target).contains(a) && moves(a, pin, target);
    lemma_plan(app, a);
    let k = choose|k: int| 0 <= k < app.plan().len() && app.plan()[k] == a;
    assert(moves(app.plan()[k], pin, target));
}

/// Nothing else is touched: every action of the plan moves an acting pin of a selected
/// group to the version chosen for it. A transitive pin is never among them, nor, with
/// the rooted filter on, one whose project holds no GC root.
pub proof fn law_only_acting_pins_are_planned(app: App, k: int)
    requires
        app.wf(),
        app.targets@.dom().finite(),
        0 <= k < app.plan().len(),
    ensures
        exists|gi: usize, i: int|
            app.targets@.contains_key(gi) && 0 <= i < app.listing().acting_at(gi).len() && moves(
                app.plan()[k],
                #[trigger] app.listing().acting_at(gi)[i],
                app.chosen()[gi],
            ),
{
    let l = app.listing();
    let a = app.plan()[k];
    assert(app.plan().contains(a));
    lemma_plan(app, a);
    let gi = choose|gi: usize|
        app.targets@.contains_key(gi) && #[trigger] group_actions(
            l,
            gi,
            app.chosen()[gi],
        ).contains(a);
    if l.merges.contains_key(gi) {
        assert(app.merge_ok(gi, app.merges@[gi]));
    }
    lemma_group_actions(l, gi, app.chosen()[gi]);
    let i = choose|i: int|
        0 <= i < l.acting_at(gi).len() && moves(a, #[trigger] l.acting_at(gi)[i], app.chosen()[gi]);
    assert(moves(app.plan()[k], l.acting_at(gi)[i], app.chosen()[gi]));
}

/// The movers of all groups come from a pin of one of them that is off its target.
proof fn lemma_all_movers(
    l: Listing,
    chosen: Map<usize, Seq<char>>,
    keys: Seq<usize>,
    project: Seq<char>,
)
    requires
        all_movers(l, chosen, keys).contains(project),
    ensures
        exists|j: int, i: int|
            0 <= j < keys.len() && 0 <= i < l.acting_at(keys[j]).len() && (
            #[trigger] l.acting_at(keys[j])[i]).project@ == project && l.acting_at(
                keys[j],
            )[i].version@ != chosen[keys[j]],
    decreases keys.len(),
{
    let head = keys.drop_last();
    let x = all_movers(l, chosen, head);
    let pins = l.acting_at(keys.last());
    let y = movers(pins, chosen[keys.last()]);
    let k = choose|k: int| 0 <= k < (x + y).len() && (x + y)[k] == project;
    if k < x.len() {
        assert(x[k] == project);
        lemma_all_movers(l, chosen, head, project);
        let (j, i) = choose|j: int, i: int|
            0 <= j < head.len() && 0 <= i < l.acting_at(head[j]).len() && (
            #[trigger] l.acting_at(head[j])[i]).project@ == project && l.acting_at(
                head[j],
            )[i].version@ != chosen[head[j]];
        assert(l.acting_at(keys[j])[i].project@ == project);
    } else {
        let i = lemma_movers(pins, chosen[keys.last()], k - x.len());
        let j = keys.len() - 1;
        assert(l.acting_at(keys[j])[i].project@ == project);
    }
}

/// The pin that makes a project a mover.
proof fn lemma_movers(pins: Seq<Pin>, version: Seq<char>, k: int) -> (i: int)
    requires
        0 <= k < movers(pins, version).len(),
    ensures
        0 <= i < pins.len(),
        pins[i].project@ == movers(pins, version)[k],
        pins[i].version@ != version,
    decreases pins.len(),
{
    let head = movers(pins.drop_last(), version);
    if k < head.len() {
        lemma_movers(pins.drop_last(), version, k)
    } else {
        pins.len() - 1
    }
}

/// Savings are claimed only for what the plan would do: every project whose roots are
/// counted as freed has an action in the plan.
pub proof fn law_savings_come_from_the_plan(app: App, project: Seq<char>)
    requires
        app.wf(),
        app.targets@.dom().finite(),
        app.moving().contains(project),
    ensures
        exists|k: int| 0 <= k < app.plan().len() && (#[trigger] app.plan()[k]).project == project,
{
    let l = app.listing();
    let keys = indices::listed(app.targets@.dom());
    lemma_all_movers(l, app.chosen(), keys, project);
    let (j, i) = choose|j: int, i: int|
        0 <= j < keys.len() && 0 <= i < l.acting_at(keys[j]).len() && (#[trigger] l.acting_at(
            keys[j],
        )[i]).project@ == project && l.acting_at(keys[j])[i].version@ != app.chosen()[keys[j]];
    indices::lemma_listed(app.targets@.dom());
    assert(keys.contains(keys[j]));
    law_a_plan_converges_what_is_selected(app, keys[j], i);
}

/// The rewrites of `flake.nix` files come before everything else in the plan.
pub proof fn law_rewrites_come_first(app: App, i: int, j: int)
    requires
        0 <= i < j < app.plan().len(),
        app.plan()[j].from_identity is Some,
    ensures
        app.plan()[i].from_identity is Some,
{
    lemma_action_order();
    order::law_sorted(
        all_actions(app.listing(), app.chosen(), indices::listed(app.targets@.dom())),
        action_lt(),
    );
    assert(!action_lt()(app.plan()[j], app.plan()[i]));
}

proof fn lemma_actions_of_pins(
    l: Listing,
    pins: Seq<Pin>,
    identity: IdentityView,
    target: Seq<char>,
    from: Option<IdentityView>,
)
    ensures
        forall|k: int|
            0 <= k < pin_actions(l, pins, identity, target, from).len() ==> (
            #[trigger] pin_actions(l, pins, identity, target, from)[k]).identity == identity
                && pin_actions(l, pins, identity, target, from)[k].from_identity == from,
        pin_actions(l, pins, identity, target, from).len() == pins.filter(
            |p: Pin| l.acts_on(p) && (from is Some || p.version@ != target),
        ).len(),
    decreases pins.len(),
{
    reveal(Seq::filter);
    if pins.len() > 0 {
        lemma_actions_of_pins(l, pins.drop_last(), identity, target, from);
    }
}

/// There is one action for each pin that is to be moved: for those that count and pin
/// another version, and for those that declare another ref.
pub proof fn law_each_pin_is_moved_once(
    l: Listing,
    pins: Seq<Pin>,
    identity: IdentityView,
    target: Seq<char>,
    from: Option<IdentityView>,
)
    ensures
        pin_actions(l, pins, identity, target, from).len() == pins.filter(
            |p: Pin| l.acts_on(p) && (from is Some || p.version@ != target),
        ).len(),
{
    lemma_actions_of_pins(l, pins, identity, target, from);
}

/// Whether `a` is of what the merge `members` onto `canonical` covers.
pub open spec fn is_of_merge(
    l: Listing,
    members: Seq<usize>,
    canonical: IdentityView,
    a: ActionView,
) -> bool {
    &&& a.identity == canonical
    &&& a.from_identity matches Some(from) ==> from != canonical && exists|m: int|
        0 <= m < members.len() && l.groups[#[trigger] members[m] as int].identity@ == from
}

proof fn lemma_actions_of_merge(
    l: Listing,
    members: Seq<usize>,
    canonical: IdentityView,
    target: Seq<char>,
    k: int,
)
    requires
        0 <= k < merge_actions(l, members, canonical, target).len(),
    ensures
        is_of_merge(l, members, canonical, merge_actions(l, members, canonical, target)[k]),
    decreases members.len(),
{
    let head = members.drop_last();
    let n = head.len() as int;
    let x = merge_actions(l, head, canonical, target);
    let g = l.groups[members.last() as int];
    let y = member_actions(l, g, canonical, target);
    let a = (x + y)[k];
    assert(members[n] == members.last());
    if k < x.len() {
        lemma_actions_of_merge(l, head, canonical, target, k);
        assert(a == x[k]);
        if a.from_identity is Some {
            let from = a.from_identity->0;
            let m = choose|m: int|
                0 <= m < head.len() && l.groups[#[trigger] head[m] as int].identity@ == from;
            assert(members[m] == head[m]);
        }
    } else {
        assert(a == y[k - x.len()]);
        if g.identity@ == canonical {
            lemma_actions_of_pins(l, g.pins@, canonical, target, None);
        } else {
            lemma_actions_of_pins(l, g.pins@, canonical, target, Some(g.identity@));
        }
    }
}

/// Every action keeps to the repository of its group: it pins the identity of the group
/// as it stands, or the ref that a merge settled on, and only what declares another ref of
/// that merge is rewritten.
pub proof fn law_every_action_pins_the_identity_of_its_group(app: App, k: int)
    requires
        app.wf(),
        app.targets@.dom().finite(),
        0 <= k < app.plan().len(),
    ensures
        exists|gi: usize| #[trigger]
            app.targets@.contains_key(gi) && if app.merges@.contains_key(gi) {
                is_of_merge(
                    app.listing(),
                    app.merges@[gi].members@,
                    app.merges@[gi].canonical@,
                    app.plan()[k],
                )
            } else {
                app.plan()[k].identity == app.groups@[gi as int].identity@
                    && app.plan()[k].from_identity is None
            },
{
    let l = app.listing();
    let a = app.plan()[k];
    assert(app.plan().contains(a));
    lemma_plan(app, a);
    let gi = choose|gi: usize|
        app.targets@.contains_key(gi) && #[trigger] group_actions(
            l,
            gi,
            app.chosen()[gi],
        ).contains(a);
    let target = app.chosen()[gi];
    let all = group_actions(l, gi, target);
    let i = choose|i: int| 0 <= i < all.len() && all[i] == a;
    if l.merges.contains_key(gi) {
        lemma_actions_of_merge(l, l.merges[gi].members@, l.merges[gi].canonical@, target, i);
    } else {
        let g = l.groups[gi as int];
        lemma_actions_of_pins(l, g.pins@, g.identity@, target, None);
    }
}

/// Among the rewrites, and among the rest, the plan goes from project to project in the
/// order of their paths.
pub proof fn law_a_plan_goes_by_project(app: App, i: int, j: int)
    requires
        0 <= i < j < app.plan().len(),
        app.plan()[i].from_identity is Some == app.plan()[j].from_identity is Some,
    ensures
        !paths::path_lt(app.plan()[j].project, app.plan()[i].project),
{
    lemma_action_order();
    order::law_sorted(
        all_actions(app.listing(), app.chosen(), indices::listed(app.targets@.dom())),
        action_lt(),
    );
    assert(!action_lt()(app.plan()[j], app.plan()[i]));
}

/// Nothing is planned where nothing is selected.
pub proof fn law_nothing_selected_nothing_planned(app: App)
    requires
        app.targets@ == Map::<usize, String>::empty(),
    ensures
        app.plan().len() == 0,
{
    assert(app.targets@.dom() =~= Set::<usize>::empty());
    indices::lemma_listed(Set::<usize>::empty());
    assert(indices::listed(Set::<usize>::empty()) =~= Seq::<usize>::empty());
}

// ---------------------------------------------------------------------------
// Previews of the edits
// ---------------------------------------------------------------------------

/// What is known of the `flake.nix` of a planned rewrite: what it reads, if it could
/// be read, and what came of rendering the diff of the edit.
#[derive(Debug)]
pub struct Inspected {
    pub source: Option<String>,
    pub captured: Option<diff::Captured>,
}

/// The diff as it is shown: as the differ rendered it, or plain.
pub open spec fn shown_diff(
    diff: Seq<char>,
    differ: Seq<String>,
    captured: Option<diff::Captured>,
) -> Seq<char> {
    if diff.len() == 0 {
        Seq::empty()
    } else {
        match captured {
            Some(c) => if differ.len() > 0 && c.success && c.stdout@.len() > 0 {
                c.stdout@
            } else {
                diff
            },
            None => diff,
        }
    }
}

/// What the `flake.nix` of `project` reads once the edits of `previews` have been
/// performed one after the other, where it reads `source` before: the text the last
/// edit of that file leaves.
pub open spec fn standing(
    previews: Seq<EditPreview>,
    project: Seq<char>,
    source: Option<Seq<char>>,
) -> Option<Seq<char>>
    decreases previews.len(),
{
    if previews.len() == 0 {
        source
    } else {
        let last = previews.last();
        match last.edit {
            Ok(edit) => if paths::same_path(last.project@, project) {
                Some(edit.after@)
            } else {
                standing(previews.drop_last(), project, source)
            },
            Err(_) => standing(previews.drop_last(), project, source),
        }
    }
}

/// What a project's `flake.nix` will read by the time an edit is performed that comes
/// behind those of `previews`.
fn standing_text(previews: &Vec<EditPreview>, project: &str, source: Option<String>) -> (r: Option<
    String,
>)
    ensures
        text::view_of(r) == standing(previews@, project@, text::view_of(source)),
{
    let mut i: usize = previews.len();
    assert(previews@.take(i as int) == previews@);
    while i > 0
        invariant
            i <= previews.len(),
            standing(previews@.take(i as int), project@, text::view_of(source)) == standing(
                previews@,
                project@,
                text::view_of(source),
            ),
        decreases i,
    {
        assert(previews@.take(i as int).drop_last() == previews@.take(i - 1));
        if let Ok(edit) = &previews[i - 1].edit {
            if paths::is_same_path(previews[i - 1].project.as_str(), project) {
                return Some(edit.after.clone());
            }
        }
        i -= 1;
    }
    source
}

/// Whether `preview` is that of the action `a`, which writes `url`, for a file that
/// will read `source`: the edit with its diff, or why there is none.
pub open spec fn is_preview(
    preview: EditPreview,
    a: ActionView,
    url: Seq<char>,
    source: Option<Seq<char>>,
    captured: Option<diff::Captured>,
    differ: Seq<String>,
) -> bool {
    &&& preview.project@ == a.project
    &&& preview.input_name@ == a.input_name
    &&& match preview.edit {
        Ok(edit) => {
            &&& source matches Some(before)
            &&& nix_edit::is_edit(edit, a.project, a.input_name, url, before)
            &&& preview.rendered@ == shown_diff(
                diff::diff_text(edit.path@, edit.before@, edit.after@),
                differ,
                captured,
            )
        },
        Err(message) => {
            &&& preview.rendered@.len() == 0
            &&& match source {
                Some(before) => nix_edit::url_in(before, a.input_name) is None && message@
                    == "could not locate `"@ + a.input_name + "`'s url in "@ + nix_edit::flake_nix(
                    a.project,
                ) + " — its inputs block has a shape this tool will not edit blindly"@,
                None => message@ == "reading "@ + nix_edit::flake_nix(a.project),
            }
        },
    }
}

/// Whether `previews` are those of `actions`, for files that were inspected: each is
/// planned on what the ones before it leave in its file.
pub open spec fn are_previews(
    previews: Seq<EditPreview>,
    actions: Seq<ActionView>,
    inspected: Seq<Inspected>,
    differ: Seq<String>,
) -> bool {
    &&& previews.len() == actions.len()
    &&& previews.len() == inspected.len()
    &&& forall|k: int|
        0 <= k < previews.len() ==> is_preview(
            #[trigger] previews[k],
            actions[k],
            actions[k].identity.url_text(),
            standing(previews.take(k), actions[k].project, text::view_of(inspected[k].source)),
            inspected[k].captured,
            differ,
        )
}

/// The preview of one rewrite of a file that will read `source`.
fn preview(
    action: &Action,
    url: &str,
    source: Option<String>,
    captured: Option<diff::Captured>,
    differ: &Vec<String>,
) -> (r: EditPreview)
    ensures
        is_preview(r, action@, url@, text::view_of(source), captured, differ@),
{
    let planned = nix_edit::plan_edit(
        action.project.as_str(),
        action.input_name.as_str(),
        url,
        source,
    );
    match planned {
        Ok(edit) => {
            let d = diff::unified(edit.path.as_str(), edit.before.as_str(), edit.after.as_str());
            EditPreview {
                project: action.project.clone(),
                input_name: action.input_name.clone(),
                rendered: diff::render(d.as_str(), differ, captured),
                edit: Ok(edit),
            }
        },
        Err(e) => EditPreview {
            project: action.project.clone(),
            input_name: action.input_name.clone(),
            rendered: String::new(),
            edit: Err(e.message()),
        },
    }
}

/// The actions that rewrite a `flake.nix`.
pub open spec fn rewrites(actions: Seq<ActionView>) -> Seq<ActionView> {
    actions.filter(|a: ActionView| a.from_identity is Some)
}

/// The first of `previews` that is about `project` and `input_name`.
pub open spec fn first_preview(
    previews: Seq<EditPreview>,
    project: Seq<char>,
    input_name: Seq<char>,
) -> Option<EditPreview>
    decreases previews.len(),
{
    if previews.len() == 0 {
        None
    } else if paths::same_path(previews[0].project@, project) && previews[0].input_name@
        == input_name {
        Some(previews[0])
    } else {
        first_preview(previews.drop_first(), project, input_name)
    }
}

/// The planned edit for a project, if it was computed and is applicable.
pub open spec fn edit_among(
    previews: Seq<EditPreview>,
    project: Seq<char>,
    input_name: Seq<char>,
) -> Option<PendingEdit> {
    match first_preview(previews, project, input_name) {
        Some(p) => match p.edit {
            Ok(edit) => Some(edit),
            Err(_) => None,
        },
        None => None,
    }
}

/// One more preview, planned on what the others leave.
proof fn lemma_previews_push(
    previews: Seq<EditPreview>,
    actions: Seq<ActionView>,
    inspected: Seq<Inspected>,
    differ: Seq<String>,
    preview: EditPreview,
    a: ActionView,
    seen: Inspected,
)
    requires
        are_previews(previews, actions, inspected, differ),
        is_preview(
            preview,
            a,
            a.identity.url_text(),
            standing(previews, a.project, text::view_of(seen.source)),
            seen.captured,
            differ,
        ),
    ensures
        are_previews(previews.push(preview), actions.push(a), inspected.push(seen), differ),
{
    let all = previews.push(preview);
    assert forall|k: int| 0 <= k < all.len() implies is_preview(
        #[trigger] all[k],
        actions.push(a)[k],
        actions.push(a)[k].identity.url_text(),
        standing(
            all.take(k),
            actions.push(a)[k].project,
            text::view_of(inspected.push(seen)[k].source),
        ),
        inspected.push(seen)[k].captured,
        differ,
    ) by {
        assert(all.take(k) == previews.take(k));
        if k < previews.len() {
            assert(all[k] == previews[k]);
        } else {
            assert(previews.take(k) == previews);
        }
    }
}

/// Once a file has been edited, what it reads no longer depends on what it read before,
/// nor on how its path is spelled.
proof fn lemma_standing(
    previews: Seq<EditPreview>,
    p: Seq<char>,
    q: Seq<char>,
    s: Option<Seq<char>>,
    t: Option<Seq<char>>,
    k: int,
)
    requires
        0 <= k < previews.len(),
        previews[k].edit is Ok,
        paths::same_path(previews[k].project@, p),
        paths::same_path(p, q),
    ensures
        standing(previews, p, s) == standing(previews, q, t),
    decreases previews.len(),
{
    if k < previews.len() - 1 {
        lemma_standing(previews.drop_last(), p, q, s, t, k);
    }
}

/// Whether the url that the action `a` writes can be read back: it holds nothing that
/// would end the literal or mean something in it.
pub open spec fn writes_plainly(a: ActionView) -> bool {
    nix_edit::is_plain(a.identity.url_text()) && !a.identity.url_text().contains('"')
}

/// Every rewrite of a plan stands: when the edits of the first `n` previews have been
/// performed, the `flake.nix` of a project declares for each of its inputs that was to
/// be rewritten the url that was wanted, however many of them it has.
pub proof fn law_every_rewrite_stands(
    previews: Seq<EditPreview>,
    actions: Seq<ActionView>,
    inspected: Seq<Inspected>,
    differ: Seq<String>,
    source: Option<Seq<char>>,
    k: int,
    n: int,
)
    requires
        are_previews(previews, actions, inspected, differ),
        0 <= k < n <= previews.len(),
        previews[k].edit is Ok,
        forall|j: int|
            k <= j < n && paths::same_path(
                (#[trigger] actions[j]).project,
                actions[k].project,
            ) ==> writes_plainly(actions[j]) && (j != k ==> actions[j].input_name
                != actions[k].input_name),
    ensures
        standing(previews.take(n), actions[k].project, source) matches Some(text)
            && nix_edit::url_in(text, actions[k].input_name) matches Some((a, b))
            && text.subrange(a, b) == actions[k].identity.url_text(),
    decreases n,
{
    let url = actions[k].identity.url_text();
    let name = actions[k].input_name;
    let project = actions[k].project;
    let all = previews.take(n);
    let last = previews[n - 1];
    assert(all.last() == last);
    assert(all.drop_last() == previews.take(n - 1));
    let other = actions[n - 1];
    if n - 1 == k {
        let edit = last.edit->Ok_0;
        let (a, b) = nix_edit::url_in(edit.before@, name)->0;
        nix_edit::law_found_url_is_the_first_declared(edit.before@, name, a, b);
        nix_edit::law_replaced_url_is_found_again(edit.before@, name, a, b, url);
        assert(edit.after@.subrange(a, a + url.len()) == url);
    } else {
        law_every_rewrite_stands(previews, actions, inspected, differ, source, k, n - 1);
        if last.edit is Ok && paths::same_path(other.project, project) {
            let edit = last.edit->Ok_0;
            let (a, b) = nix_edit::url_in(edit.before@, other.input_name)->0;
            assert(previews.take(n - 1)[k] == previews[k]);
            lemma_standing(
                previews.take(n - 1),
                project,
                other.project,
                source,
                text::view_of(inspected[n - 1].source),
                k,
            );
            nix_edit::law_other_urls_stay(
                edit.before@,
                other.input_name,
                name,
                a,
                b,
                other.identity.url_text(),
            );
        }
    }
}

impl App {
    /// Take in the `flake.nix` diff of every ref-changing action, given what is known
    /// of each file, in the order of the actions.
    ///
    /// Done when staging rather than when executing so the confirm screen shows the
    /// real before/after of each file — including the projects that cannot be
    /// rewritten, which the user needs to know about *before* approving a plan, not
    /// after it half-runs. A file that is rewritten more than once is planned on what
    /// the earlier edit leaves, so that a later one does not undo it.
    #[verifier::rlimit(60)]
    pub fn compute_diffs(&mut self, inspected: Vec<Inspected>)
        requires
            inspected@.len() == rewrites(action_views(old(self).pending@)).len(),
        ensures
            are_previews(
                final(self).pending_diffs@,
                rewrites(action_views(old(self).pending@)),
                inspected@,
                old(self).config.differ@,
            ),
            *final(self) == (App { pending_diffs: final(self).pending_diffs, ..*old(self) }),
            old(self).wf() ==> final(self).wf(),
    {
        let ghost all = action_views(self.pending@);
        let ghost given = inspected@;
        let ghost before = *self;
        let mut rest = inspected;
        let mut out: Vec<EditPreview> = Vec::new();
        let mut i: usize = 0;
        proof {
            reveal(Seq::filter);
            assert(rewrites(all.take(0)).len() == 0);
        }
        while i < self.pending.len()
            invariant
                i <= self.pending.len(),
                *self == before,
                all == action_views(self.pending@),
                given.len() == rewrites(all).len(),
                out@.len() <= given.len(),
                rest@ == given.skip(out@.len() as int),
                are_previews(
                    out@,
                    rewrites(all.take(i as int)),
                    given.take(out@.len() as int),
                    before.config.differ@,
                ),
            decreases self.pending.len() - i,
        {
            let ghost head = rewrites(all.take(i as int));
            proof {
                reveal(Seq::filter);
                assert(all.take(i + 1).drop_last() == all.take(i as int));
                lemma_rewrites_prefix(all, i + 1);
            }
            if let Some(url) = self.pending[i].target_url() {
                let ghost done = out@;
                assert(rewrites(all.take(i + 1)) == head.push(all[i as int]));
                let one = rest.remove(0);
                assert(one == given[done.len() as int]);
                let source = standing_text(&out, self.pending[i].project.as_str(), one.source);
                let p = preview(
                    &self.pending[i],
                    url.as_str(),
                    source,
                    one.captured,
                    &self.config.differ,
                );
                out.push(p);
                proof {
                    let seen = given.take(done.len() as int);
                    let differ = before.config.differ@;
                    lemma_previews_push(done, head, seen, differ, p, all[i as int], one);
                    assert(given.take(out@.len() as int) == seen.push(one));
                }
            }
            i += 1;
        }
        assert(all.take(i as int) == all);
        assert(given.take(out@.len() as int) == given);
        self.pending_diffs = out;
    }

    /// The planned edit for a project, if it was computed and is applicable.
    pub fn edit_for(&self, project: &str, input_name: &str) -> (r: Option<&PendingEdit>)
        ensures
            match r {
                Some(edit) => edit_among(self.pending_diffs@, project@, input_name@) == Some(*edit),
                None => edit_among(self.pending_diffs@, project@, input_name@) is None,
            },
    {
        let mut i: usize = 0;
        assert(self.pending_diffs@.skip(0) == self.pending_diffs@);
        while i < self.pending_diffs.len()
            invariant
                i <= self.pending_diffs.len(),
                first_preview(self.pending_diffs@.skip(i as int), project@, input_name@)
                    == first_preview(self.pending_diffs@, project@, input_name@),
            decreases self.pending_diffs.len() - i,
        {
            let p = &self.pending_diffs[i];
            if paths::is_same_path(p.project.as_str(), project) && text::same(
                p.input_name.as_str(),
                input_name,
            ) {
                return match &p.edit {
                    Ok(edit) => Some(edit),
                    Err(_) => None,
                };
            }
            assert(self.pending_diffs@.skip(i as int).drop_first() == self.pending_diffs@.skip(
                i + 1,
            ));
            i += 1;
        }
        None
    }

    /// Projects in the plan whose `flake.nix` could not be rewritten.
    pub fn unwritable(&self) -> (r: Vec<&EditPreview>)
        ensures
            r@.unref() == self.pending_diffs@.filter(|p: EditPreview| p.edit is Err),
    {
        let ghost keep = |p: EditPreview| p.edit is Err;
        let mut r: Vec<&EditPreview> = Vec::new();
        let mut i: usize = 0;
        assert(r@.unref() == self.pending_diffs@.take(0).filter(keep)) by {
            reveal(Seq::filter);
        }
        while i < self.pending_diffs.len()
            invariant
                i <= self.pending_diffs.len(),
                keep == (|p: EditPreview| p.edit is Err),
                r@.unref() == self.pending_diffs@.take(i as int).filter(keep),
            decreases self.pending_diffs.len() - i,
        {
            proof {
                reveal(Seq::filter);
                assert(self.pending_diffs@.take(i + 1).drop_last() == self.pending_diffs@.take(
                    i as int,
                ));
            }
            let ghost done = r@;
            if self.pending_diffs[i].is_error() {
                r.push(&self.pending_diffs[i]);
                assert(r@.unref() == done.unref().push(self.pending_diffs@[i as int]));
            }
            i += 1;
        }
        assert(self.pending_diffs@.take(i as int) == self.pending_diffs@);
        r
    }

    /// Give the plan up and go back to browsing.
    pub fn cancel(&mut self)
        ensures
            final(self).pending@.len() == 0,
            final(self).pending_diffs@.len() == 0,
            final(self).status@ == "cancelled"@,
            *final(self) == (App {
                pending: final(self).pending,
                pending_diffs: final(self).pending_diffs,
                mode: Mode::Browse,
                status: final(self).status,
                ..*old(self)
            }),
            old(self).wf() ==> final(self).wf(),
    {
        self.pending = Vec::new();
        self.pending_diffs = Vec::new();
        self.mode = Mode::Browse;
        self.status = "cancelled".to_owned();
    }

    // -----------------------------------------------------------------------
    // Running
    // -----------------------------------------------------------------------

    /// Enter `Mode::Running` with a work total to count against.
    ///
    /// `extra` covers the post-update root dropping, which is real work the user
    /// waits on and so must be part of the denominator — a bar that hits 100% and
    /// then keeps going is worse than no bar.
    pub fn begin_running(&mut self, extra: usize)
        requires
            old(self).pending@.len() + extra <= usize::MAX,
        ensures
            final(self).running matches Some(r) && r.total == old(self).pending@.len() + extra
                && r.done == 0 && r.current is None && r.log@.len() == 0,
            *final(self) == (App {
                running: final(self).running,
                mode: Mode::Running,
                ..*old(self)
            }),
            old(self).wf() ==> final(self).wf(),
    {
        self.running = Some(Running::new(self.pending.len() + extra));
        self.mode = Mode::Running;
    }

    /// Note what is starting, so the display can name it while it blocks.
    pub fn step_started(&mut self, step: Step, project: &str, input: &str)
        ensures
            match old(self).running {
                Some(before) => final(self).running matches Some(r) && (r.current matches Some((s, p, n))
                    && s == step && p@ == project@ && n@ == input@) && r == (Running {
                    current: r.current,
                    ..before
                }),
                None => final(self).running is None,
            },
            *final(self) == (App { running: final(self).running, ..*old(self) }),
            old(self).wf() ==> final(self).wf(),
    {
        let mut running: Option<Running> = None;
        std::mem::swap(&mut running, &mut self.running);
        self.running = match running {
            Some(r) => Some(
                Running {
                    total: r.total,
                    done: r.done,
                    current: Some((step, project.to_owned(), input.to_owned())),
                    log: r.log,
                },
            ),
            None => None,
        };
    }

    /// Record a finished step. `counts` is false for sub-steps that share an action's
    /// slot in the total, such as the edit that precedes an update.
    pub fn step_finished(&mut self, ok: bool, text: String, counts: bool)
        requires
            counts ==> (old(self).running matches Some(r) ==> r.done < usize::MAX),
        ensures
            match old(self).running {
                Some(before) => final(self).running matches Some(r) && r.log@ == before.log@.push(
                    Outcome { ok, text },
                ) && r.done == before.done + (if counts {
                    1int
                } else {
                    0int
                }) && r.current is None && r.total == before.total,
                None => final(self).running is None,
            },
            *final(self) == (App { running: final(self).running, ..*old(self) }),
            old(self).wf() ==> final(self).wf(),
    {
        let mut running: Option<Running> = None;
        std::mem::swap(&mut running, &mut self.running);
        self.running = match running {
            Some(r) => {
                let mut log = r.log;
                log.push(Outcome { ok, text });
                let done: usize = if counts {
                    r.done + 1
                } else {
                    r.done
                };
                Some(Running { total: r.total, done, current: None, log })
            },
            None => None,
        };
    }
}

proof fn lemma_rewrites_prefix(all: Seq<ActionView>, n: int)
    requires
        0 <= n <= all.len(),
    ensures
        rewrites(all.take(n)).len() <= rewrites(all).len(),
    decreases all.len() - n,
{
    if n < all.len() {
        lemma_rewrites_prefix(all, n + 1);
        reveal(Seq::filter);
        assert(all.take(n + 1).drop_last() == all.take(n));
    } else {
        assert(all.take(n) == all);
    }
}

// ---------------------------------------------------------------------------
// Moving about
// ---------------------------------------------------------------------------

/// The furthest the details can be scrolled: their lines, as far as 16 bits count
/// them, less one.
pub open spec fn scroll_limit(row: Option<VersionRowView>) -> int {
    let lines = match row {
        Some(r) => if r.pins.len() + 4 > usize::MAX {
            usize::MAX as int % 0x1_0000
        } else {
            (r.pins.len() + 4) as int % 0x1_0000
        },
        None => 0,
    };
    if lines > 0 {
        lines - 1
    } else {
        0
    }
}

/// `scroll` moved by `delta`, kept between zero and `limit`.
pub open spec fn scrolled(scroll: int, delta: int, limit: int) -> int {
    if scroll + delta < 0 {
        0
    } else if scroll + delta < limit {
        scroll + delta
    } else {
        limit
    }
}

impl App {
    /// Scroll the details pane, for versions pinned by more projects than fit.
    ///
    /// Clamped to the line count so scrolling cannot run off into blank space.
    pub fn scroll_details(&mut self, delta: i16)
        ensures
            final(self).details_scroll == scrolled(
                old(self).details_scroll as int,
                delta as int,
                scroll_limit(old(self).row_view()),
            ),
            *final(self) == (App { details_scroll: final(self).details_scroll, ..*old(self) }),
            old(self).wf() ==> final(self).wf(),
    {
        let lines: usize = match self.selected_version_row() {
            Some(row) => if row.pins.len() > usize::MAX - 4 {
                usize::MAX % 0x1_0000
            } else {
                (row.pins.len() + 4) % 0x1_0000
            },
            None => 0,
        };
        let limit: i32 = if lines > 0 {
            lines as i32 - 1
        } else {
            0
        };
        let moved: i32 = self.details_scroll as i32 + delta as i32;
        self.details_scroll = if moved < 0 {
            0
        } else if moved < limit {
            moved as u16
        } else {
            limit as u16
        };
    }

    /// Move up in the pane that has focus.
    pub fn on_up(&mut self)
        ensures
            match old(self).pane {
                Pane::Groups => *final(self) == (App {
                    group_idx: if old(self).group_idx > 0 {
                        (old(self).group_idx - 1) as usize
                    } else {
                        0
                    },
                    details_scroll: 0,
                    ..*old(self)
                }),
                Pane::Versions => *final(self) == (App {
                    version_idx: if old(self).version_idx > 0 {
                        (old(self).version_idx - 1) as usize
                    } else {
                        0
                    },
                    details_scroll: 0,
                    ..*old(self)
                }),
                Pane::Details => *final(self) == (App {
                    details_scroll: scrolled(
                        old(self).details_scroll as int,
                        -1,
                        scroll_limit(old(self).row_view()),
                    ) as u16,
                    ..*old(self)
                }),
            },
            old(self).wf() ==> final(self).wf(),
    {
        match self.pane {
            Pane::Groups => {
                if self.group_idx > 0 {
                    self.group_idx = self.group_idx - 1;
                }
                self.details_scroll = 0;
            },
            Pane::Versions => {
                if self.version_idx > 0 {
                    self.version_idx = self.version_idx - 1;
                }
                self.details_scroll = 0;
            },
            Pane::Details => self.scroll_details(-1),
        }
    }

    /// Move down in the pane that has focus, not past the last entry.
    pub fn on_down(&mut self)
        ensures
            match old(self).pane {
                Pane::Groups => *final(self) == if old(self).group_idx + 1 < old(
                    self,
                ).listing().visible().len() {
                    App {
                        group_idx: (old(self).group_idx + 1) as usize,
                        version_idx: 0,
                        details_scroll: 0,
                        ..*old(self)
                    }
                } else {
                    App { details_scroll: 0, ..*old(self) }
                },
                Pane::Versions => *final(self) == if old(self).version_idx + 1 < old(
                    self,
                ).rows_view().len() {
                    App {
                        version_idx: (old(self).version_idx + 1) as usize,
                        details_scroll: 0,
                        ..*old(self)
                    }
                } else {
                    App { details_scroll: 0, ..*old(self) }
                },
                Pane::Details => *final(self) == (App {
                    details_scroll: scrolled(
                        old(self).details_scroll as int,
                        1,
                        scroll_limit(old(self).row_view()),
                    ) as u16,
                    ..*old(self)
                }),
            },
            old(self).wf() ==> final(self).wf(),
    {
        match self.pane {
            Pane::Groups => {
                let n: usize = self.visible().len();
                if self.group_idx < n && n - self.group_idx > 1 {
                    self.group_idx = self.group_idx + 1;
                    self.version_idx = 0;
                }
                self.details_scroll = 0;
            },
            Pane::Versions => {
                let rows = self.version_rows();
                let n: usize = rows.len();
                assert(version_row_views(rows@).len() == n);
                if self.version_idx < n && n - self.version_idx > 1 {
                    self.version_idx = self.version_idx + 1;
                }
                self.details_scroll = 0;
            },
            Pane::Details => self.scroll_details(1),
        }
    }

    /// Give the next pane focus.
    pub fn toggle_pane(&mut self)
        ensures
            *final(self) == (App {
                pane: match old(self).pane {
                    Pane::Groups => Pane::Versions,
                    Pane::Versions => Pane::Details,
                    Pane::Details => Pane::Groups,
                },
                ..*old(self)
            }),
            old(self).wf() ==> final(self).wf(),
    {
        self.pane = match self.pane {
            Pane::Groups => Pane::Versions,
            Pane::Versions => Pane::Details,
            Pane::Details => Pane::Groups,
        };
    }

    /// Show only divergent groups, or all of them.
    pub fn toggle_show_all(&mut self)
        ensures
            *final(self) == (App {
                show_all: !old(self).show_all,
                group_idx: 0,
                version_idx: 0,
                ..*old(self)
            }),
            old(self).wf() ==> final(self).wf(),
    {
        self.show_all = !self.show_all;
        self.group_idx = 0;
        self.version_idx = 0;
    }
}

// ---------------------------------------------------------------------------
// The roots view
// ---------------------------------------------------------------------------

/// Whether nothing but running processes keeps this path from being droppable, or
/// from being on the list at all: with process roots hidden, such a row would be
/// listed without saying what pins it, or as if nothing did.
pub open spec fn only_process_pins(row: RootRowView) -> bool {
    row.external.len() == 0 && row.process.len() > 0
}

/// A row without the processes that hold it.
pub open spec fn without_process(row: RootRowView) -> RootRowView {
    RootRowView { process: Seq::empty(), ..row }
}

/// The rows of the roots view, given its filters.
pub open spec fn filtered_rows(
    rows: Seq<RootRowView>,
    hide_process: bool,
    freeable_only: bool,
) -> Seq<RootRowView>
    decreases rows.len(),
{
    if rows.len() == 0 {
        Seq::empty()
    } else {
        let head = filtered_rows(rows.drop_last(), hide_process, freeable_only);
        let row = rows.last();
        if (hide_process && only_process_pins(row)) || (freeable_only && !row.is_freeable()) {
            head
        } else if hide_process {
            head.push(without_process(row))
        } else {
            head.push(row)
        }
    }
}

/// The sizes of `rows` together.
pub open spec fn total_bytes(rows: Seq<RootRowView>) -> nat
    decreases rows.len(),
{
    if rows.len() == 0 {
        0
    } else {
        total_bytes(rows.drop_last()) + rows.last().size_bytes as nat
    }
}

impl App {
    /// The rows of the roots view.
    pub open spec fn root_rows_view(self) -> Seq<RootRowView> {
        filtered_rows(
            store::rows_of(self.roots.values_view()),
            self.roots_hide_process,
            self.roots_freeable_only,
        )
    }

    /// Every rooted store path with what holds it, largest first, as the filters of
    /// the roots view leave them.
    ///
    /// Hiding process roots is presentation only: a path that only a process pins is
    /// left out altogether, so that it can never pass for a droppable one.
    pub fn root_rows(&self) -> (r: Vec<RootRow>)
        ensures
            store::row_views(r@) == self.root_rows_view(),
    {
        let all = store::root_rows(&self.roots);
        let ghost views = store::row_views(all@);
        let mut r: Vec<RootRow> = Vec::new();
        let mut i: usize = 0;
        assert(store::row_views(r@) == filtered_rows(
            views.take(0),
            self.roots_hide_process,
            self.roots_freeable_only,
        ));
        while i < all.len()
            invariant
                i <= all.len(),
                views == store::row_views(all@),
                store::row_views(r@) == filtered_rows(
                    views.take(i as int),
                    self.roots_hide_process,
                    self.roots_freeable_only,
                ),
            decreases all.len() - i,
        {
            assert(views.take(i + 1).drop_last() == views.take(i as int));
            let row = &all[i];
            assert(views[i as int] == row@);
            let ghost done = r@;
            let hidden = self.roots_hide_process && row.external.len() == 0 && row.process.len()
                > 0;
            if !hidden && !(self.roots_freeable_only && !row.freeable()) {
                let mut kept = row.clone();
                if self.roots_hide_process {
                    kept.process = Vec::new();
                    assert(kept@ =~= without_process(row@));
                }
                r.push(kept);
                assert(store::row_views(r@) == store::row_views(done).push(kept@));
            }
            i += 1;
        }
        assert(views.take(i as int) == views);
        r
    }

    /// The bytes all listed paths hold together.
    pub fn roots_total_bytes(&self) -> (r: u64)
        ensures
            r == store::capped(total_bytes(self.root_rows_view())),
    {
        let rows = self.root_rows();
        let ghost views = store::row_views(rows@);
        let mut total: u64 = 0;
        let mut i: usize = 0;
        while i < rows.len()
            invariant
                i <= rows.len(),
                views == store::row_views(rows@),
                total == store::capped(total_bytes(views.take(i as int))),
            decreases rows.len() - i,
        {
            assert(views.take(i + 1).drop_last() == views.take(i as int));
            assert(views[i as int] == rows@[i as int]@);
            total = store::capped_sum(total, rows[i].size_bytes);
            i += 1;
        }
        assert(views.take(i as int) == views);
        total
    }

    /// The highlighted row of the roots view.
    pub fn selected_root(&self) -> (r: Option<RootRow>)
        ensures
            match r {
                Some(row) => self.roots_idx < self.root_rows_view().len() && row@
                    == self.root_rows_view()[self.roots_idx as int],
                None => self.roots_idx >= self.root_rows_view().len(),
            },
    {
        let mut rows = self.root_rows();
        assert(store::row_views(rows@).len() == rows@.len());
        if self.roots_idx < rows.len() {
            assert(store::row_views(rows@)[self.roots_idx as int]
                == rows@[self.roots_idx as int]@);
            Some(rows.remove(self.roots_idx))
        } else {
            None
        }
    }

    /// Open the roots view, remembering the screen to return to.
    pub fn open_roots(&mut self)
        ensures
            *final(self) == (App {
                mode: Mode::Roots,
                roots_from: old(self).mode,
                roots_idx: 0,
                ..*old(self)
            }),
            old(self).wf() ==> final(self).wf(),
    {
        self.roots_from = self.mode;
        self.mode = Mode::Roots;
        self.roots_idx = 0;
    }

    /// Return to the screen the roots view was opened from.
    pub fn close_roots(&mut self)
        ensures
            *final(self) == (App { mode: old(self).roots_from, ..*old(self) }),
            old(self).wf() ==> final(self).wf(),
    {
        self.mode = self.roots_from;
    }

    /// Move up in the roots view.
    pub fn roots_up(&mut self)
        ensures
            *final(self) == (App {
                roots_idx: if old(self).roots_idx > 0 {
                    (old(self).roots_idx - 1) as usize
                } else {
                    0
                },
                ..*old(self)
            }),
            old(self).wf() ==> final(self).wf(),
    {
        if self.roots_idx > 0 {
            self.roots_idx = self.roots_idx - 1;
        }
    }

    /// Move down in the roots view, not past the last row.
    pub fn roots_down(&mut self)
        ensures
            *final(self) == if old(self).roots_idx + 1 < old(self).root_rows_view().len() {
                App { roots_idx: (old(self).roots_idx + 1) as usize, ..*old(self) }
            } else {
                *old(self)
            },
            old(self).wf() ==> final(self).wf(),
    {
        let rows = self.root_rows();
        let n: usize = rows.len();
        assert(store::row_views(rows@).len() == n);
        if self.roots_idx < n && n - self.roots_idx > 1 {
            self.roots_idx = self.roots_idx + 1;
        }
    }

    /// Show only droppable paths in the roots view, or all of them.
    pub fn toggle_roots_filter(&mut self)
        ensures
            *final(self) == (App {
                roots_freeable_only: !old(self).roots_freeable_only,
                roots_idx: 0,
                ..*old(self)
            }),
            old(self).wf() ==> final(self).wf(),
    {
        self.roots_freeable_only = !self.roots_freeable_only;
        self.roots_idx = 0;
    }

    /// Show the processes that hold store paths in the roots view, or hide them.
    pub fn toggle_roots_process(&mut self)
        ensures
            *final(self) == (App {
                roots_hide_process: !old(self).roots_hide_process,
                roots_idx: 0,
                ..*old(self)
            }),
            old(self).wf() ==> final(self).wf(),
    {
        self.roots_hide_process = !self.roots_hide_process;
        self.roots_idx = 0;
    }

    // -----------------------------------------------------------------------
    // Sizing
    // -----------------------------------------------------------------------

    /// Begin to measure `total` store paths. Until they are, sizes are lower bounds.
    pub fn begin_sizing(&mut self, total: usize)
        ensures
            final(self).sizing == if total > 0 {
                Some(Sizing { done: 0, total })
            } else {
                None
            },
            final(self).measured@.len() == 0,
            *final(self) == (App {
                sizing: final(self).sizing,
                measured: final(self).measured,
                ..*old(self)
            }),
            old(self).wf() ==> final(self).wf(),
    {
        self.sizing = if total > 0 {
            Some(Sizing { done: 0, total })
        } else {
            None
        };
        self.measured = PathSet::new();
    }

    /// What remains to be measured once one more path has been.
    pub open spec fn sizing_after(self) -> Option<Sizing> {
        match self.sizing {
            Some(s) => if s.done + 1 < s.total {
                Some(Sizing { done: (s.done + 1) as usize, total: s.total })
            } else {
                None
            },
            None => None,
        }
    }

    /// Take in the size of one store path.
    pub fn apply_size(&mut self, path: &str, bytes: u64)
        ensures
            final(self).roots.keys_view() == old(self).roots.keys_view(),
            final(self).roots.values_view() == if old(self).roots.has(path@) {
                let i = old(self).roots.index_of(path@);
                old(self).roots.values_view().update(
                    i,
                    RootedPath { size_bytes: bytes, ..old(self).roots.values_view()[i] },
                )
            } else {
                old(self).roots.values_view()
            },
            final(self).measured@ == order::added(old(self).measured@, path@, ByPath::rel()),
            final(self).sizing == old(self).sizing_after(),
            *final(self) == (App {
                roots: final(self).roots,
                measured: final(self).measured,
                sizing: final(self).sizing,
                ..*old(self)
            }),
            old(self).wf() ==> final(self).wf(),
    {
        if let Some(i) = self.roots.position(path) {
            let blank = RootedPath {
                store_path: String::new(),
                retained_by: PathSet::new(),
                external_roots: TextSet::new(),
                size_bytes: 0,
            };
            let ghost values = self.roots.values_view();
            let mut rooted = self.roots.exchange(i, blank);
            rooted.size_bytes = bytes;
            let _ = self.roots.exchange(i, rooted);
            proof {
                assert(self.roots.values_view() == values.update(i as int, rooted));
                lemma_retainers_update(values, i as int, rooted);
            }
        }
        self.measured.insert(path.to_owned());
        self.sizing = match self.sizing {
            Some(s) => if s.done < s.total && s.total - s.done > 1 {
                Some(Sizing { done: s.done + 1, total: s.total })
            } else {
                None
            },
            None => None,
        };
    }

    /// Whether sizes are still being measured, so that every total is a lower bound.
    pub fn sizes_provisional(&self) -> (r: bool)
        ensures
            r == (self.sizing is Some),
    {
        self.sizing.is_some()
    }

    /// Whether the size of this path is known.
    pub open spec fn has_size(self, path: Seq<char>) -> bool {
        self.sizing is None || self.measured.has(path)
    }

    /// Whether the size of this path is known.
    pub fn is_measured(&self, path: &str) -> (r: bool)
        ensures
            r == self.has_size(path@),
    {
        self.sizing.is_none() || self.measured.contains(path)
    }
}

proof fn lemma_retainers_update(values: Seq<RootedPath>, i: int, v: RootedPath)
    requires
        0 <= i < values.len(),
        v.retained_by == values[i].retained_by,
    ensures
        store::retainers(values.update(i, v)) == store::retainers(values),
    decreases values.len(),
{
    let head = values.drop_last();
    let new = values.update(i, v);
    if i < head.len() {
        lemma_retainers_update(head, i, v);
        assert(new.drop_last() == head.update(i, v));
    } else {
        assert(new.drop_last() == head);
    }
}

proof fn lemma_filtered_rows(rows: Seq<RootRowView>, freeable_only: bool, k: int)
    requires
        0 <= k < filtered_rows(rows, true, freeable_only).len(),
    ensures
        exists|i: int|
            0 <= i < rows.len() && !only_process_pins(#[trigger] rows[i]) && filtered_rows(
                rows,
                true,
                freeable_only,
            )[k] == without_process(rows[i]) && (freeable_only ==> rows[i].is_freeable()),
    decreases rows.len(),
{
    if rows.len() > 0 {
        let head = rows.drop_last();
        let fewer = filtered_rows(head, true, freeable_only);
        if k < fewer.len() {
            lemma_filtered_rows(head, freeable_only, k);
            let i = choose|i: int|
                0 <= i < head.len() && !only_process_pins(#[trigger] head[i]) && fewer[k]
                    == without_process(head[i]) && (freeable_only ==> head[i].is_freeable());
            assert(rows[i] == head[i]);
        } else {
            assert(rows[rows.len() - 1] == rows.last());
        }
    }
}

/// Hiding process roots never turns a pinned path into a droppable one: a row listed
/// as droppable with them hidden is the row of a path that nothing outside direnv
/// holds, processes included.
pub proof fn law_hiding_processes_claims_nothing(
    rows: Seq<RootRowView>,
    freeable_only: bool,
    k: int,
)
    requires
        0 <= k < filtered_rows(rows, true, freeable_only).len(),
        filtered_rows(rows, true, freeable_only)[k].is_freeable(),
    ensures
        exists|i: int|
            0 <= i < rows.len() && (#[trigger] rows[i]).is_freeable() && rows[i].store_path
                == filtered_rows(rows, true, freeable_only)[k].store_path,
{
    lemma_filtered_rows(rows, freeable_only, k);
    let i = choose|i: int|
        0 <= i < rows.len() && !only_process_pins(#[trigger] rows[i]) && filtered_rows(
            rows,
            true,
            freeable_only,
        )[k] == without_process(rows[i]) && (freeable_only ==> rows[i].is_freeable());
    assert(rows[i].is_freeable());
}

// ---------------------------------------------------------------------------
// What holds of the listing
// ---------------------------------------------------------------------------

/// Whether the projects `rooted` name the one of `pin`.
pub open spec fn is_rooted_pin(rooted: Seq<Seq<char>>, pin: Pin) -> bool {
    exists|k: int| 0 <= k < rooted.len() && paths::same_path(#[trigger] rooted[k], pin.project@)
}

/// A pin of a group counts just when the project declares it itself and, with the rooted
/// filter on, holds a GC root.
pub proof fn law_a_pin_counts_just_when_it_can_be_moved(l: Listing, gi: usize, pin: Pin)
    ensures
        l.acting_at(gi).contains(pin) <==> l.pins_at(gi).contains(pin) && pin.direct && (
        !l.rooted_only || is_rooted_pin(l.rooted, pin)),
{
    store::lemma_lists(l.rooted, pin.project@);
    if is_rooted_pin(l.rooted, pin) {
        let k = choose|k: int|
            0 <= k < l.rooted.len() && paths::same_path(#[trigger] l.rooted[k], pin.project@);
        assert(store::lists(l.rooted, pin.project@));
    }
    if store::lists(l.rooted, pin.project@) {
        let k = choose|k: int|
            0 <= k < l.rooted.len() && paths::same_path(#[trigger] l.rooted[k], pin.project@);
        assert(is_rooted_pin(l.rooted, pin));
    }
    let pins = l.pins_at(gi);
    let acts = |p: Pin| l.acts_on(p);
    broadcast use vstd::seq_lib::group_filter_ensures;

    if l.acting_at(gi).contains(pin) {
        let i = choose|i: int| 0 <= i < l.acting_at(gi).len() && l.acting_at(gi)[i] == pin;
        pins.lemma_filter_pred(acts, i);
        pins.lemma_filter_contains_rev(acts, pin);
    }
    if pins.contains(pin) && l.acts_on(pin) {
        let i = choose|i: int| 0 <= i < pins.len() && pins[i] == pin;
        pins.lemma_filter_contains(acts, i);
    }
}

proof fn lemma_pins_of_members(l: Listing, members: Seq<usize>, pin: Pin)
    ensures
        l.member_pins(members).contains(pin) <==> exists|k: int|
            0 <= k < members.len() && (#[trigger] members[k]) < l.groups.len()
                && l.groups[members[k] as int].pins@.contains(pin),
    decreases members.len(),
{
    if members.len() > 0 {
        let head = members.drop_last();
        lemma_pins_of_members(l, head, pin);
        let a = l.member_pins(head);
        let last = members.last();
        let n = head.len() as int;
        let b = if last < l.groups.len() {
            l.groups[last as int].pins@
        } else {
            Seq::empty()
        };
        assert(l.member_pins(members) =~= a + b);
        if (a + b).contains(pin) {
            let i = choose|i: int| 0 <= i < (a + b).len() && (a + b)[i] == pin;
            if i < a.len() {
                assert(a[i] == pin);
                assert(a.contains(pin));
                let k = choose|k: int|
                    0 <= k < head.len() && (#[trigger] head[k]) < l.groups.len()
                        && l.groups[head[k] as int].pins@.contains(pin);
                assert(members[k] == head[k]);
            } else {
                assert(b[i - a.len()] == pin);
                assert(members[n] == last);
            }
        }
        if exists|k: int|
            0 <= k < members.len() && (#[trigger] members[k]) < l.groups.len()
                && l.groups[members[k] as int].pins@.contains(pin) {
            let k = choose|k: int|
                0 <= k < members.len() && (#[trigger] members[k]) < l.groups.len()
                    && l.groups[members[k] as int].pins@.contains(pin);
            if k < n {
                assert(head[k] == members[k]);
                let i = choose|i: int| 0 <= i < a.len() && a[i] == pin;
                assert((a + b)[i] == pin);
            } else {
                let i = choose|i: int| 0 <= i < b.len() && b[i] == pin;
                assert((a + b)[a.len() + i] == pin);
            }
        }
    }
}

/// A merge has the pins of all the groups it covers, and any other group its own.
pub proof fn law_a_merge_has_the_pins_of_its_members(l: Listing, gi: usize, pin: Pin)
    ensures
        l.merges.contains_key(gi) ==> (l.pins_at(gi).contains(pin) <==> exists|k: int|
            0 <= k < l.merges[gi].members@.len() && (#[trigger] l.merges[gi].members@[k])
                < l.groups.len() && l.groups[l.merges[gi].members@[k] as int].pins@.contains(pin)),
        !l.merges.contains_key(gi) && gi < l.groups.len() ==> l.pins_at(gi)
            == l.groups[gi as int].pins@,
{
    if l.merges.contains_key(gi) {
        lemma_pins_of_members(l, l.merges[gi].members@, pin);
    }
}

/// A group diverges just when two of the pins that count are of different versions.
pub proof fn law_a_group_diverges_where_its_pins_differ(l: Listing, gi: usize)
    ensures
        l.diverges_at(gi) <==> exists|i: int, j: int|
            0 <= i < j < l.acting_at(gi).len() && (#[trigger] l.acting_at(gi)[i]).version@ != (
            #[trigger] l.acting_at(gi)[j]).version@,
{
    let pins = l.acting_at(gi);
    let all = versions(pins);
    let set = all.to_set();
    assert(set.finite()) by {
        vstd::seq_lib::seq_to_set_is_finite(all);
    }
    if exists|i: int, j: int|
        0 <= i < j < pins.len() && (#[trigger] pins[i]).version@ != (#[trigger] pins[j]).version@ {
        let (i, j) = choose|i: int, j: int|
            0 <= i < j < pins.len() && (#[trigger] pins[i]).version@ != (
            #[trigger] pins[j]).version@;
        assert(all[i] == pins[i].version@ && all[j] == pins[j].version@);
        assert(set.contains(all[i]) && set.contains(all[j]));
        let two = set![all[i], all[j]];
        assert(two.subset_of(set));
        assert(two.len() == 2);
        vstd::set_lib::lemma_len_subset(two, set);
    } else if pins.len() == 0 {
        assert(set =~= Set::empty());
    } else {
        let v = pins[0].version@;
        assert(set =~= set![v]) by {
            assert(all[0] == v);
            assert forall|x: Seq<char>| set.contains(x) implies x == v by {
                let k = choose|k: int| 0 <= k < all.len() && all[k] == x;
                assert(all[k] == pins[k].version@);
                if k > 0 {
                    assert(pins[0].version@ == pins[k].version@);
                }
            }
        }
        assert(set.len() == 1);
    }
}

/// Whether the pin at `k` is newer than the one at `j`, or as new and behind it.
pub open spec fn outdates(pins: Seq<Pin>, k: int, j: int) -> bool {
    match (pins[k].last_modified, pins[j].last_modified) {
        (Some(a), Some(b)) => a > b || (a == b && k >= j),
        (Some(a), None) => a > i64::MIN || k >= j,
        (None, Some(b)) => b == i64::MIN && k >= j,
        (None, None) => k >= j,
    }
}

proof fn lemma_outdates(pins: Seq<Pin>) -> (k: int)
    requires
        pins.len() > 0,
    ensures
        0 <= k < pins.len(),
        newest(pins) == Some(pins[k]),
        forall|j: int| 0 <= j < pins.len() ==> #[trigger] outdates(pins, k, j),
    decreases pins.len(),
{
    let n = pins.len() - 1;
    let head = pins.drop_last();
    if n == 0 {
        assert(newest(head) is None);
        0
    } else {
        let k = lemma_outdates(head);
        assert(head[k] == pins[k]);
        let best = if time_of(pins[n]) >= time_of(pins[k]) {
            n
        } else {
            k
        };
        assert forall|j: int| 0 <= j < pins.len() implies #[trigger] outdates(pins, best, j) by {
            if j < n {
                assert(outdates(head, k, j));
                assert(head[j] == pins[j]);
            }
        }
        best
    }
}

/// The version that is suggested is the one locked last among the pins that count, by
/// the time their lockfiles tell; of several locked at that time, that of the last.
pub proof fn law_the_suggestion_is_what_was_locked_last(l: Listing, gi: usize)
    requires
        l.diverges_at(gi),
    ensures
        exists|k: int|
            0 <= k < l.acting_at(gi).len() && l.suggestion(gi) == Some(
                (#[trigger] l.acting_at(gi)[k]).version@,
            ) && forall|j: int|
                0 <= j < l.acting_at(gi).len() ==> #[trigger] outdates(l.acting_at(gi), k, j),
{
    let pins = l.acting_at(gi);
    if pins.len() == 0 {
        assert(versions(pins).to_set() =~= Set::<Seq<char>>::empty());
    }
    let k = lemma_outdates(pins);
    assert(l.suggestion(gi) == Some(pins[k].version@));
}

proof fn lemma_is_listed(l: Listing, n: int, gi: usize)
    requires
        0 <= n <= l.groups.len(),
        l.groups.len() <= usize::MAX,
    ensures
        l.listed_below(n).contains(gi) <==> gi < n && l.lists(gi),
        forall|i: int, j: int|
            0 <= i < j < l.listed_below(n).len() ==> (#[trigger] l.listed_below(n)[i]) < (
            #[trigger] l.listed_below(n)[j]),
        forall|i: int| 0 <= i < l.listed_below(n).len() ==> (#[trigger] l.listed_below(n)[i]) < n,
    decreases n,
{
    if n > 0 {
        let a = l.listed_below(n - 1);
        lemma_is_listed(l, n - 1, gi);
        if l.lists((n - 1) as usize) {
            let b = a.push((n - 1) as usize);
            if a.contains(gi) {
                let k = choose|k: int| 0 <= k < a.len() && a[k] == gi;
                assert(b[k] == gi);
            }
            if gi == n - 1 {
                assert(b[a.len() as int] == gi);
            }
            if b.contains(gi) {
                let k = choose|k: int| 0 <= k < b.len() && b[k] == gi;
                if k < a.len() {
                    assert(a[k] == gi);
                }
            }
        }
    }
}

/// Listed are, each once and in their order, the groups that diverge, or all of them
/// where all are asked for, but none that another stands for.
pub proof fn law_what_is_listed(l: Listing, gi: usize)
    requires
        l.groups.len() <= usize::MAX,
    ensures
        l.visible().contains(gi) <==> gi < l.groups.len() && !l.absorbed(gi) && (l.show_all
            || l.diverges_at(gi)),
        forall|i: int, j: int|
            0 <= i < j < l.visible().len() ==> (#[trigger] l.visible()[i]) < (
            #[trigger] l.visible()[j]),
{
    lemma_is_listed(l, l.groups.len() as int, gi);
}

/// The names beside a version are those of the projects that pin it, each once.
pub proof fn law_names_are_those_of_the_projects(pins: Seq<Pin>, name: Seq<char>)
    ensures
        names_in(pins).contains(name) <==> exists|i: int|
            0 <= i < pins.len() && name_of((#[trigger] pins[i]).project@) == name,
        names_in(pins).no_duplicates(),
    decreases pins.len(),
{
    if pins.len() > 0 {
        let head = pins.drop_last();
        let n = head.len() as int;
        law_names_are_those_of_the_projects(head, name);
        law_names_are_those_of_the_projects(head, name_of(pins.last().project@));
        let a = names_in(head);
        let b = names_in(pins);
        if a.contains(name) {
            let k = choose|k: int| 0 <= k < a.len() && a[k] == name;
            assert(b[k] == name);
            let i = choose|i: int|
                0 <= i < head.len() && name_of((#[trigger] head[i]).project@) == name;
            assert(pins[i] == head[i]);
        }
        if b.contains(name) && !a.contains(name) {
            let k = choose|k: int| 0 <= k < b.len() && b[k] == name;
            assert(k == a.len()) by {
                if k < a.len() {
                    assert(a[k] == name);
                }
            }
            assert(pins[n] == pins.last());
        }
        if exists|i: int|
            0 <= i < pins.len() && name_of((#[trigger] pins[i]).project@) == name {
            let i = choose|i: int|
                0 <= i < pins.len() && name_of((#[trigger] pins[i]).project@) == name;
            if i < n {
                assert(head[i] == pins[i]);
            } else if !a.contains(name) {
                assert(b[a.len() as int] == name);
            }
        }
    }
}

/// A version is told to have been locked when the latest of its pins was.
pub proof fn law_a_version_is_as_new_as_its_newest_pin(pins: Seq<Pin>)
    ensures
        pins.len() > 0 ==> exists|k: int|
            0 <= k < pins.len() && (#[trigger] pins[k]).last_modified == latest(pins),
        forall|j: int|
            0 <= j < pins.len() ==> match ((#[trigger] pins[j]).last_modified, latest(pins)) {
                (Some(a), Some(b)) => a <= b,
                (Some(_), None) => false,
                _ => true,
            },
    decreases pins.len(),
{
    if pins.len() > 0 {
        let head = pins.drop_last();
        let n = head.len() as int;
        law_a_version_is_as_new_as_its_newest_pin(head);
        assert(pins[n] == pins.last());
        if head.len() > 0 {
            let k = choose|k: int|
                0 <= k < head.len() && (#[trigger] head[k]).last_modified == latest(head);
            assert(pins[k] == head[k]);
        }
        assert forall|j: int| 0 <= j < pins.len() implies match (
            (#[trigger] pins[j]).last_modified,
            latest(pins),
        ) {
            (Some(a), Some(b)) => a <= b,
            (Some(_), None) => false,
            _ => true,
        } by {
            if j < n {
                assert(head[j] == pins[j]);
            }
        }
    }
}

/// The projects that would move are those of the pins of another version.
pub proof fn law_movers_pin_another_version(pins: Seq<Pin>, version: Seq<char>, p: Seq<char>)
    ensures
        movers(pins, version).contains(p) <==> exists|i: int|
            0 <= i < pins.len() && (#[trigger] pins[i]).version@ != version && pins[i].project@
                == p,
    decreases pins.len(),
{
    if pins.len() > 0 {
        let head = pins.drop_last();
        let n = head.len() as int;
        law_movers_pin_another_version(head, version, p);
        let a = movers(head, version);
        let b = movers(pins, version);
        assert(pins[n] == pins.last());
        if b.contains(p) {
            let k = choose|k: int| 0 <= k < b.len() && b[k] == p;
            if k < a.len() {
                assert(a[k] == p);
                assert(a.contains(p));
                let i = choose|i: int|
                    0 <= i < head.len() && (#[trigger] head[i]).version@ != version
                        && head[i].project@ == p;
                assert(pins[i] == head[i]);
            }
        }
        if exists|i: int|
            0 <= i < pins.len() && (#[trigger] pins[i]).version@ != version && pins[i].project@
                == p {
            let i = choose|i: int|
                0 <= i < pins.len() && (#[trigger] pins[i]).version@ != version
                    && pins[i].project@ == p;
            if i < n {
                assert(head[i] == pins[i]);
                let k = choose|k: int| 0 <= k < a.len() && a[k] == p;
                assert(b[k] == p);
            } else {
                assert(b[a.len() as int] == p);
            }
        }
    }
}

/// The projects that are counted are those that declare an input themselves.
pub proof fn law_projects_in_scope_declare_an_input(pins: Seq<Pin>, p: Seq<char>)
    ensures
        direct_projects(pins).contains(p) <==> exists|i: int|
            0 <= i < pins.len() && (#[trigger] pins[i]).direct && pins[i].project@ == p,
    decreases pins.len(),
{
    if pins.len() > 0 {
        let head = pins.drop_last();
        let n = head.len() as int;
        law_projects_in_scope_declare_an_input(head, p);
        let a = direct_projects(head);
        let b = direct_projects(pins);
        assert(pins[n] == pins.last());
        if b.contains(p) {
            let k = choose|k: int| 0 <= k < b.len() && b[k] == p;
            if k < a.len() {
                assert(a[k] == p);
                assert(a.contains(p));
                let i = choose|i: int|
                    0 <= i < head.len() && (#[trigger] head[i]).direct && head[i].project@ == p;
                assert(pins[i] == head[i]);
            }
        }
        if exists|i: int| 0 <= i < pins.len() && (#[trigger] pins[i]).direct && pins[i].project@ == p {
            let i = choose|i: int|
                0 <= i < pins.len() && (#[trigger] pins[i]).direct && pins[i].project@ == p;
            if i < n {
                assert(head[i] == pins[i]);
                let k = choose|k: int| 0 <= k < a.len() && a[k] == p;
                assert(b[k] == p);
            } else {
                assert(b[a.len() as int] == p);
            }
        }
    }
}

/// Selecting what is suggested chooses, for every listed group that has a suggestion,
/// that one, and leaves what was chosen for the others.
pub proof fn law_what_is_suggested_is_selected(
    l: Listing,
    list: Seq<usize>,
    base: Map<usize, Seq<char>>,
    gi: usize,
)
    ensures
        list.contains(gi) && l.suggestion(gi) is Some ==> with_suggestions(
            l,
            list,
            base,
        ).contains_key(gi) && Some(with_suggestions(l, list, base)[gi]) == l.suggestion(gi),
        !list.contains(gi) || l.suggestion(gi) is None ==> (with_suggestions(
            l,
            list,
            base,
        ).contains_key(gi) <==> base.contains_key(gi)) && with_suggestions(l, list, base)[gi]
            == base[gi],
    decreases list.len(),
{
    if list.len() > 0 {
        let head = list.drop_last();
        law_what_is_suggested_is_selected(l, head, base, gi);
        assert(list[list.len() - 1] == list.last());
        if list.contains(gi) {
            let k = choose|k: int| 0 <= k < list.len() && list[k] == gi;
            if k < head.len() {
                assert(head[k] == gi);
            }
        }
        if head.contains(gi) {
            let k = choose|k: int| 0 <= k < head.len() && head[k] == gi;
            assert(list[k] == gi);
        }
    }
}

proof fn lemma_is_candidate(l: Listing, gi: usize, n: int, i: usize)
    requires
        0 <= n <= l.groups.len(),
        l.groups.len() <= usize::MAX,
    ensures
        l.candidates_below(gi, n).contains(i) <==> i < n && l.could_join(i, gi),
    decreases n,
{
    if n > 0 {
        let a = l.candidates_below(gi, n - 1);
        lemma_is_candidate(l, gi, n - 1, i);
        if l.could_join((n - 1) as usize, gi) {
            let b = a.push((n - 1) as usize);
            if a.contains(i) {
                let k = choose|k: int| 0 <= k < a.len() && a[k] == i;
                assert(b[k] == i);
            }
            if i == n - 1 {
                assert(b[a.len() as int] == i);
            }
            if b.contains(i) {
                let k = choose|k: int| 0 <= k < b.len() && b[k] == i;
                if k < a.len() {
                    assert(a[k] == i);
                }
            }
        }
    }
}

/// A group is offered for a merge just when it is another ref of the same repository
/// that stands by itself and has something to move.
pub proof fn law_what_can_be_merged(l: Listing, gi: usize, i: usize)
    requires
        l.groups.len() <= usize::MAX,
        gi < l.groups.len(),
        i < l.groups.len(),
    ensures
        l.candidates_below(gi, l.groups.len() as int).contains(i) <==> {
            &&& i != gi
            &&& l.groups[i as int].identity@.key() == l.groups[gi as int].identity@.key()
            &&& !l.merges.contains_key(i)
            &&& !l.absorbed(i)
            &&& exists|k: int| 0 <= k < l.groups[i as int].pins@.len() && l.acts_on(
                #[trigger] l.groups[i as int].pins@[k],
            )
        },
{
    lemma_is_candidate(l, gi, l.groups.len() as int, i);
    let pins = l.groups[i as int].pins@;
    let acts = |p: Pin| l.acts_on(p);
    if !l.merges.contains_key(i) {
        assert(l.pins_at(i) == pins);
        if l.acting_at(i).len() > 0 {
            let p = l.acting_at(i)[0];
            pins.lemma_filter_pred(acts, 0);
            assert(pins.filter(acts).contains(p));
            pins.lemma_filter_contains_rev(acts, p);
            let k = choose|k: int| 0 <= k < pins.len() && pins[k] == p;
            assert(l.acts_on(pins[k]));
        }
        if exists|k: int| 0 <= k < pins.len() && l.acts_on(#[trigger] pins[k]) {
            let k = choose|k: int| 0 <= k < pins.len() && l.acts_on(#[trigger] pins[k]);
            pins.lemma_filter_contains(acts, k);
            assert(l.acting_at(i).contains(pins[k]));
        }
    }
}

/// Scrolling moves by as much as was asked, as far as there is something to see.
pub proof fn law_scrolling_stays_within_the_text(scroll: int, delta: int, limit: int)
    requires
        0 <= limit,
    ensures
        0 <= scrolled(scroll, delta, limit) <= limit,
        0 <= scroll + delta <= limit ==> scrolled(scroll, delta, limit) == scroll + delta,
        scroll + delta > limit ==> scrolled(scroll, delta, limit) == limit,
{
}

/// The sizes of two lists of rows are those of the one and of the other together.
pub proof fn law_sizes_add_up(x: Seq<RootRowView>, y: Seq<RootRowView>)
    ensures
        total_bytes(x + y) == total_bytes(x) + total_bytes(y),
        x.len() == 1 ==> total_bytes(x) == x[0].size_bytes,
    decreases y.len(),
{
    if y.len() == 0 {
        assert(x + y =~= x);
    } else {
        law_sizes_add_up(x, y.drop_last());
        assert((x + y).drop_last() =~= x + y.drop_last());
    }
    if x.len() == 1 {
        assert(total_bytes(x.drop_last()) == 0);
    }
}

/// Without a filter every row is listed; filtering for what can be freed leaves just
/// those that nothing outside direnv holds, and in their order.
pub proof fn law_a_filter_leaves_what_it_asks_for(rows: Seq<RootRowView>, row: RootRowView)
    ensures
        filtered_rows(rows, false, false) == rows,
        filtered_rows(rows, false, true).contains(row) <==> rows.contains(row)
            && row.external.len() == 0 && row.process.len() == 0 && row.projects.len() > 0,
    decreases rows.len(),
{
    if rows.len() > 0 {
        let head = rows.drop_last();
        let n = head.len() as int;
        law_a_filter_leaves_what_it_asks_for(head, row);
        assert(head.push(rows.last()) =~= rows);
        let a = filtered_rows(head, false, true);
        let b = filtered_rows(rows, false, true);
        assert(rows[n] == rows.last());
        if b.contains(row) {
            let k = choose|k: int| 0 <= k < b.len() && b[k] == row;
            if k < a.len() {
                assert(a[k] == row);
                assert(a.contains(row));
                let i = choose|i: int| 0 <= i < head.len() && head[i] == row;
                assert(rows[i] == row);
            }
        }
        if rows.contains(row) && row.is_freeable() {
            let i = choose|i: int| 0 <= i < rows.len() && rows[i] == row;
            if i < n {
                assert(head[i] == row);
                let k = choose|k: int| 0 <= k < a.len() && a[k] == row;
                assert(b[k] == row);
            } else {
                assert(b[a.len() as int] == row);
            }
        }
    }
}

proof fn lemma_ascii_start(s: Seq<char>, limit: nat, k: int)
    requires
        vstd::utf8::is_ascii_chars(s),
        0 <= k <= s.len(),
        k <= limit,
    ensures
        start_within(s, limit, k) == if s.len() < limit {
            s.len() as int
        } else {
            limit as int
        },
    decreases s.len() - k,
{
    if k < s.len() {
        let t = s.take(k + 1);
        assert(vstd::utf8::is_ascii_chars(t)) by {
            assert forall|i: int| 0 <= i < t.len() implies '\0' <= #[trigger] t[i] <= '\u{7f}' by {
                assert(t[i] == s[i]);
            }
        }
        vstd::utf8::is_ascii_chars_encode_utf8(t);
        if k + 1 <= limit {
            lemma_ascii_start(s, limit, k + 1);
        }
    }
}

/// A revision is shown by its first twelve characters, or by all of them where there are
/// no more, and a content hash, so marked, by its first eight.
pub proof fn law_a_version_is_shown_by_its_start(v: Seq<char>)
    requires
        vstd::utf8::is_ascii_chars(v),
    ensures
        !text::begins(v, "sha256-"@) && v.len() > 12 ==> shortened(v) == v.take(12),
        !text::begins(v, "sha256-"@) && v.len() <= 12 ==> shortened(v) == v,
        v.len() >= 8 ==> shortened("sha256-"@ + v) == "nar:"@ + v.take(8),
        v.len() < 8 ==> shortened("sha256-"@ + v) == "nar:"@ + v,
{
    reveal_strlit("sha256-");
    vstd::utf8::is_ascii_chars_encode_utf8(v);
    assert(v.take(v.len() as int) =~= v);
    lemma_ascii_start(v, 12, 0);
    lemma_ascii_start(v, 8, 0);
    let hash = "sha256-"@ + v;
    assert(hash.subrange(0, 7) =~= "sha256-"@);
    assert(hash.skip(7) =~= v);
}

/// The failures are the outcomes that are not successes, each counted once.
pub proof fn law_failures_are_counted(log: Seq<Outcome>, o: Outcome)
    ensures
        failed_in(log.push(o)) == failed_in(log) + if o.ok {
            0int
        } else {
            1int
        },
        failed_in(Seq::empty()) == 0,
{
    reveal(Seq::filter);
    assert(log.push(o).drop_last() =~= log);
}

/// Within a version the pins go by project, and within a project by the name of the
/// input.
pub proof fn law_pins_of_a_version_go_by_project(pins: Seq<Pin>, version: Seq<char>, i: int, j: int)
    requires
        0 <= i < j < row_for(pins, version).pins.len(),
    ensures
        !paths::path_lt(
            row_for(pins, version).pins[j].project@,
            row_for(pins, version).pins[i].project@,
        ),
        paths::same_path(
            row_for(pins, version).pins[j].project@,
            row_for(pins, version).pins[i].project@,
        ) ==> !text::chars_lt(
            row_for(pins, version).pins[j].input_name@,
            row_for(pins, version).pins[i].input_name@,
        ),
{
    lemma_pin_order();
    order::law_sorted(pinning(pins, version), pin_lt());
    let rows = row_for(pins, version).pins;
    assert(!pin_lt()(rows[j], rows[i]));
}

/// A selection is kept just where its group still diverges and stands for itself.
pub proof fn law_what_is_still_meant_stays_selected(
    l: Listing,
    targets: Map<usize, String>,
    gi: usize,
)
    ensures
        still_meant(l, targets).contains_key(gi) <==> targets.contains_key(gi) && !l.absorbed(gi)
            && l.diverges_at(gi),
        still_meant(l, targets).contains_key(gi) ==> still_meant(l, targets)[gi] == targets[gi],
{
}

/// Rewritten are the pins of those members of a merge that declare another ref, and of
/// them those that count, each with the ref it declares.
pub proof fn law_only_other_refs_are_rewritten(
    l: Listing,
    members: Seq<usize>,
    canonical: IdentityView,
    e: (Pin, Identity),
)
    ensures
        off_ref(l, members, canonical).contains(e) <==> exists|k: int|
            0 <= k < members.len() && (#[trigger] members[k]) < l.groups.len()
                && l.groups[members[k] as int].identity == e.1 && e.1@ != canonical && l.acting(
                l.groups[members[k] as int].pins@,
            ).contains(e.0),
    decreases members.len(),
{
    if members.len() > 0 {
        let head = members.drop_last();
        let n = head.len() as int;
        law_only_other_refs_are_rewritten(l, head, canonical, e);
        let a = off_ref(l, head, canonical);
        let all = off_ref(l, members, canonical);
        let mi = members.last();
        assert(members[n] == mi);
        let g = l.groups[mi as int];
        let pins = l.acting(g.pins@);
        let b = if mi < l.groups.len() && g.identity@ != canonical {
            pins.map_values(|p: Pin| (p, g.identity))
        } else {
            Seq::empty()
        };
        assert(all =~= a + b);
        if all.contains(e) {
            let i = choose|i: int| 0 <= i < all.len() && all[i] == e;
            if i < a.len() {
                assert(a[i] == e);
                assert(a.contains(e));
                let k = choose|k: int|
                    0 <= k < head.len() && (#[trigger] head[k]) < l.groups.len()
                        && l.groups[head[k] as int].identity == e.1 && e.1@ != canonical
                        && l.acting(l.groups[head[k] as int].pins@).contains(e.0);
                assert(members[k] == head[k]);
            } else {
                assert(b[i - a.len()] == e);
                assert(pins[i - a.len()] == e.0);
            }
        }
        if exists|k: int|
            0 <= k < members.len() && (#[trigger] members[k]) < l.groups.len()
                && l.groups[members[k] as int].identity == e.1 && e.1@ != canonical && l.acting(
                l.groups[members[k] as int].pins@,
            ).contains(e.0) {
            let k = choose|k: int|
                0 <= k < members.len() && (#[trigger] members[k]) < l.groups.len()
                    && l.groups[members[k] as int].identity == e.1 && e.1@ != canonical
                    && l.acting(l.groups[members[k] as int].pins@).contains(e.0);
            if k < n {
                assert(head[k] == members[k]);
                let i = choose|i: int| 0 <= i < a.len() && a[i] == e;
                assert(all[i] == e);
            } else {
                let i = choose|i: int| 0 <= i < pins.len() && pins[i] == e.0;
                assert(b[i] == e);
                assert(all[a.len() + i] == e);
            }
        }
    }
}

/// A mark stands in the way of another just when its group is of another repository.
pub proof fn law_only_another_repository_is_foreign(
    groups: Seq<Group>,
    marks: Seq<usize>,
    key: crate::lock::MergeKeyView,
)
    ensures
        first_foreign(groups, marks, key) is None <==> forall|k: int|
            0 <= k < marks.len() ==> groups[#[trigger] marks[k] as int].identity@.key() == key,
        first_foreign(groups, marks, key) matches Some(m) ==> marks.contains(m)
            && groups[m as int].identity@.key() != key,
    decreases marks.len(),
{
    if marks.len() > 0 {
        let rest = marks.drop_first();
        law_only_another_repository_is_foreign(groups, rest, key);
        if groups[marks[0] as int].identity@.key() == key {
            if forall|k: int|
                0 <= k < marks.len() ==> groups[#[trigger] marks[k] as int].identity@.key()
                    == key {
                assert forall|k: int| 0 <= k < rest.len() implies groups[
                    #[trigger] rest[k] as int].identity@.key() == key by {
                    assert(rest[k] == marks[k + 1]);
                }
            }
            if forall|k: int|
                0 <= k < rest.len() ==> groups[#[trigger] rest[k] as int].identity@.key() == key {
                assert forall|k: int| 0 <= k < marks.len() implies groups[
                    #[trigger] marks[k] as int].identity@.key() == key by {
                    if k > 0 {
                        assert(marks[k] == rest[k - 1]);
                    }
                }
            }
            if let Some(m) = first_foreign(groups, rest, key) {
                let k = choose|k: int| 0 <= k < rest.len() && rest[k] == m;
                assert(marks[k + 1] == m);
            }
        }
    }
}

/// A merge covers the group it was made on, first of all, and every other that is marked,
/// once.
pub proof fn law_a_merge_covers_what_is_marked(gi: usize, marks: Seq<usize>, x: usize)
    requires
        marks.no_duplicates(),
    ensures
        merged_members(gi, marks)[0] == gi,
        merged_members(gi, marks).contains(x) <==> x == gi || marks.contains(x),
        merged_members(gi, marks).no_duplicates(),
    decreases marks.len(),
{
    reveal(Seq::filter);
    let all = merged_members(gi, marks);
    assert(all[0] == gi);
    if marks.len() == 0 {
        assert(all =~= seq![gi]);
        if x == gi {
            assert(all[0] == x);
        }
    } else {
        let head = marks.drop_last();
        let last = marks.last();
        let some = merged_members(gi, head);
        assert(marks[marks.len() - 1] == last);
        law_a_merge_covers_what_is_marked(gi, head, x);
        law_a_merge_covers_what_is_marked(gi, head, last);
        assert(all =~= if last == gi {
            some
        } else {
            some.push(last)
        });
        if marks.contains(x) {
            let k = choose|k: int| 0 <= k < marks.len() && marks[k] == x;
            if k < head.len() {
                assert(head[k] == x);
            }
        }
        if head.contains(x) {
            let k = choose|k: int| 0 <= k < head.len() && head[k] == x;
            assert(marks[k] == x);
        }
        if head.contains(last) {
            let k = choose|k: int| 0 <= k < head.len() && head[k] == last;
            assert(marks[k] == marks[marks.len() - 1]);
        }
        if last != gi {
            if some.contains(x) {
                let k = choose|k: int| 0 <= k < some.len() && some[k] == x;
                assert(all[k] == x);
            }
            if x == last {
                assert(all[some.len() as int] == x);
            }
            if all.contains(x) && x != last {
                let k = choose|k: int| 0 <= k < all.len() && all[k] == x;
                assert(some[k] == x);
            }
            assert(!some.contains(last));
        }
    }
}

/// In scope are the projects that hold a GC root: all of them where each does, none where
/// none does.
pub proof fn law_rooted_projects_are_in_scope(app: App)
    ensures
        (forall|i: int|
            0 <= i < app.all_projects().len() ==> app.rooted.has(#[trigger] app.all_projects()[i]))
            ==> app.rooted_among() == app.all_projects().len(),
        (forall|i: int|
            0 <= i < app.all_projects().len() ==> !app.rooted.has(
                #[trigger] app.all_projects()[i],
            )) ==> app.rooted_among() == 0,
{
    lemma_all_or_none(app, app.all_projects());
}

proof fn lemma_all_or_none(app: App, all: Seq<Seq<char>>)
    ensures
        (forall|i: int| 0 <= i < all.len() ==> app.rooted.has(#[trigger] all[i])) ==> all.filter(
            |p: Seq<char>| app.rooted.has(p),
        ).len() == all.len(),
        (forall|i: int| 0 <= i < all.len() ==> !app.rooted.has(#[trigger] all[i])) ==> all.filter(
            |p: Seq<char>| app.rooted.has(p),
        ).len() == 0,
    decreases all.len(),
{
    reveal(Seq::filter);
    if all.len() > 0 {
        let head = all.drop_last();
        lemma_all_or_none(app, head);
        assert(all[all.len() - 1] == all.last());
        assert forall|i: int| 0 <= i < head.len() implies head[i] == all[i] by {}
        if forall|i: int| 0 <= i < all.len() ==> app.rooted.has(#[trigger] all[i]) {
            assert forall|i: int| 0 <= i < head.len() implies app.rooted.has(
                #[trigger] head[i],
            ) by {
                assert(head[i] == all[i]);
            }
        }
        if forall|i: int| 0 <= i < all.len() ==> !app.rooted.has(#[trigger] all[i]) {
            assert forall|i: int| 0 <= i < head.len() implies !app.rooted.has(
                #[trigger] head[i],
            ) by {
                assert(head[i] == all[i]);
            }
        }
    }
}

/// The projects of two lists of groups are those of the one and then of the other.
pub proof fn law_projects_of_all_groups_count(x: Seq<Group>, y: Seq<Group>)
    ensures
        all_direct_projects(x + y) == all_direct_projects(x) + all_direct_projects(y),
        x.len() == 1 ==> all_direct_projects(x) == direct_projects(x[0].pins@),
    decreases y.len(),
{
    if y.len() == 0 {
        assert(x + y =~= x);
        assert(all_direct_projects(x) + all_direct_projects(y) =~= all_direct_projects(x));
    } else {
        law_projects_of_all_groups_count(x, y.drop_last());
        assert((x + y).drop_last() =~= x + y.drop_last());
        assert(all_direct_projects(x + y) =~= all_direct_projects(x) + all_direct_projects(y));
    }
    if x.len() == 1 {
        assert(all_direct_projects(x.drop_last()) =~= Seq::<Seq<char>>::empty());
        assert(all_direct_projects(x) =~= direct_projects(x[0].pins@));
    }
}

/// Sizing goes on, one path at a time, until the last has been measured.
pub proof fn law_sizing_ends_with_the_last_path(app: App)
    ensures
        match (app.sizing, app.sizing_after()) {
            (Some(s), Some(t)) => s.done + 1 < s.total && t.done == s.done + 1 && t.total
                == s.total,
            (Some(s), None) => s.done + 1 >= s.total,
            (None, Some(_)) => false,
            (None, None) => true,
        },
{
}

/// The details can be scrolled until their last line is on top: one for each pin, and
/// four around them.
pub proof fn law_the_details_scroll_to_their_last_line(row: VersionRowView)
    requires
        row.pins.len() + 4 < 0x1_0000,
    ensures
        scroll_limit(Some(row)) == row.pins.len() + 3,
        scroll_limit(None) == 0,
{
}

/// Each group with a suggestion is counted once.
pub proof fn law_each_suggestion_counts_once(l: Listing, list: Seq<usize>, gi: usize)
    ensures
        suggestion_count(l, list.push(gi)) == suggestion_count(l, list) + if l.diverges_at(gi) {
            1nat
        } else {
            0
        },
        suggestion_count(l, Seq::empty()) == 0,
{
    assert(list.push(gi).drop_last() =~= list);
    law_suggestion_is_the_newest_in_use(l, gi);
}

} // verus!
