//! Running a confirmed plan, one outside step at a time.
//!
//! The plan is worked through action by action, and then the direnv roots are
//! dropped. What is to be done next is a [`Job`]; whoever runs it says how it went,
//! and the run goes on from there.
use crate::app::{App, EditPreview, Mode, Running, Step};
use crate::app;
use crate::diff;
use crate::diff::Captured;
use crate::keyed::{ByPath, KeyOrder, PathSet};
use crate::nix_edit;
use crate::nix_edit::PendingEdit;
use crate::order;
use crate::paths;
use crate::progress;
use crate::progress::TimeSpan;
use crate::sync::{Action, ActionView};
use crate::text;
use vstd::prelude::*;

verus! {

/// A plan that is being run.
pub struct Execution {
    pub actions: Vec<Action>,
    /// The action that is being performed.
    pub at: usize,
    /// Whether the `flake.nix` it rewrites has been rewritten.
    pub edited: bool,
    /// The projects of the plan, each once, whose roots are dropped at the end.
    pub projects: Vec<String>,
    /// How many of them are dealt with.
    pub settled: usize,
    pub report: Vec<String>,
    /// Projects with an update that succeeded.
    pub touched: PathSet,
    /// Projects with a step that failed.
    pub failed: PathSet,
    /// Projects with an edit that failed. What was planned on it is not there.
    pub lost: PathSet,
    /// Projects whose `flake.nix` was changed, and saved before that.
    pub saved: PathSet,
    /// How many roots were dropped.
    pub dropped: usize,
    /// Which of the actions behind succeeded.
    pub results: Ghost<Seq<bool>>,
    /// The edits that are in place: the project, and what its `flake.nix` reads since.
    pub written: Ghost<Seq<(Seq<char>, Seq<char>)>>,
}

/// What is to be done next.
#[derive(Debug)]
pub enum Job {
    /// Rewrite a `flake.nix`.
    Edit(PendingEdit),
    /// Rewrite a `flake.nix` that this run has changed before. Its backup stays.
    EditAgain(PendingEdit),
    /// Nothing: the `flake.nix` of the action at hand cannot be rewritten.
    Skip,
    /// Update the lockfile of the action at hand.
    Update,
    /// Remove the direnv roots of a project.
    DropRoots(String),
    /// Nothing outside: the step at hand was settled at once. Ask again.
    Settled,
    /// The plan has been run.
    Finish,
}

// ---------------------------------------------------------------------------
// What is said of each step
// ---------------------------------------------------------------------------

/// What is said when a `flake.nix` could not be rewritten.
pub open spec fn skipped_text(a: ActionView) -> Seq<char> {
    "fail  "@ + a.project + " ["@ + a.input_name + "]: flake.nix could not be rewritten, skipped"@
}

/// What is said of an edit that stands.
pub open spec fn edited_text(edit: PendingEdit, input_name: Seq<char>, backup: Seq<char>) -> Seq<
    char,
> {
    "ok    "@ + edit.path@ + " ["@ + input_name + "] url "@ + edit.from_url@ + " → "@ + edit.to_url@
        + "  (backup: "@ + backup + ")"@
}

/// What is said of an update that succeeded.
pub open spec fn updated_text(a: ActionView) -> Seq<char> {
    "ok    "@ + a.project + " "@ + a.input_name + " → "@ + app::shortened(a.target_version)
}

/// What is said of a step that failed.
pub open spec fn failed_text(what: Seq<char>, error: Seq<char>) -> Seq<char> {
    "fail  "@ + what + ": "@ + error
}

/// What is said of roots that were dropped.
pub open spec fn dropped_text(n: nat, project: Seq<char>) -> Seq<char> {
    "ok    dropped "@ + text::dec(n) + " root(s) in "@ + project
}

/// The lines of a diff as the report shows them.
pub open spec fn indented(lines: Seq<Seq<char>>) -> Seq<Seq<char>> {
    lines.map_values(|l: Seq<char>| "      "@ + l)
}

/// The projects of `actions`, in order.
pub open spec fn projects_in(actions: Seq<Action>) -> Seq<Seq<char>> {
    actions.map_values(|a: Action| a.project@)
}

/// The projects of `actions`, each once, in ascending order.
pub open spec fn projects_of(actions: Seq<Action>) -> Seq<Seq<char>> {
    order::added_all(Seq::empty(), projects_in(actions), ByPath::rel())
}

// ---------------------------------------------------------------------------
// The state of a run
// ---------------------------------------------------------------------------

/// Whether one of the actions behind that ended as `ok` says is in the project `x`.
pub open spec fn ended(run: Execution, ok: bool, x: Seq<char>) -> bool {
    exists|i: int|
        0 <= i < run.at && run.results@[i] == ok && order::alike(
            #[trigger] run.actions@[i].project@,
            x,
            ByPath::rel(),
        )
}

/// Whether the projects marked as updated and as failed are those of the actions that
/// succeeded and failed.
pub open spec fn accounted(run: Execution) -> bool {
    &&& run.results@.len() == run.at
    &&& forall|x: Seq<char>| #[trigger] run.touched.has(x) <==> ended(run, true, x)
    &&& forall|x: Seq<char>| #[trigger] run.failed.has(x) <==> ended(run, false, x)
    &&& forall|x: Seq<char>| #[trigger] run.lost.has(x) ==> run.failed.has(x)
}

/// Whether a run and the progress on screen belong together: the total is one per
/// action and one per project, and what is done is what is behind.
pub open spec fn in_step(run: Execution, app: App) -> bool {
    &&& accounted(run)
    &&& run.at <= run.actions@.len()
    &&& run.settled <= run.projects@.len()
    &&& text::texts(run.projects@) == projects_of(run.actions@)
    &&& run.actions@.len() + run.projects@.len() <= usize::MAX
    &&& app.running matches Some(r)
    &&& r.total == run.actions@.len() + run.projects@.len()
    &&& r.done == run.at + run.settled
}

/// What the `flake.nix` of `project` reads once the edits of `written` are in place,
/// where it reads `source` before.
pub open spec fn reads(
    written: Seq<(Seq<char>, Seq<char>)>,
    project: Seq<char>,
    source: Option<Seq<char>>,
) -> Option<Seq<char>>
    decreases written.len(),
{
    if written.len() == 0 {
        source
    } else if paths::same_path(written.last().0, project) {
        Some(written.last().1)
    } else {
        reads(written.drop_last(), project, source)
    }
}

/// How many of the rewrites of the plan are behind.
pub open spec fn rewrites_behind(run: Execution) -> int {
    let n = if run.edited {
        run.at + 1
    } else {
        run.at as int
    };
    app::rewrites(app::action_views(run.actions@).take(n)).len() as int
}

/// Whether `previews` are about the rewrites of the plan, one each, and no two of those
/// are about one input of one project.
pub open spec fn lines_up(run: Execution, previews: Seq<EditPreview>) -> bool {
    let rewrites = app::rewrites(app::action_views(run.actions@));
    &&& previews.len() == rewrites.len()
    &&& forall|k: int|
        0 <= k < previews.len() ==> (#[trigger] previews[k]).project@ == rewrites[k].project
            && previews[k].input_name@ == rewrites[k].input_name
    &&& forall|j: int, k: int|
        0 <= j < k < rewrites.len() ==> !(paths::same_path(
            (#[trigger] rewrites[j]).project,
            (#[trigger] rewrites[k]).project,
        ) && rewrites[j].input_name == rewrites[k].input_name)
}

/// Whether every file reads what the edits that are behind were planned to leave, those
/// of a project with a failed edit aside.
pub open spec fn kept(run: Execution, previews: Seq<EditPreview>) -> bool {
    forall|p: Seq<char>, source: Option<Seq<char>>|
        !run.lost.has(p) ==> #[trigger] reads(run.written@, p, source) == app::standing(
            previews.take(rewrites_behind(run)),
            p,
            source,
        )
}

/// Whether `after` is `before` with one more outcome noted, which counts or not.
pub open spec fn noted(before: App, after: App, ok: bool, said: Seq<char>, counts: bool) -> bool {
    &&& before.running matches Some(b)
    &&& after.running matches Some(a)
    &&& a.log@.len() == b.log@.len() + 1
    &&& a.log@.drop_last() == b.log@
    &&& a.log@.last().ok == ok
    &&& a.log@.last().text@ == said
    &&& a.total == b.total
    &&& a.done == b.done + if counts {
        1int
    } else {
        0int
    }
    &&& a.current is None
    &&& after == (App { running: after.running, ..before })
}

/// Whether `after` is `before` with a step named as the one in flight.
pub open spec fn started(
    before: App,
    after: App,
    step: Step,
    project: Seq<char>,
    input: Seq<char>,
) -> bool {
    &&& before.running matches Some(b)
    &&& after.running matches Some(a)
    &&& a.current matches Some((s, p, n))
    &&& s == step
    &&& p@ == project
    &&& n@ == input
    &&& a == (Running { current: a.current, ..b })
    &&& after == (App { running: after.running, ..before })
}

/// Whether `after` lists one more text than `before`.
pub open spec fn one_more(before: Seq<String>, after: Seq<String>, said: Seq<char>) -> bool {
    text::texts(after) == text::texts(before).push(said)
}

/// Whether `after` is `before` with the action at hand given up.
pub open spec fn gave_up(before: Execution, after: Execution, said: Seq<char>) -> bool {
    &&& one_more(before.report@, after.report@, said)
    &&& after.failed@ == order::added(
        before.failed@,
        before.actions@[before.at as int].project@,
        ByPath::rel(),
    )
    &&& after == (Execution {
        report: after.report,
        failed: after.failed,
        at: (before.at + 1) as usize,
        edited: false,
        results: Ghost(before.results@.push(false)),
        ..before
    })
}

/// Whether the roots of the project at hand are to be dropped: it was updated, and
/// nothing failed there. A project whose update failed still needs its current
/// inputs.
pub open spec fn drops(run: Execution) -> bool {
    let project = run.projects@[run.settled as int]@;
    run.touched.has(project) && !run.failed.has(project)
}

/// The edit of the action `a`, if it can be performed: it was planned, and every edit
/// of the same file that it was planned on is in place.
pub open spec fn edit_at_hand(run: Execution, app: App, a: ActionView) -> Option<PendingEdit> {
    if run.lost.has(a.project) {
        None
    } else {
        app::edit_among(app.pending_diffs@, a.project, a.input_name)
    }
}

/// Whether `job` is what comes next, and `after` is what it leaves noted.
pub open spec fn is_next(
    before: Execution,
    app: App,
    job: Job,
    after: Execution,
    app_after: App,
) -> bool {
    if before.at < before.actions@.len() {
        let a = before.actions@[before.at as int]@;
        if a.from_identity is Some && !before.edited {
            match edit_at_hand(before, app, a) {
                Some(edit) => job == (if before.saved.has(a.project) {
                    Job::EditAgain(edit)
                } else {
                    Job::Edit(edit)
                }) && after == before && started(
                    app,
                    app_after,
                    Step::Editing,
                    a.project,
                    a.input_name,
                ),
                None => job is Skip && after == before && started(
                    app,
                    app_after,
                    Step::Editing,
                    a.project,
                    a.input_name,
                ),
            }
        } else {
            job is Update && after == before && started(
                app,
                app_after,
                Step::Updating,
                a.project,
                a.input_name,
            )
        }
    } else if before.settled < before.projects@.len() {
        if drops(before) {
            &&& job matches Job::DropRoots(project)
            &&& project@ == before.projects@[before.settled as int]@
            &&& after == before
            &&& started(app, app_after, Step::DroppingRoots, project@, Seq::empty())
        } else {
            // Counted in the total, so it must still be accounted for even though
            // there is nothing to do.
            &&& job is Settled
            &&& after == (Execution { settled: (before.settled + 1) as usize, ..before })
            &&& noted(app, app_after, true, Seq::empty(), true)
        }
    } else {
        job is Finish && after == before && app_after == app
    }
}

/// Run the staged actions: take the plan out, and begin to count.
pub fn execute_plan(app: &mut App) -> (r: Execution)
    requires
        old(app).pending@.len() + projects_of(old(app).pending@).len() <= usize::MAX,
    ensures
        r.actions == old(app).pending,
        r.at == 0,
        !r.edited,
        text::texts(r.projects@) == projects_of(old(app).pending@),
        r.settled == 0,
        r.report@.len() == 0,
        r.touched@.len() == 0,
        r.failed@.len() == 0,
        r.lost@.len() == 0,
        r.saved@.len() == 0,
        r.dropped == 0,
        in_step(r, *final(app)),
        r.written@.len() == 0,
        kept(r, final(app).pending_diffs@),
        final(app).running matches Some(run) && run.current is None && run.log@.len() == 0,
        final(app).pending@.len() == 0,
        *final(app) == (App {
            pending: final(app).pending,
            running: final(app).running,
            mode: Mode::Running,
            ..*old(app)
        }),
        old(app).wf() ==> final(app).wf(),
{
    let mut names: Vec<String> = Vec::new();
    let ghost want = projects_in(app.pending@);
    let mut i: usize = 0;
    while i < app.pending.len()
        invariant
            i <= app.pending.len(),
            want == projects_in(app.pending@),
            text::texts(names@) == want.take(i as int),
        decreases app.pending.len() - i,
    {
        let ghost done = names@;
        names.push(app.pending[i].project.clone());
        assert(text::texts(names@) == text::texts(done).push(want[i as int]));
        assert(want.take(i + 1) == want.take(i as int).push(want[i as int]));
        i += 1;
    }
    assert(want.take(i as int) == want);
    // Every project of the plan will need its roots dropped. Counted up front so that
    // the denominator covers the whole run rather than growing.
    let projects = PathSet::of(names).to_vec();
    assert(text::texts(projects@).len() == projects.len());
    app.begin_running(projects.len());
    let mut actions: Vec<Action> = Vec::new();
    std::mem::swap(&mut actions, &mut app.pending);
    let r = Execution {
        actions,
        at: 0,
        edited: false,
        projects,
        settled: 0,
        report: Vec::new(),
        touched: PathSet::new(),
        failed: PathSet::new(),
        lost: PathSet::new(),
        saved: PathSet::new(),
        dropped: 0,
        results: Ghost(Seq::empty()),
        written: Ghost(Seq::empty()),
    };
    assert(kept(r, app.pending_diffs@)) by {
        reveal(Seq::filter);
        assert(app::action_views(r.actions@).take(0) =~= Seq::<ActionView>::empty());
        assert(app.pending_diffs@.take(0) =~= Seq::<EditPreview>::empty());
    }
    r
}

/// Note an outcome on screen.
fn note(app: &mut App, ok: bool, said: &str, counts: bool)
    requires
        old(app).running matches Some(r) && r.done < usize::MAX,
    ensures
        noted(*old(app), *final(app), ok, said@, counts),
        old(app).wf() ==> final(app).wf(),
{
    app.step_finished(ok, said.to_owned(), counts);
    proof {
        let before = old(app).running->0.log@;
        let after = app.running->0.log@;
        assert(after.drop_last() == before);
    }
}

fn report_line(report: &mut Vec<String>, said: &str)
    ensures
        one_more(old(report)@, final(report)@, said@),
{
    let ghost before = report@;
    report.push(said.to_owned());
    assert(text::texts(report@) == text::texts(before).push(said@));
}

/// One more action behind adds its project to those that ended as it did.
proof fn lemma_ended(before: Execution, after: Execution, ok: bool)
    requires
        before.at < before.actions@.len(),
        before.results@.len() == before.at,
        after.at == before.at + 1,
        after.actions == before.actions,
        after.results@ == before.results@.push(ok),
    ensures
        forall|b: bool, x: Seq<char>| #[trigger]
            ended(after, b, x) <==> ended(before, b, x) || (b == ok && order::alike(
                before.actions@[before.at as int].project@,
                x,
                ByPath::rel(),
            )),
{
    assert forall|b: bool, x: Seq<char>| #[trigger]
        ended(after, b, x) <==> ended(before, b, x) || (b == ok && order::alike(
            before.actions@[before.at as int].project@,
            x,
            ByPath::rel(),
        )) by {
        if ended(before, b, x) {
            let i = choose|i: int|
                0 <= i < before.at && before.results@[i] == b && order::alike(
                    #[trigger] before.actions@[i].project@,
                    x,
                    ByPath::rel(),
                );
            assert(after.results@[i] == b);
            assert(order::alike(after.actions@[i].project@, x, ByPath::rel()));
        }
        assert(after.results@[before.at as int] == ok);
        assert(after.actions@[before.at as int].project@
            == before.actions@[before.at as int].project@);
    }
}

/// The rewrites of a plan stand in the order of its actions.
proof fn lemma_rewrite_at(all: Seq<ActionView>, i: int)
    requires
        0 <= i < all.len(),
    ensures
        ({
            let m = app::rewrites(all.take(i)).len();
            if all[i].from_identity is Some {
                &&& m < app::rewrites(all).len()
                &&& app::rewrites(all)[m as int] == all[i]
                &&& app::rewrites(all.take(i + 1)).len() == m + 1
            } else {
                app::rewrites(all.take(i + 1)).len() == m
            }
        }),
{
    let keep = |a: ActionView| a.from_identity is Some;
    let head = all.take(i + 1);
    let tail = all.skip(i + 1);
    Seq::filter_distributes_over_add(head, tail, keep);
    assert(head + tail == all);
    assert(head.drop_last() == all.take(i));
    assert(head.last() == all[i]);
    reveal(Seq::filter);
}

proof fn lemma_first_is(
    previews: Seq<EditPreview>,
    project: Seq<char>,
    input_name: Seq<char>,
    k: int,
)
    requires
        0 <= k < previews.len(),
        paths::same_path(previews[k].project@, project),
        previews[k].input_name@ == input_name,
        forall|j: int|
            0 <= j < k ==> !(paths::same_path((#[trigger] previews[j]).project@, project)
                && previews[j].input_name@ == input_name),
    ensures
        app::first_preview(previews, project, input_name) == Some(previews[k]),
    decreases previews.len(),
{
    if k > 0 {
        let rest = previews.drop_first();
        assert forall|j: int| 0 <= j < k - 1 implies !(paths::same_path(
            (#[trigger] rest[j]).project@,
            project,
        ) && rest[j].input_name@ == input_name) by {
            assert(rest[j] == previews[j + 1]);
        }
        assert(rest[k - 1] == previews[k]);
        lemma_first_is(rest, project, input_name, k - 1);
    }
}

/// The preview of the rewrite at hand is the one that is looked up.
proof fn lemma_at_hand(run: Execution, previews: Seq<EditPreview>)
    requires
        lines_up(run, previews),
        !run.edited,
        run.at < run.actions@.len(),
        run.actions@[run.at as int]@.from_identity is Some,
    ensures
        ({
            let a = run.actions@[run.at as int]@;
            let m = rewrites_behind(run);
            &&& 0 <= m < previews.len()
            &&& previews[m].project@ == a.project
            &&& app::first_preview(previews, a.project, a.input_name) == Some(previews[m])
        }),
{
    let all = app::action_views(run.actions@);
    let a = run.actions@[run.at as int]@;
    let rewrites = app::rewrites(all);
    let m = rewrites_behind(run);
    assert(all[run.at as int] == a);
    lemma_rewrite_at(all, run.at as int);
    assert(previews[m].project@ == rewrites[m].project);
    assert forall|j: int| 0 <= j < m implies !(paths::same_path(
        (#[trigger] previews[j]).project@,
        a.project,
    ) && previews[j].input_name@ == a.input_name) by {
        assert(rewrites[j].project == previews[j].project@);
        assert(rewrites[m] == a);
    }
    lemma_first_is(previews, a.project, a.input_name, m);
}

/// Paths that spell the same are lost together.
proof fn lemma_lost(run: Execution, p: Seq<char>, q: Seq<char>)
    requires
        paths::same_path(p, q),
    ensures
        run.lost.has(p) == run.lost.has(q),
        order::alike(p, q, ByPath::rel()),
{
    ByPath::strict();
    paths::lemma_path_order();
    assert(!paths::path_lt(p, q) && !paths::path_lt(q, p));
    if run.lost.has(p) {
        order::lemma_holds_alike(run.lost@, p, q, ByPath::rel());
    }
    if run.lost.has(q) {
        order::lemma_holds_alike(run.lost@, q, p, ByPath::rel());
    }
}

proof fn lemma_pushed(written: Seq<(Seq<char>, Seq<char>)>, more: (Seq<char>, Seq<char>))
    ensures
        written.push(more).drop_last() == written,
        written.push(more).last() == more,
{
    assert(written.push(more).drop_last() =~= written);
}

/// When the rewrite at hand is behind, the files still read what was planned: it was
/// written, or could not be planned, or the project is lost.
proof fn lemma_kept(before: Execution, after: Execution, previews: Seq<EditPreview>)
    requires
        lines_up(before, previews),
        kept(before, previews),
        !before.edited,
        before.at < before.actions@.len(),
        before.actions@[before.at as int]@.from_identity is Some,
        after.actions == before.actions,
        after.at + (if after.edited {
            1int
        } else {
            0int
        }) == before.at + 1,
        forall|p: Seq<char>| #[trigger] before.lost.has(p) ==> after.lost.has(p),
        ({
            let a = before.actions@[before.at as int]@;
            let plan = previews[rewrites_behind(before)].edit;
            ||| after.written@ == before.written@ && (plan is Err || after.lost.has(a.project))
            ||| plan is Ok && after.written@ == before.written@.push(
                (a.project, plan->Ok_0.after@),
            )
        }),
    ensures
        kept(after, previews),
{
    let all = app::action_views(before.actions@);
    let a = before.actions@[before.at as int]@;
    let m = rewrites_behind(before);
    let now = previews.take(m + 1);
    assert(all[before.at as int] == a);
    lemma_rewrite_at(all, before.at as int);
    lemma_at_hand(before, previews);
    assert(rewrites_behind(after) == m + 1);
    assert(now.drop_last() == previews.take(m));
    assert(now.last() == previews[m]);
    if !(after.written@ == before.written@ && (previews[m].edit is Err || after.lost.has(
        a.project,
    ))) {
        let more = (a.project, previews[m].edit->Ok_0.after@);
        assert(after.written@ == before.written@.push(more));
        lemma_pushed(before.written@, more);
    }
    assert forall|p: Seq<char>, source: Option<Seq<char>>|
        !after.lost.has(p) implies #[trigger] reads(after.written@, p, source) == app::standing(
        now,
        p,
        source,
    ) by {
        if before.lost.has(p) {
            assert(after.lost.has(p));
        }
        assert(reads(before.written@, p, source) == app::standing(previews.take(m), p, source));
        if paths::same_path(a.project, p) {
            lemma_lost(after, a.project, p);
        }
    }
}

/// An update that is behind leaves the files as they are.
proof fn lemma_kept_updated(before: Execution, after: Execution, previews: Seq<EditPreview>)
    requires
        kept(before, previews),
        before.at < before.actions@.len(),
        before.actions@[before.at as int]@.from_identity is Some ==> before.edited,
        after.actions == before.actions,
        after.at == before.at + 1,
        !after.edited,
        after.lost == before.lost,
        after.written == before.written,
    ensures
        kept(after, previews),
{
    let all = app::action_views(before.actions@);
    assert(all[before.at as int] == before.actions@[before.at as int]@);
    lemma_rewrite_at(all, before.at as int);
    assert(rewrites_behind(after) == rewrites_behind(before));
}

impl Execution {
    /// Give the action at hand up, which is in `project`.
    fn give_up(&mut self, project: String)
        requires
            accounted(*old(self)),
            old(self).at < old(self).actions.len(),
            project@ == old(self).actions@[old(self).at as int].project@,
        ensures
            accounted(*final(self)),
            final(self).failed@ == order::added(old(self).failed@, project@, ByPath::rel()),
            *final(self) == (Execution {
                failed: final(self).failed,
                at: (old(self).at + 1) as usize,
                edited: false,
                results: Ghost(old(self).results@.push(false)),
                ..*old(self)
            }),
    {
        let ghost before = *self;
        self.failed.insert(project);
        self.at = self.at + 1;
        self.edited = false;
        proof {
            self.results = Ghost(self.results@.push(false));
            lemma_ended(before, *self, false);
        }
    }

    /// Give the action at hand up, because its edit failed.
    fn lose(&mut self, project: String)
        requires
            accounted(*old(self)),
            old(self).at < old(self).actions.len(),
            project@ == old(self).actions@[old(self).at as int].project@,
        ensures
            accounted(*final(self)),
            final(self).failed@ == order::added(old(self).failed@, project@, ByPath::rel()),
            final(self).lost@ == order::added(old(self).lost@, project@, ByPath::rel()),
            forall|y: Seq<char>| #[trigger]
                final(self).lost.has(y) <==> old(self).lost.has(y) || order::alike(
                    project@,
                    y,
                    ByPath::rel(),
                ),
            *final(self) == (Execution {
                failed: final(self).failed,
                lost: final(self).lost,
                at: (old(self).at + 1) as usize,
                edited: false,
                results: Ghost(old(self).results@.push(false)),
                ..*old(self)
            }),
    {
        self.give_up(project.clone());
        let ghost before = *self;
        self.lost.insert(project);
        proof {
            assert forall|x: Seq<char>| #[trigger] self.lost.has(x) implies self.failed.has(x) by {
                if !before.lost.has(x) {
                    assert(ended(before, false, x)) by {
                        let i = before.at - 1;
                        assert(before.results@[i] == false);
                        assert(order::alike(before.actions@[i].project@, x, ByPath::rel()));
                    }
                }
            }
            assert forall|b: bool, x: Seq<char>| #[trigger]
                ended(*self, b, x) == ended(before, b, x) by {
                if ended(before, b, x) {
                    let i = choose|i: int|
                        0 <= i < before.at && before.results@[i] == b && order::alike(
                            #[trigger] before.actions@[i].project@,
                            x,
                            ByPath::rel(),
                        );
                    assert(order::alike(self.actions@[i].project@, x, ByPath::rel()));
                }
            }
        }
    }

    /// What comes next.
    pub fn next_job(&mut self, app: &mut App) -> (r: Job)
        requires
            in_step(*old(self), *old(app)),
        ensures
            is_next(*old(self), *old(app), r, *final(self), *final(app)),
            in_step(*final(self), *final(app)),
            old(app).wf() ==> final(app).wf(),
            kept(*old(self), old(app).pending_diffs@) ==> kept(
                *final(self),
                final(app).pending_diffs@,
            ),
    {
        if self.at < self.actions.len() {
            let action = &self.actions[self.at];
            if action.changes_ref() && !self.edited {
                // A ref change edits flake.nix first: the lockfile is resolved against
                // whatever the file declares, so it has to be right before nix runs.
                let planned = if self.lost.contains(action.project.as_str()) {
                    None
                } else {
                    match app.edit_for(action.project.as_str(), action.input_name.as_str()) {
                        Some(edit) => Some(edit.clone()),
                        None => None,
                    }
                };
                app.step_started(
                    Step::Editing,
                    action.project.as_str(),
                    action.input_name.as_str(),
                );
                match planned {
                    Some(edit) => {
                        if self.saved.contains(action.project.as_str()) {
                            Job::EditAgain(edit)
                        } else {
                            Job::Edit(edit)
                        }
                    },
                    None => Job::Skip,
                }
            } else {
                app.step_started(
                    Step::Updating,
                    action.project.as_str(),
                    action.input_name.as_str(),
                );
                Job::Update
            }
        } else if self.settled < self.projects.len() {
            let project = self.projects[self.settled].clone();
            if !self.touched.contains(project.as_str()) || self.failed.contains(project.as_str()) {
                note(app, true, "", true);
                proof {
                    reveal_strlit("");
                    assert(""@ =~= Seq::<char>::empty());
                }
                self.settled = self.settled + 1;
                Job::Settled
            } else {
                app.step_started(Step::DroppingRoots, project.as_str(), "");
                proof {
                    reveal_strlit("");
                    assert(""@ =~= Seq::<char>::empty());
                }
                Job::DropRoots(project)
            }
        } else {
            Job::Finish
        }
    }

    /// Give the action at hand up, whose `flake.nix` cannot be rewritten.
    pub fn skip_done(&mut self, app: &mut App)
        requires
            in_step(*old(self), *old(app)),
            old(self).at < old(self).actions@.len(),
        ensures
            in_step(*final(self), *final(app)),
            gave_up(
                *old(self),
                *final(self),
                skipped_text(old(self).actions@[old(self).at as int]@),
            ),
            noted(
                *old(app),
                *final(app),
                false,
                skipped_text(old(self).actions@[old(self).at as int]@),
                true,
            ),
            old(app).wf() ==> final(app).wf(),
            !old(self).edited && old(self).actions@[old(self).at as int]@.from_identity is Some
                && edit_at_hand(
                *old(self),
                *old(app),
                old(self).actions@[old(self).at as int]@,
            ) is None && lines_up(*old(self), old(app).pending_diffs@) && kept(
                *old(self),
                old(app).pending_diffs@,
            ) ==> kept(*final(self), final(app).pending_diffs@),
    {
        let action = &self.actions[self.at];
        let said = text::cat5(
            "fail  ",
            action.project.as_str(),
            " [",
            action.input_name.as_str(),
            "]: flake.nix could not be rewritten, skipped",
        );
        let project = action.project.clone();
        report_line(&mut self.report, said.as_str());
        note(app, false, said.as_str(), true);
        self.give_up(project);
        proof {
            let previews = app.pending_diffs@;
            let before = *old(self);
            let a = before.actions@[before.at as int]@;
            if !before.edited && a.from_identity is Some && edit_at_hand(before, *old(app), a)
                is None && lines_up(before, previews) && kept(before, previews) {
                lemma_at_hand(before, previews);
                lemma_kept(before, *self, previews);
            }
        }
    }

    /// Take in how an edit went: where its backup is, or why it failed. `captured` is
    /// what came of rendering the diff of what landed.
    pub fn edit_done(
        &mut self,
        app: &mut App,
        edit: &PendingEdit,
        outcome: &Result<String, String>,
        captured: Option<Captured>,
    )
        requires
            in_step(*old(self), *old(app)),
            old(self).at < old(self).actions@.len(),
        ensures
            in_step(*final(self), *final(app)),
            match *outcome {
                Ok(backup) => {
                    let said = edited_text(
                        *edit,
                        old(self).actions@[old(self).at as int].input_name@,
                        backup@,
                    );
                    &&& text::texts(final(self).report@) == text::texts(old(self).report@).push(said)
                        + indented(
                        text::lines(
                            app::shown_diff(
                                diff::diff_text(edit.path@, edit.before@, edit.after@),
                                old(app).config.differ@,
                                captured,
                            ),
                        ),
                    )
                    &&& final(self).saved@ == if edit.before@ == edit.after@ {
                        old(self).saved@
                    } else {
                        order::added(
                            old(self).saved@,
                            old(self).actions@[old(self).at as int].project@,
                            ByPath::rel(),
                        )
                    }
                    &&& *final(self) == (Execution {
                        report: final(self).report,
                        saved: final(self).saved,
                        edited: true,
                        written: Ghost(
                            old(self).written@.push(
                                (
                                    old(self).actions@[old(self).at as int].project@,
                                    edit.after@,
                                ),
                            ),
                        ),
                        ..*old(self)
                    })
                    // The edit shares this action's slot with the update that follows
                    // it, so it is noted without counting.
                    &&& noted(*old(app), *final(app), true, said, false)
                },
                Err(e) => {
                    let said = failed_text(edit.path@, e@);
                    &&& final(self).lost@ == order::added(
                        old(self).lost@,
                        old(self).actions@[old(self).at as int].project@,
                        ByPath::rel(),
                    )
                    &&& gave_up(
                        (Execution { lost: final(self).lost, ..*old(self) }),
                        *final(self),
                        said,
                    )
                    &&& noted(*old(app), *final(app), false, said, true)
                },
            },
            old(app).wf() ==> final(app).wf(),
            !old(self).edited && old(self).actions@[old(self).at as int]@.from_identity is Some
                && edit_at_hand(
                *old(self),
                *old(app),
                old(self).actions@[old(self).at as int]@,
            ) == Some(*edit) && lines_up(*old(self), old(app).pending_diffs@) && kept(
                *old(self),
                old(app).pending_diffs@,
            ) ==> kept(*final(self), final(app).pending_diffs@),
    {
        match outcome {
            Ok(backup) => {
                let input_name = self.actions[self.at].input_name.clone();
                let mut said = text::cat5(
                    "ok    ",
                    edit.path.as_str(),
                    " [",
                    input_name.as_str(),
                    "] url ",
                );
                said.append(edit.from_url.as_str());
                said.append(" → ");
                said.append(edit.to_url.as_str());
                said.append("  (backup: ");
                said.append(backup.as_str());
                said.append(")");
                report_line(&mut self.report, said.as_str());
                // Show the edit exactly as it landed, not as it was planned.
                let applied = diff::unified(
                    edit.path.as_str(),
                    edit.before.as_str(),
                    edit.after.as_str(),
                );
                let shown = diff::render(applied.as_str(), &app.config.differ, captured);
                let lines = text::lines_of(shown.as_str());
                let ghost head = text::texts(self.report@);
                let ghost want = indented(text::texts(lines@));
                let mut i: usize = 0;
                let ghost before = *self;
                while i < lines.len()
                    invariant
                        i <= lines.len(),
                        want == indented(text::texts(lines@)),
                        text::texts(self.report@) == head + want.take(i as int),
                        *self == (Execution { report: self.report, ..before }),
                    decreases lines.len() - i,
                {
                    let ghost done = self.report@;
                    let line = text::cat2("      ", lines[i].as_str());
                    self.report.push(line);
                    assert(text::texts(self.report@) == text::texts(done).push(line@));
                    assert(want.take(i + 1) == want.take(i as int).push(want[i as int]));
                    i += 1;
                }
                assert(want.take(i as int) == want);
                note(app, true, said.as_str(), false);
                if !edit.is_noop() {
                    let project = self.actions[self.at].project.clone();
                    self.saved.insert(project);
                }
                self.edited = true;
                proof {
                    let project = self.actions@[self.at as int].project@;
                    self.written = Ghost(self.written@.push((project, edit.after@)));
                }
            },
            Err(e) => {
                let said = text::cat4("fail  ", edit.path.as_str(), ": ", e.as_str());
                let project = self.actions[self.at].project.clone();
                report_line(&mut self.report, said.as_str());
                note(app, false, said.as_str(), true);
                self.lose(project);
            },
        }
        proof {
            let previews = app.pending_diffs@;
            let before = *old(self);
            let a = before.actions@[before.at as int]@;
            if !before.edited && a.from_identity is Some && edit_at_hand(before, *old(app), a)
                == Some(*edit) && lines_up(before, previews) && kept(before, previews) {
                lemma_at_hand(before, previews);
                lemma_lost(*self, a.project, a.project);
                lemma_kept(before, *self, previews);
            }
        }
    }

    /// Take in how the update of the action at hand went.
    pub fn update_done(&mut self, app: &mut App, outcome: &Result<(), String>)
        requires
            in_step(*old(self), *old(app)),
            old(self).at < old(self).actions@.len(),
        ensures
            in_step(*final(self), *final(app)),
            match *outcome {
                Ok(_) => {
                    let a = old(self).actions@[old(self).at as int]@;
                    &&& one_more(old(self).report@, final(self).report@, updated_text(a))
                    &&& final(self).touched@ == order::added(
                        old(self).touched@,
                        a.project,
                        ByPath::rel(),
                    )
                    &&& *final(self) == (Execution {
                        report: final(self).report,
                        touched: final(self).touched,
                        at: (old(self).at + 1) as usize,
                        edited: false,
                        results: Ghost(old(self).results@.push(true)),
                        ..*old(self)
                    })
                    &&& noted(*old(app), *final(app), true, updated_text(a), true)
                },
                Err(e) => {
                    let said = failed_text(old(self).actions@[old(self).at as int].project@, e@);
                    &&& gave_up(*old(self), *final(self), said)
                    &&& noted(*old(app), *final(app), false, said, true)
                },
            },
            old(app).wf() ==> final(app).wf(),
            (old(self).actions@[old(self).at as int]@.from_identity is Some ==> old(self).edited)
                && kept(*old(self), old(app).pending_diffs@) ==> kept(
                *final(self),
                final(app).pending_diffs@,
            ),
    {
        let project = self.actions[self.at].project.clone();
        match outcome {
            Ok(_) => {
                let action = &self.actions[self.at];
                let mut said = text::cat5(
                    "ok    ",
                    action.project.as_str(),
                    " ",
                    action.input_name.as_str(),
                    " → ",
                );
                said.append(app::short(action.target_version.as_str()).as_str());
                report_line(&mut self.report, said.as_str());
                note(app, true, said.as_str(), true);
                let ghost before = *self;
                self.touched.insert(project);
                self.at = self.at + 1;
                self.edited = false;
                proof {
                    self.results = Ghost(self.results@.push(true));
                    lemma_ended(before, *self, true);
                }
            },
            Err(e) => {
                let said = text::cat4("fail  ", project.as_str(), ": ", e.as_str());
                report_line(&mut self.report, said.as_str());
                note(app, false, said.as_str(), true);
                self.give_up(project);
            },
        }
        proof {
            let previews = app.pending_diffs@;
            let a = old(self).actions@[old(self).at as int]@;
            if (a.from_identity is Some ==> old(self).edited) && kept(*old(self), previews) {
                lemma_kept_updated(*old(self), *self, previews);
            }
        }
    }

    /// Take in how many roots of the project at hand were dropped.
    pub fn drop_done(&mut self, app: &mut App, outcome: &Result<usize, String>)
        requires
            in_step(*old(self), *old(app)),
            old(self).settled < old(self).projects@.len(),
        ensures
            in_step(*final(self), *final(app)),
            final(self).settled == old(self).settled + 1,
            match *outcome {
                Ok(n) => {
                    &&& final(self).dropped == if old(self).dropped + n <= usize::MAX {
                        old(self).dropped + n
                    } else {
                        usize::MAX as int
                    }
                    &&& *final(self) == (Execution {
                        dropped: final(self).dropped,
                        settled: final(self).settled,
                        ..*old(self)
                    })
                    &&& noted(
                        *old(app),
                        *final(app),
                        true,
                        dropped_text(n as nat, old(self).projects@[old(self).settled as int]@),
                        true,
                    )
                },
                Err(e) => {
                    let said = failed_text(
                        "dropping roots in "@ + old(self).projects@[old(self).settled as int]@,
                        e@,
                    );
                    &&& one_more(old(self).report@, final(self).report@, said)
                    &&& *final(self) == (Execution {
                        report: final(self).report,
                        settled: final(self).settled,
                        ..*old(self)
                    })
                    &&& noted(*old(app), *final(app), false, said, true)
                },
            },
            old(app).wf() ==> final(app).wf(),
            kept(*old(self), old(app).pending_diffs@) ==> kept(
                *final(self),
                final(app).pending_diffs@,
            ),
    {
        let project = self.projects[self.settled].clone();
        match outcome {
            Ok(n) => {
                self.dropped = if *n <= usize::MAX - self.dropped {
                    self.dropped + *n
                } else {
                    usize::MAX
                };
                let said = text::cat4(
                    "ok    dropped ",
                    text::count_text(*n).as_str(),
                    " root(s) in ",
                    project.as_str(),
                );
                note(app, true, said.as_str(), true);
            },
            Err(e) => {
                let what = text::cat2("dropping roots in ", project.as_str());
                let said = text::cat4("fail  ", what.as_str(), ": ", e.as_str());
                report_line(&mut self.report, said.as_str());
                note(app, false, said.as_str(), true);
            },
        }
        self.settled = self.settled + 1;
    }

    /// The actions whose `flake.nix` was to be rewritten and could be.
    pub open spec fn rewritten(self, app: App) -> Seq<Action> {
        self.actions@.filter(
            |a: Action|
                a@.from_identity is Some && app::edit_among(
                    app.pending_diffs@,
                    a@.project,
                    a@.input_name,
                ) is Some,
        )
    }

    /// The headline of the report: how much was done, in what time, and how much of it
    /// failed.
    pub open spec fn headline(r: Running, nanos: nat) -> Seq<char> {
        let failures = app::failed_in(r.log@);
        text::dec(r.total as nat) + " action(s) in "@ + progress::duration_text(nanos)
            + if failures > 0 {
            ", "@ + text::dec(failures) + " failed"@
        } else {
            Seq::empty()
        }
    }

    /// The report of the whole run.
    pub open spec fn full_report(self, app: App, nanos: nat) -> Seq<Seq<char>> {
        let head = match app.running {
            Some(r) => seq![Self::headline(r, nanos), Seq::empty()],
            None => Seq::empty(),
        };
        let kept = self.rewritten(app).len();
        let last = if kept > 0 {
            seq![
                text::dec(kept)
                    + " flake.nix backup(s) kept alongside the originals (.nix.bak)."@,
            ]
        } else {
            Seq::empty()
        };
        head + text::texts(self.report@) + seq![
            Seq::empty(),
            "Dropped "@ + text::dec(self.dropped as nat)
                + " direnv GC root(s). Run `nix store gc` to reclaim the space."@,
        ] + last
    }

    /// End the run, after it took `elapsed`, and show the report.
    pub fn finish(self, app: &mut App, elapsed: &TimeSpan)
        ensures
            text::texts(final(app).report@) == self.full_report(*old(app), elapsed@),
            final(app).pending_diffs@.len() == 0,
            *final(app) == (App {
                report: final(app).report,
                pending_diffs: final(app).pending_diffs,
                running: None,
                mode: Mode::Report,
                ..*old(app)
            }),
            old(app).wf() ==> final(app).wf(),
    {
        let mut report: Vec<String> = Vec::new();
        if let Some(r) = &app.running {
            let failures: usize = r.failures();
            let mut line = text::cat3(
                text::count_text(r.total).as_str(),
                " action(s) in ",
                progress::human_duration(elapsed).as_str(),
            );
            if failures > 0 {
                line.append(", ");
                line.append(text::count_text(failures).as_str());
                line.append(" failed");
            }
            assert(line@ == Self::headline(*r, elapsed@));
            report.push(line);
            report.push(String::new());
            assert(text::texts(report@) == seq![
                Self::headline(*r, elapsed@),
                Seq::<char>::empty(),
            ]);
        } else {
            assert(text::texts(report@) == Seq::<Seq<char>>::empty());
        }
        let ghost head = text::texts(report@);
        let mut i: usize = 0;
        let ghost body = text::texts(self.report@);
        while i < self.report.len()
            invariant
                i <= self.report.len(),
                body == text::texts(self.report@),
                text::texts(report@) == head + body.take(i as int),
            decreases self.report.len() - i,
        {
            let ghost done = report@;
            report.push(self.report[i].clone());
            assert(text::texts(report@) == text::texts(done).push(body[i as int]));
            assert(body.take(i + 1) == body.take(i as int).push(body[i as int]));
            i += 1;
        }
        assert(body.take(i as int) == body);
        let total = text::cat3(
            "Dropped ",
            text::count_text(self.dropped).as_str(),
            " direnv GC root(s). Run `nix store gc` to reclaim the space.",
        );
        let ghost done = report@;
        report.push(String::new());
        report.push(total);
        assert(text::texts(report@) == text::texts(done) + seq![Seq::<char>::empty(), total@]);
        // The backups are the undo path for every flake.nix touched here, so say they
        // exist rather than leaving them to be discovered.
        let kept = self.count_rewritten(app);
        if kept > 0 {
            let line = text::cat2(
                text::count_text(kept).as_str(),
                " flake.nix backup(s) kept alongside the originals (.nix.bak).",
            );
            let ghost done = report@;
            report.push(line);
            assert(text::texts(report@) == text::texts(done) + seq![line@]);
        }
        assert(text::texts(report@) == self.full_report(*old(app), elapsed@));
        app.report = report;
        app.pending_diffs = Vec::new();
        app.running = None;
        app.mode = Mode::Report;
    }

    fn count_rewritten(&self, app: &App) -> (r: usize)
        ensures
            r == self.rewritten(*app).len(),
    {
        let ghost keep = |a: Action|
            a@.from_identity is Some && app::edit_among(
                app.pending_diffs@,
                a@.project,
                a@.input_name,
            ) is Some;
        let mut n: usize = 0;
        let mut i: usize = 0;
        assert(self.actions@.take(0).filter(keep).len() == 0) by {
            reveal(Seq::filter);
        }
        while i < self.actions.len()
            invariant
                n <= i <= self.actions.len(),
                keep == (|a: Action|
                    a@.from_identity is Some && app::edit_among(
                        app.pending_diffs@,
                        a@.project,
                        a@.input_name,
                    ) is Some),
                n == self.actions@.take(i as int).filter(keep).len(),
            decreases self.actions.len() - i,
        {
            proof {
                reveal(Seq::filter);
                assert(self.actions@.take(i + 1).drop_last() == self.actions@.take(i as int));
            }
            let action = &self.actions[i];
            if action.changes_ref() && app.edit_for(
                action.project.as_str(),
                action.input_name.as_str(),
            ).is_some() {
                n += 1;
            }
            i += 1;
        }
        assert(self.actions@.take(i as int) == self.actions@);
        assert(self.rewritten(*app) == self.actions@.filter(keep));
        n
    }
}

// ---------------------------------------------------------------------------
// What holds of every run
// ---------------------------------------------------------------------------

/// Roots are only dropped once every action of the plan is behind, for a project with
/// at least one of them, and where each of them succeeded.
pub proof fn law_roots_are_dropped_only_where_every_action_succeeded(
    before: Execution,
    app: App,
    job: Job,
    after: Execution,
    app_after: App,
    i: int,
)
    requires
        in_step(before, app),
        is_next(before, app, job, after, app_after),
        job is DropRoots,
        0 <= i < before.actions@.len(),
    ensures
        before.at == before.actions@.len(),
        ended(before, true, job->DropRoots_0@),
        order::alike(before.actions@[i].project@, job->DropRoots_0@, ByPath::rel())
            ==> before.results@[i],
{
    let project = job->DropRoots_0@;
    assert(before.touched.has(project));
    assert(!before.failed.has(project));
    if !before.results@[i] && order::alike(before.actions@[i].project@, project, ByPath::rel()) {
        assert(ended(before, false, project));
    }
}

proof fn lemma_first_preview(previews: Seq<EditPreview>, project: Seq<char>, input_name: Seq<char>)
    requires
        app::first_preview(previews, project, input_name) is Some,
    ensures
        previews.contains(app::first_preview(previews, project, input_name)->0),
    decreases previews.len(),
{
    if !(paths::same_path(previews[0].project@, project) && previews[0].input_name@ == input_name) {
        let rest = previews.drop_first();
        lemma_first_preview(rest, project, input_name);
        let k = choose|k: int|
            0 <= k < rest.len() && rest[k] == app::first_preview(rest, project, input_name)->0;
        assert(previews[k + 1] == rest[k]);
    }
}

/// The edit that a job is to perform.
pub open spec fn edit_of(job: Job) -> PendingEdit {
    match job {
        Job::EditAgain(edit) => edit,
        _ => job->Edit_0,
    }
}

/// Nothing is written that was not there to be read first: an edit that is run is the
/// very one whose diff the plan showed.
pub proof fn law_only_previewed_edits_are_run(
    before: Execution,
    app: App,
    job: Job,
    after: Execution,
    app_after: App,
)
    requires
        is_next(before, app, job, after, app_after),
        job is Edit || job is EditAgain,
    ensures
        exists|k: int|
            0 <= k < app.pending_diffs@.len() && #[trigger] app.pending_diffs@[k].edit == Ok::<
                PendingEdit,
                String,
            >(edit_of(job)),
{
    let a = before.actions@[before.at as int]@;
    let previews = app.pending_diffs@;
    lemma_first_preview(previews, a.project, a.input_name);
    let shown = app::first_preview(previews, a.project, a.input_name)->0;
    let k = choose|k: int| 0 <= k < previews.len() && previews[k] == shown;
    assert(previews[k].edit == Ok::<PendingEdit, String>(edit_of(job)));
}

/// After the run every rewrite stands: where no edit of a project failed, its `flake.nix`
/// declares, for each of its inputs whose rewrite could be planned, the url that was
/// wanted. That holds however many of its inputs were rewritten, since a later edit
/// builds on the earlier one.
pub proof fn law_a_run_leaves_every_target_declared(
    run: Execution,
    app: App,
    inspected: Seq<app::Inspected>,
    differ: Seq<String>,
    source: Option<Seq<char>>,
    k: int,
)
    requires
        run.at == run.actions@.len(),
        !run.edited,
        lines_up(run, app.pending_diffs@),
        kept(run, app.pending_diffs@),
        app::are_previews(
            app.pending_diffs@,
            app::rewrites(app::action_views(run.actions@)),
            inspected,
            differ,
        ),
        forall|j: int|
            0 <= j < app.pending_diffs@.len() ==> app::writes_plainly(
                #[trigger] app::rewrites(app::action_views(run.actions@))[j],
            ),
        0 <= k < app.pending_diffs@.len(),
        app.pending_diffs@[k].edit is Ok,
        !run.lost.has(app::rewrites(app::action_views(run.actions@))[k].project),
    ensures
        ({
            let a = app::rewrites(app::action_views(run.actions@))[k];
            reads(run.written@, a.project, source) matches Some(text) && nix_edit::url_in(
                text,
                a.input_name,
            ) matches Some((x, y)) && text.subrange(x, y) == a.identity.url_text()
        }),
{
    let all = app::action_views(run.actions@);
    let rewrites = app::rewrites(all);
    let previews = app.pending_diffs@;
    assert(all.take(run.at as int) == all);
    assert(previews.take(rewrites_behind(run)) == previews);
    assert(reads(run.written@, rewrites[k].project, source) == app::standing(
        previews,
        rewrites[k].project,
        source,
    ));
    assert forall|j: int|
        k <= j < previews.len() && paths::same_path(
            (#[trigger] rewrites[j]).project,
            rewrites[k].project,
        ) implies app::writes_plainly(rewrites[j]) && (j != k ==> rewrites[j].input_name
        != rewrites[k].input_name) by {
        if j != k {
            assert(paths::same_path(rewrites[k].project, rewrites[j].project));
        }
    }
    app::law_every_rewrite_stands(
        previews,
        rewrites,
        inspected,
        differ,
        source,
        k,
        previews.len() as int,
    );
}

/// An edit is only run on the text it was planned on: the file reads what the edit
/// takes it to read, as long as it read what was inspected when the run began.
pub proof fn law_an_edit_finds_the_text_it_was_planned_on(
    run: Execution,
    app: App,
    job: Job,
    after: Execution,
    app_after: App,
    inspected: Seq<app::Inspected>,
    differ: Seq<String>,
)
    requires
        is_next(run, app, job, after, app_after),
        job is Edit || job is EditAgain,
        lines_up(run, app.pending_diffs@),
        kept(run, app.pending_diffs@),
        app::are_previews(
            app.pending_diffs@,
            app::rewrites(app::action_views(run.actions@)),
            inspected,
            differ,
        ),
    ensures
        reads(
            run.written@,
            run.actions@[run.at as int].project@,
            text::view_of(inspected[rewrites_behind(run)].source),
        ) == Some(edit_of(job).before@),
{
    let all = app::action_views(run.actions@);
    let a = run.actions@[run.at as int]@;
    let m = rewrites_behind(run);
    lemma_at_hand(run, app.pending_diffs@);
    assert(all[run.at as int] == a);
    lemma_rewrite_at(all, run.at as int);
    assert(app.pending_diffs@[m].edit == Ok::<PendingEdit, String>(edit_of(job)));
}

/// During the whole run the bar counts one for every action of the plan and one for
/// every project in it, each project once, and it never runs past that.
pub proof fn law_the_bar_counts_actions_and_projects(run: Execution, app: App)
    requires
        in_step(run, app),
    ensures
        app.running->0.total == run.actions@.len() + projects_of(run.actions@).len(),
        order::ascending(projects_of(run.actions@), ByPath::rel()),
        forall|i: int|
            0 <= i < run.actions@.len() ==> order::holds(
                projects_of(run.actions@),
                #[trigger] run.actions@[i].project@,
                ByPath::rel(),
            ),
        app.running->0.done <= app.running->0.total,
        run.at == run.actions@.len() && run.settled == run.projects@.len() <==> app.running->0.done
            == app.running->0.total,
{
    assert(text::texts(run.projects@).len() == run.projects@.len());
    ByPath::strict();
    let all = projects_in(run.actions@);
    order::lemma_added_all(Seq::empty(), all, ByPath::rel());
    assert forall|i: int| 0 <= i < run.actions@.len() implies order::holds(
        projects_of(run.actions@),
        #[trigger] run.actions@[i].project@,
        ByPath::rel(),
    ) by {
        assert(all[i] == run.actions@[i].project@);
        assert(order::alike(all[i], all[i], ByPath::rel()));
        assert(order::holds(all, all[i], ByPath::rel()));
    }
}

/// The bar never runs past its end, and the run is over just when it is full.
pub proof fn law_the_bar_ends_at_its_total(
    before: Execution,
    app: App,
    job: Job,
    after: Execution,
    app_after: App,
)
    requires
        in_step(before, app),
        is_next(before, app, job, after, app_after),
    ensures
        app.running->0.done <= app.running->0.total,
        job is Finish <==> app.running->0.done == app.running->0.total,
        app_after.running->0.total == app.running->0.total,
        app.running->0.done <= app_after.running->0.done <= app.running->0.total,
{
}

/// What is said of a step that succeeded begins with `ok`, of one that failed with
/// `fail`, and both go on with where it was and what it was about.
pub proof fn law_outcomes_tell_what_they_are_about(
    a: ActionView,
    edit: PendingEdit,
    backup: Seq<char>,
    error: Seq<char>,
    n: nat,
)
    ensures
        text::begins(skipped_text(a), "fail  "@ + a.project + " ["@ + a.input_name + "]"@),
        text::begins(failed_text(a.project, error), "fail  "@ + a.project),
        text::ends(failed_text(a.project, error), error),
        text::begins(updated_text(a), "ok    "@ + a.project + " "@ + a.input_name),
        text::ends(updated_text(a), app::shortened(a.target_version)),
        text::begins(edited_text(edit, a.input_name, backup), "ok    "@ + edit.path@),
        text::has(
            edited_text(edit, a.input_name, backup),
            " url "@ + edit.from_url@ + " → "@ + edit.to_url@,
        ),
        text::has(edited_text(edit, a.input_name, backup), backup),
        text::begins(dropped_text(n, a.project), "ok"@),
        text::has(dropped_text(n, a.project), " "@ + text::dec(n) + " "@),
        text::ends(dropped_text(n, a.project), a.project),
{
    reveal_strlit("ok");
    reveal_strlit("ok    ");
    reveal_strlit("fail  ");
    reveal_strlit("ok    dropped ");
    reveal_strlit(" root(s) in ");
    reveal_strlit(" ");
    reveal_strlit("] url ");
    reveal_strlit(" url ");
    reveal_strlit(" [");
    reveal_strlit("]");
    reveal_strlit("]: flake.nix could not be rewritten, skipped");
    let s = skipped_text(a);
    let x = "fail  "@ + a.project + " ["@ + a.input_name + "]"@;
    assert(s.subrange(0, x.len() as int) =~= x);
    let s = failed_text(a.project, error);
    let x = "fail  "@ + a.project;
    assert(s.subrange(0, x.len() as int) =~= x);
    assert(s.subrange(s.len() - error.len(), s.len() as int) =~= error);
    let s = updated_text(a);
    let x = "ok    "@ + a.project + " "@ + a.input_name;
    assert(s.subrange(0, x.len() as int) =~= x);
    let short = app::shortened(a.target_version);
    assert(s.subrange(s.len() - short.len(), s.len() as int) =~= short);
    let s = edited_text(edit, a.input_name, backup);
    let x = "ok    "@ + edit.path@;
    assert(s.subrange(0, x.len() as int) =~= x);
    let y = " url "@ + edit.from_url@ + " → "@ + edit.to_url@;
    let i = (x.len() + 2 + a.input_name.len() + 1) as int;
    assert(s.subrange(i, i + y.len()) =~= y);
    assert(text::occurs_at(s, y, i));
    let j = (i + y.len() + "  (backup: "@.len()) as int;
    assert(s.subrange(j, j + backup.len()) =~= backup);
    assert(text::occurs_at(s, backup, j));
    let s = dropped_text(n, a.project);
    assert(s.subrange(0, 2) =~= "ok"@);
    let y = " "@ + text::dec(n) + " "@;
    assert(s.subrange(13, 13int + y.len()) =~= y);
    assert(text::occurs_at(s, y, 13));
    assert(s.subrange(s.len() - a.project.len(), s.len() as int) =~= a.project);
}

/// The projects of a plan are those of its actions, each once.
pub proof fn law_a_project_is_settled_once(actions: Seq<Action>, p: Seq<char>)
    ensures
        crate::store::lists(projects_of(actions), p) <==> exists|i: int|
            0 <= i < actions.len() && paths::same_path((#[trigger] actions[i]).project@, p),
        forall|i: int, j: int|
            0 <= i < j < projects_of(actions).len() ==> !paths::same_path(
                #[trigger] projects_of(actions)[i],
                #[trigger] projects_of(actions)[j],
            ),
{
    let all = projects_in(actions);
    let some = projects_of(actions);
    ByPath::strict();
    order::lemma_added_all(Seq::empty(), all, ByPath::rel());
    crate::store::lemma_lists(some, p);
    crate::store::lemma_lists(all, p);
    assert(order::holds(some, p, ByPath::rel()) <==> order::holds(all, p, ByPath::rel()));
    if crate::store::lists(all, p) {
        let i = choose|i: int| 0 <= i < all.len() && paths::same_path(#[trigger] all[i], p);
        assert(paths::same_path(actions[i].project@, p));
    }
    if exists|i: int| 0 <= i < actions.len() && paths::same_path(
        (#[trigger] actions[i]).project@,
        p,
    ) {
        let i = choose|i: int|
            0 <= i < actions.len() && paths::same_path((#[trigger] actions[i]).project@, p);
        assert(paths::same_path(all[i], p));
    }
    paths::lemma_path_order();
    let lt = ByPath::rel();
    assert forall|i: int, j: int| 0 <= i < j < some.len() implies !paths::same_path(
        #[trigger] some[i],
        #[trigger] some[j],
    ) by {
        assert(lt(some[i], some[j]));
        assert(paths::path_lt(some[i], some[j]));
    }
}

} // verus!
