//! What is printed instead of entering the screen: the analysis of the lockfiles, and
//! the reverse root index.
use crate::app;
use crate::app::App;
use crate::keyed::{ByPath, KeyOrder, PathSet};
use crate::lock::{Group, MergeKey};
use crate::order;
use crate::store;
use crate::store::{RootRow, RootRowView, RootedPath};
use crate::text;
use vstd::prelude::*;

verus! {

// ---------------------------------------------------------------------------
// Lines
// ---------------------------------------------------------------------------

/// `prefix` in front of each of `items`.
pub open spec fn prefixed(prefix: Seq<char>, items: Seq<Seq<char>>) -> Seq<Seq<char>> {
    items.map_values(|t: Seq<char>| prefix + t)
}

fn say(out: &mut Vec<String>, line: String)
    ensures
        text::texts(final(out)@) == text::texts(old(out)@).push(line@),
{
    let ghost before = out@;
    out.push(line);
    assert(text::texts(out@) == text::texts(before).push(line@));
}

fn say_each(out: &mut Vec<String>, prefix: &str, items: &Vec<String>)
    ensures
        text::texts(final(out)@) == text::texts(old(out)@) + prefixed(
            prefix@,
            text::texts(items@),
        ),
{
    let ghost before = text::texts(out@);
    let ghost want = prefixed(prefix@, text::texts(items@));
    let mut i: usize = 0;
    assert(want.take(0) == Seq::<Seq<char>>::empty());
    while i < items.len()
        invariant
            i <= items.len(),
            want == prefixed(prefix@, text::texts(items@)),
            text::texts(out@) == before + want.take(i as int),
        decreases items.len() - i,
    {
        say(out, text::cat2(prefix, items[i].as_str()));
        assert(want.take(i + 1) == want.take(i as int).push(want[i as int]));
        i += 1;
    }
    assert(want.take(i as int) == want);
}

// ---------------------------------------------------------------------------
// The reverse root index
// ---------------------------------------------------------------------------

/// The mark of a path that dropping direnv roots alone frees, or of any other.
pub open spec fn mark(row: RootRowView) -> Seq<char> {
    if row.is_freeable() {
        "·"@
    } else {
        "×"@
    }
}

/// What is printed of one rooted path: its size, and what holds it.
pub open spec fn row_lines(row: RootRowView) -> Seq<Seq<char>> {
    seq![
        mark(row) + " "@ + text::right(store::bytes_text(row.size_bytes), 10) + "  "@
            + row.store_path,
    ] + prefixed("             direnv    "@, row.projects) + prefixed(
        "             external  "@,
        row.external,
    ) + prefixed("             process   "@, row.process)
}

/// What is printed of `rows`, in order.
pub open spec fn rows_lines(rows: Seq<RootRowView>) -> Seq<Seq<char>>
    decreases rows.len(),
{
    if rows.len() == 0 {
        Seq::empty()
    } else {
        rows_lines(rows.drop_last()) + row_lines(rows.last())
    }
}

/// Those of `rows` that dropping direnv roots alone frees.
pub open spec fn droppable(rows: Seq<RootRowView>) -> Seq<RootRowView> {
    rows.filter(|r: RootRowView| r.is_freeable())
}

/// The reverse root index of `rows`.
pub open spec fn roots_text(rows: Seq<RootRowView>, hides_process: bool) -> Seq<Seq<char>> {
    if rows.len() == 0 {
        seq!["No GC roots found (is nix-store on PATH?)"@]
    } else {
        seq![
            text::dec(rows.len()) + " rooted store path(s), "@ + store::bytes_text(
                store::capped(app::total_bytes(rows)),
            ) + " held (upper bound)"@,
            text::dec(droppable(rows).len()) + " droppable by direnv roots alone, "@
                + store::bytes_text(store::capped(app::total_bytes(droppable(rows)))),
        ] + (if hides_process {
            seq!["(process-held paths hidden; --with-process-roots to include them)"@]
        } else {
            Seq::empty()
        }) + seq![Seq::empty()] + rows_lines(rows) + seq![
            Seq::empty(),
            "· droppable by this tool   × pinned outside direnv"@,
        ]
    }
}

/// How many of `rows` dropping direnv roots alone frees, and the bytes they hold.
pub fn count_droppable(rows: &Vec<RootRow>) -> (r: (usize, u64))
    ensures
        r.0 == droppable(store::row_views(rows@)).len(),
        r.1 == store::capped(app::total_bytes(droppable(store::row_views(rows@)))),
{
    let ghost views = store::row_views(rows@);
    let mut n: usize = 0;
    let mut bytes: u64 = 0;
    let mut i: usize = 0;
    assert(droppable(views.take(0)) == Seq::<RootRowView>::empty()) by {
        reveal(Seq::filter);
    }
    while i < rows.len()
        invariant
            n <= i <= rows.len(),
            views == store::row_views(rows@),
            n == droppable(views.take(i as int)).len(),
            bytes == store::capped(app::total_bytes(droppable(views.take(i as int)))),
        decreases rows.len() - i,
    {
        let ghost done = droppable(views.take(i as int));
        proof {
            reveal(Seq::filter);
            assert(views.take(i + 1).drop_last() == views.take(i as int));
            assert(views[i as int] == rows@[i as int]@);
            assert(done.push(views[i as int]).drop_last() == done);
        }
        if rows[i].freeable() {
            n += 1;
            bytes = store::capped_sum(bytes, rows[i].size_bytes);
        }
        i += 1;
    }
    assert(views.take(i as int) == views);
    (n, bytes)
}

/// The reverse root index, line by line.
///
/// `nix-store --gc --print-roots` answers "what roots exist"; this answers the question
/// that actually blocks a store from shrinking: for each rooted path, who is holding
/// it, and whether this tool could let go.
pub fn print_roots(app: &App) -> (r: Vec<String>)
    ensures
        text::texts(r@) == roots_text(app.root_rows_view(), app.roots_hide_process),
{
    let mut out: Vec<String> = Vec::new();
    assert(text::texts(out@) == Seq::<Seq<char>>::empty());
    let rows = app.root_rows();
    let ghost views = app.root_rows_view();
    assert(views.len() == rows.len());
    if rows.len() == 0 {
        say(&mut out, "No GC roots found (is nix-store on PATH?)".to_owned());
        return out;
    }
    let (freeable, freeable_bytes) = count_droppable(&rows);
    say(
        &mut out,
        text::cat4(
            text::count_text(rows.len()).as_str(),
            " rooted store path(s), ",
            store::human_bytes(app.roots_total_bytes()).as_str(),
            " held (upper bound)",
        ),
    );
    say(
        &mut out,
        text::cat3(
            text::count_text(freeable).as_str(),
            " droppable by direnv roots alone, ",
            store::human_bytes(freeable_bytes).as_str(),
        ),
    );
    if app.roots_hide_process {
        say(
            &mut out,
            "(process-held paths hidden; --with-process-roots to include them)".to_owned(),
        );
    }
    say(&mut out, String::new());
    let ghost head = text::texts(out@);
    let mut i: usize = 0;
    while i < rows.len()
        invariant
            i <= rows.len(),
            views == store::row_views(rows@),
            text::texts(out@) == head + rows_lines(views.take(i as int)),
        decreases rows.len() - i,
    {
        let row = &rows[i];
        let ghost before = text::texts(out@);
        proof {
            assert(views.take(i + 1).drop_last() == views.take(i as int));
            assert(views[i as int] == row@);
        }
        let sign = if row.freeable() {
            "·"
        } else {
            "×"
        };
        let mut line = text::cat4(
            sign,
            " ",
            text::right_text(store::human_bytes(row.size_bytes).as_str(), 10).as_str(),
            "  ",
        );
        line.append(row.store_path.as_str());
        say(&mut out, line);
        say_each(&mut out, "             direnv    ", &row.projects);
        say_each(&mut out, "             external  ", &row.external);
        say_each(&mut out, "             process   ", &row.process);
        assert(text::texts(out@) == before + row_lines(row@));
        i += 1;
    }
    assert(views.take(i as int) == views);
    say(&mut out, String::new());
    say(&mut out, "· droppable by this tool   × pinned outside direnv".to_owned());
    assert(text::texts(out@) == roots_text(views, app.roots_hide_process));
    out
}

// ---------------------------------------------------------------------------
// The analysis
// ---------------------------------------------------------------------------

/// One input in the analysis: how many revisions its pins have, and how many pins.
struct InputLine {
    revs: usize,
    pins: usize,
    name: String,
}

/// What is said of one input.
pub struct InputLineView {
    pub revs: nat,
    pub pins: nat,
    pub name: Seq<char>,
}

impl View for InputLine {
    type V = InputLineView;

    closed spec fn view(&self) -> InputLineView {
        InputLineView { revs: self.revs as nat, pins: self.pins as nat, name: self.name@ }
    }
}

spec fn line_views(lines: Seq<InputLine>) -> Seq<InputLineView> {
    lines.map_values(|l: InputLine| l@)
}

impl InputLineView {
    /// The line that says so, after `indent`.
    pub open spec fn shown(self, indent: Seq<char>) -> Seq<char> {
        indent + text::right(text::dec(self.revs), 2) + " revs across "@ + text::right(
            text::dec(self.pins),
            2,
        ) + " pins  "@ + self.name
    }
}

impl InputLine {
    fn line(&self, indent: &str) -> (r: String)
        ensures
            r@ == self@.shown(indent@),
    {
        let mut r = text::cat5(
            indent,
            text::right_text(text::count_text(self.revs).as_str(), 2).as_str(),
            " revs across ",
            text::right_text(text::count_text(self.pins).as_str(), 2).as_str(),
            " pins  ",
        );
        r.append(self.name.as_str());
        r
    }
}

/// Put a line for each of `lines`.
fn say_inputs(out: &mut Vec<String>, indent: &str, lines: &Vec<InputLine>)
    ensures
        text::texts(final(out)@) == text::texts(old(out)@) + line_views(lines@).map_values(
            |l: InputLineView| l.shown(indent@),
        ),
{
    let ghost before = text::texts(out@);
    let ghost want = line_views(lines@).map_values(|l: InputLineView| l.shown(indent@));
    let mut i: usize = 0;
    assert(want.take(0) == Seq::<Seq<char>>::empty());
    while i < lines.len()
        invariant
            i <= lines.len(),
            want == line_views(lines@).map_values(|l: InputLineView| l.shown(indent@)),
            text::texts(out@) == before + want.take(i as int),
        decreases lines.len() - i,
    {
        say(out, lines[i].line(indent));
        assert(line_views(lines@)[i as int] == lines@[i as int]@);
        assert(want.take(i + 1) == want.take(i as int).push(want[i as int]));
        i += 1;
    }
    assert(want.take(i as int) == want);
}

/// What is said of a group, as far as its pins are acted on.
pub open spec fn input_line(l: app::Listing, g: Group) -> InputLineView {
    InputLineView {
        revs: app::versions(l.acting(g.pins@)).to_set().len(),
        pins: l.acting(g.pins@).len(),
        name: g.identity@.shown(),
    }
}

fn line_of(app: &App, g: &Group) -> (r: InputLine)
    ensures
        r@ == input_line(app.listing(), *g),
{
    let pins = app.actionable_pins(g);
    assert(pins@.unref().len() == pins@.len());
    InputLine { revs: app.distinct_versions(g), pins: pins.len(), name: g.identity.to_text() }
}

/// Whether a group diverges by itself.
pub open spec fn diverges(l: app::Listing, g: Group) -> bool {
    app::versions(l.acting(g.pins@)).to_set().len() > 1
}

/// The groups that diverge, in order.
pub open spec fn divergent(l: app::Listing) -> Seq<Group> {
    l.groups.filter(|g: Group| diverges(l, g))
}

/// Whether one input has more revisions than another.
pub open spec fn more_revs(a: InputLineView, b: InputLineView) -> bool {
    a.revs > b.revs
}

/// The lines of the groups that diverge, those with the most revisions first.
pub open spec fn divergent_lines(l: app::Listing) -> Seq<InputLineView> {
    order::sorted(
        divergent(l).map_values(|g: Group| input_line(l, g)),
        |a: InputLineView, b: InputLineView| more_revs(a, b),
    )
}

fn has_more_revs(a: &InputLine, b: &InputLine) -> (r: bool)
    ensures
        r == more_revs(a@, b@),
{
    a.revs > b.revs
}

fn lines_of_divergent(app: &App) -> (r: Vec<InputLine>)
    ensures
        line_views(r@) == divergent_lines(app.listing()),
{
    let ghost l = app.listing();
    let ghost keep = |g: Group| diverges(l, g);
    let ghost f = |g: Group| input_line(l, g);
    let mut lines: Vec<InputLine> = Vec::new();
    let mut i: usize = 0;
    assert(line_views(lines@) == app.groups@.take(0).filter(keep).map_values(f)) by {
        reveal(Seq::filter);
    }
    while i < app.groups.len()
        invariant
            i <= app.groups.len(),
            l == app.listing(),
            keep == (|g: Group| diverges(l, g)),
            f == (|g: Group| input_line(l, g)),
            line_views(lines@) == app.groups@.take(i as int).filter(keep).map_values(f),
        decreases app.groups.len() - i,
    {
        let ghost done = app.groups@.take(i as int).filter(keep);
        let ghost before = lines@;
        proof {
            reveal(Seq::filter);
            assert(app.groups@.take(i + 1).drop_last() == app.groups@.take(i as int));
        }
        if app.is_divergent(&app.groups[i]) {
            let line = line_of(app, &app.groups[i]);
            lines.push(line);
            assert(line_views(lines@) == line_views(before).push(line@));
            assert(done.push(app.groups@[i as int]).map_values(f) == done.map_values(f).push(
                input_line(l, app.groups@[i as int]),
            ));
        }
        i += 1;
    }
    assert(app.groups@.take(i as int) == app.groups@);
    let ghost lt = |a: InputLine, b: InputLine| more_revs(a@, b@);
    let ghost rel = |a: InputLineView, b: InputLineView| more_revs(a, b);
    proof {
        order::lemma_sorted_map(lines@, |x: InputLine| x@, lt, rel);
    }
    order::sort_by(lines, has_more_revs, Ghost(lt))
}

// ---------------------------------------------------------------------------
// Repositories declared under more than one ref
// ---------------------------------------------------------------------------

/// The order of merge keys: by kind, owner, then repository.
pub open spec fn key_lt(a: crate::lock::MergeKeyView, b: crate::lock::MergeKeyView) -> bool {
    if a.kind != b.kind {
        text::chars_lt(a.kind, b.kind)
    } else if a.owner != b.owner {
        text::chars_lt(a.owner, b.owner)
    } else {
        text::chars_lt(a.repo, b.repo)
    }
}

fn key_before(a: &MergeKey, b: &MergeKey) -> (r: bool)
    ensures
        r == key_lt(a@, b@),
{
    if a.kind != b.kind {
        text::text_before(a.kind.as_str(), b.kind.as_str())
    } else if a.owner != b.owner {
        text::text_before(a.owner.as_str(), b.owner.as_str())
    } else {
        text::text_before(a.repo.as_str(), b.repo.as_str())
    }
}

/// The repositories of `groups`, each once, in the order they come.
pub open spec fn first_keys(groups: Seq<Group>) -> Seq<crate::lock::MergeKeyView>
    decreases groups.len(),
{
    if groups.len() == 0 {
        Seq::empty()
    } else {
        let head = first_keys(groups.drop_last());
        let key = groups.last().identity@.key();
        if head.contains(key) {
            head
        } else {
            head.push(key)
        }
    }
}

/// The repositories of `groups`, each once, in ascending order.
pub open spec fn repositories(groups: Seq<Group>) -> Seq<crate::lock::MergeKeyView> {
    order::sorted(
        first_keys(groups),
        |a: crate::lock::MergeKeyView, b: crate::lock::MergeKeyView| key_lt(a, b),
    )
}

/// Whether a group is of the repository `key` and has a pin that is acted on.
pub open spec fn is_ref_of(l: app::Listing, key: crate::lock::MergeKeyView, g: Group) -> bool {
    g.identity@.key() == key && l.acting(g.pins@).len() > 0
}

/// The refs of one repository that could be merged, in order.
///
/// A ref with no actionable pins in the current scope is not something the user can
/// merge, so listing it would advertise an action that does nothing.
pub open spec fn refs_of(l: app::Listing, key: crate::lock::MergeKeyView) -> Seq<InputLineView> {
    l.groups.filter(|g: Group| is_ref_of(l, key, g)).map_values(|g: Group| input_line(l, g))
}

/// The pins of `lines` together.
pub open spec fn pins_in(lines: Seq<InputLineView>) -> nat
    decreases lines.len(),
{
    if lines.len() == 0 {
        0
    } else {
        pins_in(lines.drop_last()) + lines.last().pins
    }
}

/// What is said of a repository with the refs `lines`.
pub open spec fn repository_lines(lines: Seq<InputLineView>) -> Seq<Seq<char>> {
    seq![
        "  "@ + text::dec(lines.len()) + " refs, "@ + text::dec(
            store::capped(pins_in(lines)) as nat,
        ) + " pins:"@,
    ] + lines.map_values(|l: InputLineView| l.shown("    "@))
}

/// What is said of those of the repositories `keys` with more than one ref, and how
/// many they are.
pub open spec fn mergeable(l: app::Listing, keys: Seq<crate::lock::MergeKeyView>) -> (
    nat,
    Seq<Seq<char>>,
)
    decreases keys.len(),
{
    if keys.len() == 0 {
        (0, Seq::empty())
    } else {
        let (n, said) = mergeable(l, keys.drop_last());
        let refs = refs_of(l, keys.last());
        if refs.len() > 1 {
            (n + 1, said + repository_lines(refs))
        } else {
            (n, said)
        }
    }
}

/// What is said of all repositories declared under more than one ref.
pub open spec fn mergeable_lines(l: app::Listing) -> Seq<Seq<char>> {
    let (n, said) = mergeable(l, repositories(l.groups));
    if n == 0 {
        Seq::empty()
    } else {
        seq![
            Seq::empty(),
            text::dec(n) + " repo(s) declared under more than one ref:"@,
        ] + said + seq!["  (merge them in the TUI with m/M — this rewrites flake.nix)"@]
    }
}

spec fn key_views(keys: Seq<MergeKey>) -> Seq<crate::lock::MergeKeyView> {
    keys.map_values(|k: MergeKey| k@)
}

fn repositories_of(app: &App) -> (r: Vec<MergeKey>)
    ensures
        key_views(r@) == repositories(app.groups@),
{
    let mut keys: Vec<MergeKey> = Vec::new();
    let mut i: usize = 0;
    assert(key_views(keys@) == first_keys(app.groups@.take(0)));
    while i < app.groups.len()
        invariant
            i <= app.groups.len(),
            key_views(keys@) == first_keys(app.groups@.take(i as int)),
        decreases app.groups.len() - i,
    {
        assert(app.groups@.take(i + 1).drop_last() == app.groups@.take(i as int));
        let key = app.groups[i].identity.merge_key();
        let ghost views = key_views(keys@);
        let mut known = false;
        let mut j: usize = 0;
        while j < keys.len() && !known
            invariant
                j <= keys.len(),
                views == key_views(keys@),
                known ==> views.contains(key@),
                !known ==> forall|n: int| 0 <= n < j ==> #[trigger] views[n] != key@,
            decreases keys.len() - j,
        {
            assert(views[j as int] == keys@[j as int]@);
            if keys[j].same(&key) {
                known = true;
            }
            j += 1;
        }
        if !known {
            let ghost before = keys@;
            keys.push(key);
            assert(key_views(keys@) == key_views(before).push(key@));
        }
        i += 1;
    }
    assert(app.groups@.take(i as int) == app.groups@);
    let ghost lt = |a: MergeKey, b: MergeKey| key_lt(a@, b@);
    let ghost rel = |a: crate::lock::MergeKeyView, b: crate::lock::MergeKeyView| key_lt(a, b);
    proof {
        order::lemma_sorted_map(keys@, |k: MergeKey| k@, lt, rel);
    }
    order::sort_by(keys, key_before, Ghost(lt))
}

fn lines_of_refs(app: &App, key: &MergeKey) -> (r: Vec<InputLine>)
    ensures
        line_views(r@) == refs_of(app.listing(), key@),
{
    let ghost l = app.listing();
    let ghost keep = |g: Group| is_ref_of(l, key@, g);
    let ghost f = |g: Group| input_line(l, g);
    let mut lines: Vec<InputLine> = Vec::new();
    let mut i: usize = 0;
    assert(line_views(lines@) == app.groups@.take(0).filter(keep).map_values(f)) by {
        reveal(Seq::filter);
    }
    while i < app.groups.len()
        invariant
            i <= app.groups.len(),
            l == app.listing(),
            keep == (|g: Group| is_ref_of(l, key@, g)),
            f == (|g: Group| input_line(l, g)),
            line_views(lines@) == app.groups@.take(i as int).filter(keep).map_values(f),
        decreases app.groups.len() - i,
    {
        let ghost done = app.groups@.take(i as int).filter(keep);
        let ghost before = lines@;
        proof {
            reveal(Seq::filter);
            assert(app.groups@.take(i + 1).drop_last() == app.groups@.take(i as int));
        }
        let g = &app.groups[i];
        let pins = app.actionable_pins(g);
        assert(pins@.unref().len() == pins@.len());
        if g.identity.merge_key().same(key) && pins.len() > 0 {
            let line = line_of(app, g);
            lines.push(line);
            assert(line_views(lines@) == line_views(before).push(line@));
            assert(done.push(app.groups@[i as int]).map_values(f) == done.map_values(f).push(
                input_line(l, app.groups@[i as int]),
            ));
        }
        i += 1;
    }
    assert(app.groups@.take(i as int) == app.groups@);
    lines
}

fn count_pins(lines: &Vec<InputLine>) -> (r: u64)
    ensures
        r == store::capped(pins_in(line_views(lines@))),
{
    let ghost views = line_views(lines@);
    let mut total: u64 = 0;
    let mut i: usize = 0;
    while i < lines.len()
        invariant
            i <= lines.len(),
            views == line_views(lines@),
            total == store::capped(pins_in(views.take(i as int))),
        decreases lines.len() - i,
    {
        assert(views.take(i + 1).drop_last() == views.take(i as int));
        assert(views[i as int] == lines@[i as int]@);
        total = store::capped_sum(total, lines[i].pins as u64);
        i += 1;
    }
    assert(views.take(i as int) == views);
    total
}

/// Say what can be merged.
///
/// These refs are never divergent groups on their own, so without this they are
/// invisible in the report, and they are the reason the merge feature exists.
fn say_mergeable(out: &mut Vec<String>, app: &App)
    ensures
        text::texts(final(out)@) == text::texts(old(out)@) + mergeable_lines(app.listing()),
{
    let ghost l = app.listing();
    let keys = repositories_of(app);
    let ghost views = key_views(keys@);
    let mut n: usize = 0;
    let mut said: Vec<String> = Vec::new();
    let mut i: usize = 0;
    assert(text::texts(said@) == Seq::<Seq<char>>::empty());
    while i < keys.len()
        invariant
            n <= i <= keys.len(),
            l == app.listing(),
            views == key_views(keys@),
            (n as nat, text::texts(said@)) == mergeable(l, views.take(i as int)),
        decreases keys.len() - i,
    {
        assert(views.take(i + 1).drop_last() == views.take(i as int));
        assert(views[i as int] == keys@[i as int]@);
        let refs = lines_of_refs(app, &keys[i]);
        assert(line_views(refs@).len() == refs.len());
        let ghost before = text::texts(said@);
        if refs.len() > 1 {
            say(
                &mut said,
                text::cat5(
                    "  ",
                    text::count_text(refs.len()).as_str(),
                    " refs, ",
                    text::dec_text(count_pins(&refs)).as_str(),
                    " pins:",
                ),
            );
            say_inputs(&mut said, "    ", &refs);
            assert(text::texts(said@) == before + repository_lines(line_views(refs@)));
            n += 1;
        }
        i += 1;
    }
    assert(views.take(i as int) == views);
    let ghost before = text::texts(out@);
    if n > 0 {
        say(out, String::new());
        say(
            out,
            text::cat2(
                text::count_text(n).as_str(),
                " repo(s) declared under more than one ref:",
            ),
        );
        say_each(out, "", &said);
        proof {
            reveal_strlit("");
            assert(prefixed(""@, text::texts(said@)) =~~= text::texts(said@));
        }
        say(out, "  (merge them in the TUI with m/M — this rewrites flake.nix)".to_owned());
    }
    assert(text::texts(out@) == before + mergeable_lines(l));
}

// ---------------------------------------------------------------------------
// The whole analysis
// ---------------------------------------------------------------------------

/// The projects of the acting pins of `groups`, in order.
pub open spec fn projects_in(l: app::Listing, groups: Seq<Group>) -> Seq<Seq<char>>
    decreases groups.len(),
{
    if groups.len() == 0 {
        Seq::empty()
    } else {
        projects_in(l, groups.drop_last()) + l.acting(groups.last().pins@).map_values(
            |p: crate::lock::Pin| p.project@,
        )
    }
}

/// The projects with a pin in a group that diverges, each once, in ascending order.
pub open spec fn diverging_projects(l: app::Listing) -> Seq<Seq<char>> {
    order::added_all(Seq::empty(), projects_in(l, divergent(l)), ByPath::rel())
}

fn projects_diverging(app: &App) -> (r: PathSet)
    ensures
        r@ == diverging_projects(app.listing()),
{
    let ghost l = app.listing();
    let ghost keep = |g: Group| diverges(l, g);
    let mut names: Vec<String> = Vec::new();
    let mut i: usize = 0;
    assert(text::texts(names@) == projects_in(l, app.groups@.take(0).filter(keep))) by {
        reveal(Seq::filter);
    }
    while i < app.groups.len()
        invariant
            i <= app.groups.len(),
            l == app.listing(),
            keep == (|g: Group| diverges(l, g)),
            text::texts(names@) == projects_in(l, app.groups@.take(i as int).filter(keep)),
        decreases app.groups.len() - i,
    {
        let ghost done = app.groups@.take(i as int).filter(keep);
        proof {
            reveal(Seq::filter);
            assert(app.groups@.take(i + 1).drop_last() == app.groups@.take(i as int));
            assert(done.push(app.groups@[i as int]).drop_last() == done);
        }
        if app.is_divergent(&app.groups[i]) {
            let pins = app.actionable_pins(&app.groups[i]);
            let ghost acting = l.acting(app.groups@[i as int].pins@);
            let ghost want = acting.map_values(|p: crate::lock::Pin| p.project@);
            let ghost before = text::texts(names@);
            let mut j: usize = 0;
            assert(acting.len() == pins.len());
            assert(want.take(0) == Seq::<Seq<char>>::empty());
            while j < pins.len()
                invariant
                    j <= pins.len(),
                    acting == pins@.unref(),
                    acting.len() == pins.len(),
                    want == acting.map_values(|p: crate::lock::Pin| p.project@),
                    text::texts(names@) == before + want.take(j as int),
                decreases pins.len() - j,
            {
                let ghost told = names@;
                names.push(pins[j].project.clone());
                assert(acting[j as int] == *pins@[j as int]);
                assert(text::texts(names@) == text::texts(told).push(want[j as int]));
                assert(want.take(j + 1) == want.take(j as int).push(want[j as int]));
                j += 1;
            }
            assert(want.take(j as int) == want);
        }
        i += 1;
    }
    assert(app.groups@.take(i as int) == app.groups@);
    PathSet::of(names)
}

/// The analysis of `lock_count` lockfiles.
pub open spec fn analysis(app: App, lock_count: nat) -> Seq<Seq<char>> {
    let l = app.listing();
    let values = app.roots.values_view();
    seq![
        text::dec(lock_count) + " lockfiles, "@ + text::dec(app.groups@.len())
            + " input identities"@,
    ] + (if app.rooted_only {
        seq!["(only projects holding a GC root; --all-projects to include the rest)"@]
    } else {
        Seq::empty()
    }) + seq![Seq::empty(), text::dec(divergent(l).len()) + " divergent:"@]
        + divergent_lines(l).map_values(|x: InputLineView| x.shown("  "@)) + mergeable_lines(l)
        + seq![
        Seq::empty(),
        "Upper bound if every divergent group is unified and its direnv roots dropped:"@,
        "  "@ + store::bytes_text(store::capped(store::freed_bytes(values, diverging_projects(l))))
            + " across "@ + text::dec(store::freed_count(values, diverging_projects(l)))
            + " store paths"@,
    ]
}

/// The analysis, line by line: for scripting, and for sanity checks without entering
/// the alternate screen.
pub fn print_report(app: &App, lock_count: usize) -> (r: Vec<String>)
    ensures
        text::texts(r@) == analysis(*app, lock_count as nat),
{
    let ghost l = app.listing();
    let mut out: Vec<String> = Vec::new();
    assert(text::texts(out@) == Seq::<Seq<char>>::empty());
    say(
        &mut out,
        text::cat4(
            text::count_text(lock_count).as_str(),
            " lockfiles, ",
            text::count_text(app.groups.len()).as_str(),
            " input identities",
        ),
    );
    if app.rooted_only {
        say(
            &mut out,
            "(only projects holding a GC root; --all-projects to include the rest)".to_owned(),
        );
    }
    let lines = lines_of_divergent(app);
    proof {
        let views = divergent(l).map_values(|g: Group| input_line(l, g));
        let rel = |a: InputLineView, b: InputLineView| more_revs(a, b);
        assert(order::is_strict_order(rel));
        order::law_sorted(views, rel);
        assert(line_views(lines@).len() == lines.len());
    }
    say(&mut out, String::new());
    say(&mut out, text::cat2(text::count_text(lines.len()).as_str(), " divergent:"));
    say_inputs(&mut out, "  ", &lines);
    say_mergeable(&mut out, app);
    let (bytes, paths) = store::reclaimable(&app.roots, &projects_diverging(app));
    say(&mut out, String::new());
    say(
        &mut out,
        "Upper bound if every divergent group is unified and its direnv roots dropped:".to_owned(),
    );
    say(
        &mut out,
        text::cat5(
            "  ",
            store::human_bytes(bytes).as_str(),
            " across ",
            text::count_text(paths).as_str(),
            " store paths",
        ),
    );
    assert(text::texts(out@) == analysis(*app, lock_count as nat));
    out
}

// ---------------------------------------------------------------------------
// What the figures add up to
// ---------------------------------------------------------------------------

proof fn lemma_droppable_push(rows: Seq<RootRowView>, row: RootRowView)
    ensures
        droppable(rows.push(row)).len() == droppable(rows).len() + if row.is_freeable() {
            1nat
        } else {
            0
        },
        app::total_bytes(droppable(rows.push(row))) == app::total_bytes(droppable(rows))
            + if row.is_freeable() {
            row.size_bytes as nat
        } else {
            0
        },
{
    reveal(Seq::filter);
    assert(rows.push(row).drop_last() == rows);
    let some = droppable(rows);
    assert(some.push(row).drop_last() == some);
}

proof fn lemma_droppable_placed(
    rows: Seq<RootRowView>,
    row: RootRowView,
    lt: spec_fn(RootRowView, RootRowView) -> bool,
)
    ensures
        droppable(order::placed(rows, row, lt)).len() == droppable(rows.push(row)).len(),
        app::total_bytes(droppable(order::placed(rows, row, lt))) == app::total_bytes(
            droppable(rows.push(row)),
        ),
    decreases rows.len(),
{
    lemma_droppable_push(rows, row);
    if rows.len() > 0 && lt(row, rows.last()) {
        let head = rows.drop_last();
        lemma_droppable_placed(head, row, lt);
        lemma_droppable_push(head, row);
        lemma_droppable_push(head, rows.last());
        assert(head.push(rows.last()) == rows);
        lemma_droppable_push(order::placed(head, row, lt), rows.last());
    }
}

proof fn lemma_droppable_sorted(
    rows: Seq<RootRowView>,
    lt: spec_fn(RootRowView, RootRowView) -> bool,
)
    ensures
        droppable(order::sorted(rows, lt)).len() == droppable(rows).len(),
        app::total_bytes(droppable(order::sorted(rows, lt))) == app::total_bytes(droppable(rows)),
    decreases rows.len(),
{
    if rows.len() > 0 {
        let head = rows.drop_last();
        let first = order::sorted(head, lt);
        lemma_droppable_sorted(head, lt);
        lemma_droppable_placed(first, rows.last(), lt);
        lemma_droppable_push(first, rows.last());
        lemma_droppable_push(head, rows.last());
        assert(head.push(rows.last()) == rows);
    }
}

proof fn lemma_droppable_freed(
    values: Seq<RootedPath>,
    all: Seq<RootedPath>,
    rows: Seq<RootRowView>,
)
    requires
        rows == values.map_values(|v: RootedPath| store::row_of(v)),
        forall|i: int|
            0 <= i < values.len() ==> (store::row_of(#[trigger] values[i]).is_freeable()
                <==> store::is_freed(values[i], store::all_rooted(all))),
    ensures
        droppable(rows).len() == store::freed_count(values, store::all_rooted(all)),
        app::total_bytes(droppable(rows)) == store::freed_bytes(values, store::all_rooted(all)),
    decreases values.len(),
{
    if values.len() > 0 {
        let head = values.drop_last();
        let some = rows.drop_last();
        assert(some == head.map_values(|v: RootedPath| store::row_of(v)));
        assert forall|i: int| 0 <= i < head.len() implies (store::row_of(
            #[trigger] head[i],
        ).is_freeable() <==> store::is_freed(head[i], store::all_rooted(all))) by {
            assert(head[i] == values[i]);
        }
        lemma_droppable_freed(head, all, some);
        lemma_droppable_push(some, rows.last());
        assert(some.push(rows.last()) == rows);
        assert(values[values.len() - 1] == values.last());
        assert(rows.last() == store::row_of(values.last()));
    } else {
        reveal(Seq::filter);
    }
}

/// The droppable rows add up: their number and their sizes are what dropping the roots
/// of all projects that hold anything would free.
pub proof fn law_droppable_rows_are_what_all_projects_free(values: Seq<RootedPath>)
    ensures
        droppable(store::rows_of(values)).len() == store::freed_count(
            values,
            store::all_rooted(values),
        ),
        app::total_bytes(droppable(store::rows_of(values))) == store::freed_bytes(
            values,
            store::all_rooted(values),
        ),
{
    let rows = values.map_values(|v: RootedPath| store::row_of(v));
    lemma_droppable_sorted(rows, store::row_lt());
    assert forall|i: int| 0 <= i < values.len() implies (store::row_of(
        #[trigger] values[i],
    ).is_freeable() <==> store::is_freed(values[i], store::all_rooted(values))) by {
        store::law_a_droppable_row_is_freed_by_all_projects(values, i);
    }
    lemma_droppable_freed(values, values, rows);
}

// ---------------------------------------------------------------------------
// What holds of the reports
// ---------------------------------------------------------------------------

/// A path is printed in one line, with its size and what it is, and whatever holds it has
/// a line of its own behind it: first the projects, then what lies outside, then the
/// processes.
pub proof fn law_every_holder_has_a_line(row: RootRowView, i: int)
    ensures
        row_lines(row).len() == 1 + row.projects.len() + row.external.len() + row.process.len(),
        text::ends(row_lines(row)[0], row.store_path),
        text::begins(row_lines(row)[0], "·"@) <==> row.is_freeable(),
        0 <= i < row.projects.len() ==> row_lines(row)[1 + i]
            == "             direnv    "@ + row.projects[i],
        0 <= i < row.external.len() ==> row_lines(row)[1 + row.projects.len() + i]
            == "             external  "@ + row.external[i],
        0 <= i < row.process.len() ==> row_lines(row)[1 + row.projects.len() + row.external.len()
            + i] == "             process   "@ + row.process[i],
{
    reveal_strlit("·");
    reveal_strlit("×");
    let line = row_lines(row)[0];
    let n = row.store_path.len() as int;
    assert(line == mark(row) + " "@ + text::right(store::bytes_text(row.size_bytes), 10) + "  "@
        + row.store_path);
    assert(line.subrange(line.len() - n, line.len() as int) =~= row.store_path);
    assert(line.subrange(0, 1) =~= mark(row));
    assert("·"@[0] == '·' && "×"@[0] == '×');
    assert(line[0] == mark(row)[0]);
    if text::begins(line, "·"@) {
        assert(line.subrange(0, 1)[0] == '·');
    }
}

/// What is printed of two lists of paths is printed of the one and then of the other.
pub proof fn law_paths_are_printed_in_order(x: Seq<RootRowView>, y: Seq<RootRowView>)
    ensures
        rows_lines(x + y) == rows_lines(x) + rows_lines(y),
        x.len() == 1 ==> rows_lines(x) == row_lines(x[0]),
    decreases y.len(),
{
    if y.len() == 0 {
        assert(x + y =~= x);
        assert(rows_lines(x) + rows_lines(y) =~= rows_lines(x));
    } else {
        law_paths_are_printed_in_order(x, y.drop_last());
        assert((x + y).drop_last() =~= x + y.drop_last());
        assert(rows_lines(x + y) =~= rows_lines(x) + rows_lines(y));
    }
    if x.len() == 1 {
        assert(rows_lines(x.drop_last()) =~= Seq::<Seq<char>>::empty());
        assert(rows_lines(x) =~= row_lines(x[0]));
    }
}

/// Whether two pins of `g` that count are of different versions.
pub open spec fn differs(l: app::Listing, g: Group) -> bool {
    exists|i: int, j: int|
        0 <= i < j < l.acting(g.pins@).len() && (#[trigger] l.acting(g.pins@)[i]).version@ != (
        #[trigger] l.acting(g.pins@)[j]).version@
}

proof fn lemma_differs(l: app::Listing, g: Group)
    ensures
        diverges(l, g) <==> differs(l, g),
{
    let one = app::Listing {
        groups: seq![g],
        merges: Map::empty(),
        ..l
    };
    assert(one.pins_at(0) == g.pins@);
    assert(one.acting_at(0) =~= l.acting(g.pins@)) by {
        lemma_same_filter(l, one, g.pins@);
    }
    app::law_a_group_diverges_where_its_pins_differ(one, 0);
    let pins = one.acting_at(0);
    assert(pins == l.acting(g.pins@));
}

proof fn lemma_same_filter(a: app::Listing, b: app::Listing, pins: Seq<crate::lock::Pin>)
    requires
        a.rooted == b.rooted,
        a.rooted_only == b.rooted_only,
    ensures
        a.acting(pins) == b.acting(pins),
    decreases pins.len(),
{
    reveal(Seq::filter);
    if pins.len() > 0 {
        lemma_same_filter(a, b, pins.drop_last());
    }
}

/// Whether a line tells what the group `g` is called and how many of its pins count.
pub open spec fn tells_of(l: app::Listing, line: InputLineView, g: Group) -> bool {
    line.name == g.identity@.shown() && line.pins == l.acting(g.pins@).len()
}

/// Whether a line tells of a group whose pins differ.
pub open spec fn tells_of_one(l: app::Listing, line: InputLineView) -> bool {
    exists|i: int|
        0 <= i < l.groups.len() && differs(l, l.groups[i]) && #[trigger] tells_of(
            l,
            line,
            l.groups[i],
        )
}

/// The analysis lists the inputs whose pins differ and no others, those with the most
/// revisions first, and tells of each what it is called and how many pins it has.
pub proof fn law_the_analysis_lists_what_diverges(l: app::Listing)
    ensures
        forall|k: int|
            0 <= k < divergent_lines(l).len() ==> tells_of_one(l, #[trigger] divergent_lines(l)[k]),
        forall|i: int|
            0 <= i < l.groups.len() && differs(l, #[trigger] l.groups[i]) ==> exists|k: int|
                0 <= k < divergent_lines(l).len() && tells_of(
                    l,
                    #[trigger] divergent_lines(l)[k],
                    l.groups[i],
                ),
        forall|j: int, k: int|
            0 <= j < k < divergent_lines(l).len() ==> (#[trigger] divergent_lines(l)[j]).revs >= (
            #[trigger] divergent_lines(l)[k]).revs,
{
    broadcast use vstd::seq_lib::group_to_multiset_ensures;

    let lt = |a: InputLineView, b: InputLineView| more_revs(a, b);
    let some = divergent(l);
    let p = |g: Group| diverges(l, g);
    let made = some.map_values(|g: Group| input_line(l, g));
    let lines = divergent_lines(l);
    order::law_sorted(made, lt);
    assert forall|k: int| 0 <= k < lines.len() implies tells_of_one(l, #[trigger] lines[k]) by {
        assert(lines.to_multiset().count(lines[k]) > 0);
        assert(made.contains(lines[k]));
        let m = choose|m: int| 0 <= m < made.len() && made[m] == lines[k];
        let g = some[m];
        l.groups.lemma_filter_pred(p, m);
        assert(l.groups.filter(p).contains(g));
        l.groups.lemma_filter_contains_rev(p, g);
        let i = choose|i: int| 0 <= i < l.groups.len() && l.groups[i] == g;
        lemma_differs(l, l.groups[i]);
        assert(tells_of(l, lines[k], l.groups[i]));
    }
    assert forall|i: int| 0 <= i < l.groups.len() && differs(
        l,
        #[trigger] l.groups[i],
    ) implies exists|k: int|
        0 <= k < lines.len() && tells_of(l, #[trigger] lines[k], l.groups[i]) by {
        let g = l.groups[i];
        lemma_differs(l, g);
        l.groups.lemma_filter_contains(p, i);
        let m = choose|m: int| 0 <= m < some.len() && some[m] == g;
        assert(made[m] == input_line(l, g));
        assert(made.contains(made[m]));
        assert(made.to_multiset().count(made[m]) > 0);
        assert(lines.contains(made[m]));
        let k = choose|k: int| 0 <= k < lines.len() && lines[k] == made[m];
        assert(tells_of(l, lines[k], g));
    }
    assert forall|j: int, k: int| 0 <= j < k < lines.len() implies (#[trigger] lines[j]).revs >= (
    #[trigger] lines[k]).revs by {
        assert(!lt(lines[k], lines[j]));
    }
}

/// Every repository is looked at once.
pub proof fn law_every_repository_is_looked_at_once(
    groups: Seq<Group>,
    key: crate::lock::MergeKeyView,
)
    ensures
        first_keys(groups).contains(key) <==> exists|i: int|
            0 <= i < groups.len() && (#[trigger] groups[i]).identity@.key() == key,
        first_keys(groups).no_duplicates(),
    decreases groups.len(),
{
    if groups.len() > 0 {
        let head = groups.drop_last();
        let n = head.len() as int;
        let last = groups.last().identity@.key();
        law_every_repository_is_looked_at_once(head, key);
        law_every_repository_is_looked_at_once(head, last);
        let a = first_keys(head);
        let b = first_keys(groups);
        assert(groups[n] == groups.last());
        if a.contains(key) {
            let k = choose|k: int| 0 <= k < a.len() && a[k] == key;
            assert(b[k] == key);
            let i = choose|i: int|
                0 <= i < head.len() && (#[trigger] head[i]).identity@.key() == key;
            assert(groups[i] == head[i]);
        }
        if b.contains(key) && !a.contains(key) {
            let k = choose|k: int| 0 <= k < b.len() && b[k] == key;
            if k < a.len() {
                assert(a[k] == key);
            }
        }
        if exists|i: int| 0 <= i < groups.len() && (#[trigger] groups[i]).identity@.key() == key {
            let i = choose|i: int|
                0 <= i < groups.len() && (#[trigger] groups[i]).identity@.key() == key;
            if i < n {
                assert(head[i] == groups[i]);
            } else if !a.contains(key) {
                assert(b[a.len() as int] == key);
            }
        }
    }
}

/// A repository is told to be mergeable just when it has more than one ref with pins that
/// count, and then each of these refs has a line.
pub proof fn law_a_repository_with_several_refs_is_told(
    l: app::Listing,
    keys: Seq<crate::lock::MergeKeyView>,
    key: crate::lock::MergeKeyView,
)
    ensures
        refs_of(l, key).len() <= 1 ==> mergeable(l, keys.push(key)) == mergeable(l, keys),
        refs_of(l, key).len() > 1 ==> mergeable(l, keys.push(key)).0 == mergeable(l, keys).0 + 1
            && mergeable(l, keys.push(key)).1.len() == mergeable(l, keys).1.len() + 1 + refs_of(
            l,
            key,
        ).len() && mergeable(l, keys.push(key)).1.take(mergeable(l, keys).1.len() as int)
            == mergeable(l, keys).1,
        refs_of(l, key).len() == l.groups.filter(
            |g: Group| g.identity@.key() == key && l.acting(g.pins@).len() > 0,
        ).len(),
{
    assert(keys.push(key).drop_last() =~= keys);
    let said = mergeable(l, keys).1;
    if refs_of(l, key).len() > 1 {
        assert(mergeable(l, keys.push(key)).1.take(said.len() as int) =~= said);
    }
    lemma_same_refs(l, l.groups, key);
}

proof fn lemma_same_refs(l: app::Listing, groups: Seq<Group>, key: crate::lock::MergeKeyView)
    ensures
        groups.filter(|g: Group| is_ref_of(l, key, g)).len() == groups.filter(
            |g: Group| g.identity@.key() == key && l.acting(g.pins@).len() > 0,
        ).len(),
    decreases groups.len(),
{
    reveal(Seq::filter);
    if groups.len() > 0 {
        lemma_same_refs(l, groups.drop_last(), key);
    }
}

/// Whether the project `p` has a pin in `g` that counts.
pub open spec fn has_pin_of(l: app::Listing, g: Group, p: Seq<char>) -> bool {
    exists|k: int|
        0 <= k < l.acting(g.pins@).len() && crate::paths::same_path(
            (#[trigger] l.acting(g.pins@)[k]).project@,
            p,
        )
}

proof fn lemma_has_pin_of(l: app::Listing, g: Group, p: Seq<char>)
    ensures
        has_pin_of(l, g, p) <==> store::lists(
            l.acting(g.pins@).map_values(|p: crate::lock::Pin| p.project@),
            p,
        ),
{
    let pins = l.acting(g.pins@);
    let b = pins.map_values(|p: crate::lock::Pin| p.project@);
    if has_pin_of(l, g, p) {
        let k = choose|k: int|
            0 <= k < pins.len() && crate::paths::same_path((#[trigger] pins[k]).project@, p);
        assert(b[k] == pins[k].project@);
    }
    if store::lists(b, p) {
        let k = choose|k: int| 0 <= k < b.len() && crate::paths::same_path(#[trigger] b[k], p);
        assert(crate::paths::same_path(pins[k].project@, p));
    }
}

proof fn lemma_lists_either(a: Seq<Seq<char>>, b: Seq<Seq<char>>, p: Seq<char>)
    ensures
        store::lists(a + b, p) <==> store::lists(a, p) || store::lists(b, p),
{
    let all = a + b;
    if store::lists(all, p) {
        let m = choose|m: int| 0 <= m < all.len() && crate::paths::same_path(#[trigger] all[m], p);
        if m < a.len() {
            assert(a[m] == all[m]);
        } else {
            assert(b[m - a.len()] == all[m]);
        }
    }
    if store::lists(a, p) {
        let m = choose|m: int| 0 <= m < a.len() && crate::paths::same_path(#[trigger] a[m], p);
        assert(all[m] == a[m]);
    }
    if store::lists(b, p) {
        let m = choose|m: int| 0 <= m < b.len() && crate::paths::same_path(#[trigger] b[m], p);
        assert(all[a.len() + m] == b[m]);
    }
}

proof fn lemma_projects_in(l: app::Listing, groups: Seq<Group>, p: Seq<char>)
    ensures
        store::lists(projects_in(l, groups), p) <==> exists|i: int|
            0 <= i < groups.len() && has_pin_of(l, #[trigger] groups[i], p),
    decreases groups.len(),
{
    if groups.len() > 0 {
        let head = groups.drop_last();
        let n = head.len() as int;
        lemma_projects_in(l, head, p);
        lemma_has_pin_of(l, groups.last(), p);
        lemma_lists_either(
            projects_in(l, head),
            l.acting(groups.last().pins@).map_values(|p: crate::lock::Pin| p.project@),
            p,
        );
        assert(groups[n] == groups.last());
        if exists|i: int| 0 <= i < head.len() && has_pin_of(l, #[trigger] head[i], p) {
            let i = choose|i: int| 0 <= i < head.len() && has_pin_of(l, #[trigger] head[i], p);
            assert(groups[i] == head[i]);
        }
        if exists|i: int| 0 <= i < groups.len() && has_pin_of(l, #[trigger] groups[i], p) {
            let i = choose|i: int| 0 <= i < groups.len() && has_pin_of(l, #[trigger] groups[i], p);
            if i < n {
                assert(head[i] == groups[i]);
            }
        }
    }
}

/// The upper bound is that of the projects with a pin that counts in a group whose pins
/// differ.
pub proof fn law_the_upper_bound_is_of_what_diverges(l: app::Listing, p: Seq<char>)
    ensures
        store::lists(diverging_projects(l), p) <==> exists|i: int|
            0 <= i < divergent(l).len() && has_pin_of(l, #[trigger] divergent(l)[i], p),
        forall|i: int|
            0 <= i < divergent(l).len() ==> differs(l, #[trigger] divergent(l)[i])
                && l.groups.contains(divergent(l)[i]),
{
    ByPath::strict();
    order::lemma_added_all(Seq::empty(), projects_in(l, divergent(l)), ByPath::rel());
    assert(order::holds(diverging_projects(l), p, ByPath::rel()) <==> order::holds(
        projects_in(l, divergent(l)),
        p,
        ByPath::rel(),
    ));
    store::lemma_lists(diverging_projects(l), p);
    store::lemma_lists(projects_in(l, divergent(l)), p);
    lemma_projects_in(l, divergent(l), p);
    let keep = |g: Group| diverges(l, g);
    assert forall|i: int| 0 <= i < divergent(l).len() implies differs(
        l,
        #[trigger] divergent(l)[i],
    ) && l.groups.contains(divergent(l)[i]) by {
        l.groups.lemma_filter_pred(keep, i);
        assert(l.groups.filter(keep).contains(divergent(l)[i]));
        l.groups.lemma_filter_contains_rev(keep, divergent(l)[i]);
        lemma_differs(l, divergent(l)[i]);
    }
}

/// The pins of two lists of lines are those of the one and of the other together.
pub proof fn law_pins_add_up(x: Seq<InputLineView>, y: Seq<InputLineView>)
    ensures
        pins_in(x + y) == pins_in(x) + pins_in(y),
        x.len() == 1 ==> pins_in(x) == x[0].pins,
    decreases y.len(),
{
    if y.len() == 0 {
        assert(x + y =~= x);
    } else {
        law_pins_add_up(x, y.drop_last());
        assert((x + y).drop_last() =~= x + y.drop_last());
    }
    if x.len() == 1 {
        assert(pins_in(x.drop_last()) == 0);
    }
}

/// An input is told to have as many revisions as it has rows of versions, and as many pins
/// as count.
pub proof fn law_revisions_are_those_of_the_rows(l: app::Listing, g: Group)
    ensures
        input_line(l, g).revs == app::rows_for(l.acting(g.pins@)).len(),
        input_line(l, g).pins == l.acting(g.pins@).len(),
        input_line(l, g).name == g.identity@.shown(),
{
    app::law_rows_partition_the_pins(l.acting(g.pins@));
}

} // verus!
