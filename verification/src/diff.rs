//! Unified diffs of pending and completed `flake.nix` edits.
//!
//! Every edit made to a hand-maintained file is shown as a diff *before* it is
//! applied and again *after*, so nothing changes on disk that the user has not seen
//! in full. That requires computing the diff from two strings in memory — the
//! preview must exist before the write does, so shelling out to `diff(1)` against a
//! file that does not yet exist is not an option.
//!
//! Rendering is delegated to a configurable command (`delta` by default). If it is
//! missing or fails, the plain unified text is used: a missing pretty-printer must
//! never be the reason an edit goes unreviewed.
use crate::text;
use vstd::prelude::*;

verus! {

// ---------------------------------------------------------------------------
// What changed
// ---------------------------------------------------------------------------

/// How many lines `a` and `b` have in common at the start, from line `i` on.
pub open spec fn common_start(a: Seq<Seq<char>>, b: Seq<Seq<char>>, i: int) -> int
    decreases a.len() - i,
{
    if 0 <= i < a.len() && i < b.len() && a[i] == b[i] {
        common_start(a, b, i + 1)
    } else {
        i
    }
}

/// How many lines `a` and `b` have in common at the end, not counting the first
/// `start` of either, when `n` are known to be.
pub open spec fn common_end(a: Seq<Seq<char>>, b: Seq<Seq<char>>, start: int, n: int) -> int
    decreases a.len() - start - n,
{
    if 0 <= n < a.len() - start && n < b.len() - start && a[a.len() - 1 - n] == b[b.len() - 1 - n] {
        common_end(a, b, start, n + 1)
    } else {
        n
    }
}

/// The lines that differ: where they start, and where they end in `a` and in `b`.
pub open spec fn changed_lines(a: Seq<Seq<char>>, b: Seq<Seq<char>>) -> Option<(int, int, int)> {
    let start = common_start(a, b, 0);
    if start == a.len() && start == b.len() {
        None
    } else {
        let back = common_end(a, b, start, 0);
        Some((start, a.len() - back, b.len() - back))
    }
}

proof fn lemma_common_start(a: Seq<Seq<char>>, b: Seq<Seq<char>>, i: int)
    requires
        0 <= i <= a.len(),
        i <= b.len(),
    ensures
        i <= common_start(a, b, i) <= a.len(),
        common_start(a, b, i) <= b.len(),
        forall|k: int| i <= k < common_start(a, b, i) ==> #[trigger] a[k] == b[k],
        common_start(a, b, i) < a.len() && common_start(a, b, i) < b.len() ==> a[common_start(
            a,
            b,
            i,
        )] != b[common_start(a, b, i)],
    decreases a.len() - i,
{
    if i < a.len() && i < b.len() && a[i] == b[i] {
        lemma_common_start(a, b, i + 1);
    }
}

proof fn lemma_common_end(a: Seq<Seq<char>>, b: Seq<Seq<char>>, start: int, n: int)
    requires
        0 <= start <= a.len(),
        start <= b.len(),
        0 <= n <= a.len() - start,
        n <= b.len() - start,
    ensures
        n <= common_end(a, b, start, n) <= a.len() - start,
        common_end(a, b, start, n) <= b.len() - start,
        forall|i: int|
            a.len() - common_end(a, b, start, n) <= i < a.len() - n ==> #[trigger] a[i] == b[i
                - a.len() + b.len()],
        common_end(a, b, start, n) < a.len() - start && common_end(a, b, start, n) < b.len()
            - start ==> a[a.len() - 1 - common_end(a, b, start, n)] != b[b.len() - 1 - common_end(
            a,
            b,
            start,
            n,
        )],
    decreases a.len() - start - n,
{
    if n < a.len() - start && n < b.len() - start && a[a.len() - 1 - n] == b[b.len() - 1 - n] {
        lemma_common_end(a, b, start, n + 1);
    }
}

/// The lines marked as changed account for the whole difference: before them and
/// behind them the two texts agree line for line, at their ends they differ, and there
/// are none where the texts have the same lines.
pub proof fn law_changed_lines(a: Seq<Seq<char>>, b: Seq<Seq<char>>)
    ensures
        match changed_lines(a, b) {
            Some((start, a_end, b_end)) => {
                &&& 0 <= start <= a_end <= a.len()
                &&& start <= b_end <= b.len()
                &&& a.take(start) == b.take(start)
                &&& a.skip(a_end) == b.skip(b_end)
                &&& a != b
                &&& start < a_end || start < b_end
                &&& start < a_end && start < b_end ==> a[start] != b[start] && a[a_end - 1]
                    != b[b_end - 1]
            },
            None => a == b,
        },
{
    let start = common_start(a, b, 0);
    lemma_common_start(a, b, 0);
    if start == a.len() && start == b.len() {
        assert(a =~= b);
    } else {
        let back = common_end(a, b, start, 0);
        lemma_common_end(a, b, start, 0);
        assert(a.take(start) =~= b.take(start));
        assert(a.skip(a.len() - back) =~= b.skip(b.len() - back));
        if start < a.len() && start < b.len() {
            assert(a[start] != b[start]);
        }
        if a.len() - back == start && b.len() - back == start {
            if start < a.len() {
                assert(a.skip(start)[0] == b.skip(start)[0]);
            }
        }
    }
}

fn same_line(a: &Vec<String>, i: usize, b: &Vec<String>, j: usize) -> (r: bool)
    requires
        i < a.len(),
        j < b.len(),
    ensures
        r == (text::texts(a@)[i as int] == text::texts(b@)[j as int]),
{
    a[i] == b[j]
}

/// The span of lines that differ: common prefix, then common suffix.
pub fn changed_range(a: &Vec<String>, b: &Vec<String>) -> (r: Option<(usize, usize, usize)>)
    ensures
        match changed_lines(text::texts(a@), text::texts(b@)) {
            Some((start, a_end, b_end)) => r == Some((start as usize, a_end as usize, b_end as usize))
                && 0 <= start <= a_end <= a.len() && start <= b_end <= b.len(),
            None => r is None,
        },
{
    let ghost x = text::texts(a@);
    let ghost y = text::texts(b@);
    let mut start: usize = 0;
    while start < a.len() && start < b.len() && same_line(a, start, b, start)
        invariant
            start <= a.len(),
            start <= b.len(),
            x == text::texts(a@),
            y == text::texts(b@),
            common_start(x, y, start as int) == common_start(x, y, 0),
        decreases a.len() - start,
    {
        start += 1;
    }
    if start == a.len() && start == b.len() {
        return None;
    }
    let mut back: usize = 0;
    while back < a.len() - start && back < b.len() - start && same_line(
        a,
        a.len() - 1 - back,
        b,
        b.len() - 1 - back,
    )
        invariant
            start <= a.len(),
            start <= b.len(),
            back <= a.len() - start,
            back <= b.len() - start,
            x == text::texts(a@),
            y == text::texts(b@),
            common_end(x, y, start as int, back as int) == common_end(x, y, start as int, 0),
        decreases a.len() - start - back,
    {
        back += 1;
    }
    Some((start, a.len() - back, b.len() - back))
}

// ---------------------------------------------------------------------------
// How it is shown
// ---------------------------------------------------------------------------

/// The lines of `a` from `from` up to `to`, each with `mark` in front and a line
/// feed behind.
pub open spec fn marked(mark: char, a: Seq<Seq<char>>, from: int, to: int) -> Seq<char>
    decreases to - from,
{
    if from >= to {
        Seq::empty()
    } else {
        marked(mark, a, from, to - 1) + seq![mark] + a[to - 1] + seq!['\n']
    }
}

/// `n + k`, or `limit` where that is less.
pub open spec fn at_most(n: int, k: int, limit: int) -> int {
    if n + k < limit {
        n + k
    } else {
        limit
    }
}

/// The hunk that shows the changed lines with `context` lines around them.
pub open spec fn hunk(
    a: Seq<Seq<char>>,
    b: Seq<Seq<char>>,
    context: int,
    start: int,
    a_end: int,
    b_end: int,
) -> Seq<char> {
    let from = if start > context {
        start - context
    } else {
        0
    };
    let a_to = at_most(a_end, context, a.len() as int);
    let b_to = at_most(b_end, context, b.len() as int);
    let line = text::dec((from + 1) as nat);
    "@@ -"@ + line + ","@ + text::dec((a_to - from) as nat) + " +"@ + line + ","@ + text::dec(
        (b_to - from) as nat,
    ) + " @@\n"@ + marked(' ', a, from, start) + marked('-', a, start, a_end) + marked(
        '+',
        b,
        start,
        b_end,
    ) + marked(' ', a, a_end, a_to)
}

/// Append the lines `a[from..to]`, each marked.
fn push_marked(out: &mut String, mark: char, a: &Vec<String>, from: usize, to: usize)
    requires
        from <= to <= a.len(),
    ensures
        final(out)@ == old(out)@ + marked(mark, text::texts(a@), from as int, to as int),
{
    let ghost before = out@;
    let ghost x = text::texts(a@);
    let mut i: usize = from;
    while i < to
        invariant
            from <= i <= to <= a.len(),
            x == text::texts(a@),
            out@ == before + marked(mark, x, from as int, i as int),
        decreases to - i,
    {
        out.push(mark);
        out.append(a[i].as_str());
        out.push('\n');
        i += 1;
        assert(out@ == before + marked(mark, x, from as int, i as int));
    }
}

fn capped(n: usize, k: usize, limit: usize) -> (r: usize)
    requires
        n <= limit,
    ensures
        r == at_most(n as int, k as int, limit as int),
        n <= r <= limit,
{
    if k < limit - n {
        n + k
    } else {
        limit
    }
}

/// Group changed lines into unified-diff hunks with `context` lines around each.
///
/// The edits here are single-line url replacements, so a full longest-common-
/// subsequence diff would be machinery without a purpose: a common prefix and a
/// common suffix cover replacement, insertion and deletion at one site, which is
/// what [`crate::nix_edit`] produces.
pub fn hunks(a: &Vec<String>, b: &Vec<String>, context: usize) -> (r: Vec<String>)
    ensures
        text::texts(r@) == match changed_lines(text::texts(a@), text::texts(b@)) {
            Some((start, a_end, b_end)) => seq![
                hunk(text::texts(a@), text::texts(b@), context as int, start, a_end, b_end),
            ],
            None => Seq::empty(),
        },
{
    let mut r: Vec<String> = Vec::new();
    let ghost x = text::texts(a@);
    let ghost y = text::texts(b@);
    proof {
        law_changed_lines(x, y);
    }
    let (start, a_end, b_end) = match changed_range(a, b) {
        Some(range) => range,
        None => {
            assert(text::texts(r@) == Seq::<Seq<char>>::empty());
            return r;
        },
    };
    let from: usize = if start > context {
        start - context
    } else {
        0
    };
    let a_to = capped(a_end, context, a.len());
    let b_to = capped(b_end, context, b.len());
    assert(from < a.len() || from < b.len());
    let line = text::count_text(from + 1);
    let mut out = text::cat2("@@ -", line.as_str());
    out.append(",");
    out.append(text::count_text(a_to - from).as_str());
    out.append(" +");
    out.append(line.as_str());
    out.append(",");
    out.append(text::count_text(b_to - from).as_str());
    out.append(" @@\n");
    push_marked(&mut out, ' ', a, from, start);
    push_marked(&mut out, '-', a, start, a_end);
    push_marked(&mut out, '+', b, start, b_end);
    push_marked(&mut out, ' ', a, a_end, a_to);
    assert(out@ == hunk(x, y, context as int, start as int, a_end as int, b_end as int));
    r.push(out);
    assert(text::texts(r@) == seq![out@]);
    r
}

/// The unified diff of two texts, labelled with `path`, or nothing where they are
/// the same.
pub open spec fn diff_text(path: Seq<char>, before: Seq<char>, after: Seq<char>) -> Seq<char> {
    if before == after {
        Seq::empty()
    } else {
        let a = text::lines(before);
        let b = text::lines(after);
        let header = "--- a/"@ + path + "\n+++ b/"@ + path + "\n"@;
        match changed_lines(a, b) {
            Some((start, a_end, b_end)) => header + hunk(a, b, 3, start, a_end, b_end),
            None => header,
        }
    }
}

/// A unified diff of `before` → `after`, labelled with `path`.
///
/// Empty when the two are identical, which callers use to skip no-op edits.
pub fn unified(path: &str, before: &str, after: &str) -> (r: String)
    ensures
        r@ == diff_text(path@, before@, after@),
{
    if text::same(before, after) {
        return String::new();
    }
    let a = text::lines_of(before);
    let b = text::lines_of(after);
    let mut out = text::cat5("--- a/", path, "\n+++ b/", path, "\n");
    let found = hunks(&a, &b, 3);
    assert(text::texts(found@).len() == found.len());
    if found.len() > 0 {
        assert(text::texts(found@)[0] == found@[0]@);
        out.append(found[0].as_str());
    }
    out
}

/// A diff is empty just when there is nothing to review.
pub proof fn law_empty_diff_means_no_change(path: Seq<char>, before: Seq<char>, after: Seq<char>)
    ensures
        diff_text(path, before, after).len() == 0 <==> before == after,
{
    reveal_strlit("--- a/");
}

/// Rows of a hunk as they are written: the mark, the line, and a line feed.
pub open spec fn written(rows: Seq<(char, Seq<char>)>) -> Seq<char>
    decreases rows.len(),
{
    if rows.len() == 0 {
        Seq::empty()
    } else {
        written(rows.drop_last()).push(rows.last().0) + rows.last().1.push('\n')
    }
}

/// The lines of `rows` that are not marked with `not`, in order, without their marks.
pub open spec fn unmarked(rows: Seq<(char, Seq<char>)>, not: char) -> Seq<Seq<char>>
    decreases rows.len(),
{
    if rows.len() == 0 {
        Seq::empty()
    } else if rows.last().0 == not {
        unmarked(rows.drop_last(), not)
    } else {
        unmarked(rows.drop_last(), not).push(rows.last().1)
    }
}

/// Whether all of `rows` from `from` up to `to` are there for context alone.
pub open spec fn all_context(rows: Seq<(char, Seq<char>)>, from: int, to: int) -> bool {
    forall|i: int| from <= i < to ==> (#[trigger] rows[i]).0 == ' '
}

/// Whether `rows` hold one change: first what it leaves at most three of, then what it
/// takes out, what it puts in, and again what it leaves. What is taken out and what is put
/// in neither begin nor end alike.
pub open spec fn is_change(rows: Seq<(char, Seq<char>)>, lead: int, tail: int) -> bool {
    let old_lines = unmarked(rows, '+');
    let new_lines = unmarked(rows, '-');
    &&& forall|i: int|
        0 <= i < rows.len() ==> (#[trigger] rows[i]).0 == ' ' || rows[i].0 == '-' || rows[i].0
            == '+'
    &&& 0 <= lead <= 3 && 0 <= tail <= 3 && lead + tail < rows.len()
    &&& all_context(rows, 0, lead)
    &&& all_context(rows, rows.len() - tail, rows.len() as int)
    &&& rows[lead].0 != ' '
    &&& rows[rows.len() - tail - 1].0 != ' '
    &&& forall|i: int| lead <= i < rows.len() - tail ==> (#[trigger] rows[i]).0 != ' '
    &&& forall|i: int, j: int|
        0 <= i < j < rows.len() - tail && (#[trigger] rows[i]).0 == '+' ==> (
        #[trigger] rows[j]).0 == '+'
    &&& lead + tail < old_lines.len() && lead + tail < new_lines.len() ==> old_lines[lead]
        != new_lines[lead] && old_lines[old_lines.len() - tail - 1] != new_lines[new_lines.len()
        - tail - 1]
}

/// Whether `diff` is a patch, labelled with `path`, whose one hunk has `rows` and starts
/// behind the first `from` lines, and which turns the lines `a` into the lines `b`:
/// what it takes out and leaves is what stands in `a` from there on, and with what it
/// leaves and puts in in its place, `a` is `b`. Around the change stand three lines of
/// context on either side, or as many as there are.
pub open spec fn is_patch(
    diff: Seq<char>,
    path: Seq<char>,
    a: Seq<Seq<char>>,
    b: Seq<Seq<char>>,
    rows: Seq<(char, Seq<char>)>,
    from: int,
    lead: int,
    tail: int,
) -> bool {
    let old_lines = unmarked(rows, '+');
    let new_lines = unmarked(rows, '-');
    let line = text::dec((from + 1) as nat);
    &&& diff == "--- a/"@ + path + "\n+++ b/"@ + path + "\n"@ + ("@@ -"@ + line + ","@ + text::dec(
        old_lines.len(),
    ) + " +"@ + line + ","@ + text::dec(new_lines.len()) + " @@\n"@) + written(rows)
    &&& 0 <= from
    &&& from + old_lines.len() <= a.len()
    &&& a.subrange(from, from + old_lines.len()) == old_lines
    &&& b == a.take(from) + new_lines + a.skip(from + old_lines.len())
    &&& is_change(rows, lead, tail)
    &&& lead < 3 ==> from == 0
    &&& tail < 3 ==> from + old_lines.len() == a.len()
}

/// The lines of `a` from `from` up to `to` as rows with one mark.
spec fn rows_of(mark: char, a: Seq<Seq<char>>, from: int, to: int) -> Seq<(char, Seq<char>)> {
    Seq::new((to - from) as nat, |i: int| (mark, a[from + i]))
}

proof fn lemma_written(x: Seq<(char, Seq<char>)>, y: Seq<(char, Seq<char>)>)
    ensures
        written(x + y) == written(x) + written(y),
        unmarked(x + y, '+') == unmarked(x, '+') + unmarked(y, '+'),
        unmarked(x + y, '-') == unmarked(x, '-') + unmarked(y, '-'),
    decreases y.len(),
{
    if y.len() == 0 {
        assert(x + y =~= x);
    } else {
        lemma_written(x, y.drop_last());
        assert((x + y).drop_last() =~= x + y.drop_last());
        assert((x + y).last() == y.last());
        assert(written(x + y) =~= written(x) + written(y));
        assert(unmarked(x + y, '+') =~= unmarked(x, '+') + unmarked(y, '+'));
        assert(unmarked(x + y, '-') =~= unmarked(x, '-') + unmarked(y, '-'));
    }
}

proof fn lemma_rows(mark: char, a: Seq<Seq<char>>, from: int, to: int, not: char)
    requires
        0 <= from <= to <= a.len(),
    ensures
        written(rows_of(mark, a, from, to)) == marked(mark, a, from, to),
        unmarked(rows_of(mark, a, from, to), not) == if mark == not {
            Seq::empty()
        } else {
            a.subrange(from, to)
        },
    decreases to - from,
{
    let rows = rows_of(mark, a, from, to);
    if from < to {
        lemma_rows(mark, a, from, to - 1, not);
        assert(rows.drop_last() =~= rows_of(mark, a, from, to - 1));
        assert(rows.last() == (mark, a[to - 1]));
        assert(written(rows) =~= marked(mark, a, from, to));
        assert(a.subrange(from, to) =~= a.subrange(from, to - 1).push(a[to - 1]));
    } else {
        assert(a.subrange(from, to) =~= Seq::<Seq<char>>::empty());
    }
}

/// The rows of a hunk: what they read as, and what they take out and put in.
proof fn lemma_hunk_rows(
    a: Seq<Seq<char>>,
    b: Seq<Seq<char>>,
    from: int,
    start: int,
    a_end: int,
    b_end: int,
    a_to: int,
) -> (rows: Seq<(char, Seq<char>)>)
    requires
        0 <= from <= start <= a_end <= a_to <= a.len(),
        start <= b_end <= b.len(),
    ensures
        written(rows) == marked(' ', a, from, start) + marked('-', a, start, a_end) + marked(
            '+',
            b,
            start,
            b_end,
        ) + marked(' ', a, a_end, a_to),
        unmarked(rows, '+') == a.subrange(from, a_to),
        unmarked(rows, '-') == a.subrange(from, start) + b.subrange(start, b_end) + a.subrange(
            a_end,
            a_to,
        ),
        rows.len() == (start - from) + (a_end - start) + (b_end - start) + (a_to - a_end),
        forall|i: int|
            0 <= i < rows.len() ==> (#[trigger] rows[i]).0 == if i < start - from || i >= rows.len()
                - (a_to - a_end) {
                ' '
            } else if i < a_end - from {
                '-'
            } else {
                '+'
            },
{
    let r1 = rows_of(' ', a, from, start);
    let r2 = rows_of('-', a, start, a_end);
    let r3 = rows_of('+', b, start, b_end);
    let r4 = rows_of(' ', a, a_end, a_to);
    lemma_rows(' ', a, from, start, '+');
    lemma_rows(' ', a, from, start, '-');
    lemma_rows('-', a, start, a_end, '+');
    lemma_rows('-', a, start, a_end, '-');
    lemma_rows('+', b, start, b_end, '+');
    lemma_rows('+', b, start, b_end, '-');
    lemma_rows(' ', a, a_end, a_to, '+');
    lemma_rows(' ', a, a_end, a_to, '-');
    lemma_written(r1, r2);
    lemma_written(r1 + r2, r3);
    lemma_written(r1 + r2 + r3, r4);
    let rows = r1 + r2 + r3 + r4;
    assert(unmarked(rows, '+') =~= a.subrange(from, a_to));
    assert(unmarked(rows, '-') =~= a.subrange(from, start) + b.subrange(start, b_end)
        + a.subrange(a_end, a_to));
    rows
}

proof fn lemma_change(
    a: Seq<Seq<char>>,
    b: Seq<Seq<char>>,
    rows: Seq<(char, Seq<char>)>,
    from: int,
    start: int,
    a_end: int,
    b_end: int,
    a_to: int,
)
    requires
        0 <= from <= start <= a_end <= a_to <= a.len(),
        start <= b_end <= b.len(),
        start - from <= 3,
        a_to - a_end <= 3,
        start < a_end || start < b_end,
        start < a_end && start < b_end ==> a[start] != b[start] && a[a_end - 1] != b[b_end - 1],
        unmarked(rows, '+') == a.subrange(from, a_to),
        unmarked(rows, '-') == a.subrange(from, start) + b.subrange(start, b_end) + a.subrange(
            a_end,
            a_to,
        ),
        rows.len() == (start - from) + (a_end - start) + (b_end - start) + (a_to - a_end),
        forall|i: int|
            0 <= i < rows.len() ==> (#[trigger] rows[i]).0 == if i < start - from || i >= rows.len()
                - (a_to - a_end) {
                ' '
            } else if i < a_end - from {
                '-'
            } else {
                '+'
            },
    ensures
        is_change(rows, start - from, a_to - a_end),
{
    let lead = start - from;
    let tail = a_to - a_end;
    let old_lines = unmarked(rows, '+');
    let new_lines = unmarked(rows, '-');
    if lead + tail < old_lines.len() && lead + tail < new_lines.len() {
        assert(old_lines[lead] == a[start] && new_lines[lead] == b[start]);
        assert(old_lines[old_lines.len() - tail - 1] == a[a_end - 1]);
        assert(new_lines[new_lines.len() - tail - 1] == b[b_end - 1]);
    }
}

/// With the changed lines of `a` replaced by those of `b`, it is `b`.
proof fn lemma_patched(
    a: Seq<Seq<char>>,
    b: Seq<Seq<char>>,
    from: int,
    start: int,
    a_end: int,
    b_end: int,
    a_to: int,
)
    requires
        0 <= from <= start <= a_end <= a_to <= a.len(),
        start <= b_end <= b.len(),
        a.take(start) == b.take(start),
        a.skip(a_end) == b.skip(b_end),
    ensures
        b == a.take(from) + (a.subrange(from, start) + b.subrange(start, b_end) + a.subrange(
            a_end,
            a_to,
        )) + a.skip(a_to),
{
    assert(a.take(from) + a.subrange(from, start) =~= b.take(start));
    assert(a.subrange(a_end, a_to) + a.skip(a_to) =~= b.skip(b_end));
    assert(b =~= b.take(start) + b.subrange(start, b_end) + b.skip(b_end));
    assert(a.take(from) + (a.subrange(from, start) + b.subrange(start, b_end) + a.subrange(
        a_end,
        a_to,
    )) + a.skip(a_to) =~= (a.take(from) + a.subrange(from, start)) + b.subrange(start, b_end) + (
    a.subrange(a_end, a_to) + a.skip(a_to)));
}

/// What is shown is a patch: it turns the lines of the old text into those of the new,
/// and it reads in the order of the files.
pub proof fn law_a_diff_turns_the_old_text_into_the_new(
    path: Seq<char>,
    before: Seq<char>,
    after: Seq<char>,
)
    requires
        text::lines(before) != text::lines(after),
    ensures
        exists|rows: Seq<(char, Seq<char>)>, from: int, lead: int, tail: int| #[trigger]
            is_patch(
                diff_text(path, before, after),
                path,
                text::lines(before),
                text::lines(after),
                rows,
                from,
                lead,
                tail,
            ),
{
    let a = text::lines(before);
    let b = text::lines(after);
    law_changed_lines(a, b);
    let (start, a_end, b_end) = changed_lines(a, b)->0;
    let from = if start > 3 {
        start - 3
    } else {
        0
    };
    let a_to = at_most(a_end, 3, a.len() as int);
    let b_to = at_most(b_end, 3, b.len() as int);
    assert(a.skip(a_end).len() == b.skip(b_end).len());
    assert(a_to - a_end == b_to - b_end);
    let rows = lemma_hunk_rows(a, b, from, start, a_end, b_end, a_to);
    lemma_patched(a, b, from, start, a_end, b_end, a_to);
    let diff = diff_text(path, before, after);
    let head = "@@ -"@ + text::dec((from + 1) as nat) + ","@ + text::dec((a_to - from) as nat)
        + " +"@ + text::dec((from + 1) as nat) + ","@ + text::dec((b_to - from) as nat) + " @@\n"@;
    assert(hunk(a, b, 3, start, a_end, b_end) =~= head + written(rows));
    assert(unmarked(rows, '+').len() == a_to - from);
    assert(unmarked(rows, '-').len() == b_to - from);
    lemma_change(a, b, rows, from, start, a_end, b_end, a_to);
    assert(diff =~= "--- a/"@ + path + "\n+++ b/"@ + path + "\n"@ + head + written(rows));
    assert(is_patch(diff, path, a, b, rows, from, start - from, a_to - a_end));
}

// ---------------------------------------------------------------------------
// Rendering
// ---------------------------------------------------------------------------

/// The program and arguments that render a diff, which they get on their standard
/// input. `None` when there is nothing to render, or nothing to render it with.
pub fn renderer(diff: &str, differ: &Vec<String>) -> (r: Option<(String, Vec<String>)>)
    ensures
        match r {
            Some((program, args)) => diff@.len() > 0 && differ@.len() > 0 && program@
                == differ@[0]@ && args@ == differ@.skip(1),
            None => diff@.len() == 0 || differ@.len() == 0,
        },
{
    if diff.is_empty() || differ.len() == 0 {
        return None;
    }
    let mut args: Vec<String> = Vec::new();
    let mut i: usize = 1;
    while i < differ.len()
        invariant
            1 <= i <= differ.len(),
            args@ == differ@.subrange(1, i as int),
        decreases differ.len() - i,
    {
        args.push(differ[i].clone());
        assert(args@ == differ@.subrange(1, i + 1));
        i += 1;
    }
    Some((differ[0].clone(), args))
}

/// What came of running a program whose output was captured: whether it succeeded,
/// and what it wrote.
#[derive(Debug)]
pub struct Captured {
    pub success: bool,
    pub stdout: String,
}

/// Render a diff through the configured command, falling back to plain text.
/// `captured` is what came of running it, if it could be run.
///
/// Returns the rendered string rather than writing to the terminal directly: the
/// TUI owns the screen, so output has to be captured and drawn as part of a frame.
pub fn render(diff: &str, differ: &Vec<String>, captured: Option<Captured>) -> (r: String)
    ensures
        r@ == if diff@.len() == 0 {
            Seq::empty()
        } else {
            match captured {
                Some(c) => if differ@.len() > 0 && c.success && c.stdout@.len() > 0 {
                    c.stdout@
                } else {
                    diff@
                },
                None => diff@,
            }
        },
{
    if diff.is_empty() {
        return String::new();
    }
    if differ.len() == 0 {
        return diff.to_owned();
    }
    match captured {
        Some(c) => if c.success && !c.stdout.as_str().is_empty() {
            c.stdout
        } else {
            diff.to_owned()
        },
        None => diff.to_owned(),
    }
}

} // verus!
