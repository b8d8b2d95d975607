//! Startup progress reporting for the scan phases.
//!
//! Scanning happens before the TUI opens, so progress is shown on the normal
//! terminal, on a single line rewritten in place with `\r`. Nothing is drawn when
//! the error output is not a terminal: progress bars in a log file or a pipe are
//! noise.
use crate::numbers;
use crate::text;
use vstd::arithmetic::div_mod::lemma_fundamental_div_mod;
use vstd::arithmetic::div_mod::lemma_fundamental_div_mod_converse;
use vstd::prelude::*;

verus! {

/// Nanoseconds in a second.
pub const SECOND: u128 = 1_000_000_000;

/// How wide a progress bar is.
pub const BAR_WIDTH: usize = 24;

/// Redraw rate, in microseconds. Fast enough to look live, slow enough that a scan
/// of thousands of tiny store paths is not dominated by terminal writes.
pub const TICK: u64 = 80_000;

// ---------------------------------------------------------------------------
// Durations
// ---------------------------------------------------------------------------

/// A length of time: whole seconds, and nanoseconds of the next one.
#[derive(Debug, Clone, Copy, PartialEq, Eq)]
pub struct TimeSpan {
    secs: u64,
    nanos: u32,
}

impl View for TimeSpan {
    type V = nat;

    /// The length in nanoseconds.
    closed spec fn view(&self) -> nat {
        (self.secs * SECOND + self.nanos) as nat
    }
}

impl TimeSpan {
    #[verifier::type_invariant]
    spec fn inv(self) -> bool {
        self.nanos < SECOND
    }

    /// A number of seconds, and of nanoseconds below one second.
    pub fn new(secs: u64, nanos: u32) -> (r: Self)
        requires
            nanos < SECOND,
        ensures
            r@ == secs * SECOND + nanos,
    {
        TimeSpan { secs, nanos }
    }

    /// A number of whole seconds.
    pub fn from_secs(secs: u64) -> (r: Self)
        ensures
            r@ == secs * SECOND,
    {
        TimeSpan { secs, nanos: 0 }
    }

    /// A number of milliseconds.
    pub fn from_millis(millis: u64) -> (r: Self)
        ensures
            r@ == millis * 1_000_000,
    {
        TimeSpan { secs: millis / 1000, nanos: (millis % 1000) as u32 * 1_000_000 }
    }

    /// The whole seconds.
    pub fn as_secs(&self) -> (r: u64)
        ensures
            r == self@ / (SECOND as nat),
    {
        proof {
            use_type_invariant(self);
        }
        self.secs
    }

    /// The nanoseconds beyond the whole seconds.
    pub fn subsec_nanos(&self) -> (r: u32)
        ensures
            r == self@ % (SECOND as nat),
            r < SECOND,
    {
        proof {
            use_type_invariant(self);
        }
        self.nanos
    }

    /// The length in nanoseconds.
    pub fn as_nanos(&self) -> (r: u128)
        ensures
            r == self@,
            r < 0x1_0000_0000_0000_0000 * SECOND,
    {
        proof {
            use_type_invariant(self);
        }
        self.secs as u128 * SECOND + self.nanos as u128
    }
}

/// A duration as it is shown: minutes and seconds, seconds, or tenths of a second,
/// whichever its length calls for.
pub open spec fn duration_text(nanos: nat) -> Seq<char> {
    let secs = nanos / (SECOND as nat);
    if secs >= 60 {
        text::dec(secs / 60) + "m"@ + text::zeros(text::dec(secs % 60), 2) + "s"@
    } else if secs >= 10 {
        text::dec(secs) + "s"@
    } else {
        let (n, p) = numbers::mixed(secs, nanos % (SECOND as nat), SECOND as nat);
        numbers::one_decimal(n, p) + "s"@
    }
}

/// A duration as it is shown.
pub fn human_duration(d: &TimeSpan) -> (r: String)
    ensures
        r@ == duration_text(d@),
{
    let secs: u64 = d.as_secs();
    if secs >= 60 {
        let minutes = text::dec_text(secs / 60);
        let rest = text::dec_text(secs % 60);
        let padded = text::zeros_text(rest.as_str(), 2);
        text::cat4(minutes.as_str(), "m", padded.as_str(), "s")
    } else if secs >= 10 {
        text::cat2(text::dec_text(secs).as_str(), "s")
    } else {
        let (n, p) = numbers::mixed_to(secs as u128, d.subsec_nanos() as u128, SECOND);
        proof {
            lemma_tenths(n as nat, p as nat);
        }
        let digits = numbers::one_decimal_text(n, p);
        text::cat2(digits.as_str(), "s")
    }
}

proof fn lemma_tenths(n: nat, p: nat)
    requires
        n <= 128 * p,
        0 < p <= 0x80_0000_0000_0000_0000_0000,
    ensures
        n * 10 <= u128::MAX,
        numbers::nearest((n * 10) as nat, p) <= u64::MAX,
{
    let q = (n * 10) / p;
    assert(q <= 1280) by (nonlinear_arith)
        requires
            q == (n * 10) / p,
            n <= 128 * p,
            p > 0,
    ;
}

/// The remaining time, extrapolated from the average rate so far: what is left
/// takes as long per item as what is done did, to the nearest nanosecond.
///
/// There is none before anything is done, nor once everything is, nor when it is
/// longer than a [`TimeSpan`] can tell.
pub open spec fn remaining_nanos(elapsed: nat, done: nat, total: nat) -> Option<nat> {
    if done == 0 || done >= total {
        None
    } else {
        let n = numbers::nearest(elapsed * ((total - done) as nat), done);
        if n < 0x1_0000_0000_0000_0000 * SECOND {
            Some(n)
        } else {
            None
        }
    }
}

/// The quotient and the remainder of `(q * d + r) * k` by `d`, piecewise.
proof fn lemma_split_product(e: int, k: int, d: int)
    requires
        d > 0,
        e >= 0,
        k >= 0,
    ensures
        (e * k) / d == (e / d) * k + ((e % d) * k) / d,
        (e * k) % d == ((e % d) * k) % d,
{
    let q = e / d;
    let r = e % d;
    let f = (r * k) / d;
    let m = (r * k) % d;
    lemma_fundamental_div_mod(e, d);
    lemma_fundamental_div_mod(r * k, d);
    assert(e * k == d * (q * k + f) + m) by (nonlinear_arith)
        requires
            e == d * q + r,
            r * k == d * f + m,
    ;
    assert(0 <= m < d);
    lemma_fundamental_div_mod_converse(e * k, d, q * k + f, m);
}

/// The remaining time, extrapolated from the average rate so far.
pub fn remaining(elapsed: &TimeSpan, done: usize, total: usize) -> (r: Option<TimeSpan>)
    ensures
        match r {
            Some(t) => remaining_nanos(elapsed@, done as nat, total as nat) == Some(t@),
            None => remaining_nanos(elapsed@, done as nat, total as nat) is None,
        },
{
    if done == 0 || done >= total {
        return None;
    }
    let limit: u128 = 0x1_0000_0000_0000_0000 * SECOND;
    let e: u128 = elapsed.as_nanos();
    let d: u128 = done as u128;
    let k: u128 = (total - done) as u128;
    let q: u128 = e / d;
    let rest: u128 = e % d;
    proof {
        lemma_split_product(e as int, k as int, d as int);
        assert(rest * k <= 0xffff_ffff_ffff_ffff * 0xffff_ffff_ffff_ffff) by (nonlinear_arith)
            requires
                rest < d <= 0xffff_ffff_ffff_ffff,
                k <= 0xffff_ffff_ffff_ffff,
        ;
    }
    let more: u128 = (rest * k) / d;
    let m: u128 = (rest * k) % d;
    proof {
        assert(more <= rest * k) by (nonlinear_arith)
            requires
                more == (rest * k) / (d as int),
                d > 0,
        ;
    }
    if q > limit / k {
        proof {
            assert(q * k >= limit) by (nonlinear_arith)
                requires
                    q > limit / k,
                    k > 0,
            ;
        }
        return None;
    }
    proof {
        assert(q * k <= limit) by (nonlinear_arith)
            requires
                q <= limit / k,
                k > 0,
        ;
        assert(more < k) by (nonlinear_arith)
            requires
                rest < d,
                k > 0,
                d > 0,
                more == (rest * k) / (d as int),
        ;
    }
    let whole: u128 = q * k + more;
    let n: u128 = if 2 * m > d || (2 * m == d && whole % 2 == 1) {
        whole + 1
    } else {
        whole
    };
    if n >= limit {
        return None;
    }
    let secs: u128 = n / SECOND;
    let nanos: u128 = n % SECOND;
    Some(TimeSpan::new(secs as u64, nanos as u32))
}

/// The estimate as it is shown: blank until some work is done, since one computed
/// from nothing is worse than none, and blank once all of it is.
pub open spec fn eta_text(elapsed: nat, done: nat, total: nat) -> Seq<char> {
    match remaining_nanos(elapsed, done, total) {
        Some(n) => "ETA "@ + duration_text(n),
        None => Seq::empty(),
    }
}

/// Remaining time, extrapolated from the average rate so far.
///
/// Deliberately blank until some work is done: store paths vary enough in size that
/// early estimates swing wildly.
pub fn eta(elapsed: &TimeSpan, done: usize, total: usize) -> (r: String)
    ensures
        r@ == eta_text(elapsed@, done as nat, total as nat),
{
    match remaining(elapsed, done, total) {
        Some(t) => text::cat2("ETA ", human_duration(&t).as_str()),
        None => String::new(),
    }
}

/// No estimate is shown before anything is done, nor once everything is.
pub proof fn law_eta_needs_a_sample(elapsed: nat, done: nat, total: nat)
    ensures
        done == 0 || done >= total ==> eta_text(elapsed, done, total).len() == 0,
{
}

// ---------------------------------------------------------------------------
// The display
// ---------------------------------------------------------------------------

/// A progress bar: how much of `total` is `done`.
pub open spec fn bar(done: nat, total: nat) -> Seq<char> {
    let filled = numbers::share_nearest(done, total, BAR_WIDTH as nat);
    text::fill('█', filled as int) + text::fill('░', BAR_WIDTH - filled)
}

/// How many percent of `total` are `done`, as it is shown.
pub open spec fn percent(done: nat, total: nat) -> Seq<char> {
    text::right(text::dec(numbers::share_below(done, total, 100)), 3) + "%"@
}

/// A progress bar.
pub fn bar_text(done: usize, total: usize) -> (r: String)
    ensures
        r@ == bar(done as nat, total as nat),
{
    let filled = numbers::share_nearest_to(done, total, BAR_WIDTH);
    let mut r = String::new();
    text::push_fill(&mut r, '█', filled);
    text::push_fill(&mut r, '░', BAR_WIDTH - filled);
    assert(r@ == bar(done as nat, total as nat));
    r
}

/// How many percent of `total` are `done`, as it is shown.
pub fn percent_text(done: usize, total: usize) -> (r: String)
    ensures
        r@ == percent(done as nat, total as nat),
{
    let n = text::dec_text(numbers::share_below_to(done, total, 100));
    let padded = text::right_text(n.as_str(), 3);
    text::cat2(padded.as_str(), "%")
}

/// The frame of the spinner at a time, for phases with no known total.
pub open spec fn spinner(nanos: nat) -> char {
    "⠋⠙⠹⠸⠼⠴⠦⠧⠇⠏"@[((nanos / 1_000_000) / 80) as int % 10]
}

fn spinner_at(elapsed: &TimeSpan) -> (r: char)
    ensures
        r == spinner(elapsed@),
{
    proof {
        reveal_strlit("⠋⠙⠹⠸⠼⠴⠦⠧⠇⠏");
    }
    let frames = text::to_chars("⠋⠙⠹⠸⠼⠴⠦⠧⠇⠏");
    let k: u128 = (elapsed.as_nanos() / 1_000_000) / 80 % 10;
    frames[k as usize]
}

/// A single-line progress display for one phase of the scan.
///
/// `total` of `None` means the denominator is unknown — a walk that discovers its
/// own extent — so only a count and a spinner are shown. With a total, the display
/// gains a bar, a percentage and an ETA.
#[derive(Debug)]
pub struct Progress {
    pub label: String,
    pub total: Option<usize>,
    pub done: usize,
    /// When the line was last redrawn, in microseconds since the phase began.
    pub last_draw: u64,
    /// Whether anything is drawn at all.
    pub enabled: bool,
}

/// A line that replaces the one before it. Without the clear to the end of the
/// line, a shorter frame leaves the tail of the previous one on screen.
pub open spec fn line_over(label: Seq<char>, body: Seq<char>) -> Seq<char> {
    "\r\x1b[2K  "@ + text::left(label, 16) + " "@ + body
}

/// A time in whole microseconds, as far as 64 bits reach.
pub open spec fn micros(nanos: nat) -> int {
    (nanos / 1000) as int % 0x1_0000_0000_0000_0000
}

/// Whether enough time has passed since the last redraw.
pub open spec fn is_due(last_draw: u64, nanos: nat) -> bool {
    micros(nanos) - last_draw >= TICK
}

impl Progress {
    /// Begin a phase. The first frame is drawn at once: phases that finish quickly
    /// should still show that they happened, and slow ones must not look like a
    /// hang.
    pub fn new(label: &str, total: Option<usize>, enabled: bool) -> (r: Self)
        ensures
            r.label@ == label@,
            r.total == total,
            r.done == 0,
            r.last_draw == 0,
            r.enabled == enabled,
    {
        Progress { label: label.to_owned(), total, done: 0, last_draw: 0, enabled }
    }

    /// Record `n` more units of work at a time since the phase began, and say
    /// whether the line is to be redrawn. Counting goes round as 64 bits do.
    pub fn advance(&mut self, n: usize, elapsed: &TimeSpan) -> (r: bool)
        ensures
            final(self).done == old(self).done.wrapping_add(n),
            final(self).label == old(self).label,
            final(self).total == old(self).total,
            final(self).enabled == old(self).enabled,
            r == (old(self).enabled && is_due(old(self).last_draw, elapsed@)),
            final(self).last_draw == if r {
                micros(elapsed@) as u64
            } else {
                old(self).last_draw
            },
    {
        self.done = self.done.wrapping_add(n);
        self.tick(elapsed)
    }

    /// Whether the line is to be redrawn, which is then noted as done.
    pub fn tick(&mut self, elapsed: &TimeSpan) -> (r: bool)
        ensures
            final(self).done == old(self).done,
            final(self).label == old(self).label,
            final(self).total == old(self).total,
            final(self).enabled == old(self).enabled,
            r == (old(self).enabled && is_due(old(self).last_draw, elapsed@)),
            final(self).last_draw == if r {
                micros(elapsed@) as u64
            } else {
                old(self).last_draw
            },
    {
        if !self.enabled {
            return false;
        }
        let now: u64 = ((elapsed.as_nanos() / 1000) % 0x1_0000_0000_0000_0000) as u64;
        if now < self.last_draw || now - self.last_draw < TICK {
            return false;
        }
        self.last_draw = now;
        true
    }

    /// What the line reads, behind its label, when `done` units are done.
    pub open spec fn body(self, done: usize, nanos: nat) -> Seq<char> {
        match self.total {
            Some(total) => bar(done as nat, total as nat) + " "@ + percent(
                done as nat,
                total as nat,
            ) + "  "@ + text::dec(done as nat) + "/"@ + text::dec(total as nat) + "  "@ + eta_text(
                nanos,
                done as nat,
                total as nat,
            ),
            None => seq![spinner(nanos)] + "  "@ + text::dec(done as nat) + " found  "@
                + duration_text(nanos),
        }
    }

    /// The line to draw when `done` units are done, if anything is drawn.
    pub fn draw(&self, done: usize, elapsed: &TimeSpan) -> (r: Option<String>)
        ensures
            text::view_of(r) == if self.enabled {
                Some(line_over(self.label@, self.body(done, elapsed@)))
            } else {
                None
            },
    {
        if !self.enabled {
            return None;
        }
        let body = match self.total {
            Some(total) => {
                let mut b = bar_text(done, total);
                b.append(" ");
                b.append(percent_text(done, total).as_str());
                b.append("  ");
                b.append(text::count_text(done).as_str());
                b.append("/");
                b.append(text::count_text(total).as_str());
                b.append("  ");
                b.append(eta(elapsed, done, total).as_str());
                b
            },
            None => {
                let mut b = String::new();
                b.push(spinner_at(elapsed));
                assert(b@ == seq![spinner(elapsed@)]);
                b.append("  ");
                b.append(text::count_text(done).as_str());
                b.append(" found  ");
                b.append(human_duration(elapsed).as_str());
                b
            },
        };
        assert(body@ == self.body(done, elapsed@));
        let label = text::left_text(self.label.as_str(), 16);
        Some(text::cat4("\r\x1b[2K  ", label.as_str(), " ", body.as_str()))
    }

    /// Overwrite the count. Used when the final figure differs from the number of
    /// `advance` calls — overlapping scan roots can find the same lockfile twice, and
    /// the summary should report the deduplicated count.
    pub fn set(&mut self, n: usize)
        ensures
            final(self).done == n,
            final(self).label == old(self).label,
            final(self).total == old(self).total,
            final(self).last_draw == old(self).last_draw,
            final(self).enabled == old(self).enabled,
    {
        self.done = n;
    }

    /// The one-line summary that ends the phase, if anything is drawn.
    pub fn finish(&self, elapsed: &TimeSpan) -> (r: Option<String>)
        ensures
            text::view_of(r) == if self.enabled {
                Some(
                    line_over(
                        self.label@,
                        text::dec(self.done as nat) + " in "@ + duration_text(elapsed@) + "\n"@,
                    ),
                )
            } else {
                None
            },
    {
        if !self.enabled {
            return None;
        }
        let count = text::count_text(self.done);
        let took = human_duration(elapsed);
        let body = text::cat4(count.as_str(), " in ", took.as_str(), "\n");
        let label = text::left_text(self.label.as_str(), 16);
        Some(text::cat4("\r\x1b[2K  ", label.as_str(), " ", body.as_str()))
    }
}

// ---------------------------------------------------------------------------
// What holds of the display
// ---------------------------------------------------------------------------

/// What is left is told to take as long for each item as what is done did, to the
/// nearest nanosecond, wherever there is a rate to go by.
pub proof fn law_the_rest_takes_its_share(elapsed: nat, done: nat, total: nat)
    ensures
        remaining_nanos(elapsed, done, total) matches Some(n) ==> {
            &&& 0 < done < total
            &&& 2 * (n * done) <= 2 * (elapsed * (total - done)) + done
            &&& 2 * (elapsed * (total - done)) <= 2 * (n * done) + done
        },
        0 < done < total && elapsed * (total - done) <= 0xffff_ffff_ffff_ffff * (SECOND * done)
            ==> remaining_nanos(elapsed, done, total) is Some,
{
    if 0 < done < total {
        let work = elapsed * ((total - done) as nat);
        numbers::law_the_nearest_is_off_by_half_at_most(work, done);
        let n = numbers::nearest(work, done);
        if work <= 0xffff_ffff_ffff_ffff * (SECOND * done) {
            assert(n <= 0xffff_ffff_ffff_ffff * SECOND + 1) by (nonlinear_arith)
                requires
                    2 * (n * done) <= 2 * work + done,
                    work <= 0xffff_ffff_ffff_ffff * (SECOND * done),
                    done > 0,
            ;
        }
    }
}

/// The bar is as wide whatever is done, it fills from its left end, and what is filled
/// stands to its width as what is done to the total, to the nearest cell.
pub proof fn law_the_bar_is_filled_in_proportion(done: nat, total: nat)
    requires
        0 < total < 0x1000_0000_0000,
        done <= total,
    ensures
        bar(done, total).len() == 24,
        exists|f: int|
            0 <= f <= 24 && #[trigger] bar(done, total).take(f) == Seq::new(f as nat, |i: int| '█')
                && bar(done, total).skip(f) == Seq::new((24 - f) as nat, |i: int| '░') && 2 * (f
                * total) <= 48 * done + total && 48 * done <= 2 * (f * total) + total,
{
    numbers::law_a_share_is_in_proportion(done, total, BAR_WIDTH as nat);
    let f = numbers::share_nearest(done, total, BAR_WIDTH as nat) as int;
    assert(bar(done, total).take(f) =~= Seq::new(f as nat, |i: int| '█'));
    assert(bar(done, total).skip(f) =~= Seq::new((24 - f) as nat, |i: int| '░'));
}

/// The percentage is what is done of a hundred parts of the total, told as a number of
/// three places and rounded down.
pub proof fn law_the_percentage_is_in_proportion(done: nat, total: nat)
    requires
        0 < total < 0x1000_0000_0000,
        done <= total,
    ensures
        exists|n: nat|
            percent(done, total) == text::right(#[trigger] text::dec(n), 3).push('%') && n * total
                <= 100 * done && 100 * done <= (n + 1) * total,
{
    reveal_strlit("%");
    numbers::law_a_share_is_in_proportion(done, total, 100);
    let n = numbers::share_below(done, total, 100);
    assert(percent(done, total) =~= text::right(text::dec(n), 3).push('%'));
}

/// A long duration is told in minutes and seconds, two digits of them, and a shorter one
/// in whole seconds: together they are its whole seconds.
pub proof fn law_a_duration_is_told_in_minutes_and_seconds(nanos: nat)
    ensures
        nanos >= 60_000_000_000 ==> exists|m: nat, pair: Seq<char>|
            duration_text(nanos) == #[trigger] (text::dec(m).push('m') + pair).push('s')
                && pair.len() == 2 && 0 <= text::number(pair) < 60 && 1_000_000_000 * (60 * m
                + text::number(pair)) <= nanos && nanos < 1_000_000_000 * (60 * m + text::number(
                pair,
            ) + 1),
        10_000_000_000 <= nanos < 60_000_000_000 ==> exists|s: nat|
            duration_text(nanos) == (#[trigger] text::dec(s)).push('s') && 1_000_000_000 * s
                <= nanos && nanos < 1_000_000_000 * (s + 1),
{
    reveal_strlit("m");
    reveal_strlit("s");
    let secs = nanos / 1_000_000_000;
    if nanos >= 60_000_000_000 {
        let m = secs / 60;
        let s = secs % 60;
        let pair = text::zeros(text::dec(s), 2);
        text::law_a_number_is_read_back(s);
        text::law_a_number_is_read_back(s / 10);
        text::law_padding_fills_up_to_the_width(text::dec(s), 2);
        if s < 10 {
            assert(pair =~= seq!['0', text::dec(s)[0]]);
            assert(pair.drop_last() =~= seq!['0']);
            assert(pair.drop_last().drop_last() =~= Seq::<char>::empty());
            assert(text::number(seq!['0']) == 0);
            assert(text::dec(s).drop_last() =~= Seq::<char>::empty());
        } else {
            assert(text::dec(s).len() == 2);
            assert(pair =~= text::dec(s));
        }
        assert(duration_text(nanos) =~= (text::dec(m).push('m') + pair).push('s'));
    } else if nanos >= 10_000_000_000 {
        assert(duration_text(nanos) =~= text::dec(secs).push('s'));
    }
}

/// A line is due again when the time between two frames has passed since the last.
pub proof fn law_a_frame_is_due_after_a_tick(last_draw: u64, nanos: nat)
    requires
        nanos < 0x1_0000_0000_0000_0000,
    ensures
        is_due(last_draw, nanos) <==> nanos >= 1000 * last_draw + 80_000_000,
{
}

/// A line begins by clearing the one before it, names its phase in a column of its own,
/// and ends with what it has to say.
pub proof fn law_a_line_replaces_the_one_before(label: Seq<char>, body: Seq<char>)
    ensures
        text::begins(line_over(label, body), "\r\x1b[2K"@),
        text::occurs_at(line_over(label, body), label, 7),
        text::ends(line_over(label, body), body),
        label.len() <= 16 ==> line_over(label, body).len() == 24 + body.len(),
{
    reveal_strlit("\r\x1b[2K  ");
    reveal_strlit("\r\x1b[2K");
    reveal_strlit(" ");
    text::law_padding_fills_up_to_the_width(label, 16);
    let s = line_over(label, body);
    assert(s.subrange(0, 5) =~= "\r\x1b[2K"@);
    assert(s.subrange(7, 7int + label.len()) =~= text::left(label, 16).take(label.len() as int));
    assert(s.subrange(s.len() - body.len(), s.len() as int) =~= body);
}

/// The spinner shows its ten frames in turn, each for eighty milliseconds.
pub proof fn law_the_spinner_turns(nanos: nat)
    ensures
        spinner(nanos) == "⠋⠙⠹⠸⠼⠴⠦⠧⠇⠏"@[(nanos / 80_000_000) as int % 10],
{
    assert((nanos / 1_000_000) / 80 == nanos / 80_000_000);
}

} // verus!
