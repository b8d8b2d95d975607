//! What is on the screen: reads [`App`], and says which lines stand where, and how they
//! look.
use crate::app;
use crate::app::{App, EditPreview, Merge, Mode, Outcome, Pane, Running, Step, VersionRow};
use crate::app::VersionRowView;
use crate::lock::{Group, Pin};
use crate::paths;
use crate::progress;
use crate::progress::TimeSpan;
use crate::report;
use crate::store;
use crate::store::{RootRow, RootRowView};
use crate::sync;
use crate::sync::Action;
use crate::text;
use ratatui::layout::{Constraint, Direction, Layout, Rect};
use vstd::prelude::*;

verus! {

// ---------------------------------------------------------------------------
// Styled text
// ---------------------------------------------------------------------------

#[derive(Debug, Clone, Copy, PartialEq, Eq, Structural)]
pub enum Color {
    Black,
    Red,
    Green,
    Yellow,
    Blue,
    Magenta,
    Cyan,
    Gray,
    DarkGray,
    White,
}

/// How a text looks. A colour that is not given is the terminal's own.
#[derive(Debug, Clone, Copy, PartialEq, Eq, Structural)]
pub struct Style {
    pub fg: Option<Color>,
    pub bg: Option<Color>,
    pub bold: bool,
    pub italic: bool,
    pub reversed: bool,
}

impl Style {
    /// The terminal's own style.
    #[verifier::allow_in_spec]
    pub fn new() -> Style
        returns
            (Style { fg: None, bg: None, bold: false, italic: false, reversed: false }),
    {
        Style { fg: None, bg: None, bold: false, italic: false, reversed: false }
    }

    #[verifier::allow_in_spec]
    pub fn fg(self, color: Color) -> Style
        returns
            (Style { fg: Some(color), ..self }),
    {
        Style { fg: Some(color), ..self }
    }

    #[verifier::allow_in_spec]
    pub fn bg(self, color: Color) -> Style
        returns
            (Style { bg: Some(color), ..self }),
    {
        Style { bg: Some(color), ..self }
    }

    #[verifier::allow_in_spec]
    pub fn bold(self) -> Style
        returns
            (Style { bold: true, ..self }),
    {
        Style { bold: true, ..self }
    }

    #[verifier::allow_in_spec]
    pub fn italic(self) -> Style
        returns
            (Style { italic: true, ..self }),
    {
        Style { italic: true, ..self }
    }

    #[verifier::allow_in_spec]
    pub fn reversed(self) -> Style
        returns
            (Style { reversed: true, ..self }),
    {
        Style { reversed: true, ..self }
    }
}

/// A text in one style.
#[derive(Debug)]
pub struct Span {
    pub text: String,
    pub style: Style,
}

/// What a [`Span`] shows.
pub struct SpanView {
    pub text: Seq<char>,
    pub style: Style,
}

impl View for Span {
    type V = SpanView;

    open spec fn view(&self) -> SpanView {
        SpanView { text: self.text@, style: self.style }
    }
}

/// A line of spans.
#[derive(Debug)]
pub struct Line {
    pub spans: Vec<Span>,
}

impl View for Line {
    type V = Seq<SpanView>;

    open spec fn view(&self) -> Seq<SpanView> {
        self.spans@.map_values(|s: Span| s@)
    }
}

/// `text` in `style`.
pub open spec fn span(text: Seq<char>, style: Style) -> SpanView {
    SpanView { text, style }
}

/// What `lines` show.
pub open spec fn line_views(lines: Seq<Line>) -> Seq<Seq<SpanView>> {
    lines.map_values(|l: Line| l@)
}

/// A line of one span.
pub open spec fn one(text: Seq<char>, style: Style) -> Seq<SpanView> {
    seq![span(text, style)]
}

/// `text` in the terminal's own style, where every line of it is a span.
pub open spec fn plain(text: Seq<char>) -> Seq<SpanView> {
    text::lines(text).map_values(|t: Seq<char>| span(t, Style::new()))
}

impl Line {
    /// A line with nothing on it.
    pub fn new() -> (r: Self)
        ensures
            r@ == Seq::<SpanView>::empty(),
    {
        let r = Line { spans: Vec::new() };
        assert(r@ == Seq::<SpanView>::empty());
        r
    }

    /// Add `text` in `style`.
    pub fn add_styled(&mut self, text: &str, style: Style)
        ensures
            final(self)@ == old(self)@.push(span(text@, style)),
    {
        let ghost before = self@;
        self.spans.push(Span { text: text.to_owned(), style });
        assert(self@ == before.push(span(text@, style)));
    }

    /// Add `text` in the terminal's own style.
    pub fn add_raw(&mut self, text: &str)
        ensures
            final(self)@ == old(self)@.push(span(text@, Style::new())),
    {
        self.add_styled(text, Style::new());
    }

    /// A line of one span.
    pub fn styled(text: &str, style: Style) -> (r: Self)
        ensures
            r@ == one(text@, style),
    {
        let mut r = Line::new();
        r.add_styled(text, style);
        r
    }

    /// `text` in the terminal's own style, where every line of it is a span.
    pub fn raw(text: &str) -> (r: Self)
        ensures
            r@ == plain(text@),
    {
        let parts = text::lines_of(text);
        let ghost want = plain(text@);
        let mut r = Line::new();
        let mut i: usize = 0;
        assert(want.take(0) == Seq::<SpanView>::empty());
        while i < parts.len()
            invariant
                i <= parts.len(),
                want == plain(text@),
                text::texts(parts@) == text::lines(text@),
                r@ == want.take(i as int),
            decreases parts.len() - i,
        {
            assert(text::texts(parts@)[i as int] == parts@[i as int]@);
            r.add_raw(parts[i].as_str());
            assert(want.take(i + 1) == want.take(i as int).push(want[i as int]));
            i += 1;
        }
        assert(text::texts(parts@).len() == parts.len());
        assert(want.take(i as int) == want);
        r
    }
}

fn add_line(lines: &mut Vec<Line>, line: Line)
    ensures
        line_views(final(lines)@) == line_views(old(lines)@).push(line@),
{
    let ghost before = lines@;
    lines.push(line);
    assert(line_views(lines@) == line_views(before).push(line@));
}

/// Add a line of one span.
fn add_styled(lines: &mut Vec<Line>, text: &str, style: Style)
    ensures
        line_views(final(lines)@) == line_views(old(lines)@).push(one(text@, style)),
{
    add_line(lines, Line::styled(text, style));
}

/// Add a line with nothing on it.
fn add_blank(lines: &mut Vec<Line>)
    ensures
        line_views(final(lines)@) == line_views(old(lines)@).push(Seq::empty()),
{
    add_line(lines, Line::new());
}

// ---------------------------------------------------------------------------
// Where things stand
// ---------------------------------------------------------------------------

/// A rectangle of the screen.
#[derive(Debug, Clone, Copy, PartialEq, Eq, Structural)]
pub struct Area {
    pub x: u16,
    pub y: u16,
    pub width: u16,
    pub height: u16,
}

/// What one part of a split is to get.
#[derive(Debug, Clone, Copy, PartialEq, Eq, Structural)]
pub enum Extent {
    Length(u16),
    Min(u16),
    Percentage(u16),
}

/// Which way an area is split.
#[derive(Debug, Clone, Copy, PartialEq, Eq, Structural)]
pub enum Axis {
    Horizontal,
    Vertical,
}

/// Whether `part` lies across the whole of `area`, against the way it is split.
pub open spec fn spans_across(part: Area, area: Area, axis: Axis) -> bool {
    match axis {
        Axis::Horizontal => part.y == area.y && part.height == area.height,
        Axis::Vertical => part.x == area.x && part.width == area.width,
    }
}

/// Where `area` begins along `axis`.
pub open spec fn begin(area: Area, axis: Axis) -> int {
    match axis {
        Axis::Horizontal => area.x as int,
        Axis::Vertical => area.y as int,
    }
}

/// How far `area` reaches along `axis`.
pub open spec fn reach(area: Area, axis: Axis) -> int {
    match axis {
        Axis::Horizontal => area.width as int,
        Axis::Vertical => area.height as int,
    }
}

/// How much of `area` along `axis` can be addressed: all of it, unless it reaches past
/// the last cell there is.
pub open spec fn room(area: Area, axis: Axis) -> int {
    if begin(area, axis) + reach(area, axis) <= u16::MAX {
        reach(area, axis)
    } else {
        u16::MAX - begin(area, axis)
    }
}

/// How much of `size` an extent asks for, in hundredths, if a minimum is met with `rest`.
pub open spec fn amount(extent: Extent, size: int, rest: int) -> int {
    match extent {
        Extent::Length(n) => 100 * n,
        Extent::Min(_) => rest,
        Extent::Percentage(p) => size * p,
    }
}

/// How much the extents ask for together.
pub open spec fn asked(extents: Seq<Extent>, size: int, rest: int) -> int
    decreases extents.len(),
{
    if extents.len() == 0 {
        0
    } else {
        asked(extents.drop_last(), size, rest) + amount(extents.last(), size, rest)
    }
}

/// Whether there is room in `size` for all the extents, with at most one of them to
/// take what the others leave.
pub open spec fn fits(extents: Seq<Extent>, size: int) -> bool {
    &&& asked(extents, size, 0) <= 100 * size
    &&& forall|i: int|
        0 <= i < extents.len() ==> ((#[trigger] extents[i]) matches Extent::Min(n) ==> asked(
            extents,
            size,
            100 * n,
        ) <= 100 * size)
    &&& forall|i: int, j: int|
        0 <= i < j < extents.len() ==> !((#[trigger] extents[i]) is Min && (
        #[trigger] extents[j]) is Min)
}

/// How far into `size` the first `i` of the extents reach, to the nearest cell: what
/// the others leave goes to the one with a minimum.
pub open spec fn edge(extents: Seq<Extent>, size: int, i: int) -> int {
    (asked(extents.take(i), size, 100 * size - asked(extents, size, 0)) + 50) / 100
}

/// Whether the extents are lengths, no more than a hundred of them, with at most one
/// minimum among them: of these it can be told what gives way where they do not fit.
pub open spec fn can_give_way(extents: Seq<Extent>) -> bool {
    &&& extents.len() <= 100
    &&& forall|i: int|
        0 <= i < extents.len() ==> match #[trigger] extents[i] {
            Extent::Length(_) => true,
            Extent::Min(n) => n <= 0x7fff,
            Extent::Percentage(_) => false,
        }
    &&& forall|i: int, j: int|
        0 <= i < j < extents.len() ==> !((#[trigger] extents[i]) is Min && (
        #[trigger] extents[j]) is Min)
}

/// Whether `parts` fill `area` from one end to the other, one right after the other,
/// with the minimum met before anything is left for the lengths, and none of these with
/// more than it asks for.
pub open spec fn shared_out(
    parts: Seq<Area>,
    area: Area,
    axis: Axis,
    extents: Seq<Extent>,
) -> bool {
    &&& parts.len() > 0
    &&& begin(parts[0], axis) == begin(area, axis)
    &&& forall|i: int, j: int|
        0 <= i && j == i + 1 && j < parts.len() ==> begin(#[trigger] parts[j], axis) == begin(
            #[trigger] parts[i],
            axis,
        ) + reach(parts[i], axis)
    &&& begin(parts.last(), axis) + reach(parts.last(), axis) == begin(area, axis) + room(
        area,
        axis,
    )
    &&& forall|i: int|
        0 <= i < parts.len() ==> match extents[i] {
            Extent::Min(n) => reach(#[trigger] parts[i], axis) == if n <= room(area, axis) {
                n as int
            } else {
                room(area, axis)
            },
            Extent::Length(n) => reach(parts[i], axis) <= n,
            Extent::Percentage(_) => true,
        }
}

/// Whether `parts` are `area` split along `axis`: one for each extent, in order, each
/// across the whole area and within it. Where the extents fit, they stand one right
/// after the other with the extents they are to get; where lengths and a minimum do
/// not, the whole area is shared out among them.
pub open spec fn is_split(parts: Seq<Area>, area: Area, axis: Axis, extents: Seq<Extent>) -> bool {
    let size = room(area, axis);
    &&& parts.len() == extents.len()
    &&& forall|i: int| 0 <= i < parts.len() ==> spans_across(#[trigger] parts[i], area, axis)
    &&& forall|i: int|
        0 <= i < parts.len() ==> {
            let part = #[trigger] parts[i];
            &&& begin(area, axis) <= begin(part, axis)
            &&& begin(part, axis) + reach(part, axis) <= begin(area, axis) + size
        }
    &&& fits(extents, size) ==> forall|i: int|
        0 <= i < parts.len() ==> {
            let part = #[trigger] parts[i];
            &&& begin(part, axis) == begin(area, axis) + edge(extents, size, i)
            &&& begin(part, axis) + reach(part, axis) == begin(area, axis) + edge(
                extents,
                size,
                i + 1,
            )
        }
    &&& !fits(extents, size) && can_give_way(extents) ==> shared_out(parts, area, axis, extents)
}

/// Splits an area with `ratatui::layout::Layout::split`.
///
/// There is one part for each extent, in order, and each lies across the whole area and
/// within it, as far as cells can be addressed along the split. Where there is room for
/// all the extents, a length gives a part exactly that many cells, a percentage that
/// share of the whole area, and a minimum all that the others leave; the edges are
/// rounded to the nearest cell. Where lengths and a minimum ask for more than there is,
/// they share the whole area without a gap: the minimum goes before the lengths, and is
/// met exactly if it can be, and no length gets more than it asks for. Which of several
/// lengths gives way is left to the solver behind that function, which walks hash maps
/// seeded anew in every process and need not settle on the same one each time, so nothing
/// is said of it; nor of how percentages that ask for too much, or several minimums,
/// share an area.
#[verifier::external_body]
fn split(area: Area, axis: Axis, extents: &Vec<Extent>) -> (r: Vec<Area>)
    ensures
        is_split(r@, area, axis, extents@),
{
    let direction = match axis {
        Axis::Horizontal => Direction::Horizontal,
        Axis::Vertical => Direction::Vertical,
    };
    let constraints = extents.iter().map(|e| match *e {
        Extent::Length(n) => Constraint::Length(n),
        Extent::Min(n) => Constraint::Min(n),
        Extent::Percentage(n) => Constraint::Percentage(n),
    });
    let Area { x, y, width, height } = area;
    let whole = Rect { x, y, width, height };
    let parts = Layout::new(direction, constraints).split(whole);
    parts.iter().map(|p| Area { x: p.x, y: p.y, width: p.width, height: p.height }).collect()
}

/// `a` and `b` together, or the largest that can be told.
pub open spec fn plus(a: u16, b: u16) -> u16 {
    if a + b <= u16::MAX {
        (a + b) as u16
    } else {
        u16::MAX
    }
}

/// `a` without `b`, or nothing.
pub open spec fn minus(a: u16, b: u16) -> u16 {
    if a >= b {
        (a - b) as u16
    } else {
        0
    }
}

/// The area inside a border round `area`.
pub open spec fn inside(area: Area) -> Area {
    Area {
        x: if plus(area.x, 1) <= plus(area.x, area.width) {
            plus(area.x, 1)
        } else {
            plus(area.x, area.width)
        },
        y: if plus(area.y, 1) <= plus(area.y, area.height) {
            plus(area.y, 1)
        } else {
            plus(area.y, area.height)
        },
        width: minus(area.width, 2),
        height: minus(area.height, 2),
    }
}

fn inner(area: Area) -> (r: Area)
    ensures
        r == inside(area),
{
    let right: u16 = area.x.saturating_add(area.width);
    let below: u16 = area.y.saturating_add(area.height);
    let x: u16 = area.x.saturating_add(1);
    let y: u16 = area.y.saturating_add(1);
    Area {
        x: if x <= right {
            x
        } else {
            right
        },
        y: if y <= below {
            y
        } else {
            below
        },
        width: area.width.saturating_sub(2),
        height: area.height.saturating_sub(2),
    }
}

// ---------------------------------------------------------------------------
// Dates
// ---------------------------------------------------------------------------

/// Whether `y` is a leap year.
pub open spec fn is_leap(y: int) -> bool {
    (y % 4 == 0 && y % 100 != 0) || y % 400 == 0
}

/// The days of the year `y`.
pub open spec fn days_in_year(y: int) -> int {
    if is_leap(y) {
        366
    } else {
        365
    }
}

/// The days of the month `m` of the year `y`, where January is 0.
pub open spec fn days_in_month(y: int, m: int) -> int {
    if m == 1 {
        if is_leap(y) {
            29
        } else {
            28
        }
    } else if m == 3 || m == 5 || m == 8 || m == 10 {
        30
    } else {
        31
    }
}

/// The year that the `d`th day after the beginning of the year `y` is in, and how far
/// into that year it is.
pub open spec fn year_from(y: int, d: int) -> (int, int)
    decreases d,
{
    if d < days_in_year(y) {
        (y, d)
    } else {
        year_from(y + 1, d - days_in_year(y))
    }
}

/// The month that the `d`th day after the beginning of the month `m` of the year `y` is
/// in, and how far into that month it is.
pub open spec fn month_from(y: int, m: int, d: int) -> (int, int)
    decreases 12 - m,
{
    if m >= 12 || d < days_in_month(y, m) {
        (m, d)
    } else {
        month_from(y, m + 1, d - days_in_month(y, m))
    }
}

/// The whole days in `ts` seconds, towards zero.
pub open spec fn whole_days(ts: int) -> int {
    if ts >= 0 {
        ts / 86_400
    } else {
        -((-ts) / 86_400)
    }
}

/// A number with at least two characters, as dates have it.
pub open spec fn two_digits(n: int) -> Seq<char> {
    if n >= 0 {
        text::zeros(text::dec(n as nat), 2)
    } else {
        "-"@ + text::dec((-n) as nat)
    }
}

/// The date of `ts` seconds after the beginning of 1970.
pub open spec fn date_text(ts: int) -> Seq<char> {
    let (y, d) = year_from(1970, whole_days(ts));
    let (m, day) = month_from(y, 0, d);
    text::zeros(text::dec(y as nat), 4) + "-"@ + text::zeros(text::dec((m + 1) as nat), 2) + "-"@
        + two_digits(day + 1)
}

fn leap(y: i64) -> (r: bool)
    requires
        y >= 0,
    ensures
        r == is_leap(y as int),
{
    let y: u64 = y as u64;
    (y % 4 == 0 && y % 100 != 0) || y % 400 == 0
}

fn month_length(y: i64, m: i64) -> (r: i64)
    requires
        y >= 0,
    ensures
        r == days_in_month(y as int, m as int),
        28 <= r <= 31,
{
    if m == 1 {
        if leap(y) {
            29
        } else {
            28
        }
    } else if m == 3 || m == 5 || m == 8 || m == 10 {
        30
    } else {
        31
    }
}

/// A unix timestamp as YYYY-MM-DD.
pub fn format_date(ts: i64) -> (r: String)
    ensures
        r@ == date_text(ts as int),
{
    let days: i64 = if ts >= 0 {
        (ts as u64 / 86_400) as i64
    } else {
        let behind: u64 = (-(ts + 1)) as u64 + 1;
        -((behind / 86_400) as i64)
    };
    assert(days == whole_days(ts as int));
    let mut y: i64 = 1970;
    let mut d: i64 = days;
    let mut length: i64 = 365;
    while d >= length
        invariant
            days == whole_days(ts as int),
            -200_000_000_000_000 < days < 200_000_000_000_000,
            -200_000_000_000_000 < d <= days,
            1970 <= y,
            y - 1970 <= days - d || y == 1970,
            length == days_in_year(y as int),
            year_from(1970, days as int) == year_from(y as int, d as int),
        decreases d,
    {
        d = d - length;
        y = y + 1;
        length = if leap(y) {
            366
        } else {
            365
        };
    }
    let ghost into = d;
    let mut m: i64 = 0;
    let mut month: i64 = month_length(y, m);
    while m < 12 && d >= month
        invariant
            0 <= m <= 12,
            y >= 0,
            -200_000_000_000_000 < d <= into,
            month == days_in_month(y as int, m as int),
            28 <= month <= 31,
            month_from(y as int, 0, into as int) == month_from(y as int, m as int, d as int),
        decreases 12 - m,
    {
        d = d - month;
        m = m + 1;
        month = month_length(y, m);
    }
    let day = if d + 1 >= 0 {
        text::zeros_text(text::dec_text((d + 1) as u64).as_str(), 2)
    } else {
        text::cat2("-", text::dec_text((-(d + 1)) as u64).as_str())
    };
    text::cat5(
        text::zeros_text(text::dec_text(y as u64).as_str(), 4).as_str(),
        "-",
        text::zeros_text(text::dec_text((m + 1) as u64).as_str(), 2).as_str(),
        "-",
        day.as_str(),
    )
}

/// The days from the beginning of 1970 to that of the year `y`.
pub open spec fn days_before_year(y: int) -> int
    decreases y - 1970,
{
    if y <= 1970 {
        0
    } else {
        days_before_year(y - 1) + days_in_year(y - 1)
    }
}

/// The days from the beginning of the year `y` to that of its month `m`.
pub open spec fn days_before_month(y: int, m: int) -> int
    decreases m,
{
    if m <= 0 {
        0
    } else {
        days_before_month(y, m - 1) + days_in_month(y, m - 1)
    }
}

proof fn lemma_year_from(y: int, d: int)
    requires
        y >= 1970,
        d >= 0,
    ensures
        year_from(y, d).0 >= y,
        0 <= year_from(y, d).1 < days_in_year(year_from(y, d).0),
        days_before_year(year_from(y, d).0) + year_from(y, d).1 == days_before_year(y) + d,
    decreases d,
{
    if d >= days_in_year(y) {
        lemma_year_from(y + 1, d - days_in_year(y));
    }
}

proof fn lemma_month_from(y: int, m: int, d: int)
    requires
        0 <= m < 12,
        d >= 0,
        days_before_month(y, m) + d < days_in_year(y),
    ensures
        m <= month_from(y, m, d).0 < 12,
        0 <= month_from(y, m, d).1 < days_in_month(y, month_from(y, m, d).0),
        days_before_month(y, month_from(y, m, d).0) + month_from(y, m, d).1 == days_before_month(
            y,
            m,
        ) + d,
    decreases 12 - m,
{
    reveal_with_fuel(days_before_month, 13);
    if d >= days_in_month(y, m) {
        if m == 11 {
            assert(days_before_month(y, 12) == days_in_year(y));
        } else {
            lemma_month_from(y, m + 1, d - days_in_month(y, m));
        }
    }
}

/// From the beginning of 1970 on, a date that is shown is one of the calendar, and the
/// day it names is as many days after the first of January 1970 as the timestamp says.
pub proof fn law_a_date_counts_its_days(ts: int)
    requires
        ts >= 0,
    ensures
        ({
            let (y, d) = year_from(1970, whole_days(ts));
            let (m, day) = month_from(y, 0, d);
            &&& y >= 1970
            &&& 0 <= m < 12
            &&& 0 <= day < days_in_month(y, m)
            &&& days_before_year(y) + days_before_month(y, m) + day == ts / 86_400
        }),
{
    lemma_year_from(1970, whole_days(ts));
    let (y, d) = year_from(1970, whole_days(ts));
    lemma_month_from(y, 0, d);
}

/// How many leap years there are before the year `y`.
pub open spec fn leaps_before(y: int) -> int {
    (y - 1) / 4 - (y - 1) / 100 + (y - 1) / 400
}

/// The days of a common year before its month `m`, which is 1 in January.
pub open spec fn days_before(m: int) -> int {
    seq![0int, 31, 59, 90, 120, 151, 181, 212, 243, 273, 304, 334][m - 1]
}

/// Whether `shown` is the date `y`-`m`-`d` of the calendar, which is `days` days after the
/// first of January 1970.
pub open spec fn is_date(shown: Seq<char>, days: int, y: int, m: int, d: int) -> bool {
    let leap = y % 400 == 0 || (y % 4 == 0 && y % 100 != 0);
    &&& shown == text::zeros(text::dec(y as nat), 4).push('-') + text::zeros(
        text::dec(m as nat),
        2,
    ).push('-') + text::zeros(text::dec(d as nat), 2)
    &&& y >= 1970 && 1 <= m <= 12 && 1 <= d <= 31
    &&& m == 2 ==> d <= 29
    &&& m == 4 || m == 6 || m == 9 || m == 11 ==> d <= 30
    &&& days == 365 * (y - 1970) + (leaps_before(y) - leaps_before(1970)) + days_before(m) + (
    if leap && m > 2 {
        1int
    } else {
        0int
    }) + (d - 1)
}

proof fn lemma_days_before_year(y: int)
    requires
        y >= 1970,
    ensures
        days_before_year(y) == 365 * (y - 1970) + (leaps_before(y) - leaps_before(1970)),
    decreases y,
{
    if y > 1970 {
        lemma_days_before_year(y - 1);
    }
}

/// A date is the day of the calendar that is as many days after the first of January 1970
/// as the timestamp says.
pub proof fn law_a_date_is_that_of_the_calendar(ts: int)
    requires
        ts >= 0,
    ensures
        exists|y: int, m: int, d: int| #[trigger] is_date(date_text(ts), ts / 86_400, y, m, d),
{
    law_a_date_counts_its_days(ts);
    let (y, d) = year_from(1970, whole_days(ts));
    let (m, day) = month_from(y, 0, d);
    lemma_days_before_year(y);
    reveal_with_fuel(days_before_month, 13);
    reveal_strlit("-");
    assert(date_text(ts) =~= text::zeros(text::dec(y as nat), 4).push('-') + text::zeros(
        text::dec((m + 1) as nat),
        2,
    ).push('-') + text::zeros(text::dec((day + 1) as nat), 2));
    assert(is_date(date_text(ts), ts / 86_400, y, m + 1, day + 1));
}

// ---------------------------------------------------------------------------
// Diffs
// ---------------------------------------------------------------------------

/// Whether `c` ends an escape sequence.
pub open spec fn is_final(c: char) -> bool {
    '\u{40}' <= c <= '\u{7e}'
}

/// Where an escape sequence ends whose parameters begin at `i`.
pub open spec fn escape_end(s: Seq<char>, i: int) -> int
    decreases s.len() - i,
{
    if i >= s.len() {
        s.len() as int
    } else if i >= 0 && is_final(s[i]) {
        i + 1
    } else {
        escape_end(s, i + 1)
    }
}

/// Where the escape sequence ends that begins at `i`.
pub open spec fn past_escape(s: Seq<char>, i: int) -> int {
    if i + 1 < s.len() && s[i + 1] == '[' {
        escape_end(s, i + 2)
    } else {
        escape_end(s, i + 1)
    }
}

/// An escape sequence ends behind where it begins, and within the text.
pub proof fn lemma_escape_end(s: Seq<char>, i: int)
    requires
        0 <= i,
    ensures
        i <= s.len() ==> i <= escape_end(s, i) <= s.len(),
        i >= s.len() ==> escape_end(s, i) == s.len(),
        i < s.len() ==> i < escape_end(s, i),
    decreases s.len() - i,
{
    if i < s.len() && !is_final(s[i]) {
        lemma_escape_end(s, i + 1);
    }
}

/// What is left of `s` from `i` on without its escape sequences.
pub open spec fn unescaped(s: Seq<char>, i: int) -> Seq<char>
    decreases s.len() - i,
{
    if i < 0 || i >= s.len() {
        Seq::empty()
    } else if s[i] == '\u{1b}' {
        proof {
            lemma_escape_end(s, i + 1);
            lemma_escape_end(s, i + 2);
        }
        unescaped(s, past_escape(s, i))
    } else {
        seq![s[i]] + unescaped(s, i + 1)
    }
}

/// `s` without its escape sequences, which would otherwise be drawn literally.
///
/// The configured differ decides whether to colour its output, and `delta` does so
/// heavily; stripping here and colouring again from the diff marker means every differ
/// looks the same on screen, including one that emits none.
pub fn strip_ansi(s: &str) -> (r: String)
    ensures
        r@ == unescaped(s@, 0),
{
    let chars = text::to_chars(s);
    let mut out = String::new();
    let mut i: usize = 0;
    while i < chars.len()
        invariant
            i <= chars.len(),
            chars@ == s@,
            unescaped(s@, 0) == out@ + unescaped(s@, i as int),
        decreases chars.len() - i,
    {
        if chars[i] == '\u{1b}' {
            let ghost begin = i as int;
            i += 1;
            // The introducer is itself in the range that ends a sequence, so it is
            // skipped before the end is looked for.
            if i < chars.len() && chars[i] == '[' {
                i += 1;
            }
            let ghost params = i as int;
            proof {
                lemma_escape_end(s@, params);
            }
            while i < chars.len() && !('\u{40}' <= chars[i] && chars[i] <= '\u{7e}')
                invariant
                    i <= chars.len(),
                    chars@ == s@,
                    escape_end(s@, params) == escape_end(s@, i as int),
                decreases chars.len() - i,
            {
                i += 1;
            }
            if i < chars.len() {
                i += 1;
            }
            assert(i == past_escape(s@, begin));
        } else {
            let ghost before = out@;
            let c = chars[i];
            out.push(c);
            assert(out@ + unescaped(s@, i + 1) == before + (seq![c] + unescaped(s@, i + 1)));
            i += 1;
        }
    }
    assert(out@ + unescaped(s@, i as int) == out@);
    out
}

proof fn lemma_unescaped(s: Seq<char>, i: int)
    requires
        0 <= i <= s.len(),
    ensures
        !unescaped(s, i).contains('\u{1b}'),
        (forall|k: int| i <= k < s.len() ==> s[k] != '\u{1b}') ==> unescaped(s, i) == s.skip(i),
    decreases s.len() - i,
{
    if i < s.len() {
        if s[i] == '\u{1b}' {
            let j = past_escape(s, i);
            lemma_escape_end(s, i + 1);
            lemma_escape_end(s, i + 2);
            lemma_unescaped(s, j);
        } else {
            let rest = unescaped(s, i + 1);
            lemma_unescaped(s, i + 1);
            let all = seq![s[i]] + rest;
            assert forall|k: int| 0 <= k < all.len() implies all[k] != '\u{1b}' by {
                if k > 0 {
                    assert(all[k] == rest[k - 1]);
                    assert(rest.contains(rest[k - 1]));
                }
            }
            if forall|k: int| i <= k < s.len() ==> s[k] != '\u{1b}' {
                assert(all == s.skip(i));
            }
        }
    } else {
        assert(s.skip(i) == Seq::<char>::empty());
    }
}

/// No escape character is left, and a text without any comes through unchanged.
pub proof fn law_stripping_leaves_plain_text(s: Seq<char>)
    ensures
        !unescaped(s, 0).contains('\u{1b}'),
        !s.contains('\u{1b}') ==> unescaped(s, 0) == s,
{
    lemma_unescaped(s, 0);
    assert(s.skip(0) == s);
}

/// The style of a line of a diff, by its marker.
pub open spec fn marker_style(text: Seq<char>) -> Style {
    let lead = text::trim_start(text);
    if text::begins(text, "+++"@) || text::begins(text, "---"@) {
        Style::new().fg(Color::DarkGray)
    } else if lead.len() > 0 && lead[0] == '@' {
        Style::new().fg(Color::Cyan)
    } else if lead.len() > 0 && lead[0] == '+' {
        Style::new().fg(Color::Green)
    } else if lead.len() > 0 && lead[0] == '-' {
        Style::new().fg(Color::Red)
    } else {
        Style::new().fg(Color::Gray)
    }
}

/// A line of a diff as it is shown.
pub open spec fn diff_line_view(raw: Seq<char>) -> Seq<SpanView> {
    one("    "@ + unescaped(raw, 0), marker_style(unescaped(raw, 0)))
}

/// A line of a diff, coloured by its marker, without the escape sequences the differ
/// emitted.
pub fn diff_line(raw: &str) -> (r: Line)
    ensures
        r@ == diff_line_view(raw@),
{
    let text = strip_ansi(raw);
    let chars = text::to_chars(text.as_str());
    let k = text::trimmed_start(&chars);
    assert(chars@.skip(k as int).len() == chars.len() - k);
    let style = if text::begins_with(text.as_str(), "+++") || text::begins_with(
        text.as_str(),
        "---",
    ) {
        Style::new().fg(Color::DarkGray)
    } else if k < chars.len() {
        assert(chars@.skip(k as int)[0] == chars@[k as int]);
        let c = chars[k];
        if c == '@' {
            Style::new().fg(Color::Cyan)
        } else if c == '+' {
            Style::new().fg(Color::Green)
        } else if c == '-' {
            Style::new().fg(Color::Red)
        } else {
            Style::new().fg(Color::Gray)
        }
    } else {
        Style::new().fg(Color::Gray)
    };
    Line::styled(text::cat2("    ", text.as_str()).as_str(), style)
}

// ---------------------------------------------------------------------------
// The header
// ---------------------------------------------------------------------------

/// A byte figure, marked with `+` while sizing is still running.
///
/// Every unmeasured path can only add to the total, so a figure shown mid-scan is a
/// lower bound. The marker is what keeps it from reading as final.
pub open spec fn provisional(app: App, bytes: u64) -> Seq<char> {
    if app.sizing is Some {
        store::bytes_text(bytes) + "+"@
    } else {
        store::bytes_text(bytes)
    }
}

fn provisional_bytes(app: &App, bytes: u64) -> (r: String)
    ensures
        r@ == provisional(*app, bytes),
{
    let mut r = store::human_bytes(bytes);
    if app.sizes_provisional() {
        r.append("+");
    }
    r
}

/// The size of a row, or a placeholder while that path is still being walked.
///
/// An unmeasured path holds no bytes as far as the row is concerned, and showing that
/// as `0 B` would claim an empty store path, indistinguishable from a real one.
pub open spec fn size_shown(app: App, row: RootRowView) -> Seq<char> {
    if app.has_size(row.store_path) {
        store::bytes_text(row.size_bytes)
    } else {
        "—"@
    }
}

fn row_size(app: &App, row: &RootRow) -> (r: String)
    ensures
        r@ == size_shown(*app, row@),
{
    if app.is_measured(row.store_path.as_str()) {
        store::human_bytes(row.size_bytes)
    } else {
        "—".to_owned()
    }
}

/// The sizing count, next to the figures it qualifies.
///
/// Spelled out so that the `+` marker has a visible explanation.
pub open spec fn sizing_note(app: App) -> Option<SpanView> {
    match app.sizing {
        Some(s) => Some(
            span(
                "sizing "@ + text::dec(s.done as nat) + "/"@ + text::dec(s.total as nat),
                Style::new().fg(Color::DarkGray),
            ),
        ),
        None => None,
    }
}

fn sizing_text(app: &App) -> (r: Option<String>)
    ensures
        match r {
            Some(t) => sizing_note(*app) == Some(span(t@, Style::new().fg(Color::DarkGray))),
            None => sizing_note(*app) is None,
        },
{
    match &app.sizing {
        Some(s) => Some(
            text::cat4(
                "sizing ",
                text::count_text(s.done).as_str(),
                "/",
                text::count_text(s.total).as_str(),
            ),
        ),
        None => None,
    }
}

/// The project scope, and what it is excluding.
pub open spec fn scope(app: App) -> SpanView {
    if app.rooted_only {
        span(
            text::dec(app.rooted_among()) + " rooted projects (g: +"@ + text::dec(
                (app.all_projects().len() - app.rooted_among()) as nat,
            ) + " unrooted)"@,
            Style::new().fg(Color::Blue),
        )
    } else {
        span(
            "all "@ + text::dec(app.all_projects().len()) + " projects (g: rooted only)"@,
            Style::new().fg(Color::Blue).bold(),
        )
    }
}

fn add_scope(line: &mut Line, app: &App)
    ensures
        final(line)@ == old(line)@.push(scope(*app)),
{
    let (shown, hidden) = app.project_scope();
    if app.rooted_only {
        line.add_styled(
            text::cat4(
                text::count_text(shown).as_str(),
                " rooted projects (g: +",
                text::count_text(hidden).as_str(),
                " unrooted)",
            ).as_str(),
            Style::new().fg(Color::Blue),
        );
    } else {
        line.add_styled(
            text::cat3("all ", text::count_text(shown).as_str(), " projects (g: rooted only)").as_str(),
            Style::new().fg(Color::Blue).bold(),
        );
    }
}

/// What stands between two items of a header.
pub open spec fn gap() -> SpanView {
    span("  "@, Style::new())
}

/// The name at the beginning of every header.
pub open spec fn brand() -> SpanView {
    span("flake-syncer"@, Style::new().bold().fg(Color::Cyan))
}

/// The header while a plan runs, `nanos` after it began.
pub open spec fn running_header(r: Running, nanos: nat) -> Seq<SpanView> {
    seq![
        brand(),
        gap(),
        span("applying plan"@, Style::new().fg(Color::Yellow).bold()),
        gap(),
        span(
            text::dec(r.done as nat) + "/"@ + text::dec(r.total as nat) + " step(s)"@,
            Style::new(),
        ),
        gap(),
        span(progress::duration_text(nanos), Style::new().fg(Color::DarkGray)),
    ]
}

/// The header of the roots view.
pub open spec fn roots_header(app: App) -> Seq<SpanView> {
    let rows = app.root_rows_view();
    let line = seq![
        brand(),
        gap(),
        span("gc roots"@, Style::new().fg(Color::Yellow).bold()),
        gap(),
        span(text::dec(rows.len()) + " path(s)"@, Style::new()),
        gap(),
        span(
            provisional(app, store::capped(app::total_bytes(rows))) + " held"@,
            Style::new().fg(Color::DarkGray),
        ),
        gap(),
        span(
            text::dec(report::droppable(rows).len()) + " droppable"@,
            Style::new().fg(Color::Green),
        ),
    ];
    match sizing_note(app) {
        Some(note) => line.push(gap()).push(note),
        None => line,
    }
}

/// The header of the other screens.
///
/// The sizing count stands directly after the figure it qualifies, so that a narrow
/// header truncates the scope, which explains itself, rather than the text explaining
/// `+`. Unreadable lockfiles are surfaced rather than silently dropped: they make the
/// divergence counts an undercount.
pub open spec fn browse_header(app: App) -> Seq<SpanView> {
    let l = app.listing();
    let values = app.roots.values_view();
    let begin = seq![
        brand(),
        gap(),
        span(text::dec(app.groups@.len()) + " groups"@, Style::new()),
        gap(),
        span(
            text::dec(l.visible().filter(|gi: usize| l.diverges_at(gi)).len()) + " divergent"@,
            Style::new().fg(Color::Yellow),
        ),
        gap(),
        span(text::dec(app.targets@.dom().len()) + " selected"@, Style::new().fg(Color::Magenta)),
        gap(),
        span(
            "~"@ + provisional(app, store::capped(store::freed_bytes(values, app.moving())))
                + " reclaimable ("@ + text::dec(store::freed_count(values, app.moving()))
                + " paths)"@,
            Style::new().fg(Color::Green),
        ),
        gap(),
    ];
    let sized = match sizing_note(app) {
        Some(note) => begin.push(note).push(gap()),
        None => begin,
    };
    let scoped = sized.push(scope(app));
    if app.parse_errors@.len() == 0 {
        scoped
    } else {
        scoped.push(gap()).push(
            span(
                text::dec(app.parse_errors@.len()) + " unreadable"@,
                Style::new().fg(Color::Red),
            ),
        )
    }
}

/// The header, `nanos` after the plan that runs began.
pub open spec fn header_view(app: App, nanos: nat) -> Seq<SpanView> {
    if app.mode == Mode::Running && app.running is Some {
        running_header(app.running->0, nanos)
    } else if app.mode == Mode::Roots {
        roots_header(app)
    } else {
        browse_header(app)
    }
}

fn begin_header() -> (r: Line)
    ensures
        r@ == seq![brand(), gap()],
{
    let mut r = Line::new();
    r.add_styled("flake-syncer", Style::new().bold().fg(Color::Cyan));
    r.add_raw("  ");
    r
}

fn draw_roots_header(app: &App) -> (r: Line)
    ensures
        r@ == roots_header(*app),
{
    let rows = app.root_rows();
    let (freeable, _) = report::count_droppable(&rows);
    assert(store::row_views(rows@).len() == rows.len());
    let mut line = begin_header();
    line.add_styled("gc roots", Style::new().fg(Color::Yellow).bold());
    line.add_raw("  ");
    line.add_raw(text::cat2(text::count_text(rows.len()).as_str(), " path(s)").as_str());
    line.add_raw("  ");
    line.add_styled(
        text::cat2(provisional_bytes(app, app.roots_total_bytes()).as_str(), " held").as_str(),
        Style::new().fg(Color::DarkGray),
    );
    line.add_raw("  ");
    line.add_styled(
        text::cat2(text::count_text(freeable).as_str(), " droppable").as_str(),
        Style::new().fg(Color::Green),
    );
    // Nothing here outranks the sizing count, so it goes on the end.
    if let Some(note) = sizing_text(app) {
        line.add_raw("  ");
        line.add_styled(note.as_str(), Style::new().fg(Color::DarkGray));
    }
    line
}

fn draw_browse_header(app: &App) -> (r: Line)
    ensures
        r@ == browse_header(*app),
{
    let (bytes, paths) = app.estimated_savings();
    let mut line = begin_header();
    line.add_raw(text::cat2(text::count_text(app.groups.len()).as_str(), " groups").as_str());
    line.add_raw("  ");
    line.add_styled(
        text::cat2(text::count_text(app.divergent_count()).as_str(), " divergent").as_str(),
        Style::new().fg(Color::Yellow),
    );
    line.add_raw("  ");
    line.add_styled(
        text::cat2(text::count_text(app.targets.len()).as_str(), " selected").as_str(),
        Style::new().fg(Color::Magenta),
    );
    line.add_raw("  ");
    line.add_styled(
        text::cat5(
            "~",
            provisional_bytes(app, bytes).as_str(),
            " reclaimable (",
            text::count_text(paths).as_str(),
            " paths)",
        ).as_str(),
        Style::new().fg(Color::Green),
    );
    line.add_raw("  ");
    if let Some(note) = sizing_text(app) {
        line.add_styled(note.as_str(), Style::new().fg(Color::DarkGray));
        line.add_raw("  ");
    }
    add_scope(&mut line, app);
    if app.parse_errors.len() > 0 {
        line.add_raw("  ");
        line.add_styled(
            text::cat2(text::count_text(app.parse_errors.len()).as_str(), " unreadable").as_str(),
            Style::new().fg(Color::Red),
        );
    }
    line
}

/// The header, `elapsed` after the plan that runs began.
///
/// While a plan runs, the counts of the browse screen describe a state the user has
/// already left, and the roots view is about store paths, not input groups.
pub fn draw_header(app: &App, elapsed: &TimeSpan) -> (r: Line)
    ensures
        r@ == header_view(*app, elapsed@),
{
    if app.mode == Mode::Running {
        if let Some(r) = &app.running {
            let mut line = begin_header();
            line.add_styled("applying plan", Style::new().fg(Color::Yellow).bold());
            line.add_raw("  ");
            line.add_raw(
                text::cat4(
                    text::count_text(r.done).as_str(),
                    "/",
                    text::count_text(r.total).as_str(),
                    " step(s)",
                ).as_str(),
            );
            line.add_raw("  ");
            line.add_styled(
                progress::human_duration(elapsed).as_str(),
                Style::new().fg(Color::DarkGray),
            );
            return line;
        }
    }
    if app.mode == Mode::Roots {
        draw_roots_header(app)
    } else {
        draw_browse_header(app)
    }
}

// ---------------------------------------------------------------------------
// The footer
// ---------------------------------------------------------------------------

/// The keys of the screen. A toggle is named by what it would switch *to*.
pub open spec fn legend(app: App) -> Seq<char> {
    match app.mode {
        Mode::Browse =>
            "↑↓ move  Tab pane  Enter pick  x exclude  A/N all/none  m mark  M merge  e edit  r roots  a "@
            + (if app.show_all {
            "divergent only"@
        } else {
            "show all"@
        }) + "  g "@ + (if app.rooted_only {
            "+unrooted"@
        } else {
            "rooted only"@
        }) + "  s stage  q quit"@,
        Mode::Confirm => "Enter run  Esc cancel  ↑↓ scroll  e edit  q quit"@,
        Mode::Running => "running — please wait"@,
        Mode::Report => "r roots  q quit"@,
        Mode::Roots => "↑↓ move  f "@ + (if app.roots_freeable_only {
            "show all"@
        } else {
            "droppable only"@
        }) + "  p "@ + (if app.roots_hide_process {
            "+process"@
        } else {
            "hide process"@
        }) + "  Esc back  q quit"@,
    }
}

/// The footer: the keys, and the status. While a plan runs the status is stale, and
/// would sit next to the progress bar as if it described it.
pub open spec fn footer_view(app: App) -> Seq<SpanView> {
    let keys = seq![span(legend(app), Style::new().fg(Color::DarkGray))];
    if app.status@.len() > 0 && app.mode != Mode::Running {
        keys.push(span("   "@, Style::new())).push(
            span(app.status@, Style::new().fg(Color::Cyan)),
        )
    } else {
        keys
    }
}

fn legend_text(app: &App) -> (r: String)
    ensures
        r@ == legend(*app),
{
    match app.mode {
        Mode::Browse => text::cat5(
            "↑↓ move  Tab pane  Enter pick  x exclude  A/N all/none  m mark  M merge  e edit  r roots  a ",
            if app.show_all {
                "divergent only"
            } else {
                "show all"
            },
            "  g ",
            if app.rooted_only {
                "+unrooted"
            } else {
                "rooted only"
            },
            "  s stage  q quit",
        ),
        Mode::Confirm => "Enter run  Esc cancel  ↑↓ scroll  e edit  q quit".to_owned(),
        Mode::Running => "running — please wait".to_owned(),
        Mode::Report => "r roots  q quit".to_owned(),
        Mode::Roots => text::cat5(
            "↑↓ move  f ",
            if app.roots_freeable_only {
                "show all"
            } else {
                "droppable only"
            },
            "  p ",
            if app.roots_hide_process {
                "+process"
            } else {
                "hide process"
            },
            "  Esc back  q quit",
        ),
    }
}

/// The footer.
pub fn draw_footer(app: &App) -> (r: Line)
    ensures
        r@ == footer_view(*app),
{
    let mut line = Line::styled(legend_text(app).as_str(), Style::new().fg(Color::DarkGray));
    let status = app.status.as_str();
    if !status.is_empty() && app.mode != Mode::Running {
        line.add_raw("   ");
        line.add_styled(status, Style::new().fg(Color::Cyan));
    }
    line
}

// ---------------------------------------------------------------------------
// Browsing: the inputs and their versions
// ---------------------------------------------------------------------------

/// The name of a group in the list. A merged group stands for several refs, and says
/// how many.
pub open spec fn group_label(app: App, gi: usize) -> Seq<char> {
    let own = match app.listing().identity_at(gi) {
        Some(id) => id@.shown(),
        None => Seq::empty(),
    };
    if app.merges@.contains_key(gi) {
        own + "  +"@ + text::dec((app.merges@[gi].members@.len() - 1) as nat) + " merged"@
    } else {
        own
    }
}

/// The marker of a group in the list: being assembled into a merge, or ready to be
/// planned, or neither.
pub open spec fn group_marker(app: App, gi: usize) -> SpanView {
    if app.merge_marks@.contains(gi) {
        span("◆ "@, Style::new().fg(Color::Magenta).bold())
    } else if app.chosen().contains_key(gi) {
        span("● "@, Style::new())
    } else {
        span("  "@, Style::new())
    }
}

/// One group in the list.
pub open spec fn group_line(app: App, gi: usize) -> Seq<SpanView> {
    let l = app.listing();
    seq![
        group_marker(app, gi),
        span(
            text::left(group_label(app, gi), 40),
            if l.diverges_at(gi) {
                Style::new().fg(Color::Yellow)
            } else {
                Style::new().fg(Color::DarkGray)
            },
        ),
        span(
            text::dec(l.revs_at(gi)) + " revs / "@ + text::dec(l.acting_at(gi).len()) + " pins"@,
            Style::new(),
        ),
    ]
}

/// The list of groups.
pub open spec fn group_lines(app: App) -> Seq<Seq<SpanView>> {
    app.listing().visible().map_values(|gi: usize| group_line(app, gi))
}

fn draw_group(app: &App, gi: usize) -> (r: Line)
    requires
        app.merges_ok(),
    ensures
        r@ == group_line(*app, gi),
{
    let mut line = Line::new();
    if app.merge_marks.contains(&gi) {
        line.add_styled("◆ ", Style::new().fg(Color::Magenta).bold());
    } else if app.target_for(gi).is_some() {
        line.add_raw("● ");
    } else {
        line.add_raw("  ");
    }
    let mut label = match app.identity_of(gi) {
        Some(id) => id.to_text(),
        None => String::new(),
    };
    match app.merges.get(&gi) {
        Some(m) => {
            assert(app.merge_ok(gi, *m));
            label.append("  +");
            label.append(text::count_text(m.members.len() - 1).as_str());
            label.append(" merged");
        },
        None => {},
    }
    assert(label@ == group_label(*app, gi));
    let style = if app.is_divergent_at(gi) {
        Style::new().fg(Color::Yellow)
    } else {
        Style::new().fg(Color::DarkGray)
    };
    line.add_styled(text::left_text(label.as_str(), 40).as_str(), style);
    let pins = app.actionable_at(gi);
    assert(pins@.unref().len() == pins@.len());
    line.add_raw(
        text::cat4(
            text::count_text(app.distinct_versions_at(gi)).as_str(),
            " revs / ",
            text::count_text(pins.len()).as_str(),
            " pins",
        ).as_str(),
    );
    line
}

/// The list of groups.
pub fn draw_groups(app: &App) -> (r: Vec<Line>)
    requires
        app.merges_ok(),
    ensures
        line_views(r@) == group_lines(*app),
{
    let visible = app.visible();
    let ghost want = group_lines(*app);
    let mut lines: Vec<Line> = Vec::new();
    let mut i: usize = 0;
    assert(line_views(lines@) == want.take(0));
    while i < visible.len()
        invariant
            i <= visible.len(),
            app.merges_ok(),
            visible@ == app.listing().visible(),
            want == group_lines(*app),
            line_views(lines@) == want.take(i as int),
        decreases visible.len() - i,
    {
        add_line(&mut lines, draw_group(app, visible[i]));
        assert(want.take(i + 1) == want.take(i as int).push(want[i as int]));
        i += 1;
    }
    assert(want.take(i as int) == want);
    lines
}

/// The version chosen for the group under the cursor, or nothing.
pub open spec fn target_shown(app: App) -> Seq<char> {
    match app.selected() {
        Some(gi) => if app.chosen().contains_key(gi) {
            app.chosen()[gi]
        } else {
            Seq::empty()
        },
        None => Seq::empty(),
    }
}

/// The version suggested for the group under the cursor, or nothing.
pub open spec fn suggestion_shown(app: App) -> Seq<char> {
    match app.selected() {
        Some(gi) => match app.listing().suggestion(gi) {
            Some(v) => v,
            None => Seq::empty(),
        },
        None => Seq::empty(),
    }
}

/// A time as a date, or `unknown`.
pub open spec fn when(time: Option<i64>, unknown: Seq<char>) -> Seq<char> {
    match time {
        Some(t) => date_text(t as int),
        None => unknown,
    }
}

fn when_text(time: Option<i64>, unknown: &str) -> (r: String)
    ensures
        r@ == when(time, unknown@),
{
    match time {
        Some(t) => format_date(t),
        None => unknown.to_owned(),
    }
}

/// One version in the list, where the project names get `width` columns.
///
/// With nothing selected by default, the recommendation still has to be visible:
/// otherwise every group looks equally arbitrary.
pub open spec fn version_line(
    row: VersionRowView,
    target: Seq<char>,
    suggested: Seq<char>,
    width: int,
) -> Seq<SpanView> {
    seq![
        if row.version == target {
            span("→ "@, Style::new().fg(Color::Green).bold())
        } else if row.version == suggested {
            span("· "@, Style::new().fg(Color::DarkGray))
        } else {
            span("  "@, Style::new())
        },
        span(text::left(app::shortened(row.version), 14), Style::new().fg(Color::White)),
        span(text::left(when(row.last_modified, "?"@), 12), Style::new().fg(Color::DarkGray)),
        span(text::right(text::dec(row.pins.len()), 4) + " "@, Style::new().fg(Color::Cyan)),
        span(app::fitted(app::names_in(row.pins), width), Style::new()),
    ]
}

/// The columns of the version list that are not project names: the marker, the
/// revision, the date and the count.
pub const FIXED: usize = 33;

/// What is left of `width` columns for the project names.
pub open spec fn names_width(width: u16) -> int {
    if width as int >= FIXED {
        width as int - FIXED
    } else {
        0
    }
}

/// The list of versions, in a pane that is `width` columns wide inside.
pub open spec fn version_lines(app: App, width: u16) -> Seq<Seq<SpanView>> {
    app.rows_view().map_values(
        |row: VersionRowView|
            version_line(row, target_shown(app), suggestion_shown(app), names_width(width)),
    )
}

fn draw_version(row: &VersionRow, target: &str, suggested: &str, width: usize) -> (r: Line)
    ensures
        r@ == version_line(row@, target@, suggested@, width as int),
{
    let mut line = Line::new();
    if text::same(row.version.as_str(), target) {
        line.add_styled("→ ", Style::new().fg(Color::Green).bold());
    } else if text::same(row.version.as_str(), suggested) {
        line.add_styled("· ", Style::new().fg(Color::DarkGray));
    } else {
        line.add_raw("  ");
    }
    line.add_styled(
        text::left_text(app::short(row.version.as_str()).as_str(), 14).as_str(),
        Style::new().fg(Color::White),
    );
    line.add_styled(
        text::left_text(when_text(row.last_modified, "?").as_str(), 12).as_str(),
        Style::new().fg(Color::DarkGray),
    );
    line.add_styled(
        text::cat2(
            text::right_text(text::count_text(row.count()).as_str(), 4).as_str(),
            " ",
        ).as_str(),
        Style::new().fg(Color::Cyan),
    );
    line.add_raw(app::fit_names(&row.project_names(), width).as_str());
    line
}

/// The list of versions, in a pane that is `width` columns wide inside.
pub fn draw_versions(app: &App, width: u16) -> (r: Vec<Line>)
    ensures
        line_views(r@) == version_lines(*app, width),
{
    let gi = app.selected_index();
    let mut target = "";
    let mut suggested = "";
    proof {
        reveal_strlit("");
        assert(""@ =~= Seq::<char>::empty());
    }
    if let Some(gi) = gi {
        if let Some(v) = app.target_for(gi) {
            target = v;
        }
        if let Some(v) = app.suggested_target(gi) {
            suggested = v;
        }
    }
    let room: usize = (width as usize).saturating_sub(FIXED);
    let rows = app.version_rows();
    let ghost views = app.rows_view();
    let ghost want = version_lines(*app, width);
    let mut lines: Vec<Line> = Vec::new();
    let mut i: usize = 0;
    assert(line_views(lines@) == want.take(0));
    assert(views.len() == rows.len());
    while i < rows.len()
        invariant
            i <= rows.len(),
            rows.len() == views.len(),
            views == app::version_row_views(rows@),
            views == app.rows_view(),
            target@ == target_shown(*app),
            suggested@ == suggestion_shown(*app),
            room == names_width(width),
            want == version_lines(*app, width),
            line_views(lines@) == want.take(i as int),
        decreases rows.len() - i,
    {
        assert(views[i as int] == rows@[i as int]@);
        add_line(&mut lines, draw_version(&rows[i], target, suggested, room));
        assert(want.take(i + 1) == want.take(i as int).push(want[i as int]));
        i += 1;
    }
    assert(want.take(i as int) == want);
    lines
}

// ---------------------------------------------------------------------------
// Details of the version under the cursor
// ---------------------------------------------------------------------------

/// The grey of what only annotates.
pub open spec fn faint() -> Style {
    Style::new().fg(Color::DarkGray)
}

/// One pin: the full path, and the input name, since one project can pin an identity
/// twice under different attribute names.
pub open spec fn pin_line(pin: Pin) -> Seq<SpanView> {
    seq![
        span("  • "@, faint()),
        span(pin.project@, Style::new()),
        span("  ["@ + pin.input_name@ + "]"@, faint()),
    ]
}

/// The heading of the details.
pub open spec fn detail_heading(app: App, gi: usize, row: VersionRowView) -> Seq<Seq<SpanView>> {
    seq![
        seq![
            span(
                match app.listing().identity_at(gi) {
                    Some(id) => id@.shown(),
                    None => app.groups@[gi as int].identity@.shown(),
                },
                Style::new().bold().fg(Color::Yellow),
            ),
            gap(),
            span(row.version, Style::new().fg(Color::White)),
        ],
        seq![
            span("locked "@, faint()),
            span(when(row.last_modified, "unknown"@), Style::new()),
            span("   pinned by "@, faint()),
            span(text::dec(row.pins.len()) + " input(s)"@, Style::new().fg(Color::Cyan)),
            span(
                " in "@ + text::dec(app::names_in(row.pins).len()) + " project(s)"@,
                Style::new().fg(Color::Cyan),
            ),
        ],
        Seq::empty(),
    ]
}

/// One member of a merge.
pub open spec fn member_line(app: App, m: Merge, mi: usize) -> Seq<SpanView> {
    let id = app.groups@[mi as int].identity@;
    one(
        "  • "@ + id.shown() + "  ("@ + (if id == m.canonical@ {
            "canonical"@
        } else {
            "will be rewritten"@
        }) + ")"@,
        faint(),
    )
}

/// What is said of a merge: which refs were folded in, and which projects will have
/// `flake.nix` rewritten.
pub open spec fn merge_section(app: App, gi: usize) -> Seq<Seq<SpanView>> {
    let m = app.merges@[gi];
    let changes = app::off_ref(app.listing(), m.members@, m.canonical@);
    seq![
        Seq::empty(),
        one(
            "merged onto "@ + m.canonical@.shown() + " — declared by:"@,
            Style::new().fg(Color::Magenta).bold(),
        ),
    ] + m.members@.map_values(|mi: usize| member_line(app, m, mi)) + if changes.len() > 0 {
        seq![
            one(
                "  "@ + text::dec(changes.len())
                    + " project(s) will have flake.nix rewritten to "@ + m.canonical@.url_text(),
                Style::new().fg(Color::Magenta),
            ),
        ]
    } else {
        Seq::empty()
    }
}

/// What is said of the refs a group could be merged with. Merging is opt-in, so the
/// opportunity has to be visible to exist.
pub open spec fn candidate_section(app: App, gi: usize) -> Seq<Seq<SpanView>> {
    let candidates = app.listing().candidates_below(gi, app.groups@.len() as int);
    if candidates.len() == 0 {
        Seq::empty()
    } else {
        seq![
            Seq::empty(),
            one(
                text::dec(candidates.len()) + " other ref(s) of this repo — m marks, M merges:"@,
                Style::new().fg(Color::Magenta),
            ),
        ] + candidates.map_values(
            |c: usize| one("  • "@ + app.groups@[c as int].identity@.shown(), faint()),
        )
    }
}

/// What is said of the pins that are left out of the plan, rather than letting the pin
/// count look inexplicably low next to the lockfiles on disk.
pub open spec fn left_out_section(app: App, group: Group) -> Seq<Seq<SpanView>> {
    let transitive = group.pins@.filter(|p: Pin| !p.direct).len();
    let unrooted = group.pins@.filter(|p: Pin| p.direct && !app.rooted.has(p.project@)).len();
    (if transitive > 0 {
        seq![
            Seq::empty(),
            one(
                "+"@ + text::dec(transitive)
                    + " transitive pin(s) of this input, not shown — they belong to a dependency's lockfile and cannot be overridden"@,
                faint().italic(),
            ),
        ]
    } else {
        Seq::empty()
    }) + if app.rooted_only && unrooted > 0 {
        seq![
            one(
                "+"@ + text::dec(unrooted)
                    + " pin(s) in projects with no GC root — converging them frees nothing (g to include)"@,
                faint().italic(),
            ),
        ]
    } else {
        Seq::empty()
    }
}

/// The details of the version under the cursor.
pub open spec fn detail_lines(app: App) -> Seq<Seq<SpanView>> {
    match (app.selected(), app.row_view()) {
        (Some(gi), Some(row)) => detail_heading(app, gi, row) + row.pins.map_values(
            |pin: Pin| pin_line(pin),
        ) + (if app.merges@.contains_key(gi) {
            merge_section(app, gi)
        } else {
            candidate_section(app, gi)
        }) + left_out_section(app, app.groups@[gi as int]),
        _ => seq![one("no selection"@, faint())],
    }
}

fn add_pins(lines: &mut Vec<Line>, pins: &Vec<Pin>)
    ensures
        line_views(final(lines)@) == line_views(old(lines)@) + pins@.map_values(
            |pin: Pin| pin_line(pin),
        ),
{
    let ghost before = line_views(lines@);
    let ghost want = pins@.map_values(|pin: Pin| pin_line(pin));
    let mut i: usize = 0;
    assert(want.take(0) == Seq::<Seq<SpanView>>::empty());
    while i < pins.len()
        invariant
            i <= pins.len(),
            want == pins@.map_values(|pin: Pin| pin_line(pin)),
            line_views(lines@) == before + want.take(i as int),
        decreases pins.len() - i,
    {
        let pin = &pins[i];
        let mut line = Line::new();
        line.add_styled("  • ", Style::new().fg(Color::DarkGray));
        line.add_raw(pin.project.as_str());
        line.add_styled(
            text::cat3("  [", pin.input_name.as_str(), "]").as_str(),
            Style::new().fg(Color::DarkGray),
        );
        assert(line@ == pin_line(*pin));
        add_line(lines, line);
        assert(want.take(i + 1) == want.take(i as int).push(want[i as int]));
        i += 1;
    }
    assert(want.take(i as int) == want);
}

fn add_merge(lines: &mut Vec<Line>, app: &App, gi: usize, m: &Merge)
    requires
        app.merges_ok(),
        app.merges@.contains_key(gi),
        app.merges@[gi] == *m,
    ensures
        line_views(final(lines)@) == line_views(old(lines)@) + merge_section(*app, gi),
{
    let ghost before = line_views(lines@);
    add_blank(lines);
    add_styled(
        lines,
        text::cat3("merged onto ", m.canonical.to_text().as_str(), " — declared by:").as_str(),
        Style::new().fg(Color::Magenta).bold(),
    );
    let ghost headed = line_views(lines@);
    let ghost want = m.members@.map_values(|mi: usize| member_line(*app, *m, mi));
    let mut i: usize = 0;
    assert(app.merge_ok(gi, *m));
    assert(want.take(0) == Seq::<Seq<SpanView>>::empty());
    while i < m.members.len()
        invariant
            i <= m.members.len(),
            app.merge_ok(gi, *m),
            want == m.members@.map_values(|mi: usize| member_line(*app, *m, mi)),
            line_views(lines@) == headed + want.take(i as int),
        decreases m.members.len() - i,
    {
        let id = &app.groups[m.members[i]].identity;
        let mark = if id.same(&m.canonical) {
            "canonical"
        } else {
            "will be rewritten"
        };
        add_styled(
            lines,
            text::cat5("  • ", id.to_text().as_str(), "  (", mark, ")").as_str(),
            Style::new().fg(Color::DarkGray),
        );
        assert(want.take(i + 1) == want.take(i as int).push(want[i as int]));
        i += 1;
    }
    assert(want.take(i as int) == want);
    let changes = app.ref_changes(gi);
    let count: usize = changes.len();
    assert(changes@.unref().len() == count);
    if count > 0 {
        add_styled(
            lines,
            text::cat4(
                "  ",
                text::count_text(count).as_str(),
                " project(s) will have flake.nix rewritten to ",
                m.canonical.url().as_str(),
            ).as_str(),
            Style::new().fg(Color::Magenta),
        );
    }
    assert(line_views(lines@) == before + merge_section(*app, gi));
}

fn add_candidates(lines: &mut Vec<Line>, app: &App, gi: usize)
    ensures
        line_views(final(lines)@) == line_views(old(lines)@) + candidate_section(*app, gi),
{
    let ghost before = line_views(lines@);
    let candidates = app.merge_candidates(gi);
    if candidates.len() > 0 {
        add_blank(lines);
        add_styled(
            lines,
            text::cat2(
                text::count_text(candidates.len()).as_str(),
                " other ref(s) of this repo — m marks, M merges:",
            ).as_str(),
            Style::new().fg(Color::Magenta),
        );
        let ghost headed = line_views(lines@);
        let ghost want = candidates@.map_values(
            |c: usize| one("  • "@ + app.groups@[c as int].identity@.shown(), faint()),
        );
        let mut i: usize = 0;
        assert(want.take(0) == Seq::<Seq<SpanView>>::empty());
        while i < candidates.len()
            invariant
                i <= candidates.len(),
                forall|k: int|
                    0 <= k < candidates@.len() ==> (#[trigger] candidates@[k]) < app.groups@.len(),
                want == candidates@.map_values(
                    |c: usize| one("  • "@ + app.groups@[c as int].identity@.shown(), faint()),
                ),
                line_views(lines@) == headed + want.take(i as int),
            decreases candidates.len() - i,
        {
            add_styled(
                lines,
                text::cat2("  • ", app.groups[candidates[i]].identity.to_text().as_str()).as_str(),
                Style::new().fg(Color::DarkGray),
            );
            assert(want.take(i + 1) == want.take(i as int).push(want[i as int]));
            i += 1;
        }
        assert(want.take(i as int) == want);
    }
    assert(line_views(lines@) == before + candidate_section(*app, gi));
}

fn add_left_out(lines: &mut Vec<Line>, app: &App, group: &Group)
    ensures
        line_views(final(lines)@) == line_views(old(lines)@) + left_out_section(*app, *group),
{
    let ghost before = line_views(lines@);
    let transitive = group.transitive_count();
    if transitive > 0 {
        add_blank(lines);
        add_styled(
            lines,
            text::cat3(
                "+",
                text::count_text(transitive).as_str(),
                " transitive pin(s) of this input, not shown — they belong to a dependency's lockfile and cannot be overridden",
            ).as_str(),
            Style::new().fg(Color::DarkGray).italic(),
        );
    }
    let unrooted = app.unrooted_count(group);
    if app.rooted_only && unrooted > 0 {
        add_styled(
            lines,
            text::cat3(
                "+",
                text::count_text(unrooted).as_str(),
                " pin(s) in projects with no GC root — converging them frees nothing (g to include)",
            ).as_str(),
            Style::new().fg(Color::DarkGray).italic(),
        );
    }
    assert(line_views(lines@) == before + left_out_section(*app, *group));
}

/// Details for the highlighted version: the full project list, unabbreviated.
pub fn draw_details(app: &App) -> (r: Vec<Line>)
    requires
        app.merges_ok(),
    ensures
        line_views(r@) == detail_lines(*app),
{
    let mut lines: Vec<Line> = Vec::new();
    assert(line_views(lines@) == Seq::<Seq<SpanView>>::empty());
    let gi = match app.selected_index() {
        Some(gi) => gi,
        None => {
            add_styled(&mut lines, "no selection", Style::new().fg(Color::DarkGray));
            return lines;
        },
    };
    let row = match app.selected_version_row() {
        Some(row) => row,
        None => {
            add_styled(&mut lines, "no selection", Style::new().fg(Color::DarkGray));
            return lines;
        },
    };
    let group = &app.groups[gi];
    let heading = match app.identity_of(gi) {
        Some(id) => id.to_text(),
        None => group.identity.to_text(),
    };
    let mut line = Line::new();
    line.add_styled(heading.as_str(), Style::new().bold().fg(Color::Yellow));
    line.add_raw("  ");
    line.add_styled(row.version.as_str(), Style::new().fg(Color::White));
    add_line(&mut lines, line);
    let names = row.project_names();
    assert(text::texts(names@).len() == names.len());
    let mut line = Line::new();
    line.add_styled("locked ", Style::new().fg(Color::DarkGray));
    line.add_raw(when_text(row.last_modified, "unknown").as_str());
    line.add_styled("   pinned by ", Style::new().fg(Color::DarkGray));
    line.add_styled(
        text::cat2(text::count_text(row.count()).as_str(), " input(s)").as_str(),
        Style::new().fg(Color::Cyan),
    );
    line.add_styled(
        text::cat3(" in ", text::count_text(names.len()).as_str(), " project(s)").as_str(),
        Style::new().fg(Color::Cyan),
    );
    add_line(&mut lines, line);
    add_blank(&mut lines);
    assert(line_views(lines@) =~~= detail_heading(*app, gi, row@));
    add_pins(&mut lines, &row.pins);
    match app.merges.get(&gi) {
        Some(m) => add_merge(&mut lines, app, gi, m),
        None => add_candidates(&mut lines, app, gi),
    }
    add_left_out(&mut lines, app, group);
    lines
}

// ---------------------------------------------------------------------------
// The plan
// ---------------------------------------------------------------------------

/// What is said of a project that cannot be rewritten.
pub open spec fn refused_lines(p: EditPreview) -> Seq<Seq<SpanView>> {
    seq![one("  ! "@ + p.project@, Style::new().fg(Color::Red))] + match p.edit {
        Err(e) => seq![one("      "@ + e@, faint())],
        Ok(_) => Seq::empty(),
    }
}

/// What is said of the projects that cannot be rewritten, in order.
pub open spec fn all_refused(previews: Seq<EditPreview>) -> Seq<Seq<SpanView>>
    decreases previews.len(),
{
    if previews.len() == 0 {
        Seq::empty()
    } else {
        all_refused(previews.drop_last()) + refused_lines(previews.last())
    }
}

/// The part of the plan about projects that cannot be rewritten. They change what the
/// plan will actually accomplish, and the user should see them before approving.
pub open spec fn refused_section(refused: Seq<EditPreview>) -> Seq<Seq<SpanView>> {
    if refused.len() == 0 {
        Seq::empty()
    } else {
        seq![
            Seq::empty(),
            one(
                text::dec(refused.len()) + " project(s) cannot be rewritten automatically:"@,
                Style::new().fg(Color::Red).bold(),
            ),
        ] + all_refused(refused) + seq![
            one(
                "  these are skipped; press e to open the first one in your editor"@,
                faint().italic(),
            ),
        ]
    }
}

/// An edit: where, and the diff.
pub open spec fn edit_lines(p: EditPreview) -> Seq<Seq<SpanView>> {
    seq![
        one("  "@ + p.project@ + " ["@ + p.input_name@ + "]"@, Style::new().fg(Color::Cyan)),
    ] + text::lines(p.rendered@).map_values(|l: Seq<char>| diff_line_view(l))
}

/// The edits of those of `previews` that can be rewritten, in order.
pub open spec fn all_edits(previews: Seq<EditPreview>) -> Seq<Seq<SpanView>>
    decreases previews.len(),
{
    if previews.len() == 0 {
        Seq::empty()
    } else {
        let p = previews.last();
        all_edits(previews.drop_last()) + if p.edit is Ok {
            edit_lines(p)
        } else {
            Seq::empty()
        }
    }
}

/// The part of the plan with every `flake.nix` edit as a real diff.
pub open spec fn edit_section(app: App) -> Seq<Seq<SpanView>> {
    if app.pending_diffs@.len() > app.pending_diffs@.filter(|p: EditPreview| p.edit is Err).len() {
        seq![Seq::empty(), one("flake.nix changes:"@, Style::new().bold())] + all_edits(
            app.pending_diffs@,
        )
    } else {
        Seq::empty()
    }
}

/// The commands of `actions`, in order.
pub open spec fn all_steps(actions: Seq<Action>) -> Seq<Seq<SpanView>>
    decreases actions.len(),
{
    if actions.len() == 0 {
        Seq::empty()
    } else {
        all_steps(actions.drop_last()) + sync::step_lines(actions.last()@).map_values(
            |t: Seq<char>| one("  "@ + t, Style::new().fg(Color::Gray)),
        )
    }
}

/// The plan, in full: every command, and every `flake.nix` edit as a real diff.
pub open spec fn plan_lines(app: App) -> Seq<Seq<SpanView>> {
    let refs = app.pending@.filter(|a: Action| a@.from_identity is Some).len();
    seq![
        seq![
            span(text::dec(app.pending@.len()) + " action(s)"@, Style::new().bold()),
            gap(),
            span(
                text::dec(refs) + " flake.nix rewrite(s)"@,
                if refs > 0 {
                    Style::new().fg(Color::Magenta)
                } else {
                    faint()
                },
            ),
        ],
    ] + refused_section(app.pending_diffs@.filter(|p: EditPreview| p.edit is Err)) + edit_section(
        app,
    ) + seq![Seq::empty(), one("commands:"@, Style::new().bold())] + all_steps(app.pending@)
        + seq![
        Seq::empty(),
        one(
            "Enter = run   Esc = cancel   ↑↓ = scroll   e = edit a skipped flake.nix"@,
            Style::new().fg(Color::Yellow),
        ),
    ]
}

fn count_rewrites(actions: &Vec<Action>) -> (r: usize)
    ensures
        r == actions@.filter(|a: Action| a@.from_identity is Some).len(),
{
    let ghost keep = |a: Action| a@.from_identity is Some;
    let mut n: usize = 0;
    let mut i: usize = 0;
    assert(actions@.take(0).filter(keep).len() == 0) by {
        reveal(Seq::filter);
    }
    while i < actions.len()
        invariant
            n <= i <= actions.len(),
            keep == (|a: Action| a@.from_identity is Some),
            n == actions@.take(i as int).filter(keep).len(),
        decreases actions.len() - i,
    {
        proof {
            reveal(Seq::filter);
            assert(actions@.take(i + 1).drop_last() == actions@.take(i as int));
        }
        if actions[i].changes_ref() {
            n += 1;
        }
        i += 1;
    }
    assert(actions@.take(i as int) == actions@);
    n
}

fn add_refused(lines: &mut Vec<Line>, refused: &Vec<&EditPreview>)
    ensures
        line_views(final(lines)@) == line_views(old(lines)@) + refused_section(refused@.unref()),
{
    let ghost before = line_views(lines@);
    let ghost all = refused@.unref();
    assert(all.len() == refused@.len());
    if refused.len() > 0 {
        add_blank(lines);
        add_styled(
            lines,
            text::cat2(
                text::count_text(refused.len()).as_str(),
                " project(s) cannot be rewritten automatically:",
            ).as_str(),
            Style::new().fg(Color::Red).bold(),
        );
        let ghost headed = line_views(lines@);
        let mut i: usize = 0;
        assert(all_refused(all.take(0)) == Seq::<Seq<SpanView>>::empty());
        while i < refused.len()
            invariant
                i <= refused.len(),
                all == refused@.unref(),
                all.len() == refused@.len(),
                line_views(lines@) == headed + all_refused(all.take(i as int)),
            decreases refused.len() - i,
        {
            let p = refused[i];
            let ghost told = line_views(lines@);
            proof {
                assert(all[i as int] == *p);
                assert(all.take(i + 1).drop_last() == all.take(i as int));
            }
            add_styled(
                lines,
                text::cat2("  ! ", p.project.as_str()).as_str(),
                Style::new().fg(Color::Red),
            );
            if let Err(e) = &p.edit {
                add_styled(
                    lines,
                    text::cat2("      ", e.as_str()).as_str(),
                    Style::new().fg(Color::DarkGray),
                );
            }
            assert(line_views(lines@) == told + refused_lines(*p));
            i += 1;
        }
        assert(all.take(i as int) == all);
        add_styled(
            lines,
            "  these are skipped; press e to open the first one in your editor",
            Style::new().fg(Color::DarkGray).italic(),
        );
    }
    assert(line_views(lines@) == before + refused_section(all));
}

fn add_edit(lines: &mut Vec<Line>, p: &EditPreview)
    ensures
        line_views(final(lines)@) == line_views(old(lines)@) + edit_lines(*p),
{
    let ghost before = line_views(lines@);
    add_styled(
        lines,
        text::cat5("  ", p.project.as_str(), " [", p.input_name.as_str(), "]").as_str(),
        Style::new().fg(Color::Cyan),
    );
    let ghost headed = line_views(lines@);
    let parts = text::lines_of(p.rendered.as_str());
    let ghost texts = text::lines(p.rendered@);
    let ghost want = texts.map_values(|l: Seq<char>| diff_line_view(l));
    let mut i: usize = 0;
    assert(texts.len() == parts.len());
    assert(want.take(0) == Seq::<Seq<SpanView>>::empty());
    while i < parts.len()
        invariant
            i <= parts.len(),
            texts == text::texts(parts@),
            want == texts.map_values(|l: Seq<char>| diff_line_view(l)),
            line_views(lines@) == headed + want.take(i as int),
        decreases parts.len() - i,
    {
        add_line(lines, diff_line(parts[i].as_str()));
        assert(texts[i as int] == parts@[i as int]@);
        assert(want.take(i + 1) == want.take(i as int).push(want[i as int]));
        i += 1;
    }
    assert(want.take(i as int) == want);
    assert(line_views(lines@) == before + edit_lines(*p));
}

fn add_edits(lines: &mut Vec<Line>, previews: &Vec<EditPreview>)
    ensures
        line_views(final(lines)@) == line_views(old(lines)@) + all_edits(previews@),
{
    let ghost before = line_views(lines@);
    let mut i: usize = 0;
    assert(all_edits(previews@.take(0)) == Seq::<Seq<SpanView>>::empty());
    while i < previews.len()
        invariant
            i <= previews.len(),
            line_views(lines@) == before + all_edits(previews@.take(i as int)),
        decreases previews.len() - i,
    {
        assert(previews@.take(i + 1).drop_last() == previews@.take(i as int));
        if !previews[i].is_error() {
            add_edit(lines, &previews[i]);
        }
        assert(line_views(lines@) == before + all_edits(previews@.take(i + 1)));
        i += 1;
    }
    assert(previews@.take(i as int) == previews@);
}

fn add_steps(lines: &mut Vec<Line>, actions: &Vec<Action>)
    ensures
        line_views(final(lines)@) == line_views(old(lines)@) + all_steps(actions@),
{
    let ghost before = line_views(lines@);
    let mut i: usize = 0;
    assert(all_steps(actions@.take(0)) == Seq::<Seq<SpanView>>::empty());
    while i < actions.len()
        invariant
            i <= actions.len(),
            line_views(lines@) == before + all_steps(actions@.take(i as int)),
        decreases actions.len() - i,
    {
        assert(actions@.take(i + 1).drop_last() == actions@.take(i as int));
        let ghost told = line_views(lines@);
        let steps = sync::command_lines(&actions[i]);
        let ghost texts = text::texts(steps@);
        let ghost want = texts.map_values(
            |t: Seq<char>| one("  "@ + t, Style::new().fg(Color::Gray)),
        );
        let mut j: usize = 0;
        assert(want.take(0) == Seq::<Seq<SpanView>>::empty());
        while j < steps.len()
            invariant
                j <= steps.len(),
                texts == text::texts(steps@),
                want == texts.map_values(
                    |t: Seq<char>| one("  "@ + t, Style::new().fg(Color::Gray)),
                ),
                line_views(lines@) == told + want.take(j as int),
            decreases steps.len() - j,
        {
            add_styled(
                lines,
                text::cat2("  ", steps[j].as_str()).as_str(),
                Style::new().fg(Color::Gray),
            );
            assert(texts[j as int] == steps@[j as int]@);
            assert(want.take(j + 1) == want.take(j as int).push(want[j as int]));
            j += 1;
        }
        assert(want.take(j as int) == want);
        assert(line_views(lines@) == before + all_steps(actions@.take(i + 1)));
        i += 1;
    }
    assert(actions@.take(i as int) == actions@);
}

/// The plan, in full.
///
/// Editing a hand-maintained file is the part of a merge that most warrants review, so
/// the diffs are shown here rather than summarized: nothing is written that the user
/// has not had the chance to read first.
pub fn draw_confirm(app: &App) -> (r: Vec<Line>)
    ensures
        line_views(r@) == plan_lines(*app),
{
    let mut lines: Vec<Line> = Vec::new();
    assert(line_views(lines@) == Seq::<Seq<SpanView>>::empty());
    let refs = count_rewrites(&app.pending);
    let mut line = Line::new();
    line.add_styled(
        text::cat2(text::count_text(app.pending.len()).as_str(), " action(s)").as_str(),
        Style::new().bold(),
    );
    line.add_raw("  ");
    line.add_styled(
        text::cat2(text::count_text(refs).as_str(), " flake.nix rewrite(s)").as_str(),
        Style::new().fg(
            if refs > 0 {
                Color::Magenta
            } else {
                Color::DarkGray
            },
        ),
    );
    add_line(&mut lines, line);
    let ghost headed = line_views(lines@);
    let refused = app.unwritable();
    add_refused(&mut lines, &refused);
    assert(refused@.unref().len() == refused@.len());
    let ghost told = line_views(lines@);
    if app.pending_diffs.len() > refused.len() {
        add_blank(&mut lines);
        add_styled(&mut lines, "flake.nix changes:", Style::new().bold());
        add_edits(&mut lines, &app.pending_diffs);
    }
    assert(line_views(lines@) == told + edit_section(*app));
    add_blank(&mut lines);
    add_styled(&mut lines, "commands:", Style::new().bold());
    add_steps(&mut lines, &app.pending);
    add_blank(&mut lines);
    add_styled(
        &mut lines,
        "Enter = run   Esc = cancel   ↑↓ = scroll   e = edit a skipped flake.nix",
        Style::new().fg(Color::Yellow),
    );
    assert(headed =~~= plan_lines(*app).take(1));
    assert(line_views(lines@) == plan_lines(*app));
    lines
}

// ---------------------------------------------------------------------------
// A plan that runs
// ---------------------------------------------------------------------------

/// How far the run is, `nanos` after it began.
pub open spec fn progress_line(r: Running, nanos: nat) -> Seq<SpanView> {
    let failures = app::failed_in(r.log@);
    seq![
        span(progress::bar(r.done as nat, r.total as nat), Style::new().fg(Color::Green)),
        gap(),
        span(progress::percent(r.done as nat, r.total as nat), Style::new().bold()),
        gap(),
        span(text::dec(r.done as nat) + "/"@ + text::dec(r.total as nat), Style::new()),
        gap(),
        span(progress::duration_text(nanos), faint()),
        gap(),
        span(progress::eta_text(nanos, r.done as nat, r.total as nat), faint()),
        gap(),
        span(
            if failures > 0 {
                text::dec(failures) + " failed"@
            } else {
                Seq::empty()
            },
            Style::new().fg(Color::Red).bold(),
        ),
    ]
}

/// What is blocking right now, named so that a long pause is legible.
pub open spec fn current_line(current: Option<(Step, String, String)>) -> Seq<SpanView> {
    match current {
        Some((step, project, input)) => {
            let named = seq![
                span("▶ "@, Style::new().fg(Color::Cyan).bold()),
                span(step.label_text(), Style::new().fg(Color::Cyan)),
                gap(),
                span(project@, Style::new()),
            ];
            if input@.len() > 0 {
                named.push(span("  ["@ + input@ + "]"@, faint()))
            } else {
                named
            }
        },
        None => one("  working…"@, faint()),
    }
}

/// One outcome of the log.
pub open spec fn outcome_line(o: Outcome) -> Seq<SpanView> {
    one(
        "  "@ + o.text@,
        if o.ok {
            Style::new().fg(Color::Green)
        } else {
            Style::new().fg(Color::Red)
        },
    )
}

/// The outcomes of `log` with something to say.
pub open spec fn told(log: Seq<Outcome>) -> Seq<Outcome> {
    log.filter(|o: Outcome| o.text@.len() > 0)
}

/// The last `n` of `s`, or all of it.
pub open spec fn latest<T>(s: Seq<T>, n: int) -> Seq<T> {
    if s.len() > n {
        s.skip(s.len() - n)
    } else {
        s
    }
}

/// The rows of a screen `height` rows high that are left for the log.
pub open spec fn log_room(height: u16) -> int {
    if height >= 7 {
        height - 7
    } else {
        0
    }
}

/// The screen of a run, `height` rows high, `nanos` after it began: completed steps
/// stand with the most recent last, trimmed to what fits so that the newest stays on
/// screen without scrolling.
pub open spec fn run_lines(r: Running, height: u16, nanos: nat) -> Seq<Seq<SpanView>> {
    seq![progress_line(r, nanos), Seq::empty(), current_line(r.current), Seq::empty()] + latest(
        told(r.log@),
        log_room(height),
    ).map_values(|o: Outcome| outcome_line(o))
}

fn draw_progress(r: &Running, elapsed: &TimeSpan) -> (line: Line)
    ensures
        line@ == progress_line(*r, elapsed@),
{
    let failures: usize = r.failures();
    let mut line = Line::new();
    line.add_styled(
        progress::bar_text(r.done, r.total).as_str(),
        Style::new().fg(Color::Green),
    );
    line.add_raw("  ");
    line.add_styled(progress::percent_text(r.done, r.total).as_str(), Style::new().bold());
    line.add_raw("  ");
    line.add_raw(
        text::cat3(
            text::count_text(r.done).as_str(),
            "/",
            text::count_text(r.total).as_str(),
        ).as_str(),
    );
    line.add_raw("  ");
    line.add_styled(
        progress::human_duration(elapsed).as_str(),
        Style::new().fg(Color::DarkGray),
    );
    line.add_raw("  ");
    line.add_styled(
        progress::eta(elapsed, r.done, r.total).as_str(),
        Style::new().fg(Color::DarkGray),
    );
    line.add_raw("  ");
    let failed = if failures > 0 {
        text::cat2(text::count_text(failures).as_str(), " failed")
    } else {
        String::new()
    };
    line.add_styled(failed.as_str(), Style::new().fg(Color::Red).bold());
    line
}

fn draw_current(current: &Option<(Step, String, String)>) -> (line: Line)
    ensures
        line@ == current_line(*current),
{
    match current {
        Some((step, project, input)) => {
            let mut line = Line::new();
            line.add_styled("▶ ", Style::new().fg(Color::Cyan).bold());
            line.add_styled(step.label(), Style::new().fg(Color::Cyan));
            line.add_raw("  ");
            line.add_raw(project.as_str());
            if !input.as_str().is_empty() {
                line.add_styled(
                    text::cat3("  [", input.as_str(), "]").as_str(),
                    Style::new().fg(Color::DarkGray),
                );
            }
            line
        },
        None => Line::styled("  working…", Style::new().fg(Color::DarkGray)),
    }
}

/// The positions in `log` of the outcomes with something to say.
fn told_at(log: &Vec<Outcome>) -> (r: Vec<usize>)
    ensures
        r@.map_values(|k: usize| log@[k as int]) == told(log@),
        forall|k: int| 0 <= k < r@.len() ==> (#[trigger] r@[k]) < log@.len(),
{
    let ghost keep = |o: Outcome| o.text@.len() > 0;
    let ghost at = |k: usize| log@[k as int];
    let mut r: Vec<usize> = Vec::new();
    let mut i: usize = 0;
    assert(r@.map_values(at) == log@.take(0).filter(keep)) by {
        reveal(Seq::filter);
    }
    while i < log.len()
        invariant
            i <= log.len(),
            keep == (|o: Outcome| o.text@.len() > 0),
            at == (|k: usize| log@[k as int]),
            r@.map_values(at) == log@.take(i as int).filter(keep),
            forall|k: int| 0 <= k < r@.len() ==> (#[trigger] r@[k]) < log@.len(),
        decreases log.len() - i,
    {
        let ghost before = r@;
        proof {
            reveal(Seq::filter);
            assert(log@.take(i + 1).drop_last() == log@.take(i as int));
        }
        if !log[i].text.as_str().is_empty() {
            r.push(i);
            assert(r@.map_values(at) == before.map_values(at).push(log@[i as int]));
        }
        i += 1;
    }
    assert(log@.take(i as int) == log@);
    r
}

/// Live progress while the plan runs, on a screen `height` rows high, `elapsed` after
/// it began.
///
/// Each `nix flake update` blocks for seconds, so this has to answer three questions at
/// a glance: how far along, what is happening right now, and whether anything failed.
pub fn draw_running(r: &Running, height: u16, elapsed: &TimeSpan) -> (lines: Vec<Line>)
    ensures
        line_views(lines@) == run_lines(*r, height, elapsed@),
{
    let mut lines: Vec<Line> = Vec::new();
    assert(line_views(lines@) == Seq::<Seq<SpanView>>::empty());
    add_line(&mut lines, draw_progress(r, elapsed));
    add_blank(&mut lines);
    add_line(&mut lines, draw_current(&r.current));
    add_blank(&mut lines);
    let ghost headed = line_views(lines@);
    let room: usize = (height as usize).saturating_sub(7);
    let told_at = told_at(&r.log);
    let ghost told = told(r.log@);
    let begin: usize = told_at.len().saturating_sub(room);
    let ghost shown = latest(told, room as int);
    let ghost want = shown.map_values(|o: Outcome| outcome_line(o));
    let mut i: usize = begin;
    assert(told.len() == told_at.len());
    assert(told.len() == begin + shown.len());
    assert(want.take(0) == Seq::<Seq<SpanView>>::empty());
    while i < told_at.len()
        invariant
            begin <= i <= told_at.len(),
            told.len() == told_at.len(),
            told.len() == begin + shown.len(),
            begin == 0 ==> shown == told,
            begin > 0 ==> shown == told.skip(begin as int),
            told == told_at@.map_values(|k: usize| r.log@[k as int]),
            forall|k: int| 0 <= k < told_at@.len() ==> (#[trigger] told_at@[k]) < r.log@.len(),
            want == shown.map_values(|o: Outcome| outcome_line(o)),
            line_views(lines@) == headed + want.take(i - begin),
        decreases told_at.len() - i,
    {
        let o = &r.log[told_at[i]];
        assert(told[i as int] == *o);
        assert(shown[i - begin] == *o);
        add_styled(
            &mut lines,
            text::cat2("  ", o.text.as_str()).as_str(),
            if o.ok {
                Style::new().fg(Color::Green)
            } else {
                Style::new().fg(Color::Red)
            },
        );
        assert(want.take(i + 1 - begin) == want.take(i - begin).push(want[i - begin]));
        i += 1;
    }
    assert(want.take(i - begin) == want);
    lines
}

// ---------------------------------------------------------------------------
// The report
// ---------------------------------------------------------------------------

/// One line of the report, coloured by how it begins.
pub open spec fn report_line(text: Seq<char>) -> Seq<SpanView> {
    one(
        text,
        if text::begins(text, "ok"@) {
            Style::new().fg(Color::Green)
        } else if text::begins(text, "fail"@) {
            Style::new().fg(Color::Red)
        } else {
            Style::new()
        },
    )
}

/// The report.
pub fn draw_report(app: &App) -> (r: Vec<Line>)
    ensures
        line_views(r@) == text::texts(app.report@).map_values(|t: Seq<char>| report_line(t)),
{
    let ghost texts = text::texts(app.report@);
    let ghost want = texts.map_values(|t: Seq<char>| report_line(t));
    let mut lines: Vec<Line> = Vec::new();
    let mut i: usize = 0;
    assert(line_views(lines@) == want.take(0));
    while i < app.report.len()
        invariant
            i <= app.report.len(),
            texts == text::texts(app.report@),
            want == texts.map_values(|t: Seq<char>| report_line(t)),
            line_views(lines@) == want.take(i as int),
        decreases app.report.len() - i,
    {
        let text = app.report[i].as_str();
        assert(texts[i as int] == text@);
        let style = if text::begins_with(text, "ok") {
            Style::new().fg(Color::Green)
        } else if text::begins_with(text, "fail") {
            Style::new().fg(Color::Red)
        } else {
            Style::new()
        };
        add_styled(&mut lines, text, style);
        assert(want.take(i + 1) == want.take(i as int).push(want[i as int]));
        i += 1;
    }
    assert(want.take(i as int) == want);
    lines
}

// ---------------------------------------------------------------------------
// The roots view
// ---------------------------------------------------------------------------

/// How many roots hold a path, as it is shown.
pub open spec fn held_by(row: RootRowView) -> u64 {
    store::capped((row.projects.len() + row.external.len() + row.process.len()) as nat)
}

fn count_held(row: &RootRow) -> (r: u64)
    ensures
        r == held_by(row@),
{
    assert(row@.projects.len() == row.projects.len());
    assert(row@.external.len() == row.external.len());
    assert(row@.process.len() == row.process.len());
    store::capped_sum(
        store::capped_sum(row.projects.len() as u64, row.external.len() as u64),
        row.process.len() as u64,
    )
}

/// The title of the list of rooted paths.
pub open spec fn roots_title(app: App) -> Seq<char> {
    " rooted store paths — "@ + store::bytes_text(
        store::capped(app::total_bytes(app.root_rows_view())),
    ) + " total"@ + (if app.roots_freeable_only {
        ", droppable only"@
    } else {
        Seq::empty()
    }) + (if app.roots_hide_process {
        Seq::empty()
    } else {
        ", +process"@
    }) + " "@
}

fn roots_title_text(app: &App) -> (r: String)
    ensures
        r@ == roots_title(*app),
{
    let mut r = text::cat3(
        " rooted store paths — ",
        store::human_bytes(app.roots_total_bytes()).as_str(),
        " total",
    );
    if app.roots_freeable_only {
        r.append(", droppable only");
    }
    if !app.roots_hide_process {
        r.append(", +process");
    }
    r.append(" ");
    assert(r@ == roots_title(*app));
    r
}

/// What is said in place of an empty list: "nix told us nothing" and "the filters hid
/// it all" need opposite actions from the user.
pub open spec fn no_roots_lines(app: App) -> Seq<Seq<SpanView>> {
    if app.roots.keys_view().len() == 0 {
        seq![
            plain("No GC roots found."@),
            Seq::empty(),
            plain("This needs `nix-store` on PATH."@),
        ]
    } else if app.roots_freeable_only {
        seq![
            plain("Nothing here is droppable by direnv roots alone."@),
            Seq::empty(),
            plain("Press f to show every rooted path."@),
        ]
    } else {
        seq![
            plain("Nothing rooted outside running processes."@),
            Seq::empty(),
            plain("Press p to include process-held paths."@),
        ]
    }
}

fn draw_no_roots(app: &App) -> (r: Vec<Line>)
    ensures
        line_views(r@) == no_roots_lines(*app),
{
    let mut lines: Vec<Line> = Vec::new();
    let (what, hint) = if app.roots.len() == 0 {
        ("No GC roots found.", "This needs `nix-store` on PATH.")
    } else if app.roots_freeable_only {
        (
            "Nothing here is droppable by direnv roots alone.",
            "Press f to show every rooted path.",
        )
    } else {
        ("Nothing rooted outside running processes.", "Press p to include process-held paths.")
    };
    add_line(&mut lines, Line::raw(what));
    add_blank(&mut lines);
    add_line(&mut lines, Line::raw(hint));
    assert(line_views(lines@) == no_roots_lines(*app));
    lines
}

/// One rooted path in the list: its marker says whether dropping direnv roots alone
/// would free it, which is the distinction the view is for.
pub open spec fn root_line(app: App, row: RootRowView, selected: bool) -> Seq<SpanView> {
    let name = match paths::file_name(row.store_path) {
        Some(n) => n,
        None => row.store_path,
    };
    one(
        report::mark(row) + " "@ + text::right(size_shown(app, row), 9) + "  "@ + text::right(
            text::dec(held_by(row) as nat),
            2,
        ) + "  "@ + name,
        if selected {
            Style::new().fg(Color::Black).bg(Color::Cyan)
        } else if row.is_freeable() {
            Style::new()
        } else {
            faint()
        },
    )
}

/// The rows of a bordered list `height` rows high.
pub open spec fn list_rows(height: u16) -> int {
    minus(height, 2) as int
}

/// The first path of the list that is shown: the cursor stays on screen, however many
/// paths are rooted.
pub open spec fn first_shown(cursor: usize, height: u16) -> int {
    let last = if list_rows(height) >= 1 {
        list_rows(height) - 1
    } else {
        0
    };
    if cursor >= last {
        cursor - last
    } else {
        0
    }
}

/// How many of `n` paths stand above the last row of the list.
pub open spec fn last_shown(n: int, cursor: usize, height: u16) -> int {
    if first_shown(cursor, height) >= n {
        first_shown(cursor, height)
    } else if first_shown(cursor, height) + list_rows(height) <= n {
        first_shown(cursor, height) + list_rows(height)
    } else {
        n
    }
}

/// The list of rooted paths, in a bordered pane `height` rows high.
pub open spec fn root_lines(app: App, height: u16) -> Seq<Seq<SpanView>> {
    let rows = app.root_rows_view();
    let first = first_shown(app.roots_idx, height);
    let end = last_shown(rows.len() as int, app.roots_idx, height);
    Seq::new(
        (end - first) as nat,
        |k: int| root_line(app, rows[first + k], first + k == app.roots_idx),
    )
}

fn draw_root(app: &App, row: &RootRow, selected: bool) -> (r: Line)
    ensures
        r@ == root_line(*app, row@, selected),
{
    let marker = if row.freeable() {
        "·"
    } else {
        "×"
    };
    let mut label = text::cat4(
        marker,
        " ",
        text::right_text(row_size(app, row).as_str(), 9).as_str(),
        "  ",
    );
    label.append(text::right_text(text::dec_text(count_held(row)).as_str(), 2).as_str());
    label.append("  ");
    match paths::file_name_of(row.store_path.as_str()) {
        Some(name) => {
            label.append(name.as_str());
        },
        None => {
            label.append(row.store_path.as_str());
        },
    }
    let style = if selected {
        Style::new().fg(Color::Black).bg(Color::Cyan)
    } else if row.freeable() {
        Style::new()
    } else {
        Style::new().fg(Color::DarkGray)
    };
    Line::styled(label.as_str(), style)
}

/// The list of rooted paths, in a bordered pane `height` rows high.
pub fn draw_root_list(app: &App, height: u16) -> (r: Vec<Line>)
    ensures
        line_views(r@) == root_lines(*app, height),
{
    let rows = app.root_rows();
    let ghost views = app.root_rows_view();
    assert(views.len() == rows.len());
    let room: usize = height.saturating_sub(2) as usize;
    let offset: usize = app.roots_idx.saturating_sub(room.saturating_sub(1));
    let ghost want = root_lines(*app, height);
    let ghost end = last_shown(rows.len() as int, app.roots_idx, height);
    assert(room == list_rows(height));
    assert(offset == first_shown(app.roots_idx, height));
    let mut lines: Vec<Line> = Vec::new();
    let mut i: usize = offset;
    assert(line_views(lines@) == want.take(0));
    while i < rows.len() && i - offset < room
        invariant
            offset <= i,
            offset < rows.len() ==> i <= end,
            offset >= rows.len() ==> i == offset && end == offset,
            room == list_rows(height),
            offset == first_shown(app.roots_idx, height),
            views == app.root_rows_view(),
            views == store::row_views(rows@),
            views.len() == rows.len(),
            end == last_shown(rows.len() as int, app.roots_idx, height),
            want == root_lines(*app, height),
            line_views(lines@) == want.take(i - offset),
        decreases rows.len() - i,
    {
        assert(views[i as int] == rows@[i as int]@);
        add_line(&mut lines, draw_root(app, &rows[i], i == app.roots_idx));
        assert(want.take(i + 1 - offset) == want.take(i - offset).push(want[i - offset]));
        i += 1;
    }
    assert(i == end);
    assert(want.take(i - offset) == want);
    lines
}

/// One list of what holds a path, under its heading, if there is anything in it.
pub open spec fn holders(heading: Seq<char>, style: Style, items: Seq<Seq<char>>) -> Seq<
    Seq<SpanView>,
> {
    if items.len() == 0 {
        Seq::empty()
    } else {
        seq![one(heading, style)] + items.map_values(|t: Seq<char>| plain("  "@ + t)) + seq![
            Seq::empty(),
        ]
    }
}

/// Whether the space a path takes is actually recoverable, said plainly.
pub open spec fn verdict(row: RootRowView) -> Seq<SpanView> {
    if row.is_freeable() {
        one(
            "Converging these projects and dropping their roots would free this."@,
            Style::new().fg(Color::Green),
        )
    } else if row.external.len() == 0 && row.process.len() > 0 && row.projects.len() > 0 {
        one("Only a running process holds this — it frees once that exits."@, faint())
    } else if row.projects.len() == 0 {
        one("No direnv root holds this; this tool cannot free it."@, faint())
    } else {
        one(
            "Held outside direnv too — dropping direnv roots frees nothing here."@,
            Style::new().fg(Color::Yellow),
        )
    }
}

/// Everything holding a path.
pub open spec fn root_detail_lines(app: App, row: RootRowView) -> Seq<Seq<SpanView>> {
    seq![
        one(row.store_path, Style::new().fg(Color::Cyan)),
        plain(
            size_shown(app, row) + " across "@ + text::dec(held_by(row) as nat) + " root(s)"@,
        ),
        Seq::empty(),
    ] + holders("direnv (droppable by this tool)"@, Style::new().fg(Color::Green), row.projects)
        + holders(
        "external (must be released elsewhere)"@,
        Style::new().fg(Color::Yellow),
        row.external,
    ) + holders("running processes (transient)"@, faint(), row.process) + seq![verdict(row)]
}

fn add_holders(lines: &mut Vec<Line>, heading: &str, style: Style, items: &Vec<String>)
    ensures
        line_views(final(lines)@) == line_views(old(lines)@) + holders(
            heading@,
            style,
            text::texts(items@),
        ),
{
    let ghost before = line_views(lines@);
    let ghost texts = text::texts(items@);
    assert(texts.len() == items.len());
    if items.len() > 0 {
        add_styled(lines, heading, style);
        let ghost headed = line_views(lines@);
        let ghost want = texts.map_values(|t: Seq<char>| plain("  "@ + t));
        let mut i: usize = 0;
        assert(want.take(0) == Seq::<Seq<SpanView>>::empty());
        while i < items.len()
            invariant
                i <= items.len(),
                texts == text::texts(items@),
                want == texts.map_values(|t: Seq<char>| plain("  "@ + t)),
                line_views(lines@) == headed + want.take(i as int),
            decreases items.len() - i,
        {
            assert(texts[i as int] == items@[i as int]@);
            add_line(lines, Line::raw(text::cat2("  ", items[i].as_str()).as_str()));
            assert(want.take(i + 1) == want.take(i as int).push(want[i as int]));
            i += 1;
        }
        assert(want.take(i as int) == want);
        add_blank(lines);
    }
    assert(line_views(lines@) == before + holders(heading@, style, texts));
}

/// Everything holding a path.
pub fn draw_root_detail(app: &App, row: &RootRow) -> (r: Vec<Line>)
    ensures
        line_views(r@) == root_detail_lines(*app, row@),
{
    let mut lines: Vec<Line> = Vec::new();
    assert(line_views(lines@) == Seq::<Seq<SpanView>>::empty());
    add_styled(&mut lines, row.store_path.as_str(), Style::new().fg(Color::Cyan));
    add_line(
        &mut lines,
        Line::raw(
            text::cat4(
                row_size(app, row).as_str(),
                " across ",
                text::dec_text(count_held(row)).as_str(),
                " root(s)",
            ).as_str(),
        ),
    );
    add_blank(&mut lines);
    add_holders(
        &mut lines,
        "direnv (droppable by this tool)",
        Style::new().fg(Color::Green),
        &row.projects,
    );
    add_holders(
        &mut lines,
        "external (must be released elsewhere)",
        Style::new().fg(Color::Yellow),
        &row.external,
    );
    add_holders(
        &mut lines,
        "running processes (transient)",
        Style::new().fg(Color::DarkGray),
        &row.process,
    );
    assert(row@.projects.len() == row.projects.len());
    let end = if row.freeable() {
        Line::styled(
            "Converging these projects and dropping their roots would free this.",
            Style::new().fg(Color::Green),
        )
    } else if row.blocked_only_by_process() {
        Line::styled(
            "Only a running process holds this — it frees once that exits.",
            Style::new().fg(Color::DarkGray),
        )
    } else if row.projects.len() == 0 {
        Line::styled(
            "No direnv root holds this; this tool cannot free it.",
            Style::new().fg(Color::DarkGray),
        )
    } else {
        Line::styled(
            "Held outside direnv too — dropping direnv roots frees nothing here.",
            Style::new().fg(Color::Yellow),
        )
    };
    assert(end@ == verdict(row@));
    add_line(&mut lines, end);
    assert(line_views(lines@) == root_detail_lines(*app, row@));
    lines
}

// ---------------------------------------------------------------------------
// Widgets
// ---------------------------------------------------------------------------

/// A border on all sides, with a title where that is not empty.
#[derive(Debug)]
pub struct Block {
    pub title: String,
    pub style: Style,
}

/// What a [`Block`] shows.
pub struct BlockView {
    pub title: Seq<char>,
    pub style: Style,
}

impl View for Block {
    type V = BlockView;

    open spec fn view(&self) -> BlockView {
        BlockView { title: self.title@, style: self.style }
    }
}

/// Something to put on the screen.
#[derive(Debug)]
pub enum Widget {
    /// Lines of text, wrapped or not, from the line `scroll` on.
    Paragraph { area: Area, block: Option<Block>, lines: Vec<Line>, wrap: bool, scroll: u16 },
    /// A border with nothing in it.
    Border { area: Area, block: Block },
    /// A list in which one item is highlighted and kept in sight.
    List { area: Area, items: Vec<Line>, selected: usize, highlight: Style },
}

/// What a [`Widget`] shows.
pub enum WidgetView {
    Paragraph {
        area: Area,
        block: Option<BlockView>,
        lines: Seq<Seq<SpanView>>,
        wrap: bool,
        scroll: u16,
    },
    Border { area: Area, block: BlockView },
    List { area: Area, items: Seq<Seq<SpanView>>, selected: usize, highlight: Style },
}

/// What an optional border shows.
pub open spec fn block_view(block: Option<Block>) -> Option<BlockView> {
    match block {
        Some(b) => Some(b@),
        None => None,
    }
}

impl View for Widget {
    type V = WidgetView;

    open spec fn view(&self) -> WidgetView {
        match *self {
            Widget::Paragraph { area, block, lines, wrap, scroll } => WidgetView::Paragraph {
                area,
                block: block_view(block),
                lines: line_views(lines@),
                wrap,
                scroll,
            },
            Widget::Border { area, block } => WidgetView::Border { area, block: block@ },
            Widget::List { area, items, selected, highlight } => WidgetView::List {
                area,
                items: line_views(items@),
                selected,
                highlight,
            },
        }
    }
}

/// What `widgets` show.
pub open spec fn widget_views(widgets: Seq<Widget>) -> Seq<WidgetView> {
    widgets.map_values(|w: Widget| w@)
}

fn add_widget(widgets: &mut Vec<Widget>, widget: Widget)
    ensures
        widget_views(final(widgets)@) == widget_views(old(widgets)@).push(widget@),
{
    let ghost before = widgets@;
    widgets.push(widget);
    assert(widget_views(widgets@) == widget_views(before).push(widget@));
}

fn block(title: &str, style: Style) -> (r: Block)
    ensures
        r@ == (BlockView { title: title@, style }),
{
    Block { title: title.to_owned(), style }
}

fn single(line: Line) -> (r: Vec<Line>)
    ensures
        line_views(r@) == seq![line@],
{
    let mut r: Vec<Line> = Vec::new();
    r.push(line);
    assert(line_views(r@) == seq![line@]);
    r
}

// ---------------------------------------------------------------------------
// The whole screen
// ---------------------------------------------------------------------------

/// How the middle of the screen is divided.
#[derive(Debug, Clone, Copy)]
pub enum Body {
    /// The inputs and their versions side by side, each with a heading, over the
    /// details.
    Browse {
        groups: Area,
        groups_head: Area,
        groups_body: Area,
        versions: Area,
        versions_head: Area,
        versions_body: Area,
        details: Option<Area>,
    },
    /// The rooted paths and what holds one of them side by side.
    Roots { list: Area, detail: Area },
    /// One pane.
    Whole,
}

/// How the screen is divided.
#[derive(Debug, Clone, Copy)]
pub struct Screen {
    pub header: Area,
    pub middle: Area,
    pub footer: Area,
    pub body: Body,
}

/// Whether the middle is divided as the screen of `mode` needs it.
pub open spec fn suits(body: Body, mode: Mode) -> bool {
    &&& body is Browse <==> mode == Mode::Browse
    &&& body is Roots <==> mode == Mode::Roots
}

/// The rows of the screen: header, middle and footer.
pub open spec fn screen_rows() -> Seq<Extent> {
    seq![Extent::Length(3), Extent::Min(5), Extent::Length(3)]
}

/// The middle of the browse screen where it is high enough for the details: the panes
/// and the details below them.
pub open spec fn detailed_rows() -> Seq<Extent> {
    seq![Extent::Min(6), Extent::Length(8)]
}

/// The middle of the browse screen where it is not.
pub open spec fn plain_rows() -> Seq<Extent> {
    seq![Extent::Min(1)]
}

/// The inside of a pane: its heading and the rows below it.
pub open spec fn pane_rows() -> Seq<Extent> {
    seq![Extent::Length(1), Extent::Min(0)]
}

/// Two panes side by side, of which the first gets `p` percent.
pub open spec fn columns(p: u16, q: u16) -> Seq<Extent> {
    seq![Extent::Percentage(p), Extent::Percentage(q)]
}

/// Two areas in order.
pub open spec fn pair(a: Area, b: Area) -> Seq<Area> {
    seq![a, b]
}

/// Whether `panes` is what of `middle` the groups and the versions lie in side by side,
/// with the details below it if they have a pane.
pub open spec fn holds_panes(
    panes: Area,
    middle: Area,
    groups: Area,
    versions: Area,
    details: Option<Area>,
) -> bool {
    &&& is_split(pair(groups, versions), panes, Axis::Horizontal, columns(45, 55))
    &&& match details {
        Some(d) => is_split(pair(panes, d), middle, Axis::Vertical, detailed_rows()),
        None => is_split(seq![panes], middle, Axis::Vertical, plain_rows()),
    }
}

/// Whether `body` divides `middle` for `mode`. The details only have a pane where there
/// is room left for a usable list above it.
pub open spec fn divides_middle(body: Body, middle: Area, mode: Mode) -> bool {
    &&& suits(body, mode)
    &&& match body {
        Body::Browse {
            groups,
            groups_head,
            groups_body,
            versions,
            versions_head,
            versions_body,
            details,
        } => {
            &&& details is Some <==> middle.height >= 14
            &&& exists|panes: Area| #[trigger]
                holds_panes(panes, middle, groups, versions, details)
            &&& is_split(
                pair(groups_head, groups_body),
                inside(groups),
                Axis::Vertical,
                pane_rows(),
            )
            &&& is_split(
                pair(versions_head, versions_body),
                inside(versions),
                Axis::Vertical,
                pane_rows(),
            )
        },
        Body::Roots { list, detail } => is_split(
            pair(list, detail),
            middle,
            Axis::Horizontal,
            columns(55, 45),
        ),
        Body::Whole => true,
    }
}

/// Whether `screen` divides `area` for `mode`.
pub open spec fn divides(screen: Screen, area: Area, mode: Mode) -> bool {
    &&& is_split(
        seq![screen.header, screen.middle, screen.footer],
        area,
        Axis::Vertical,
        screen_rows(),
    )
    &&& divides_middle(screen.body, screen.middle, mode)
}

/// A pane's interior as a one-row heading and the body below it.
fn split_header(area: Area) -> (r: (Area, Area))
    ensures
        is_split(pair(r.0, r.1), area, Axis::Vertical, pane_rows()),
{
    let extents = vec![Extent::Length(1), Extent::Min(0)];
    let parts = split(area, Axis::Vertical, &extents);
    assert(extents@ == pane_rows());
    assert(parts@ == pair(parts@[0], parts@[1]));
    (parts[0], parts[1])
}

/// Two panes side by side, of which the first gets `p` percent and the second `q`.
fn split_columns(area: Area, p: u16, q: u16) -> (r: (Area, Area))
    ensures
        is_split(pair(r.0, r.1), area, Axis::Horizontal, columns(p, q)),
{
    let extents = vec![Extent::Percentage(p), Extent::Percentage(q)];
    let parts = split(area, Axis::Horizontal, &extents);
    assert(extents@ == columns(p, q));
    assert(parts@ == pair(parts@[0], parts@[1]));
    (parts[0], parts[1])
}

/// Divide the middle of the browse screen.
fn lay_out_browse(middle: Area) -> (r: Body)
    ensures
        divides_middle(r, middle, Mode::Browse),
{
    let (panes, details) = if middle.height >= 14 {
        let extents = vec![Extent::Min(6), Extent::Length(8)];
        let parts = split(middle, Axis::Vertical, &extents);
        assert(extents@ == detailed_rows());
        assert(parts@ == pair(parts@[0], parts@[1]));
        (parts[0], Some(parts[1]))
    } else {
        let extents = vec![Extent::Min(1)];
        let parts = split(middle, Axis::Vertical, &extents);
        assert(extents@ == plain_rows());
        assert(parts@ == seq![parts@[0]]);
        (parts[0], None)
    };
    let (groups, versions) = split_columns(panes, 45, 55);
    let (groups_head, groups_body) = split_header(inner(groups));
    let (versions_head, versions_body) = split_header(inner(versions));
    let body = Body::Browse {
        groups,
        groups_head,
        groups_body,
        versions,
        versions_head,
        versions_body,
        details,
    };
    assert(holds_panes(panes, middle, groups, versions, details));
    assert(body->details == details && body->groups == groups && body->versions == versions);
    body
}

/// Divide the screen for `mode`.
pub fn lay_out(area: Area, mode: Mode) -> (r: Screen)
    ensures
        divides(r, area, mode),
{
    let extents = vec![Extent::Length(3), Extent::Min(5), Extent::Length(3)];
    let rows = split(area, Axis::Vertical, &extents);
    assert(extents@ == screen_rows());
    assert(rows@ == seq![rows@[0], rows@[1], rows@[2]]);
    let middle = rows[1];
    let body = match mode {
        Mode::Browse => lay_out_browse(middle),
        Mode::Roots => {
            let (list, detail) = split_columns(middle, 55, 45);
            Body::Roots { list, detail }
        },
        _ => Body::Whole,
    };
    Screen { header: rows[0], middle, footer: rows[2], body }
}

/// On a screen of at least eleven rows, three of them at the top are the header's, three
/// at the bottom the footer's, and all the others the middle's.
pub proof fn law_header_and_footer_keep_their_rows(screen: Screen, area: Area, mode: Mode)
    requires
        divides(screen, area, mode),
        area.height >= 11,
        area.y + area.height <= u16::MAX,
    ensures
        screen.header == (Area { height: 3, ..area }),
        screen.middle == (Area {
            y: (area.y + 3) as u16,
            height: (area.height - 6) as u16,
            ..area
        }),
        screen.footer == (Area { y: (area.y + area.height - 3) as u16, height: 3, ..area }),
{
    let rows = screen_rows();
    let size = area.height as int;
    let parts = seq![screen.header, screen.middle, screen.footer];
    lemma_three(rows[0], rows[1], rows[2], size, 0);
    lemma_three(rows[0], rows[1], rows[2], size, 500);
    lemma_three(rows[0], rows[1], rows[2], size, 100 * size - 600);
    assert(rows == seq![rows[0], rows[1], rows[2]]);
    assert(fits(rows, size));
    assert(parts[0] == screen.header && parts[1] == screen.middle && parts[2] == screen.footer);
}

/// However low the screen, header, middle and footer stand in that order and use all of
/// it, without a gap. The middle goes first: from five rows on it keeps at least five of
/// them, and below that it has them all.
pub proof fn law_the_middle_goes_first(screen: Screen, area: Area, mode: Mode)
    requires
        divides(screen, area, mode),
        area.y + area.height <= u16::MAX,
    ensures
        screen.header.y == area.y,
        screen.middle.y == screen.header.y + screen.header.height,
        screen.footer.y == screen.middle.y + screen.middle.height,
        screen.footer.y + screen.footer.height == area.y + area.height,
        screen.header.height <= 3,
        screen.footer.height <= 3,
        area.height >= 5 ==> screen.middle.height >= 5,
        area.height < 11 ==> screen.middle.height == if area.height >= 5 {
            5
        } else {
            area.height
        },
{
    if area.height >= 11 {
        law_header_and_footer_keep_their_rows(screen, area, mode);
    } else {
        let rows = screen_rows();
        let size = area.height as int;
        let parts = seq![screen.header, screen.middle, screen.footer];
        lemma_three(rows[0], rows[1], rows[2], size, 500);
        assert(rows == seq![rows[0], rows[1], rows[2]]);
        assert(rows[1] == Extent::Min(5));
        assert(!fits(rows, size));
        assert(can_give_way(rows));
        assert(shared_out(parts, area, Axis::Vertical, rows));
        assert(parts[0] == screen.header && parts[1] == screen.middle);
        assert(parts[2] == screen.footer && parts.last() == screen.footer);
    }
}

/// Where the details have a pane it is the last eight rows of the middle, and the list
/// above it keeps at least six. The groups get 45 percent of the width, to the nearest
/// cell, and the versions all the rest.
pub proof fn law_the_browse_panes_fill_the_middle(body: Body, middle: Area)
    requires
        divides_middle(body, middle, Mode::Browse),
        middle.height >= 14,
        middle.x + middle.width <= u16::MAX,
        middle.y + middle.height <= u16::MAX,
    ensures
        ({
            let height = (middle.height - 8) as u16;
            let width = ((middle.width * 45 + 50) / 100) as u16;
            &&& height >= 6
            &&& body->details == Some(
                (Area { y: (middle.y + height) as u16, height: 8, ..middle }),
            )
            &&& body->groups == (Area { width, height, ..middle })
            &&& body->versions == (Area {
                x: (middle.x + width) as u16,
                width: (middle.width - width) as u16,
                height,
                ..middle
            })
        }),
{
    let details = body->details;
    let panes = choose|panes: Area| #[trigger]
        holds_panes(panes, middle, body->groups, body->versions, details);
    let rows = pair(panes, details->0);
    assert(details is Some && rows[0] == panes && rows[1] == details->0);
    let size = middle.height as int;
    let extents = detailed_rows();
    lemma_two(extents[0], extents[1], size, 0);
    lemma_two(extents[0], extents[1], size, 600);
    lemma_two(extents[0], extents[1], size, 100 * size - 800);
    assert(extents == seq![extents[0], extents[1]]);
    assert(fits(extents, size));
    assert(panes == (Area { height: (middle.height - 8) as u16, ..middle }));
    let parts = pair(body->groups, body->versions);
    assert(parts[0] == body->groups && parts[1] == body->versions);
    let size = middle.width as int;
    let extents = columns(45, 55);
    lemma_two(extents[0], extents[1], size, 0);
    assert(extents == seq![extents[0], extents[1]]);
    assert(size * 45 + size * 55 == 100 * size);
    assert(fits(extents, size));
}

/// What two extents ask for.
proof fn lemma_two(a: Extent, b: Extent, size: int, rest: int)
    ensures
        ({
            let s = seq![a, b];
            &&& asked(s, size, rest) == amount(a, size, rest) + amount(b, size, rest)
            &&& asked(s.take(0), size, rest) == 0
            &&& asked(s.take(1), size, rest) == amount(a, size, rest)
            &&& s.take(2) == s
        }),
{
    let s = seq![a, b];
    assert(s.take(0) == Seq::<Extent>::empty());
    assert(s.take(1) == seq![a]);
    assert(s.take(2) == s);
    assert(s.drop_last() == seq![a]);
    reveal_with_fuel(asked, 3);
}

/// What three extents ask for.
proof fn lemma_three(a: Extent, b: Extent, c: Extent, size: int, rest: int)
    ensures
        ({
            let s = seq![a, b, c];
            let two = amount(a, size, rest) + amount(b, size, rest);
            &&& asked(s, size, rest) == two + amount(c, size, rest)
            &&& asked(s.take(0), size, rest) == 0
            &&& asked(s.take(1), size, rest) == amount(a, size, rest)
            &&& asked(s.take(2), size, rest) == two
            &&& s.take(3) == s
        }),
{
    let s = seq![a, b, c];
    lemma_two(a, b, size, rest);
    assert(s.take(0) == Seq::<Extent>::empty());
    assert(s.take(1) == seq![a, b].take(1));
    assert(s.take(2) == seq![a, b]);
    assert(s.take(3) == s);
    assert(s.drop_last() == seq![a, b]);
}

/// The style of the border of a pane: the one with the cursor stands out.
pub open spec fn border_style(app: App, pane: Pane) -> Style {
    if app.pane == pane && app.mode == Mode::Browse {
        Style::new().fg(Color::Cyan)
    } else {
        Style::new().fg(Color::DarkGray)
    }
}

fn pane_style(app: &App, pane: Pane) -> (r: Style)
    ensures
        r == border_style(*app, pane),
{
    if app.pane == pane && app.mode == Mode::Browse {
        Style::new().fg(Color::Cyan)
    } else {
        Style::new().fg(Color::DarkGray)
    }
}

/// The style of a heading.
#[verifier::allow_in_spec]
pub fn header_style() -> Style
    returns
        Style::new().fg(Color::DarkGray).bold(),
{
    Style::new().fg(Color::DarkGray).bold()
}

/// A border without a title.
pub open spec fn bare() -> BlockView {
    BlockView { title: Seq::empty(), style: Style::new() }
}

/// A pane with a title, in the terminal's own style, whose lines are wrapped.
pub open spec fn pane(
    area: Area,
    title: Seq<char>,
    lines: Seq<Seq<SpanView>>,
    scroll: u16,
) -> WidgetView {
    WidgetView::Paragraph {
        area,
        block: Some(BlockView { title, style: Style::new() }),
        lines,
        wrap: true,
        scroll,
    }
}

/// A line in a bordered strip.
pub open spec fn strip(area: Area, line: Seq<SpanView>) -> WidgetView {
    WidgetView::Paragraph {
        area,
        block: Some(bare()),
        lines: seq![line],
        wrap: false,
        scroll: 0,
    }
}

/// The heading of a list.
pub open spec fn heading(area: Area, text: Seq<char>) -> WidgetView {
    WidgetView::Paragraph {
        area,
        block: None,
        lines: seq![one(text, header_style())],
        wrap: false,
        scroll: 0,
    }
}

/// A list with the item under the cursor reversed.
pub open spec fn list(area: Area, items: Seq<Seq<SpanView>>, selected: usize) -> WidgetView {
    WidgetView::List { area, items, selected, highlight: Style::new().reversed() }
}

/// The pane with the details. Where nothing is selected, there is nothing to wrap or
/// scroll.
pub open spec fn details_pane(app: App, area: Area) -> WidgetView {
    let selected = app.selected() is Some && app.row_view() is Some;
    WidgetView::Paragraph {
        area,
        block: Some(BlockView { title: " details "@, style: border_style(app, Pane::Details) }),
        lines: detail_lines(app),
        wrap: selected,
        scroll: if selected {
            app.details_scroll
        } else {
            0
        },
    }
}

/// The middle of the screen, divided as `screen` says, `nanos` after the plan that runs
/// began.
pub open spec fn body_views(app: App, screen: Screen, nanos: nat) -> Seq<WidgetView> {
    match screen.body {
        Body::Browse {
            groups,
            groups_head,
            groups_body,
            versions,
            versions_head,
            versions_body,
            details,
        } => seq![
            WidgetView::Border {
                area: groups,
                block: BlockView {
                    title: if app.show_all {
                        " inputs (all) "@
                    } else {
                        " inputs (divergent) "@
                    },
                    style: border_style(app, Pane::Groups),
                },
            },
            heading(groups_head, "  "@ + text::left("input"@, 40) + "revs / pins"@),
            list(groups_body, group_lines(app), app.group_idx),
            WidgetView::Border {
                area: versions,
                block: BlockView {
                    title: " versions "@,
                    style: border_style(app, Pane::Versions),
                },
            },
            heading(
                versions_head,
                "  "@ + text::left("revision"@, 14) + text::left("date"@, 12) + text::right(
                    "n"@,
                    4,
                ) + " projects"@,
            ),
            list(versions_body, version_lines(app, inside(versions).width), app.version_idx),
        ] + match details {
            Some(area) => seq![details_pane(app, area)],
            None => Seq::empty(),
        },
        Body::Roots { list, detail } => {
            let rows = app.root_rows_view();
            let held = BlockView { title: " retained by "@, style: Style::new() };
            if rows.len() == 0 {
                seq![
                    pane(list, roots_title(app), no_roots_lines(app), 0),
                    WidgetView::Border { area: detail, block: held },
                ]
            } else {
                seq![
                    WidgetView::Paragraph {
                        area: list,
                        block: Some(BlockView { title: roots_title(app), style: Style::new() }),
                        lines: root_lines(app, list.height),
                        wrap: false,
                        scroll: 0,
                    },
                    if app.roots_idx < rows.len() {
                        pane(
                            detail,
                            " retained by "@,
                            root_detail_lines(app, rows[app.roots_idx as int]),
                            0,
                        )
                    } else {
                        WidgetView::Border { area: detail, block: held }
                    },
                ]
            }
        },
        Body::Whole => match app.mode {
            Mode::Confirm => seq![
                pane(screen.middle, " plan "@, plan_lines(app), app.details_scroll),
            ],
            Mode::Running => match app.running {
                Some(r) => seq![
                    pane(
                        screen.middle,
                        " running "@,
                        run_lines(r, screen.middle.height, nanos),
                        0,
                    ),
                ],
                None => Seq::empty(),
            },
            _ => seq![
                pane(
                    screen.middle,
                    " results "@,
                    text::texts(app.report@).map_values(|t: Seq<char>| report_line(t)),
                    0,
                ),
            ],
        },
    }
}

/// The whole screen, divided as `screen` says, `nanos` after the plan that runs began.
pub open spec fn screen_views(app: App, screen: Screen, nanos: nat) -> Seq<WidgetView> {
    seq![strip(screen.header, header_view(app, nanos))] + body_views(app, screen, nanos) + seq![
        strip(screen.footer, footer_view(app)),
    ]
}

fn add_strip(widgets: &mut Vec<Widget>, area: Area, line: Line)
    ensures
        widget_views(final(widgets)@) == widget_views(old(widgets)@).push(strip(area, line@)),
{
    let block = block("", Style::new());
    proof {
        reveal_strlit("");
        assert(""@ =~= Seq::<char>::empty());
    }
    add_widget(
        widgets,
        Widget::Paragraph { area, block: Some(block), lines: single(line), wrap: false, scroll: 0 },
    );
}

fn add_pane(widgets: &mut Vec<Widget>, area: Area, title: &str, lines: Vec<Line>, scroll: u16)
    ensures
        widget_views(final(widgets)@) == widget_views(old(widgets)@).push(
            pane(area, title@, line_views(lines@), scroll),
        ),
{
    add_widget(
        widgets,
        Widget::Paragraph {
            area,
            block: Some(block(title, Style::new())),
            lines,
            wrap: true,
            scroll,
        },
    );
}

fn add_heading(widgets: &mut Vec<Widget>, area: Area, text: &str)
    ensures
        widget_views(final(widgets)@) == widget_views(old(widgets)@).push(heading(area, text@)),
{
    add_widget(
        widgets,
        Widget::Paragraph {
            area,
            block: None,
            lines: single(Line::styled(text, header_style())),
            wrap: false,
            scroll: 0,
        },
    );
}

fn add_list(widgets: &mut Vec<Widget>, area: Area, items: Vec<Line>, selected: usize)
    ensures
        widget_views(final(widgets)@) == widget_views(old(widgets)@).push(
            list(area, line_views(items@), selected),
        ),
{
    add_widget(
        widgets,
        Widget::List { area, items, selected, highlight: Style::new().reversed() },
    );
}

/// The inputs, their versions, and the details.
pub fn draw_browse(app: &App, screen: &Screen) -> (r: Vec<Widget>)
    requires
        app.merges_ok(),
        screen.body is Browse,
    ensures
        widget_views(r@) == body_views(*app, *screen, 0),
{
    let mut widgets: Vec<Widget> = Vec::new();
    assert(widget_views(widgets@) == Seq::<WidgetView>::empty());
    if let Body::Browse {
        groups,
        groups_head,
        groups_body,
        versions,
        versions_head,
        versions_body,
        details,
    } = screen.body {
        let title = if app.show_all {
            " inputs (all) "
        } else {
            " inputs (divergent) "
        };
        add_widget(
            &mut widgets,
            Widget::Border { area: groups, block: block(title, pane_style(app, Pane::Groups)) },
        );
        add_heading(
            &mut widgets,
            groups_head,
            text::cat3("  ", text::left_text("input", 40).as_str(), "revs / pins").as_str(),
        );
        add_list(&mut widgets, groups_body, draw_groups(app), app.group_idx);
        add_widget(
            &mut widgets,
            Widget::Border {
                area: versions,
                block: block(" versions ", pane_style(app, Pane::Versions)),
            },
        );
        add_heading(
            &mut widgets,
            versions_head,
            text::cat5(
                "  ",
                text::left_text("revision", 14).as_str(),
                text::left_text("date", 12).as_str(),
                text::right_text("n", 4).as_str(),
                " projects",
            ).as_str(),
        );
        add_list(
            &mut widgets,
            versions_body,
            draw_versions(app, inner(versions).width),
            app.version_idx,
        );
        if let Some(area) = details {
            let selected = app.selected_index().is_some() && app.selected_version_row().is_some();
            add_widget(
                &mut widgets,
                Widget::Paragraph {
                    area,
                    block: Some(block(" details ", pane_style(app, Pane::Details))),
                    lines: draw_details(app),
                    wrap: selected,
                    scroll: if selected {
                        app.details_scroll
                    } else {
                        0
                    },
                },
            );
        }
    }
    assert(widget_views(widgets@) == body_views(*app, *screen, 0));
    widgets
}

/// The reverse of `nix-store --gc --print-roots`: rooted store paths on the left, and
/// for the highlighted one, every root holding it on the right.
///
/// Split rather than a flat list because a path can be held by a dozen roots; inlining
/// them would push the size column off screen, and the sizes are how the list is
/// ranked.
pub fn draw_roots(app: &App, screen: &Screen) -> (r: Vec<Widget>)
    requires
        screen.body is Roots,
    ensures
        widget_views(r@) == body_views(*app, *screen, 0),
{
    let mut widgets: Vec<Widget> = Vec::new();
    assert(widget_views(widgets@) == Seq::<WidgetView>::empty());
    if let Body::Roots { list, detail } = screen.body {
        let rows = app.root_rows();
        assert(store::row_views(rows@).len() == rows.len());
        let title = roots_title_text(app);
        if rows.len() == 0 {
            add_pane(&mut widgets, list, title.as_str(), draw_no_roots(app), 0);
            add_widget(
                &mut widgets,
                Widget::Border { area: detail, block: block(" retained by ", Style::new()) },
            );
        } else {
            add_widget(
                &mut widgets,
                Widget::Paragraph {
                    area: list,
                    block: Some(block(title.as_str(), Style::new())),
                    lines: draw_root_list(app, list.height),
                    wrap: false,
                    scroll: 0,
                },
            );
            match app.selected_root() {
                Some(row) => add_pane(
                    &mut widgets,
                    detail,
                    " retained by ",
                    draw_root_detail(app, &row),
                    0,
                ),
                None => add_widget(
                    &mut widgets,
                    Widget::Border { area: detail, block: block(" retained by ", Style::new()) },
                ),
            }
        }
    }
    assert(widget_views(widgets@) == body_views(*app, *screen, 0));
    widgets
}

/// The whole screen, divided as `screen` says, `elapsed` after the plan that runs began.
pub fn compose(app: &App, screen: &Screen, elapsed: &TimeSpan) -> (r: Vec<Widget>)
    requires
        app.merges_ok(),
        suits(screen.body, app.mode),
    ensures
        widget_views(r@) == screen_views(*app, *screen, elapsed@),
{
    let mut widgets: Vec<Widget> = Vec::new();
    assert(widget_views(widgets@) == Seq::<WidgetView>::empty());
    add_strip(&mut widgets, screen.header, draw_header(app, elapsed));
    let ghost headed = widget_views(widgets@);
    match app.mode {
        Mode::Browse => {
            let mut body = draw_browse(app, screen);
            let ghost all = body@;
            let ghost before = widgets@;
            widgets.append(&mut body);
            assert(widget_views(widgets@) == widget_views(before) + widget_views(all));
        },
        Mode::Roots => {
            let mut body = draw_roots(app, screen);
            let ghost all = body@;
            let ghost before = widgets@;
            widgets.append(&mut body);
            assert(widget_views(widgets@) == widget_views(before) + widget_views(all));
        },
        Mode::Confirm => add_pane(
            &mut widgets,
            screen.middle,
            " plan ",
            draw_confirm(app),
            app.details_scroll,
        ),
        Mode::Running => {
            if let Some(r) = &app.running {
                add_pane(
                    &mut widgets,
                    screen.middle,
                    " running ",
                    draw_running(r, screen.middle.height, elapsed),
                    0,
                );
            }
        },
        Mode::Report => add_pane(&mut widgets, screen.middle, " results ", draw_report(app), 0),
    }
    assert(widget_views(widgets@) == headed + body_views(*app, *screen, elapsed@));
    add_strip(&mut widgets, screen.footer, draw_footer(app));
    assert(widget_views(widgets@) == screen_views(*app, *screen, elapsed@));
    widgets
}

/// What is on the screen `area`, `elapsed` after the plan that runs began.
pub fn draw(app: &App, area: Area, elapsed: &TimeSpan) -> (r: Vec<Widget>)
    requires
        app.merges_ok(),
    ensures
        exists|screen: Screen| #[trigger]
            divides(screen, area, app.mode) && widget_views(r@) == screen_views(
                *app,
                screen,
                elapsed@,
            ),
{
    let screen = lay_out(area, app.mode);
    compose(app, &screen, elapsed)
}

// ---------------------------------------------------------------------------
// What holds of every screen
// ---------------------------------------------------------------------------

/// The path under the cursor is always among those that are shown, wherever there is a
/// row to show one on.
pub proof fn law_the_cursor_stays_on_screen(app: App, height: u16)
    requires
        app.roots_idx < app.root_rows_view().len(),
        height >= 3,
    ensures
        ({
            let k = app.roots_idx - first_shown(app.roots_idx, height);
            &&& 0 <= k < root_lines(app, height).len()
            &&& root_lines(app, height)[k] == root_line(
                app,
                app.root_rows_view()[app.roots_idx as int],
                true,
            )
        }),
{
}

/// The newest outcome with something to say is always the last line of the screen of a
/// run, wherever there is room for one.
pub proof fn law_the_newest_outcome_stays_on_screen(r: Running, height: u16, nanos: nat)
    requires
        told(r.log@).len() > 0,
        height >= 8,
    ensures
        run_lines(r, height, nanos).last() == outcome_line(told(r.log@).last()),
{
    let shown = latest(told(r.log@), log_room(height));
    assert(shown.len() > 0);
    assert(shown.last() == told(r.log@).last());
    let lines = run_lines(r, height, nanos);
    let tail = shown.map_values(|o: Outcome| outcome_line(o));
    assert(lines.len() == 4 + tail.len());
    assert(lines.last() == tail.last());
}

/// While sizing runs, a path that has not been measured never passes for an empty one,
/// the totals in the header are marked as lower bounds, and the mark is explained.
pub proof fn law_figures_are_marked_while_sizing_runs(app: App, row: RootRowView, bytes: u64)
    requires
        app.sizing is Some,
    ensures
        !app.measured.has(row.store_path) ==> size_shown(app, row) == "—"@,
        provisional(app, bytes).last() == '+',
        sizing_note(app) is Some,
{
    reveal_strlit("+");
    assert(provisional(app, bytes) == store::bytes_text(bytes) + "+"@);
}

/// What a line reads, whatever its styles.
pub open spec fn said(line: Seq<SpanView>) -> Seq<char>
    decreases line.len(),
{
    if line.len() == 0 {
        Seq::empty()
    } else {
        said(line.drop_last()) + line.last().text
    }
}

proof fn lemma_said_push(line: Seq<SpanView>, s: SpanView)
    ensures
        said(line.push(s)) == said(line) + s.text,
{
    assert(line.push(s).drop_last() =~= line);
}

proof fn lemma_said_one(t: Seq<char>, style: Style)
    ensures
        said(one(t, style)) == t,
{
    assert(one(t, style).drop_last() =~= Seq::<SpanView>::empty());
    assert(said(one(t, style).drop_last()) =~= Seq::<char>::empty());
    assert(said(one(t, style)) =~= t);
}

proof fn lemma_said_three(a: SpanView, b: SpanView, c: SpanView)
    ensures
        said(seq![a, b, c]) == a.text + b.text + c.text,
{
    lemma_said_one(a.text, a.style);
    assert(one(a.text, a.style) =~= seq![a]);
    lemma_said_push(seq![a], b);
    lemma_said_push(seq![a].push(b), c);
    assert(seq![a, b, c] =~= seq![a].push(b).push(c));
}

/// Each part of a style is set by itself: setting one leaves the others as they were, and
/// a new style has none.
pub proof fn law_a_style_has_what_was_set(s: Style, c: Color)
    ensures
        s.fg(c).fg == Some(c) && s.fg(c).bg == s.bg && s.fg(c).bold == s.bold && s.fg(c).italic
            == s.italic && s.fg(c).reversed == s.reversed,
        s.bg(c).bg == Some(c) && s.bg(c).fg == s.fg && s.bg(c).bold == s.bold && s.bg(c).italic
            == s.italic && s.bg(c).reversed == s.reversed,
        s.bold().bold && s.bold().fg == s.fg && s.bold().bg == s.bg && s.bold().italic == s.italic
            && s.bold().reversed == s.reversed,
        s.italic().italic && s.italic().fg == s.fg && s.italic().bg == s.bg && s.italic().bold
            == s.bold && s.italic().reversed == s.reversed,
        s.reversed().reversed && s.reversed().fg == s.fg && s.reversed().bg == s.bg
            && s.reversed().bold == s.bold && s.reversed().italic == s.italic,
        Style::new().fg is None && Style::new().bg is None && !Style::new().bold
            && !Style::new().italic && !Style::new().reversed,
{
}

proof fn lemma_unescaped_behind(a: Seq<char>, b: Seq<char>, i: int)
    requires
        0 <= i <= b.len(),
    ensures
        unescaped(a + b, a.len() + i) == unescaped(b, i),
    decreases b.len() - i,
{
    let s = a + b;
    let n = a.len() as int;
    if i < b.len() {
        assert(s[n + i] == b[i]);
        if b[i] == '\u{1b}' {
            lemma_escape_end(b, i + 1);
            lemma_escape_end(b, i + 2);
            lemma_escape_behind(a, b, i + 1);
            if i + 2 <= b.len() {
                lemma_escape_behind(a, b, i + 2);
            }
            if i + 1 < b.len() {
                assert(s[n + i + 1] == b[i + 1]);
            }
            lemma_unescaped_behind(a, b, past_escape(b, i));
        } else {
            lemma_unescaped_behind(a, b, i + 1);
        }
    }
}

proof fn lemma_escape_behind(a: Seq<char>, b: Seq<char>, i: int)
    requires
        0 <= i <= b.len(),
    ensures
        escape_end(a + b, a.len() + i) == a.len() + escape_end(b, i),
    decreases b.len() - i,
{
    if i < b.len() {
        assert((a + b)[a.len() + i] == b[i]);
        if !is_final(b[i]) {
            lemma_escape_behind(a, b, i + 1);
        }
    }
}

proof fn lemma_unescaped_front(a: Seq<char>, b: Seq<char>, i: int)
    requires
        0 <= i <= a.len(),
        !a.contains('\u{1b}'),
    ensures
        unescaped(a + b, i) == a.skip(i) + unescaped(b, 0),
    decreases a.len() - i,
{
    if i == a.len() {
        lemma_unescaped_behind(a, b, 0);
        assert(a.skip(i) + unescaped(b, 0) =~= unescaped(b, 0));
    } else {
        lemma_unescaped_front(a, b, i + 1);
        assert((a + b)[i] == a[i]);
        assert(a.contains(a[i]));
        assert(a.skip(i) + unescaped(b, 0) =~= seq![a[i]] + (a.skip(i + 1) + unescaped(b, 0)));
    }
}

proof fn lemma_escape_params(s: Seq<char>, i: int, n: int)
    requires
        0 <= i <= n < s.len(),
        forall|k: int| i <= k < n ==> !is_final(#[trigger] s[k]),
        is_final(s[n]),
    ensures
        escape_end(s, i) == n + 1,
    decreases n - i,
{
    if i < n {
        lemma_escape_params(s, i + 1, n);
    }
}

/// An escape sequence goes from `ESC [` to the first letter, and is taken out with all of
/// it; what stands before and behind it stays.
pub proof fn law_an_escape_sequence_is_taken_out(
    before: Seq<char>,
    params: Seq<char>,
    end: char,
    after: Seq<char>,
)
    requires
        !before.contains('\u{1b}'),
        forall|k: int|
            0 <= k < params.len() ==> 0x20 <= (#[trigger] params[k]) as int
                && params[k] as int <= 0x3f,
        'a' <= end <= 'z' || 'A' <= end <= 'Z',
    ensures
        unescaped(before + (seq!['\u{1b}', '['] + params + seq![end] + after), 0) == before
            + unescaped(after, 0),
{
    let head = seq!['\u{1b}', '['] + params + seq![end];
    let rest = head + after;
    assert(rest =~= seq!['\u{1b}', '['] + params + seq![end] + after);
    lemma_unescaped_front(before, rest, 0);
    assert(before.skip(0) =~= before);
    let n = 2int + params.len();
    assert(rest[0] == '\u{1b}' && rest[1] == '[');
    assert forall|k: int| 2 <= k < n implies !is_final(#[trigger] rest[k]) by {
        assert(rest[k] == params[k - 2]);
    }
    assert(rest[n] == end);
    lemma_escape_params(rest, 2, n);
    lemma_escape_end(rest, 1);
    lemma_escape_end(rest, 2);
    assert(past_escape(rest, 0) == n + 1);
    lemma_unescaped_behind(head, after, 0);
    assert(head.len() == n + 1);
    assert(unescaped(rest, 0) == unescaped(rest, n + 1));
}

/// A line of a diff reads as the differ wrote it, set in by four columns, and what is put
/// in is green, what is taken out red, a heading of a hunk cyan and what stays grey.
pub proof fn law_a_diff_line_is_coloured_by_its_marker(rest: Seq<char>)
    requires
        !rest.contains('\u{1b}'),
    ensures
        rest.len() == 0 || rest[0] != '+' ==> diff_line_view(seq!['+'] + rest) == one(
            "    +"@ + rest,
            Style { fg: Some(Color::Green), ..Style::new() },
        ),
        rest.len() == 0 || rest[0] != '-' ==> diff_line_view(seq!['-'] + rest) == one(
            "    -"@ + rest,
            Style { fg: Some(Color::Red), ..Style::new() },
        ),
        diff_line_view(seq!['@'] + rest) == one(
            "    @"@ + rest,
            Style { fg: Some(Color::Cyan), ..Style::new() },
        ),
        rest.len() > 0 && !text::is_space(rest[0]) && rest[0] != '@' && rest[0] != '+' && rest[0]
            != '-' ==> diff_line_view(seq![' '] + rest) == one(
            "     "@ + rest,
            Style { fg: Some(Color::Gray), ..Style::new() },
        ),
{
    reveal_strlit("    ");
    reveal_strlit("     ");
    reveal_strlit("    +");
    reveal_strlit("    -");
    reveal_strlit("    @");
    reveal_strlit("+++");
    reveal_strlit("---");
    lemma_marked_line('+', rest);
    lemma_marked_line('-', rest);
    lemma_marked_line('@', rest);
    lemma_marked_line(' ', rest);
    assert("    "@ + (seq!['+'] + rest) =~= "    +"@ + rest);
    assert("    "@ + (seq!['-'] + rest) =~= "    -"@ + rest);
    assert("    "@ + (seq!['@'] + rest) =~= "    @"@ + rest);
    assert("    "@ + (seq![' '] + rest) =~= "     "@ + rest);
    let kept = seq![' '] + rest;
    assert(kept.drop_first() =~= rest);
    if rest.len() > 0 && !text::is_space(rest[0]) {
        assert(text::is_space(kept[0]));
        assert(text::trim_start(rest) == rest);
        assert(text::trim_start(kept) == text::trim_start(kept.drop_first()));
    }
}

proof fn lemma_marked_line(c: char, rest: Seq<char>)
    requires
        !rest.contains('\u{1b}'),
        c != '\u{1b}',
    ensures
        unescaped(seq![c] + rest, 0) == seq![c] + rest,
        !text::is_space(c) ==> text::trim_start(seq![c] + rest) == seq![c] + rest,
        text::begins(seq![c] + rest, "+++"@) ==> c == '+' && rest.len() > 0 && rest[0] == '+',
        text::begins(seq![c] + rest, "---"@) ==> c == '-' && rest.len() > 0 && rest[0] == '-',
{
    reveal_strlit("+++");
    reveal_strlit("---");
    let s = seq![c] + rest;
    assert forall|i: int| 0 <= i < s.len() implies s[i] != '\u{1b}' by {
        if i > 0 {
            assert(rest.contains(rest[i - 1]));
        }
    }
    law_stripping_leaves_plain_text(s);
    if s.len() >= 3 {
        let w = s.subrange(0, 3);
        assert(w[0] == c && w[1] == rest[0]);
    }
}

/// Every group that is listed has a line, in the order of the list, and it says what the
/// group is called, and by its marker whether it is marked for a merge or chosen.
pub proof fn law_every_listed_group_has_a_line(app: App, k: int)
    requires
        0 <= k < app.listing().visible().len(),
    ensures
        group_lines(app).len() == app.listing().visible().len(),
        ({
            let gi = app.listing().visible()[k];
            let line = group_lines(app)[k];
            &&& app.merge_marks@.contains(gi) <==> line[0].text == "◆ "@
            &&& !app.merge_marks@.contains(gi) ==> (app.chosen().contains_key(gi) <==> line[0].text
                == "● "@)
            &&& text::begins(line[1].text, group_label(app, gi))
            &&& line[1].style.fg == Some(Color::Yellow) <==> app.listing().diverges_at(gi)
            &&& !app.merges@.contains_key(gi) && gi < app.groups@.len() ==> group_label(app, gi)
                == app.groups@[gi as int].identity@.shown()
        }),
{
    reveal_strlit("◆ ");
    reveal_strlit("● ");
    reveal_strlit("  ");
    let gi = app.listing().visible()[k];
    let label = group_label(app, gi);
    assert("◆ "@[0] == '◆' && "● "@[0] == '●' && "  "@[0] == ' ');
    text::law_padding_fills_up_to_the_width(label, 40);
    let padded = text::left(label, 40);
    assert(padded.subrange(0, label.len() as int) =~= padded.take(label.len() as int));
}

/// The chosen version is marked with an arrow, and the suggested one, where it is not
/// chosen, with a dot.
pub proof fn law_versions_are_marked(
    row: VersionRowView,
    target: Seq<char>,
    suggested: Seq<char>,
    width: int,
)
    ensures
        version_line(row, target, suggested, width)[0].text[0] == '→' <==> row.version == target,
        version_line(row, target, suggested, width)[0].text[0] == '·' <==> row.version != target
            && row.version == suggested,
        text::begins(
            version_line(row, target, suggested, width)[1].text,
            app::shortened(row.version),
        ),
        text::number(text::trim(version_line(row, target, suggested, width)[3].text))
            == row.pins.len(),
{
    reveal_strlit("→ ");
    reveal_strlit("· ");
    reveal_strlit("  ");
    reveal_strlit(" ");
    let short = app::shortened(row.version);
    text::law_padding_fills_up_to_the_width(short, 14);
    let padded = text::left(short, 14);
    assert(padded.subrange(0, short.len() as int) =~= padded.take(short.len() as int));
    let n = row.pins.len();
    text::law_a_number_is_read_back(n);
    text::lemma_trim_padded(text::dec(n), 4);
    assert(text::right(text::dec(n), 4) + " "@ =~= text::right(text::dec(n), 4).push(' '));
}

/// Every pin of the version under the cursor is named with its project and its input.
pub proof fn law_every_pin_is_named(app: App, i: int)
    requires
        app.selected() is Some,
        app.row_view() matches Some(row) && 0 <= i < row.pins.len(),
    ensures
        said(detail_lines(app)[3 + i]) == "  • "@ + app.row_view()->0.pins[i].project@ + "  ["@
            + app.row_view()->0.pins[i].input_name@ + "]"@,
{
    let pin = app.row_view()->0.pins[i];
    assert(detail_lines(app)[3 + i] == pin_line(pin));
    lemma_said_three(
        span("  • "@, faint()),
        span(pin.project@, Style::new()),
        span("  ["@ + pin.input_name@ + "]"@, faint()),
    );
    assert(said(pin_line(pin)) =~= "  • "@ + pin.project@ + "  ["@ + pin.input_name@ + "]"@);
}

proof fn lemma_all_steps(actions: Seq<Action>, k: int, j: int) -> (n: int)
    requires
        0 <= k < actions.len(),
        0 <= j < sync::step_lines(actions[k]@).len(),
    ensures
        0 <= n < all_steps(actions).len(),
        said(all_steps(actions)[n]) == "  "@ + sync::step_lines(actions[k]@)[j],
    decreases actions.len(),
{
    let head = actions.drop_last();
    let a = all_steps(head);
    let steps = sync::step_lines(actions.last()@);
    if k < head.len() {
        assert(head[k] == actions[k]);
        let n = lemma_all_steps(head, k, j);
        assert(all_steps(actions)[n] == a[n]);
        n
    } else {
        assert(actions[k] == actions.last());
        lemma_said_one("  "@ + steps[j], Style::new().fg(Color::Gray));
        let n = a.len() + j;
        assert(all_steps(actions)[n] == one("  "@ + steps[j], Style::new().fg(Color::Gray)));
        n
    }
}

/// The plan shows every command before it is run: each step of each action has a line
/// that reads as the step does.
pub proof fn law_the_plan_shows_every_step(app: App, k: int, j: int)
    requires
        0 <= k < app.pending@.len(),
        0 <= j < sync::step_lines(app.pending@[k]@).len(),
    ensures
        exists|n: int|
            0 <= n < plan_lines(app).len() && said(#[trigger] plan_lines(app)[n]) == "  "@
                + sync::step_lines(app.pending@[k]@)[j],
{
    let m = lemma_all_steps(app.pending@, k, j);
    let refused = refused_section(app.pending_diffs@.filter(|p: EditPreview| p.edit is Err));
    let edits = edit_section(app);
    let n = 1 + refused.len() + edits.len() + 2 + m;
    assert(plan_lines(app)[n] == all_steps(app.pending@)[m]);
}

/// A path in the list is green, or told to be free, only where nothing but direnv roots
/// hold it.
pub proof fn law_a_verdict_promises_only_what_holds(row: RootRowView)
    ensures
        verdict(row).len() == 1,
        verdict(row)[0].style.fg == Some(Color::Green) <==> row.external.len() == 0
            && row.process.len() == 0 && row.projects.len() > 0,
        verdict(row)[0].style.fg == Some(Color::Yellow) <==> row.external.len() > 0
            && row.projects.len() > 0,
{
}

/// A line of the report is green where it tells of a success, and red where of a failure.
pub proof fn law_a_report_line_is_coloured_by_its_outcome(rest: Seq<char>)
    ensures
        report_line("ok"@ + rest) == one(
            "ok"@ + rest,
            Style { fg: Some(Color::Green), ..Style::new() },
        ),
        report_line("fail"@ + rest) == one(
            "fail"@ + rest,
            Style { fg: Some(Color::Red), ..Style::new() },
        ),
        rest.len() > 0 && rest[0] != 'o' && rest[0] != 'f' ==> report_line(rest) == one(
            rest,
            Style::new(),
        ),
{
    reveal_strlit("ok");
    reveal_strlit("fail");
    let a = "ok"@ + rest;
    let b = "fail"@ + rest;
    assert(a.subrange(0, 2) =~= "ok"@);
    assert(b.subrange(0, 4) =~= "fail"@);
    assert(b.subrange(0, 2)[0] == 'f' && "ok"@[0] == 'o');
    if rest.len() >= 2 {
        assert(rest.subrange(0, 2)[0] == rest[0]);
    }
    if rest.len() >= 4 {
        assert(rest.subrange(0, 4)[0] == rest[0]);
    }
}

/// The log of a run shows the latest outcomes with something to say, as many as there is
/// room for, in the order they came.
pub proof fn law_the_log_shows_the_latest(log: Seq<Outcome>, n: int)
    requires
        0 <= n,
    ensures
        latest(log, n).len() == if log.len() < n {
            log.len() as int
        } else {
            n
        },
        forall|i: int|
            0 <= i < latest(log, n).len() ==> #[trigger] latest(log, n)[i] == log[log.len()
                - latest(log, n).len() + i],
{
}

/// The list of paths shows consecutive rows, none left out between the first and the last
/// that are shown, and as many as fit.
pub proof fn law_the_list_of_paths_has_no_gaps(app: App, height: u16, k: int)
    requires
        app.roots_idx < app.root_rows_view().len(),
        0 <= k < root_lines(app, height).len(),
    ensures
        root_lines(app, height).len() <= app.root_rows_view().len(),
        root_lines(app, height).len() + 2 <= height,
        app.root_rows_view().len() + 2 <= height ==> root_lines(app, height).len()
            == app.root_rows_view().len(),
        ({
            let row = app.root_rows_view()[first_shown(app.roots_idx, height) + k];
            let line = root_lines(app, height)[k];
            &&& line.len() == 1
            &&& text::begins(line[0].text, report::mark(row))
            &&& paths::file_name(row.store_path) matches Some(name) ==> text::ends(
                line[0].text,
                name,
            )
        }),
{
    let row = app.root_rows_view()[first_shown(app.roots_idx, height) + k];
    let line = root_lines(app, height)[k];
    let shown = line[0].text;
    let mark = report::mark(row);
    assert(shown.subrange(0, mark.len() as int) =~= mark);
    if let Some(name) = paths::file_name(row.store_path) {
        assert(shown.subrange(shown.len() - name.len(), shown.len() as int) =~= name);
    }
}

/// A version takes no more columns than the pane has: what is left for the project names
/// is what the marker, the revision, the date and the count leave.
pub proof fn law_a_version_line_fits_its_pane(
    row: VersionRowView,
    target: Seq<char>,
    suggested: Seq<char>,
    width: u16,
)
    requires
        app::shortened(row.version).len() <= 14,
        12 >= when(row.last_modified, "?"@).len(),
        row.pins.len() < 10000,
        width > 33,
    ensures
        version_line(row, target, suggested, names_width(width))[0].text.len() + version_line(
            row,
            target,
            suggested,
            names_width(width),
        )[1].text.len() + version_line(row, target, suggested, names_width(width))[2].text.len()
            + version_line(row, target, suggested, names_width(width))[3].text.len() + version_line(
            row,
            target,
            suggested,
            names_width(width),
        )[4].text.len() <= width,
        names_width(width) + version_line(row, target, suggested, names_width(width))[0].text.len()
            + version_line(row, target, suggested, names_width(width))[1].text.len() + version_line(
            row,
            target,
            suggested,
            names_width(width),
        )[2].text.len() + version_line(row, target, suggested, names_width(width))[3].text.len()
            == width,
{
    reveal_strlit("→ ");
    reveal_strlit("· ");
    reveal_strlit("  ");
    reveal_strlit(" ");
    let names = app::names_in(row.pins);
    text::law_padding_fills_up_to_the_width(app::shortened(row.version), 14);
    text::law_padding_fills_up_to_the_width(when(row.last_modified, "?"@), 12);
    text::law_padding_fills_up_to_the_width(text::dec(row.pins.len()), 4);
    text::lemma_dec_len(row.pins.len());
    app::law_names_fit(names, names_width(width));
}

/// The screen of a run has room for all its lines within the border, and uses it where
/// there is that much to tell.
pub proof fn law_a_run_fits_its_screen(r: Running, height: u16, nanos: nat)
    requires
        height >= 7,
    ensures
        run_lines(r, height, nanos).len() + 3 <= height,
        told(r.log@).len() + 7 >= height ==> run_lines(r, height, nanos).len() + 3 == height,
        told(r.log@).len() + 7 <= height ==> run_lines(r, height, nanos).len() == 4 + told(
            r.log@,
        ).len(),
{
}

/// The roots that a path is told to be held by are those that have a line of their own.
pub proof fn law_every_root_is_counted(row: RootRowView)
    requires
        row.projects.len() + row.external.len() + row.process.len() <= u64::MAX,
    ensures
        held_by(row) + 1 == report::row_lines(row).len(),
{
}

/// What lies inside a border is the area without its outermost cells.
pub proof fn law_a_border_takes_the_outermost_cells(area: Area)
    requires
        area.width >= 2,
        area.height >= 2,
        area.x < 0xffff,
        area.y < 0xffff,
    ensures
        inside(area).x == area.x + 1,
        inside(area).y == area.y + 1,
        inside(area).width == area.width - 2,
        inside(area).height == area.height - 2,
{
}

/// While browsing, the pane that has the focus, and no other, has a border that stands
/// out.
pub proof fn law_the_focus_is_seen(app: App, pane: Pane)
    ensures
        border_style(app, pane).fg == Some(Color::Cyan) <==> app.pane == pane && app.mode
            == Mode::Browse,
{
}

/// A merge is listed with the number of refs that were folded into it.
pub proof fn law_a_merge_tells_how_many_it_took_in(app: App, gi: usize, n: nat)
    requires
        app.merges@.contains_key(gi),
        app.merges@[gi].members@.len() == n + 1,
    ensures
        text::ends(group_label(app, gi), "+"@ + text::dec(n) + " merged"@),
        text::begins(group_label(app, gi), app.merges@[gi].canonical@.shown()),
{
    reveal_strlit("  +");
    reveal_strlit("+");
    let s = group_label(app, gi);
    let own = app.merges@[gi].canonical@.shown();
    let x = "+"@ + text::dec(n) + " merged"@;
    assert(s == own + "  +"@ + text::dec(n) + " merged"@);
    assert(s.subrange(s.len() - x.len(), s.len() as int) =~= x);
    assert(s.subrange(0, own.len() as int) =~= own);
}

} // verus!
