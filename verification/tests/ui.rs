use flake_syncer::app::{App, EditPreview, Mode, Outcome, Running, Step};
use flake_syncer::keyed::{PathMap, PathSet, TextSet};
use flake_syncer::lock::{Group, Identity, Pin};
use flake_syncer::nix_edit::PendingEdit;
use flake_syncer::progress::TimeSpan;
use flake_syncer::scan::Config;
use flake_syncer::store::RootedPath;
use flake_syncer::sync;
use flake_syncer::ui::{
    compose, diff_line, draw, draw_confirm, draw_details, draw_footer, draw_groups, draw_header,
    draw_report, draw_root_list, draw_running, draw_versions, format_date, lay_out,
    strip_ansi, Area, Body, Color, Line, Screen, Style, Widget,
};
use ratatui::backend::TestBackend;
use ratatui::layout::Rect;
use ratatui::widgets::{Block, Borders, List, ListItem, ListState, Paragraph, Wrap};
use ratatui::Terminal;

fn strings(v: &[&str]) -> Vec<String> {
    v.iter().map(|s| s.to_string()).collect()
}

fn text(line: &Line) -> String {
    line.spans.iter().map(|s| s.text.as_str()).collect()
}

fn texts(lines: &[Line]) -> Vec<String> {
    lines.iter().map(text).collect()
}

fn rect(a: &Area) -> Rect {
    Rect { x: a.x, y: a.y, width: a.width, height: a.height }
}

/// The lines as the terminal takes them. What is tested here is where texts stand, so
/// their styles are left out.
fn plain_lines(lines: &[Line]) -> Vec<ratatui::text::Line<'static>> {
    lines
        .iter()
        .map(|l| {
            let spans: Vec<ratatui::text::Span<'static>> =
                l.spans.iter().map(|s| ratatui::text::Span::raw(s.text.clone())).collect();
            ratatui::text::Line::from(spans)
        })
        .collect()
}

/// Render the screen into a test terminal and return it as text.
fn render(app: &App, w: u16, h: u16) -> String {
    let mut term = Terminal::new(TestBackend::new(w, h)).unwrap();
    term.draw(|f| {
        let a = f.area();
        let area = Area { x: a.x, y: a.y, width: a.width, height: a.height };
        for widget in draw(app, area, &TimeSpan::from_secs(3)) {
            match widget {
                Widget::Paragraph { area, block, lines, wrap, scroll } => {
                    let mut p = Paragraph::new(plain_lines(&lines)).scroll((scroll, 0));
                    if wrap {
                        p = p.wrap(Wrap { trim: false });
                    }
                    if let Some(b) = block {
                        p = p.block(Block::default().borders(Borders::ALL).title(b.title));
                    }
                    f.render_widget(p, rect(&area));
                }
                Widget::Border { area, block } => f.render_widget(
                    Block::default().borders(Borders::ALL).title(block.title),
                    rect(&area),
                ),
                Widget::List { area, items, selected, .. } => {
                    let items: Vec<ListItem> =
                        plain_lines(&items).into_iter().map(ListItem::new).collect();
                    let mut state = ListState::default().with_selected(Some(selected));
                    f.render_stateful_widget(List::new(items), rect(&area), &mut state);
                }
            }
        }
    })
    .unwrap();
    let buf = term.backend().buffer().clone();
    (0..buf.area.height)
        .map(|y| {
            (0..buf.area.width).map(|x| buf[(x, y)].symbol().to_string()).collect::<String>()
        })
        .collect::<Vec<_>>()
        .join("\n")
}

fn nixpkgs(git_ref: &str) -> Identity {
    Identity {
        kind: "github".into(),
        owner: "nixos".into(),
        repo: "nixpkgs".into(),
        git_ref: git_ref.into(),
    }
}

fn pin(project: &str, version: &str) -> Pin {
    Pin {
        project: project.into(),
        input_name: "nixpkgs".into(),
        version: version.into(),
        last_modified: Some(1),
        direct: true,
        declared_name: Some("nixpkgs".into()),
    }
}

fn app_for_render() -> App {
    let group = Group {
        identity: nixpkgs("nixpkgs-unstable"),
        pins: vec![pin("/Users/k/projects/myapp", "abc123")],
    };
    App::new(vec![group], PathMap::new(), Vec::new(), Config::default_for(None))
}

fn held(path: &str, size: u64, project: &str, external: &[&str]) -> RootedPath {
    RootedPath {
        store_path: path.into(),
        retained_by: PathSet::of(strings(&[project])),
        external_roots: TextSet::of(strings(external)),
        size_bytes: size,
    }
}

/// Three rooted paths, of which a profile and a process hold the smallest too. The
/// second is held by `extra` too.
fn rooted_app(sizes: [u64; 3], extra: &[&str]) -> App {
    let mut app = app_for_render();
    let mut roots = PathMap::new();
    for r in [
        held("/nix/store/aaa-nixpkgs-source", sizes[0], "/Users/k/projects/myapp", &[]),
        held("/nix/store/bbb-utils-source", sizes[1], "/Users/k/projects/other", extra),
        held(
            "/nix/store/ccc-jdk",
            sizes[2],
            "/Users/k/projects/other",
            &["/run/current-system", "{lsof}"],
        ),
    ] {
        roots.insert(r.store_path.clone(), r);
    }
    app = App::new(app.groups, roots, app.parse_errors, app.config);
    app
}

fn app_with_roots() -> App {
    rooted_app([9_000_000, 2_000_000, 500_000], &[])
}

fn running_app() -> App {
    let mut app = app_for_render();
    let mut r = Running::new(4);
    r.done = 1;
    r.current =
        Some((Step::Updating, "/Users/k/projects/myapp".to_string(), "nixpkgs".to_string()));
    r.log.push(Outcome { ok: true, text: "ok    /Users/k/projects/a nixpkgs".into() });
    r.log.push(Outcome { ok: false, text: "fail  /Users/k/projects/b: boom".into() });
    app.running = Some(r);
    app.mode = Mode::Running;
    app
}

/// The roots view, mid-sizing: one path measured, two still pending.
fn part_sized_roots_app() -> App {
    let mut app = rooted_app([0, 0, 0], &[]);
    app.begin_sizing(3);
    app.apply_size("/nix/store/bbb-utils-source", 2_000_000);
    app.open_roots();
    app
}

fn roots_app() -> App {
    let mut app = app_with_roots();
    app.open_roots();
    app
}

#[test]
fn delta_colouring_is_stripped_to_plain_text() {
    // A real `delta --color-only` line: 24-bit colour, an intra-line highlight, and a
    // trailing erase-to-end-of-line.
    let raw = "\u{1b}[48;2;63;0;1m-    nixpkgs.url = \"github:nixos/nixpkgs/\u{1b}[48;2;144;16;17mnixpkgs\u{1b}[48;2;63;0;1m-unstable\";\u{1b}[0m\u{1b}[0K\u{1b}[0m";
    assert_eq!(
        strip_ansi(raw),
        "-    nixpkgs.url = \"github:nixos/nixpkgs/nixpkgs-unstable\";"
    );
}

#[test]
fn plain_diff_text_survives_stripping_unchanged() {
    // A differ that emits no colour must render identically.
    let raw = "+    nixpkgs.url = \"github:nixos/nixpkgs/nixos-unstable\";";
    assert_eq!(strip_ansi(raw), raw);
}

#[test]
fn a_broken_escape_swallows_no_more_than_it_must() {
    assert_eq!(strip_ansi("a\u{1b}"), "a");
    assert_eq!(strip_ansi("a\u{1b}["), "a");
    assert_eq!(strip_ansi("a\u{1b}[12"), "a");
    assert_eq!(strip_ansi("a\u{1b}Mb"), "ab");
}

#[test]
fn diff_markers_drive_the_colour() {
    // Coloring is derived from the marker, not from what the differ sent, so removed and
    // added lines stay distinguishable for any differ.
    let removed = diff_line("-old line");
    let added = diff_line("+new line");
    assert_eq!(removed.spans[0].style.fg, Some(Color::Red));
    assert_eq!(added.spans[0].style.fg, Some(Color::Green));
    // File headers are chrome, not changes, despite starting with -/+.
    assert_eq!(diff_line("--- a/flake.nix").spans[0].style.fg, Some(Color::DarkGray));
    assert_eq!(diff_line("+++ b/flake.nix").spans[0].style.fg, Some(Color::DarkGray));
    assert_eq!(diff_line("@@ -4,3 +4,3 @@").spans[0].style.fg, Some(Color::Cyan));
    assert_eq!(diff_line(" same").spans[0].style.fg, Some(Color::Gray));
    assert_eq!(text(&added), "    +new line");
}

#[test]
fn a_growing_total_is_marked_as_still_sizing() {
    let out = render(&part_sized_roots_app(), 110, 24);
    // The bytes so far, flagged as a lower bound...
    assert!(out.contains("1.9 MiB+ held"), "{out}");
    // ...and the count that explains the flag.
    assert!(out.contains("sizing 1/3"), "{out}");
}

#[test]
fn an_unmeasured_path_renders_as_pending_not_as_empty() {
    let out = render(&part_sized_roots_app(), 110, 24);
    // The measured row shows its size; the unmeasured ones must not claim to be empty store
    // paths.
    assert!(out.contains("1.9 MiB"), "{out}");
    assert!(!out.contains("0 B"), "{out}");
    assert!(out.contains("—"), "{out}");
}

#[test]
fn a_finished_scan_leaves_no_provisional_marker() {
    let app = roots_app();
    let out = render(&app, 110, 24);
    assert!(!out.contains("sizing"), "{out}");
    assert!(!out.contains("MiB+"), "{out}");
    assert!(out.contains("11.0 MiB held"), "{out}");
}

#[test]
fn the_browse_header_marks_a_provisional_savings_figure() {
    let mut app = app_for_render();
    app.begin_sizing(4);
    let out = render(&app, 110, 24);
    assert!(out.contains("~0 B+ reclaimable"), "{out}");
    // The count sits inside the width the scope span used to push it past: a `+` whose
    // explanation is truncated away is worse than no marker.
    assert!(out.contains("sizing 0/4"), "{out}");
}

#[test]
fn the_running_screen_names_what_is_blocking() {
    let out = render(&running_app(), 100, 24);
    assert!(out.contains("running"), "{out}");
    // The step in flight, named — a still bar must be distinguishable from a hang.
    assert!(out.contains("nix flake update"), "{out}");
    assert!(out.contains("myapp"), "{out}");
    assert!(out.contains("[nixpkgs]"), "{out}");
}

#[test]
fn the_running_screen_shows_counts_and_failures() {
    let out = render(&running_app(), 100, 24);
    assert!(out.contains("1/4"), "{out}");
    assert!(out.contains("25%"), "{out}");
    assert!(out.contains("1 failed"), "{out}");
    // Completed steps stay visible while the next one runs.
    assert!(out.contains("boom"), "{out}");
}

#[test]
fn a_narrow_terminal_still_renders() {
    // Must not panic on a small area; the log simply gets less room.
    let out = render(&running_app(), 40, 10);
    assert!(out.contains("running"), "{out}");
}

#[test]
fn the_roots_screen_ranks_paths_by_size() {
    let out = render(&roots_app(), 110, 24);
    let big = out
        .find("aaa-nixpkgs-source")
        .unwrap_or_else(|| panic!("largest path missing:\n{out}"));
    let small =
        out.find("ccc-jdk").unwrap_or_else(|| panic!("smallest path missing:\n{out}"));
    assert!(big < small, "largest path should sort first:\n{out}");
}

#[test]
fn the_roots_screen_names_what_holds_the_selected_path() {
    // Cursor starts on the largest path, held only by one project.
    let out = render(&roots_app(), 110, 24);
    assert!(out.contains("/Users/k/projects/myapp"), "{out}");
    assert!(out.contains("direnv"), "{out}");
}

#[test]
fn an_externally_pinned_path_says_it_cannot_be_freed() {
    let mut app = roots_app();
    // Move to the jdk, which a profile and a process both hold.
    app.roots_down();
    app.roots_down();
    let out = render(&app, 110, 24);
    assert!(out.contains("/run/current-system"), "{out}");
    assert!(out.contains("frees nothing"), "{out}");
    // Process roots are hidden by default, even on a row that stays listed because
    // something durable also holds it.
    assert!(!out.contains("{lsof}"), "{out}");
}

#[test]
fn process_roots_appear_once_asked_for() {
    let mut app = roots_app();
    app.toggle_roots_process();
    app.roots_down();
    app.roots_down();
    let out = render(&app, 110, 24);
    assert!(out.contains("{lsof}"), "{out}");
    assert!(out.contains("running processes"), "{out}");
}

#[test]
fn a_path_only_a_process_holds_is_hidden_by_default() {
    // The second path is pinned by a process and nothing else outside direnv.
    let mut app = rooted_app([9_000_000, 2_000_000, 500_000], &["{temp:4242}"]);
    app.open_roots();

    let hidden = render(&app, 110, 24);
    assert!(!hidden.contains("bbb-utils-source"), "{hidden}");

    app.toggle_roots_process();
    let shown = render(&app, 110, 24);
    assert!(shown.contains("bbb-utils-source"), "{shown}");
}

#[test]
fn a_path_no_direnv_root_holds_is_hidden_with_process_roots() {
    // Real case: a JDK held only by {lsof}. With process roots hidden it would otherwise
    // list with no retainers at all.
    let mut app = app_with_roots();
    let p = "/nix/store/ddd-jdk-only-lsof".to_string();
    app.roots.insert(
        p.clone(),
        RootedPath {
            store_path: p,
            retained_by: PathSet::new(),
            external_roots: TextSet::of(strings(&["{lsof}"])),
            size_bytes: 400_000_000,
        },
    );
    app.open_roots();

    let out = render(&app, 110, 24);
    assert!(!out.contains("ddd-jdk-only-lsof"), "{out}");

    app.toggle_roots_process();
    let shown = render(&app, 110, 24);
    assert!(shown.contains("ddd-jdk-only-lsof"), "{shown}");
}

#[test]
fn hiding_process_roots_never_marks_a_pinned_path_droppable() {
    // The filter must not make `freeable` true for a path a process pins; that would
    // advertise space the user cannot actually get back.
    let mut app = rooted_app([9_000_000, 2_000_000, 500_000], &["{lsof}"]);
    app.open_roots();
    app.roots_freeable_only = true;

    assert!(
        !app.root_rows().iter().any(|r| r.store_path.ends_with("bbb-utils-source")),
        "process-pinned path leaked into the droppable list"
    );
}

#[test]
fn the_freeable_filter_hides_externally_pinned_paths() {
    let mut app = roots_app();
    app.toggle_roots_filter();
    let out = render(&app, 110, 24);
    assert!(out.contains("aaa-nixpkgs-source"), "{out}");
    // Held by {lsof} and a profile, so dropping direnv roots frees nothing.
    assert!(!out.contains("ccc-jdk"), "{out}");
}

#[test]
fn the_roots_screen_survives_an_empty_root_set() {
    // No nix, or a store with nothing rooted.
    let mut app = app_for_render();
    app.open_roots();
    let out = render(&app, 110, 24);
    assert!(out.contains("No GC roots found"), "{out}");
}

#[test]
fn a_narrow_terminal_still_renders_the_roots_screen() {
    let out = render(&roots_app(), 40, 10);
    assert!(out.contains("gc roots"), "{out}");
}

#[test]
fn filters_that_hide_everything_say_how_to_undo_them() {
    let mut app = rooted_app([1, 1, 1], &[]);
    let mut roots = PathMap::new();
    let r = held("/nix/store/x", 1, "/p", &["/run/current-system"]);
    roots.insert(r.store_path.clone(), r);
    app.roots = roots;
    app.open_roots();
    app.toggle_roots_filter();
    assert!(render(&app, 110, 24).contains("Press f to show every rooted path."));
    let mut app = rooted_app([1, 1, 1], &[]);
    let mut roots = PathMap::new();
    let r = held("/nix/store/x", 1, "/p", &["{lsof}"]);
    roots.insert(r.store_path.clone(), r);
    app.roots = roots;
    app.open_roots();
    assert!(render(&app, 110, 24).contains("Press p to include process-held paths."));
}

#[test]
fn dates_are_those_of_the_calendar() {
    assert_eq!(format_date(0), "1970-01-01");
    assert_eq!(format_date(86_399), "1970-01-01");
    assert_eq!(format_date(86_400), "1970-01-02");
    assert_eq!(format_date(951_782_400), "2000-02-29");
    assert_eq!(format_date(1_709_164_800), "2024-02-29");
    assert_eq!(format_date(1_735_689_599), "2024-12-31");
    assert_eq!(format_date(4_107_542_400), "2100-03-01");
    // Before 1970 the day runs below one.
    assert_eq!(format_date(-1), "1970-01-01");
    assert_eq!(format_date(-86_400), "1970-01-00");
    assert_eq!(format_date(-864_000), "1970-01--9");
}

#[test]
fn the_screen_is_divided_for_its_mode() {
    let area = Area { x: 0, y: 0, width: 100, height: 30 };
    let screen = lay_out(area, Mode::Browse);
    assert_eq!(screen.header, Area { x: 0, y: 0, width: 100, height: 3 });
    assert_eq!(screen.middle, Area { x: 0, y: 3, width: 100, height: 24 });
    assert_eq!(screen.footer, Area { x: 0, y: 27, width: 100, height: 3 });
    match screen.body {
        Body::Browse { groups, groups_head, groups_body, versions, details, .. } => {
            assert_eq!(groups, Area { x: 0, y: 3, width: 45, height: 16 });
            assert_eq!(versions, Area { x: 45, y: 3, width: 55, height: 16 });
            assert_eq!(groups_head, Area { x: 1, y: 4, width: 43, height: 1 });
            assert_eq!(groups_body, Area { x: 1, y: 5, width: 43, height: 13 });
            assert_eq!(details, Some(Area { x: 0, y: 19, width: 100, height: 8 }));
        }
        other => panic!("{other:?}"),
    }
    // With less room the details give way.
    let low = lay_out(Area { x: 0, y: 0, width: 100, height: 19 }, Mode::Browse);
    assert!(matches!(low.body, Body::Browse { details: None, .. }));
    let roots = lay_out(area, Mode::Roots);
    assert!(matches!(roots.body, Body::Roots { list, detail }
        if list.width == 55 && detail.width == 45 && detail.x == 55));
    assert!(matches!(lay_out(area, Mode::Report).body, Body::Whole));
}

/// `part` percent of `whole`, to the nearest cell.
fn percent(whole: u16, part: u32) -> u16 {
    ((u32::from(whole) * part + 50) / 100) as u16
}

#[test]
fn extents_that_fit_are_met_exactly() {
    for (x, y) in [(0, 0), (7, 5), (300, 1000)] {
        for height in 11..60 {
            for width in [0, 1, 2, 3, 9, 10, 11, 30, 79, 80, 90, 110, 130, 199, 200, 210] {
                let area = Area { x, y, width, height };
                let screen = lay_out(area, Mode::Browse);
                let middle = Area { y: y + 3, height: height - 6, ..area };
                assert_eq!(screen.header, Area { height: 3, ..area });
                assert_eq!(screen.middle, middle);
                assert_eq!(screen.footer, Area { y: y + height - 3, height: 3, ..area });

                let rows = if middle.height >= 14 { middle.height - 8 } else { middle.height };
                let split = percent(width, 45);
                let left = Area { width: split, height: rows, ..middle };
                let right = Area { x: x + split, width: width - split, ..left };
                let below = Area { y: middle.y + rows, height: 8, ..middle };
                match screen.body {
                    Body::Browse { groups, groups_head, groups_body, versions, details, .. } => {
                        assert_eq!((groups, versions), (left, right), "{area:?}");
                        assert_eq!(details, (middle.height >= 14).then_some(below));
                        if split >= 2 {
                            let inside = Area {
                                x: x + 1,
                                y: middle.y + 1,
                                width: split - 2,
                                height: rows - 2,
                            };
                            assert_eq!(groups_head, Area { height: 1, ..inside });
                            assert_eq!(
                                groups_body,
                                Area { y: inside.y + 1, height: inside.height - 1, ..inside }
                            );
                        }
                    }
                    other => panic!("{other:?}"),
                }

                let split = percent(width, 55);
                let list = Area { width: split, ..middle };
                let detail = Area { x: x + split, width: width - split, ..middle };
                match lay_out(area, Mode::Roots).body {
                    Body::Roots { list: l, detail: d } => {
                        assert_eq!((l, d), (list, detail), "{area:?}")
                    }
                    other => panic!("{other:?}"),
                }
            }
        }
    }
}

#[test]
fn a_low_screen_is_used_whole() {
    for mode in [Mode::Browse, Mode::Roots, Mode::Running] {
        for height in 0..=30 {
            for (x, y, width) in [(0, 0, 40), (3, 7, 1), (0, 200, 0)] {
                let area = Area { x, y, width, height };
                let Screen { header, middle, footer, body } = lay_out(area, mode);
                assert_eq!(header.y, y);
                assert_eq!(middle.y, header.y + header.height);
                assert_eq!(footer.y, middle.y + middle.height);
                assert_eq!(footer.y + footer.height, y + height);
                assert!(header.height <= 3 && footer.height <= 3, "{area:?}");
                assert!(middle.height >= height.min(5), "{area:?}");
                if height < 11 {
                    assert_eq!(middle.height, height.min(5));
                }
                if let Body::Browse { groups, groups_head, groups_body, .. } = body {
                    assert_eq!(groups.y, middle.y);
                    assert!(groups_head.height <= 1);
                    if groups.height > 2 {
                        assert_eq!(groups_head.height + groups_body.height, groups.height - 2);
                    }
                }
            }
        }
    }
}

#[test]
fn an_area_past_the_last_cell_is_cut_there() {
    let area = Area { x: 65_500, y: 65_515, width: 100, height: 100 };
    let Screen { header, middle, footer, body } = lay_out(area, Mode::Roots);
    assert_eq!((header.y, header.height), (65_515, 3));
    assert_eq!((middle.y, middle.height), (65_518, 14));
    assert_eq!((footer.y, footer.height), (65_532, 3));
    // Across, 35 cells are left of the hundred.
    assert!(matches!(body, Body::Roots { list, detail }
        if (list.x, list.width) == (65_500, 19) && (detail.x, detail.width) == (65_519, 16)));
}

#[test]
fn the_browse_screen_lists_inputs_and_versions() {
    let mut app = app_for_render();
    app.groups[0].pins = vec![pin("/x/one", "0123456789abcdef"), pin("/x/two", "fedcba9876543210")];
    app.groups[0].pins[1].last_modified = Some(951_782_400);
    app.toggle_rooted_only();
    assert_eq!(
        texts(&draw_groups(&app)),
        [format!("  {:<40}2 revs / 2 pins", "nixos/nixpkgs@nixpkgs-unstable")]
    );
    assert_eq!(
        texts(&draw_versions(&app, 80)),
        [
            format!("· {:<14}{:<12}   1 two", "fedcba987654", "2000-02-29"),
            format!("  {:<14}{:<12}   1 one", "0123456789ab", "1970-01-01"),
        ]
    );
    app.targets.insert(0, "0123456789abcdef".to_string());
    let marked = draw_versions(&app, 80);
    assert!(text(&marked[1]).starts_with("→ "));
    assert_eq!(marked[1].spans[0].style, Style::new().fg(Color::Green).bold());
    assert!(text(&draw_groups(&app)[0]).starts_with("● "));
    app.merge_marks.insert(0);
    assert!(text(&draw_groups(&app)[0]).starts_with("◆ "));
    // Too narrow for any name.
    assert_eq!(marked[1].spans.len(), 5);
    assert_eq!(text(&draw_versions(&app, 33)[0]), "· fedcba987654  2000-02-29     1 …");
}

#[test]
fn the_details_spell_a_merge_out() {
    let mut app = App::new(
        vec![
            Group { identity: nixpkgs("a"), pins: vec![pin("/p", "one")] },
            Group { identity: nixpkgs("b"), pins: vec![pin("/q", "two")] },
        ],
        PathMap::new(),
        Vec::new(),
        Config::default_for(None),
    );
    app.toggle_rooted_only();
    app.show_all = true;
    assert_eq!(
        texts(&draw_details(&app)),
        [
            "nixos/nixpkgs@a  one",
            "locked 1970-01-01   pinned by 1 input(s) in 1 project(s)",
            "",
            "  • /p  [nixpkgs]",
            "",
            "1 other ref(s) of this repo — m marks, M merges:",
            "  • nixos/nixpkgs@b",
        ]
    );
    app.merge_marks.insert(0);
    app.merge_marks.insert(1);
    app.commit_merge();
    app.version_idx = 0;
    let lines = texts(&draw_details(&app));
    assert!(lines.contains(&"merged onto nixos/nixpkgs@a — declared by:".to_string()), "{lines:?}");
    assert!(lines.contains(&"  • nixos/nixpkgs@a  (canonical)".to_string()), "{lines:?}");
    assert!(lines.contains(&"  • nixos/nixpkgs@b  (will be rewritten)".to_string()), "{lines:?}");
    assert!(
        lines.contains(
            &"  1 project(s) will have flake.nix rewritten to github:nixos/nixpkgs/a".to_string()
        ),
        "{lines:?}"
    );
    app.groups.clear();
    app.merges.clear();
    assert_eq!(texts(&draw_details(&app)), ["no selection"]);
}

#[test]
fn pins_left_out_of_the_plan_are_counted() {
    let mut app = app_for_render();
    let mut transitive = pin("/x", "abc123");
    transitive.direct = false;
    app.groups[0].pins.push(transitive);
    app.groups[0].pins.push(pin("/unrooted", "zzz"));
    app.rooted = PathSet::of(strings(&["/Users/k/projects/myapp"]));
    app.show_all = true;
    let lines = texts(&draw_details(&app));
    assert!(lines.iter().any(|l| l.starts_with("+1 transitive pin(s)")), "{lines:?}");
    assert!(lines.iter().any(|l| l.starts_with("+1 pin(s) in projects with no GC root")), "{lines:?}");
}

#[test]
fn the_plan_shows_every_edit_and_command() {
    let mut app = app_for_render();
    app.pending = vec![
        sync::merge_action_for(&nixpkgs("a"), &nixpkgs("b"), &pin("/p", "one"), "two"),
        sync::action_for(&app.groups[0], &app.groups[0].pins[0], "two"),
    ];
    app.pending_diffs = vec![
        EditPreview {
            project: "/p".into(),
            input_name: "nixpkgs".into(),
            edit: Ok(PendingEdit {
                path: "/p/flake.nix".into(),
                before: "x".into(),
                after: "y".into(),
                from_url: "u".into(),
                to_url: "v".into(),
            }),
            rendered: "-x\n+y\n".into(),
        },
        EditPreview {
            project: "/refused".into(),
            input_name: "nixpkgs".into(),
            edit: Err("no url".into()),
            rendered: String::new(),
        },
    ];
    let lines = texts(&draw_confirm(&app));
    assert_eq!(
        lines[..11],
        strings(&[
            "2 action(s)  1 flake.nix rewrite(s)",
            "",
            "1 project(s) cannot be rewritten automatically:",
            "  ! /refused",
            "      no url",
            "  these are skipped; press e to open the first one in your editor",
            "",
            "flake.nix changes:",
            "  /p [nixpkgs]",
            "    -x",
            "    +y",
        ])[..]
    );
    assert_eq!(lines[12], "commands:");
    assert_eq!(lines.len(), 18, "{lines:?}");
}

#[test]
fn the_newest_outcomes_stay_on_a_low_screen() {
    let mut r = Running::new(9);
    for i in 0..9 {
        r.log.push(Outcome { ok: i % 2 == 0, text: format!("step {i}") });
    }
    r.log.push(Outcome { ok: true, text: String::new() });
    let lines = texts(&draw_running(&r, 9, &TimeSpan::from_secs(61)));
    assert_eq!(lines[1..], strings(&["", "  working…", "", "  step 7", "  step 8"])[..]);
    assert_eq!(
        lines[0],
        format!("{}    0%  0/9  1m01s    4 failed", "░".repeat(24))
    );
}

#[test]
fn the_cursor_is_never_scrolled_away() {
    let mut app = app_for_render();
    let mut roots = PathMap::new();
    for i in 0..40u64 {
        let r = held(&format!("/nix/store/{i:02}-x"), 1000 - i, "/p", &[]);
        roots.insert(r.store_path.clone(), r);
    }
    app.roots = roots;
    app.open_roots();
    for i in 0..40 {
        let lines = draw_root_list(&app, 9);
        let lit: Vec<&Line> =
            lines.iter().filter(|l| l.spans[0].style.bg == Some(Color::Cyan)).collect();
        assert_eq!(lit.len(), 1);
        assert!(text(lit[0]).ends_with(&format!("  {i:02}-x")), "{}", text(lit[0]));
        app.roots_down();
    }
}

#[test]
fn reports_are_coloured_by_outcome() {
    let mut app = app_for_render();
    app.report = strings(&["ok    a", "fail  b", "rest"]);
    let styles: Vec<Option<Color>> =
        draw_report(&app).iter().map(|l| l.spans[0].style.fg).collect();
    assert_eq!(styles, [Some(Color::Green), Some(Color::Red), None]);
}

#[test]
fn the_footer_names_what_a_toggle_switches_to() {
    let mut app = app_for_render();
    assert!(text(&draw_footer(&app)).contains("a show all  g +unrooted"));
    app.toggle_rooted_only();
    app.show_all = true;
    app.status = "done".into();
    let footer = text(&draw_footer(&app));
    assert!(footer.contains("a divergent only  g rooted only"), "{footer}");
    assert!(footer.ends_with("q quit   done"), "{footer}");
    app.mode = Mode::Running;
    assert_eq!(text(&draw_footer(&app)), "running — please wait");
}

#[test]
fn the_header_counts_what_could_not_be_read() {
    let mut app = app_for_render();
    app.parse_errors.push(("/p/flake.lock".into(), "bad".into()));
    let header = text(&draw_header(&app, &TimeSpan::from_secs(0)));
    assert_eq!(
        header,
        "flake-syncer  1 groups  0 divergent  0 selected  ~0 B reclaimable (0 paths)  \
         0 rooted projects (g: +1 unrooted)  1 unreadable"
    );
    let running = text(&draw_header(&running_app(), &TimeSpan::from_secs(12)));
    assert_eq!(running, "flake-syncer  applying plan  1/4 step(s)  12s");
}

#[test]
fn a_screen_holds_its_header_body_and_footer() {
    let area = Area { x: 0, y: 0, width: 100, height: 30 };
    let app = app_for_render();
    let screen = lay_out(area, app.mode);
    assert_eq!(compose(&app, &screen, &TimeSpan::from_secs(0)).len(), 9);
    let app = running_app();
    let screen = lay_out(area, app.mode);
    assert_eq!(compose(&app, &screen, &TimeSpan::from_secs(0)).len(), 3);
}
