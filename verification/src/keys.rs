//! What each key asks for, and what the editor is opened on.
use crate::app::{App, EditPreview, Mode};
use crate::nix_edit;
use crate::text;
use vstd::prelude::*;

verus! {

/// A key that was pressed.
#[derive(Debug, Clone, Copy, PartialEq, Eq, Structural)]
pub enum Key {
    Char(char),
    Up,
    Down,
    PageUp,
    PageDown,
    Enter,
    Esc,
    Tab,
    Other,
}

/// What a key asks for.
#[derive(Debug, Clone, Copy, PartialEq, Eq, Structural)]
pub enum Command {
    Quit,
    Up,
    Down,
    TogglePane,
    ChooseVersion,
    ClearTarget,
    ToggleShowAll,
    Stage,
    SelectAllSuggested,
    SelectNone,
    ToggleRootedOnly,
    ToggleMergeMark,
    CommitMerge,
    OpenEditor,
    OpenRoots,
    ScrollDown,
    ScrollUp,
    ExecutePlan,
    Cancel,
    CloseRoots,
    RootsUp,
    RootsDown,
    ToggleRootsFilter,
    ToggleRootsProcess,
    /// The key means nothing here.
    Nothing,
}

/// What `key` asks for in `mode`.
///
/// While a plan runs no key means anything: a keystroke typed during a long update
/// should not be replayed against whatever screen follows it. The roots view is
/// read-only: nothing there stages or applies anything.
pub open spec fn meaning(mode: Mode, key: Key) -> Command {
    match mode {
        Mode::Browse => match key {
            Key::Char('q') => Command::Quit,
            Key::Up => Command::Up,
            Key::Char('k') => Command::Up,
            Key::Down => Command::Down,
            Key::Char('j') => Command::Down,
            Key::Tab => Command::TogglePane,
            Key::Enter => Command::ChooseVersion,
            Key::Char('x') => Command::ClearTarget,
            Key::Char('a') => Command::ToggleShowAll,
            Key::Char('s') => Command::Stage,
            Key::Char('A') => Command::SelectAllSuggested,
            Key::Char('N') => Command::SelectNone,
            Key::Char('g') => Command::ToggleRootedOnly,
            Key::Char('m') => Command::ToggleMergeMark,
            Key::Char('M') => Command::CommitMerge,
            Key::Char('e') => Command::OpenEditor,
            Key::Char('r') => Command::OpenRoots,
            Key::PageDown => Command::ScrollDown,
            Key::PageUp => Command::ScrollUp,
            _ => Command::Nothing,
        },
        Mode::Confirm => match key {
            Key::Enter => Command::ExecutePlan,
            Key::Esc => Command::Cancel,
            Key::Up => Command::ScrollUp,
            Key::Char('k') => Command::ScrollUp,
            Key::Down => Command::ScrollDown,
            Key::Char('j') => Command::ScrollDown,
            Key::Char('e') => Command::OpenEditor,
            Key::Char('q') => Command::Quit,
            _ => Command::Nothing,
        },
        Mode::Running => Command::Nothing,
        Mode::Report => match key {
            Key::Char('r') => Command::OpenRoots,
            Key::Char('q') => Command::Quit,
            Key::Enter => Command::Quit,
            Key::Esc => Command::Quit,
            _ => Command::Nothing,
        },
        Mode::Roots => match key {
            Key::Char('q') => Command::Quit,
            Key::Esc => Command::CloseRoots,
            Key::Up => Command::RootsUp,
            Key::Char('k') => Command::RootsUp,
            Key::Down => Command::RootsDown,
            Key::Char('j') => Command::RootsDown,
            Key::Char('f') => Command::ToggleRootsFilter,
            Key::Char('p') => Command::ToggleRootsProcess,
            _ => Command::Nothing,
        },
    }
}

/// What `key` asks for in `mode`.
pub fn command_for(mode: Mode, key: Key) -> (r: Command)
    ensures
        r == meaning(mode, key),
{
    match mode {
        Mode::Browse => match key {
            Key::Char('q') => Command::Quit,
            Key::Up | Key::Char('k') => Command::Up,
            Key::Down | Key::Char('j') => Command::Down,
            Key::Tab => Command::TogglePane,
            Key::Enter => Command::ChooseVersion,
            Key::Char('x') => Command::ClearTarget,
            Key::Char('a') => Command::ToggleShowAll,
            Key::Char('s') => Command::Stage,
            Key::Char('A') => Command::SelectAllSuggested,
            Key::Char('N') => Command::SelectNone,
            Key::Char('g') => Command::ToggleRootedOnly,
            Key::Char('m') => Command::ToggleMergeMark,
            Key::Char('M') => Command::CommitMerge,
            Key::Char('e') => Command::OpenEditor,
            Key::Char('r') => Command::OpenRoots,
            Key::PageDown => Command::ScrollDown,
            Key::PageUp => Command::ScrollUp,
            _ => Command::Nothing,
        },
        Mode::Confirm => match key {
            Key::Enter => Command::ExecutePlan,
            Key::Esc => Command::Cancel,
            Key::Up | Key::Char('k') => Command::ScrollUp,
            Key::Down | Key::Char('j') => Command::ScrollDown,
            Key::Char('e') => Command::OpenEditor,
            Key::Char('q') => Command::Quit,
            _ => Command::Nothing,
        },
        Mode::Running => Command::Nothing,
        Mode::Report => match key {
            Key::Char('r') => Command::OpenRoots,
            Key::Char('q') | Key::Enter | Key::Esc => Command::Quit,
            _ => Command::Nothing,
        },
        Mode::Roots => match key {
            Key::Char('q') => Command::Quit,
            Key::Esc => Command::CloseRoots,
            Key::Up | Key::Char('k') => Command::RootsUp,
            Key::Down | Key::Char('j') => Command::RootsDown,
            Key::Char('f') => Command::ToggleRootsFilter,
            Key::Char('p') => Command::ToggleRootsProcess,
            _ => Command::Nothing,
        },
    }
}

/// A plan is only ever run from the screen that shows it, by the one key that confirms
/// it.
pub proof fn law_a_plan_runs_only_when_confirmed(mode: Mode, key: Key)
    ensures
        meaning(mode, key) == Command::ExecutePlan <==> mode == Mode::Confirm && key == Key::Enter,
{
}

/// Each command is asked for by its own keys, on the screens it belongs to, and by no
/// others.
pub proof fn law_every_command_has_its_keys(mode: Mode, key: Key)
    ensures
        meaning(mode, key) == Command::Quit <==> (mode != Mode::Running && key == Key::Char('q'))
            || (mode == Mode::Report && (key == Key::Enter || key == Key::Esc)),
        meaning(mode, key) == Command::Up <==> mode == Mode::Browse && (key == Key::Up || key
            == Key::Char('k')),
        meaning(mode, key) == Command::Down <==> mode == Mode::Browse && (key == Key::Down || key
            == Key::Char('j')),
        meaning(mode, key) == Command::ScrollUp <==> (mode == Mode::Browse && key == Key::PageUp)
            || (mode == Mode::Confirm && (key == Key::Up || key == Key::Char('k'))),
        meaning(mode, key) == Command::ScrollDown <==> (mode == Mode::Browse && key
            == Key::PageDown) || (mode == Mode::Confirm && (key == Key::Down || key == Key::Char(
            'j',
        ))),
        meaning(mode, key) == Command::RootsUp <==> mode == Mode::Roots && (key == Key::Up || key
            == Key::Char('k')),
        meaning(mode, key) == Command::RootsDown <==> mode == Mode::Roots && (key == Key::Down
            || key == Key::Char('j')),
        meaning(mode, key) == Command::Cancel <==> mode == Mode::Confirm && key == Key::Esc,
        meaning(mode, key) == Command::CloseRoots <==> mode == Mode::Roots && key == Key::Esc,
        meaning(mode, key) == Command::OpenRoots <==> (mode == Mode::Browse || mode
            == Mode::Report) && key == Key::Char('r'),
        meaning(mode, key) == Command::OpenEditor <==> (mode == Mode::Browse || mode
            == Mode::Confirm) && key == Key::Char('e'),
        meaning(mode, key) == Command::TogglePane <==> mode == Mode::Browse && key == Key::Tab,
        meaning(mode, key) == Command::ChooseVersion <==> mode == Mode::Browse && key
            == Key::Enter,
        meaning(mode, key) == Command::ClearTarget <==> mode == Mode::Browse && key == Key::Char(
            'x',
        ),
        meaning(mode, key) == Command::ToggleShowAll <==> mode == Mode::Browse && key
            == Key::Char('a'),
        meaning(mode, key) == Command::Stage <==> mode == Mode::Browse && key == Key::Char('s'),
        meaning(mode, key) == Command::SelectAllSuggested <==> mode == Mode::Browse && key
            == Key::Char('A'),
        meaning(mode, key) == Command::SelectNone <==> mode == Mode::Browse && key == Key::Char(
            'N',
        ),
        meaning(mode, key) == Command::ToggleRootedOnly <==> mode == Mode::Browse && key
            == Key::Char('g'),
        meaning(mode, key) == Command::ToggleMergeMark <==> mode == Mode::Browse && key
            == Key::Char('m'),
        meaning(mode, key) == Command::CommitMerge <==> mode == Mode::Browse && key == Key::Char(
            'M',
        ),
        meaning(mode, key) == Command::ToggleRootsFilter <==> mode == Mode::Roots && key
            == Key::Char('f'),
        meaning(mode, key) == Command::ToggleRootsProcess <==> mode == Mode::Roots && key
            == Key::Char('p'),
{
}

/// No key changes anything while a plan runs, and the roots view neither stages nor
/// runs one.
pub proof fn law_reading_changes_nothing(key: Key)
    ensures
        meaning(Mode::Running, key) == Command::Nothing,
        meaning(Mode::Roots, key) != Command::Stage,
        meaning(Mode::Roots, key) != Command::ExecutePlan,
        meaning(Mode::Roots, key) != Command::ChooseVersion,
{
}

// ---------------------------------------------------------------------------
// The editor
// ---------------------------------------------------------------------------

/// The `flake.nix` that the editor is opened on.
pub open spec fn target(app: App) -> Option<Seq<char>> {
    let refused = app.pending_diffs@.filter(|p: EditPreview| p.edit is Err);
    if app.mode == Mode::Confirm && refused.len() > 0 {
        Some(nix_edit::flake_nix(refused[0].project@))
    } else {
        match app.row_view() {
            Some(row) => if row.pins.len() > 0 {
                Some(nix_edit::flake_nix(row.pins[0].project@))
            } else {
                None
            },
            None => None,
        }
    }
}

/// Which `flake.nix` the editor should open.
///
/// In the confirm view the interesting file is one the tool refused to rewrite: that
/// is the case needing hands. Otherwise it is the highlighted project.
pub fn editor_target(app: &App) -> (r: Option<String>)
    ensures
        text::view_of(r) == target(*app),
{
    if app.mode == Mode::Confirm {
        let refused = app.unwritable();
        assert(refused@.unref().len() == refused@.len());
        if refused.len() > 0 {
            assert(refused@.unref()[0] == *refused@[0]);
            return Some(nix_edit::flake_nix_path(refused[0].project.as_str()));
        }
    }
    match app.selected_version_row() {
        Some(row) => {
            if row.pins.len() > 0 {
                Some(nix_edit::flake_nix_path(row.pins[0].project.as_str()))
            } else {
                None
            }
        },
        None => None,
    }
}

/// The command line that opens the editor, as `$VISUAL` and `$EDITOR` stand: the
/// program first, and the file last. Where there is none, the status says why.
pub fn open_in_editor(
    app: &mut App,
    visual: &Option<String>,
    editor: &Option<String>,
) -> (r: Option<Vec<String>>)
    ensures
        match target(*old(app)) {
            None => r is None && final(app).status@ == "nothing to open"@,
            Some(path) => {
                let words = old(app).config.editor_words(*visual, *editor);
                if words.len() == 0 {
                    r is None && final(app).status@ == "no editor configured"@
                } else {
                    &&& r matches Some(line)
                    &&& text::texts(line@) == words.push(path)
                    &&& final(app).status == old(app).status
                }
            },
        },
        *final(app) == (App { status: final(app).status, ..*old(app) }),
        old(app).wf() ==> final(app).wf(),
{
    let path = match editor_target(app) {
        Some(path) => path,
        None => {
            app.status = "nothing to open".to_owned();
            return None;
        },
    };
    let mut line = app.config.editor_command(visual, editor);
    let ghost words = text::texts(line@);
    assert(words.len() == line.len());
    if line.len() == 0 {
        app.status = "no editor configured".to_owned();
        return None;
    }
    line.push(path);
    assert(text::texts(line@) == words.push(path@));
    Some(line)
}

/// What is said once the editor, started by `program` on `path`, has been closed, or
/// could not be started.
pub open spec fn editor_status(program: Seq<char>, path: Seq<char>, failure: Option<Seq<char>>) -> Seq<
    char,
> {
    match failure {
        None => "edited "@ + path + " — rescan (q, then rerun) to pick up changes"@,
        Some(e) => "could not launch "@ + program + ": "@ + e,
    }
}

/// Say how editing went. `failure` is why the editor could not be started.
pub fn editor_closed(app: &mut App, program: &str, path: &str, failure: &Option<String>)
    ensures
        final(app).status@ == editor_status(program@, path@, text::view_of(*failure)),
        *final(app) == (App { status: final(app).status, ..*old(app) }),
        old(app).wf() ==> final(app).wf(),
{
    app.status = match failure {
        None => text::cat3("edited ", path, " — rescan (q, then rerun) to pick up changes"),
        Some(e) => text::cat4("could not launch ", program, ": ", e.as_str()),
    };
}

/// Where a plan holds rewrites that were refused, the editor is opened on the first of
/// them.
pub proof fn law_the_editor_opens_the_first_that_was_refused(app: App, k: int)
    requires
        app.mode == Mode::Confirm,
        0 <= k < app.pending_diffs@.len(),
        app.pending_diffs@[k].edit is Err,
        forall|j: int| 0 <= j < k ==> (#[trigger] app.pending_diffs@[j]).edit is Ok,
    ensures
        target(app) == Some(nix_edit::flake_nix(app.pending_diffs@[k].project@)),
{
    lemma_first_refused(app.pending_diffs@, k);
}

proof fn lemma_first_refused(s: Seq<EditPreview>, k: int)
    requires
        0 <= k < s.len(),
        s[k].edit is Err,
        forall|j: int| 0 <= j < k ==> (#[trigger] s[j]).edit is Ok,
    ensures
        s.filter(|p: EditPreview| p.edit is Err).len() > 0,
        s.filter(|p: EditPreview| p.edit is Err)[0] == s[k],
    decreases s.len(),
{
    reveal(Seq::filter);
    let head = s.drop_last();
    if k < head.len() {
        assert(head[k] == s[k]);
        assert forall|j: int| 0 <= j < k implies (#[trigger] head[j]).edit is Ok by {
            assert(head[j] == s[j]);
        }
        lemma_first_refused(head, k);
    } else {
        assert forall|j: int| 0 <= j < head.len() implies (#[trigger] head[j]).edit is Ok by {
            assert(head[j] == s[j]);
        }
        lemma_none_refused(head);
    }
}

proof fn lemma_none_refused(s: Seq<EditPreview>)
    requires
        forall|j: int| 0 <= j < s.len() ==> (#[trigger] s[j]).edit is Ok,
    ensures
        s.filter(|p: EditPreview| p.edit is Err).len() == 0,
    decreases s.len(),
{
    reveal(Seq::filter);
    if s.len() > 0 {
        let head = s.drop_last();
        assert forall|j: int| 0 <= j < head.len() implies (#[trigger] head[j]).edit is Ok by {
            assert(head[j] == s[j]);
        }
        lemma_none_refused(head);
        assert(s[s.len() - 1].edit is Ok);
    }
}

} // verus!
