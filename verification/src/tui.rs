//! State of the interactive interface and how keys change it.
use vstd::prelude::*;
use crate::dedup::deletion_targets_spec;
use crate::number::{decimal, decimal_string};
use crate::text::{string_pop, string_push, strip_both, strip_str, Strip};

verus! {

/// Which screen is currently shown.
#[derive(Debug, Clone, PartialEq)]
pub enum Screen {
    /// Main menu: choose action and enter paths.
    Home,
    /// A blocking operation is running (scan / hash).
    Working { message: String },
    /// Scan results: list of found files.
    ScanResults,
    /// Dedup results: groups of duplicates to review.
    DedupResults,
    /// Organize preview: list of planned moves.
    OrganizePreview,
    /// A modal message (error or info) with an OK prompt.
    Modal { title: String, body: String },
}

/// Which action the user selected on the home screen.
#[derive(Debug, Clone, Copy, PartialEq, Eq)]
pub enum Action {
    Scan,
    Dedup,
    Organize,
}

/// One planned file move produced by the organize step.
#[derive(Debug, Clone)]
pub struct PlannedMove {
    pub src: String,
    pub dest: String,
}

/// A key press, as the interface reads it.
#[derive(Debug, Clone, Copy, PartialEq, Eq)]
pub enum Key {
    Char(char),
    Left,
    Right,
    Up,
    Down,
    Tab,
    Backspace,
    Enter,
    Esc,
    /// Any other key.
    Other,
}

/// Work that a key press asks of the caller, beyond the change of state.
#[derive(Debug, Clone, PartialEq)]
pub enum Command {
    /// Nothing more to do.
    Nothing,
    /// Run the action selected on the home screen.
    RunAction,
    /// Delete, in each group, every path but the first.
    ApplyDeletions(Vec<Vec<String>>),
    /// Move or copy the files of the organize preview.
    RunOrganize,
}

/// Global application state.
pub struct App {
    pub screen: Screen,
    pub should_quit: bool,
    // Home screen inputs
    pub selected_action: Action,
    pub src_input: String,
    pub dest_input: String,
    pub recursive: bool,
    pub copy_mode: bool,
    /// Which text field has focus: 0 = src, 1 = dest
    pub focused_field: usize,
    // Scan results
    pub scan_files: Vec<String>,
    pub scan_cursor: usize,
    pub scan_offset: usize,
    // Dedup results
    /// Each group: [keep, dup1, dup2, ...]
    pub dedup_groups: Vec<Vec<String>>,
    /// Per-duplicate keep/delete decision (indexed flat across all dups); true = delete
    pub dedup_decisions: Vec<bool>,
    pub dedup_cursor: usize,
    pub dedup_offset: usize,
    // Organize preview
    pub planned_moves: Vec<PlannedMove>,
    pub organize_cursor: usize,
    pub organize_offset: usize,
    pub organize_done: bool,
}

/// Rows shown when the terminal height is not known to the key handlers.
pub const KEY_SCROLL_ROWS: usize = 20;

/// The cursor and offset after moving up one row.
pub open spec fn scroll_up_spec(cursor: int, offset: int) -> (int, int) {
    if cursor > 0 {
        let c = cursor - 1;
        (c, if c < offset { c } else { offset })
    } else {
        (cursor, offset)
    }
}

/// The cursor and offset after moving down one row in a list of `len` rows
/// of which `visible` are shown.
pub open spec fn scroll_down_spec(cursor: int, offset: int, len: int, visible: int) -> (int, int) {
    let max = if len > 0 { len - 1 } else { 0 };
    if cursor < max {
        let c = cursor + 1;
        (c, if c >= offset + visible { c + 1 - visible } else { offset })
    } else {
        (cursor, offset)
    }
}

/// The number of rows in the flat view of the groups.
pub open spec fn total_rows(groups: Seq<Vec<String>>) -> nat
    decreases groups.len(),
{
    if groups.len() == 0 {
        0
    } else {
        total_rows(groups.drop_last()) + groups.last()@.len()
    }
}

/// The number of duplicates (all entries but the first) in the groups.
pub open spec fn total_dups(groups: Seq<Vec<String>>) -> nat
    decreases groups.len(),
{
    if groups.len() == 0 {
        0
    } else {
        total_dups(groups.drop_last()) + (if groups.last().len() > 0 {
            (groups.last().len() - 1) as nat
        } else {
            0
        })
    }
}

/// Each row of the flat view: the group and the position in it.
pub open spec fn row_refs(groups: Seq<Vec<String>>) -> Seq<(int, int)>
    decreases groups.len(),
{
    if groups.len() == 0 {
        seq![]
    } else {
        let g = groups.len() - 1;
        row_refs(groups.drop_last()) + Seq::new(groups.last()@.len(), |i: int| (g, i))
    }
}

/// The decision that belongs to entry `i > 0` of group `g`.
pub open spec fn decision_index(groups: Seq<Vec<String>>, g: int, i: int) -> int {
    total_dups(groups.take(g)) + i - 1
}

/// The decisions after toggling the one under the cursor, if the cursor is
/// on a duplicate.
pub open spec fn toggle_spec(groups: Seq<Vec<String>>, decisions: Seq<bool>, cursor: int) -> Seq<
    bool,
> {
    let rows = row_refs(groups);
    if 0 <= cursor < rows.len() && rows[cursor].1 > 0 {
        let k = decision_index(groups, rows[cursor].0, rows[cursor].1);
        decisions.update(k, !decisions[k])
    } else {
        decisions
    }
}

/// The decision under the cursor exists, where the cursor is on a duplicate.
pub open spec fn toggle_defined(groups: Seq<Vec<String>>, decisions: Seq<bool>, cursor: int) -> bool {
    let rows = row_refs(groups);
    0 <= cursor < rows.len() && rows[cursor].1 > 0 ==> decision_index(
        groups,
        rows[cursor].0,
        rows[cursor].1,
    ) < decisions.len()
}

/// The length of the list shown on screen `s`, if it shows one.
pub open spec fn list_len(app: App) -> int {
    match app.screen {
        Screen::ScanResults => app.scan_files.len() as int,
        Screen::DedupResults => total_rows(app.dedup_groups@) as int,
        Screen::OrganizePreview => app.planned_moves.len() as int,
        _ => 0,
    }
}

/// The action after `a` when moving right.
pub open spec fn next_action(a: Action) -> Action {
    match a {
        Action::Scan => Action::Dedup,
        Action::Dedup => Action::Organize,
        Action::Organize => Action::Scan,
    }
}

/// The action before `a` when moving left.
pub open spec fn prev_action(a: Action) -> Action {
    match a {
        Action::Scan => Action::Organize,
        Action::Dedup => Action::Scan,
        Action::Organize => Action::Dedup,
    }
}

/// The row structure of a prefix of the groups is a prefix of the rows.
proof fn lemma_row_refs_take(groups: Seq<Vec<String>>, k: int)
    requires
        0 <= k < groups.len(),
    ensures
        row_refs(groups.take(k + 1)) == row_refs(groups.take(k)) + Seq::new(
            groups[k]@.len(),
            |i: int| (k, i),
        ),
        total_rows(groups.take(k + 1)) == total_rows(groups.take(k)) + groups[k].len(),
        total_dups(groups.take(k + 1)) == total_dups(groups.take(k)) + (if groups[k].len() > 0 {
            (groups[k].len() - 1) as nat
        } else {
            0
        }),
{
    assert(groups.take(k + 1).drop_last() =~= groups.take(k));
}

/// The rows of the first groups come first among all rows.
proof fn lemma_row_refs_prefix(groups: Seq<Vec<String>>, k: int)
    requires
        0 <= k <= groups.len(),
    ensures
        row_refs(groups.take(k)).len() == total_rows(groups.take(k)),
        row_refs(groups.take(k)).len() <= row_refs(groups).len(),
        forall|r: int|
            0 <= r < row_refs(groups.take(k)).len() ==> row_refs(groups)[r] == row_refs(
                groups.take(k),
            )[r],
    decreases groups.len() - k,
{
    if k == groups.len() {
        assert(groups.take(k) =~= groups);
        lemma_row_refs_len(groups);
    } else {
        lemma_row_refs_prefix(groups, k + 1);
        lemma_row_refs_take(groups, k);
        lemma_row_refs_len(groups.take(k));
    }
}

/// There is one row per entry.
pub(crate) proof fn lemma_row_refs_len(groups: Seq<Vec<String>>)
    ensures
        row_refs(groups).len() == total_rows(groups),
    decreases groups.len(),
{
    if groups.len() > 0 {
        lemma_row_refs_len(groups.drop_last());
    }
}

/// The rows of all groups, counted up to a prefix.
proof fn lemma_total_rows_take(groups: Seq<Vec<String>>)
    ensures
        groups.take(groups.len() as int) == groups,
{
    assert(groups.take(groups.len() as int) =~= groups);
}

impl App {
    pub fn new() -> (r: Self)
        ensures
            r.screen == Screen::Home,
            !r.should_quit,
            r.selected_action == Action::Scan,
            r.src_input@.len() == 0,
            r.dest_input@.len() == 0,
            r.recursive,
            !r.copy_mode,
            r.focused_field == 0,
            r.scan_files@.len() == 0,
            r.scan_cursor == 0,
            r.scan_offset == 0,
            r.dedup_groups@.len() == 0,
            r.dedup_decisions@.len() == 0,
            r.dedup_cursor == 0,
            r.dedup_offset == 0,
            r.planned_moves@.len() == 0,
            r.organize_cursor == 0,
            r.organize_offset == 0,
            !r.organize_done,
    {
        App {
            screen: Screen::Home,
            should_quit: false,
            selected_action: Action::Scan,
            src_input: String::new(),
            dest_input: String::new(),
            recursive: true,
            copy_mode: false,
            focused_field: 0,
            scan_files: Vec::new(),
            scan_cursor: 0,
            scan_offset: 0,
            dedup_groups: Vec::new(),
            dedup_decisions: Vec::new(),
            dedup_cursor: 0,
            dedup_offset: 0,
            planned_moves: Vec::new(),
            organize_cursor: 0,
            organize_offset: 0,
            organize_done: false,
        }
    }

    /// Total number of rows in the flat dedup view (header + dups per group).
    pub fn dedup_flat_len(&self) -> (r: usize)
        requires
            total_rows(self.dedup_groups@) <= usize::MAX,
        ensures
            r == total_rows(self.dedup_groups@),
    {
        let mut total: usize = 0;
        let mut g: usize = 0;
        while g < self.dedup_groups.len()
            invariant
                g <= self.dedup_groups@.len(),
                total == total_rows(self.dedup_groups@.take(g as int)),
                total_rows(self.dedup_groups@) <= usize::MAX,
            decreases self.dedup_groups@.len() - g,
        {
            proof {
                lemma_row_refs_take(self.dedup_groups@, g as int);
                lemma_total_rows_mono(self.dedup_groups@, g + 1);
            }
            total = total + self.dedup_groups[g].len();
            g += 1;
        }
        proof {
            lemma_total_rows_take(self.dedup_groups@);
        }
        total
    }
}

/// The rows of a prefix are no more than all rows.
proof fn lemma_total_rows_mono(groups: Seq<Vec<String>>, k: int)
    requires
        0 <= k <= groups.len(),
    ensures
        total_rows(groups.take(k)) <= total_rows(groups),
    decreases groups.len() - k,
{
    if k < groups.len() {
        lemma_total_rows_mono(groups, k + 1);
        lemma_row_refs_take(groups, k);
    } else {
        assert(groups.take(k) =~= groups);
    }
}


/// The state after a scroll up on screen `s` (`visible` is not used).
pub open spec fn scrolled_up(a: App) -> App {
    match a.screen {
        Screen::ScanResults => {
            let (c, o) = scroll_up_spec(a.scan_cursor as int, a.scan_offset as int);
            App { scan_cursor: c as usize, scan_offset: o as usize, ..a }
        },
        Screen::DedupResults => {
            let (c, o) = scroll_up_spec(a.dedup_cursor as int, a.dedup_offset as int);
            App { dedup_cursor: c as usize, dedup_offset: o as usize, ..a }
        },
        Screen::OrganizePreview => {
            let (c, o) = scroll_up_spec(a.organize_cursor as int, a.organize_offset as int);
            App { organize_cursor: c as usize, organize_offset: o as usize, ..a }
        },
        _ => a,
    }
}

/// The state after a scroll down with `visible` rows shown.
pub open spec fn scrolled_down(a: App, visible: int) -> App {
    match a.screen {
        Screen::ScanResults => {
            let (c, o) = scroll_down_spec(
                a.scan_cursor as int,
                a.scan_offset as int,
                a.scan_files.len() as int,
                visible,
            );
            App { scan_cursor: c as usize, scan_offset: o as usize, ..a }
        },
        Screen::DedupResults => {
            let (c, o) = scroll_down_spec(
                a.dedup_cursor as int,
                a.dedup_offset as int,
                total_rows(a.dedup_groups@) as int,
                visible,
            );
            App { dedup_cursor: c as usize, dedup_offset: o as usize, ..a }
        },
        Screen::OrganizePreview => {
            let (c, o) = scroll_down_spec(
                a.organize_cursor as int,
                a.organize_offset as int,
                a.planned_moves.len() as int,
                visible,
            );
            App { organize_cursor: c as usize, organize_offset: o as usize, ..a }
        },
        _ => a,
    }
}

/// A scroll down on the current screen stays within machine integers: the
/// dedup rows can be counted, and the window end fits where the cursor moves.
pub open spec fn scroll_down_defined(a: App, visible: int) -> bool {
    let (c, o) = match a.screen {
        Screen::ScanResults => (a.scan_cursor as int, a.scan_offset as int),
        Screen::DedupResults => (a.dedup_cursor as int, a.dedup_offset as int),
        Screen::OrganizePreview => (a.organize_cursor as int, a.organize_offset as int),
        _ => (0, 0),
    };
    let len = list_len(a);
    let max = if len > 0 { len - 1 } else { 0 };
    &&& a.screen is DedupResults ==> total_rows(a.dedup_groups@) <= usize::MAX
    &&& c < max ==> o + visible <= usize::MAX
}

/// One row up.
fn step_up(cursor: usize, offset: usize) -> (r: (usize, usize))
    ensures
        (r.0 as int, r.1 as int) == scroll_up_spec(cursor as int, offset as int),
{
    if cursor > 0 {
        let c = cursor - 1;
        (c, if c < offset { c } else { offset })
    } else {
        (cursor, offset)
    }
}

/// One row down.
fn step_down(cursor: usize, offset: usize, len: usize, visible: usize) -> (r: (usize, usize))
    requires
        cursor + 1 < len ==> offset + visible <= usize::MAX,
    ensures
        (r.0 as int, r.1 as int) == scroll_down_spec(
            cursor as int,
            offset as int,
            len as int,
            visible as int,
        ),
{
    let max = if len > 0 { len - 1 } else { 0 };
    if cursor < max {
        let c = cursor + 1;
        (c, if c >= offset + visible { c + 1 - visible } else { offset })
    } else {
        (cursor, offset)
    }
}

impl App {
    pub fn scroll_up(&mut self, visible: usize)
        ensures
            *final(self) == scrolled_up(*old(self)),
    {
        match &self.screen {
            Screen::ScanResults => {
                let (c, o) = step_up(self.scan_cursor, self.scan_offset);
                self.scan_cursor = c;
                self.scan_offset = o;
            },
            Screen::DedupResults => {
                let (c, o) = step_up(self.dedup_cursor, self.dedup_offset);
                self.dedup_cursor = c;
                self.dedup_offset = o;
            },
            Screen::OrganizePreview => {
                let (c, o) = step_up(self.organize_cursor, self.organize_offset);
                self.organize_cursor = c;
                self.organize_offset = o;
            },
            _ => {},
        }
    }

    pub fn scroll_down(&mut self, visible: usize)
        requires
            scroll_down_defined(*old(self), visible as int),
        ensures
            *final(self) == scrolled_down(*old(self), visible as int),
    {
        match &self.screen {
            Screen::ScanResults => {
                let (c, o) = step_down(
                    self.scan_cursor,
                    self.scan_offset,
                    self.scan_files.len(),
                    visible,
                );
                self.scan_cursor = c;
                self.scan_offset = o;
            },
            Screen::DedupResults => {
                let len = self.dedup_flat_len();
                let (c, o) = step_down(self.dedup_cursor, self.dedup_offset, len, visible);
                self.dedup_cursor = c;
                self.dedup_offset = o;
            },
            Screen::OrganizePreview => {
                let (c, o) = step_down(
                    self.organize_cursor,
                    self.organize_offset,
                    self.planned_moves.len(),
                    visible,
                );
                self.organize_cursor = c;
                self.organize_offset = o;
            },
            _ => {},
        }
    }

    /// Toggle delete decision for the dup currently under the cursor.
    pub fn dedup_toggle(&mut self)
        requires
            toggle_defined(old(self).dedup_groups@, old(self).dedup_decisions@, old(self).dedup_cursor as int),
            total_rows(old(self).dedup_groups@) <= usize::MAX,
        ensures
            final(self).dedup_decisions@ == toggle_spec(
                old(self).dedup_groups@,
                old(self).dedup_decisions@,
                old(self).dedup_cursor as int,
            ),
            *final(self) == (App { dedup_decisions: final(self).dedup_decisions, ..*old(self) }),
    {
        match locate_row(&self.dedup_groups, self.dedup_cursor) {
            Some((_g, i, dec)) => {
                if i > 0 {
                    let nd = self.dedup_decisions.len();
                    assert(dec + (i - 1) < nd);
                    let k = dec + (i - 1);
                    let cur = self.dedup_decisions[k];
                    self.dedup_decisions.set(k, !cur);
                }
            },
            None => {},
        }
    }
}

/// The row `row` of the flat view: its group, its position in the group,
/// and the number of duplicates in the groups before.
pub fn locate_row(groups: &Vec<Vec<String>>, row: usize) -> (r: Option<(usize, usize, usize)>)
    requires
        total_rows(groups@) <= usize::MAX,
    ensures
        r matches Some((g, i, d)) ==> row < row_refs(groups@).len() && row_refs(groups@)[row as int]
            == (g as int, i as int) && d == total_dups(groups@.take(g as int)) && g
            < groups@.len() && i < groups@[g as int]@.len(),
        r is None ==> row >= row_refs(groups@).len(),
{
    let ghost gs = groups@;
    let mut flat: usize = 0;
    let mut dec: usize = 0;
    let mut g: usize = 0;
    while g < groups.len()
        invariant
            gs == groups@,
            g <= gs.len(),
            flat == total_rows(gs.take(g as int)),
            dec == total_dups(gs.take(g as int)),
            flat <= row,
            total_rows(gs) <= usize::MAX,
        decreases gs.len() - g,
    {
        let n = groups[g].len();
        proof {
            lemma_row_refs_take(gs, g as int);
            lemma_total_rows_mono(gs, g + 1);
            lemma_total_dups_le_rows(gs.take(g as int));
        }
        if row < flat + n {
            let i = row - flat;
            proof {
                lemma_row_refs_prefix(gs, g + 1);
                lemma_row_refs_prefix(gs, g as int);
                assert(row_refs(gs.take(g + 1))[row as int] == (g as int, i as int));
            }
            return Some((g, i, dec));
        }
        flat = flat + n;
        if n > 0 {
            dec = dec + (n - 1);
        }
        g += 1;
    }
    proof {
        lemma_total_rows_take(gs);
        lemma_row_refs_len(gs);
    }
    None
}

/// There are no more duplicates than rows.
pub(crate) proof fn lemma_total_dups_le_rows(groups: Seq<Vec<String>>)
    ensures
        total_dups(groups) <= total_rows(groups),
    decreases groups.len(),
{
    if groups.len() > 0 {
        lemma_total_dups_le_rows(groups.drop_last());
    }
}


/// The text of each path of each group.
pub open spec fn groups_view(groups: Seq<Vec<String>>) -> Seq<Seq<Seq<char>>> {
    groups.map_values(|g: Vec<String>| g@.map_values(|p: String| p@))
}

/// The state and command after key `key` on the home screen.
pub open spec fn home_key_effect(a: App, b: App, key: Key, cmd: Command) -> bool {
    match key {
        Key::Char('q') => b == App { should_quit: true, ..a } && cmd == Command::Nothing,
        Key::Left => b == App { selected_action: prev_action(a.selected_action), ..a } && cmd
            == Command::Nothing,
        Key::Right => b == App { selected_action: next_action(a.selected_action), ..a } && cmd
            == Command::Nothing,
        Key::Tab => b == App {
            focused_field: if a.selected_action == Action::Organize {
                (1 - a.focused_field) as usize
            } else {
                0
            },
            ..a
        } && cmd == Command::Nothing,
        Key::Char('r') => b == App { recursive: !a.recursive, ..a } && cmd == Command::Nothing,
        Key::Char('c') => b == App { copy_mode: !a.copy_mode, ..a } && cmd == Command::Nothing,
        Key::Char(ch) => cmd == Command::Nothing && if a.focused_field == 0 {
            b.src_input@ == a.src_input@.push(ch) && b == App { src_input: b.src_input, ..a }
        } else {
            b.dest_input@ == a.dest_input@.push(ch) && b == App { dest_input: b.dest_input, ..a }
        },
        Key::Backspace => cmd == Command::Nothing && if a.focused_field == 0 {
            b.src_input@ == (if a.src_input@.len() > 0 {
                a.src_input@.drop_last()
            } else {
                a.src_input@
            }) && b == App { src_input: b.src_input, ..a }
        } else {
            b.dest_input@ == (if a.dest_input@.len() > 0 {
                a.dest_input@.drop_last()
            } else {
                a.dest_input@
            }) && b == App { dest_input: b.dest_input, ..a }
        },
        Key::Enter => b == a && cmd == Command::RunAction,
        _ => b == a && cmd == Command::Nothing,
    }
}

/// Keys on the home screen stay within machine integers: Tab on the organize
/// action needs the focused field to be 0 or 1.
pub open spec fn home_key_defined(a: App, key: Key) -> bool {
    key == Key::Tab && a.selected_action == Action::Organize ==> a.focused_field <= 1
}

/// The duplicates of group `g` marked for deletion, where the decisions of
/// the group start at `base`.
pub open spec fn marked_dups(g: Seq<String>, decisions: Seq<bool>, base: int) -> Seq<Seq<char>>
    decreases g.len(),
{
    if g.len() <= 1 {
        seq![]
    } else {
        marked_dups(g.drop_last(), decisions, base) + (if decisions[base + g.len() - 2] {
            seq![g.last()@]
        } else {
            seq![]
        })
    }
}

/// The groups to delete from once the decisions are applied: each group's
/// first path, then its duplicates marked for deletion, for the groups that
/// have any marked.
pub open spec fn deletion_groups(groups: Seq<Vec<String>>, decisions: Seq<bool>) -> Seq<
    Seq<Seq<char>>,
>
    decreases groups.len(),
{
    if groups.len() == 0 {
        seq![]
    } else {
        let prev = deletion_groups(groups.drop_last(), decisions);
        let g = groups.last()@;
        let del = seq![g[0]@] + marked_dups(g, decisions, total_dups(groups.drop_last()) as int);
        if del.len() > 1 {
            prev.push(del)
        } else {
            prev
        }
    }
}

/// Applying the decisions reads only what exists: every group has a first
/// path and every duplicate has a decision.
pub open spec fn deletions_defined(groups: Seq<Vec<String>>, decisions: Seq<bool>) -> bool {
    &&& forall|k: int| 0 <= k < groups.len() ==> #[trigger] groups[k]@.len() > 0
    &&& total_dups(groups) <= decisions.len()
}

/// The state and command after key `key` on the dedup screen.
pub open spec fn dedup_key_effect(a: App, b: App, key: Key, cmd: Command) -> bool {
    match key {
        Key::Up => b == scrolled_up(a) && cmd == Command::Nothing,
        Key::Down => b == scrolled_down(a, KEY_SCROLL_ROWS as int) && cmd == Command::Nothing,
        Key::Char(' ') => b.dedup_decisions@ == toggle_spec(
            a.dedup_groups@,
            a.dedup_decisions@,
            a.dedup_cursor as int,
        ) && b == App { dedup_decisions: b.dedup_decisions, ..a } && cmd == Command::Nothing,
        Key::Char('q') | Key::Esc => b == App { screen: Screen::Home, ..a } && cmd
            == Command::Nothing,
        Key::Enter => b == a && (cmd matches Command::ApplyDeletions(gs) && groups_view(gs@)
            == deletion_groups(a.dedup_groups@, a.dedup_decisions@)),
        _ => b == a && cmd == Command::Nothing,
    }
}

/// Keys on the dedup screen read only what exists.
pub open spec fn dedup_key_defined(a: App, key: Key) -> bool {
    &&& total_rows(a.dedup_groups@) <= usize::MAX
    &&& key == Key::Down ==> scroll_down_defined(a, KEY_SCROLL_ROWS as int)
    &&& key == Key::Char(' ') ==> toggle_defined(
        a.dedup_groups@,
        a.dedup_decisions@,
        a.dedup_cursor as int,
    )
    &&& key == Key::Enter ==> deletions_defined(a.dedup_groups@, a.dedup_decisions@)
}

/// A copy of a path.
fn clone_path(p: &String) -> (r: String)
    ensures
        r@ == p@,
{
    p.clone()
}

impl App {
    /// Handles a key on the home screen.
    pub fn handle_home(&mut self, key: Key) -> (cmd: Command)
        requires
            home_key_defined(*old(self), key),
        ensures
            home_key_effect(*old(self), *final(self), key, cmd),
    {
        match key {
            Key::Char('q') => {
                self.should_quit = true;
            },
            Key::Left => {
                self.selected_action = match self.selected_action {
                    Action::Scan => Action::Organize,
                    Action::Dedup => Action::Scan,
                    Action::Organize => Action::Dedup,
                };
            },
            Key::Right => {
                self.selected_action = match self.selected_action {
                    Action::Scan => Action::Dedup,
                    Action::Dedup => Action::Organize,
                    Action::Organize => Action::Scan,
                };
            },
            Key::Tab => {
                self.focused_field = match self.selected_action {
                    Action::Organize => 1 - self.focused_field,
                    _ => 0,
                };
            },
            Key::Char('r') => {
                self.recursive = !self.recursive;
            },
            Key::Char('c') => {
                self.copy_mode = !self.copy_mode;
            },
            Key::Char(ch) => {
                if self.focused_field == 0 {
                    string_push(&mut self.src_input, ch);
                } else {
                    string_push(&mut self.dest_input, ch);
                }
            },
            Key::Backspace => {
                if self.focused_field == 0 {
                    string_pop(&mut self.src_input);
                } else {
                    string_pop(&mut self.dest_input);
                }
            },
            Key::Enter => {
                return Command::RunAction;
            },
            _ => {},
        }
        Command::Nothing
    }

    /// Handles a key on the scan results screen.
    pub fn handle_scan(&mut self, key: Key)
        requires
            old(self).screen == Screen::ScanResults,
            key == Key::Down ==> scroll_down_defined(*old(self), KEY_SCROLL_ROWS as int),
        ensures
            scan_key_effect(*old(self), *final(self), key),
    {
        match key {
            Key::Up => self.scroll_up(KEY_SCROLL_ROWS),
            Key::Down => self.scroll_down(KEY_SCROLL_ROWS),
            Key::Char('q') | Key::Esc => {
                self.screen = Screen::Home;
            },
            _ => {},
        }
    }

    /// The groups to delete from, as the decisions stand.
    pub fn deletion_groups(&self) -> (r: Vec<Vec<String>>)
        requires
            deletions_defined(self.dedup_groups@, self.dedup_decisions@),
        ensures
            groups_view(r@) == deletion_groups(self.dedup_groups@, self.dedup_decisions@),
    {
        let ghost groups = self.dedup_groups@;
        let ghost decisions = self.dedup_decisions@;
        let mut to_delete: Vec<Vec<String>> = Vec::new();
        let mut dec_idx: usize = 0;
        let mut g: usize = 0;
        let nd = self.dedup_decisions.len();
        proof {
            lemma_total_dups_mono(groups, 0);
        }
        while g < self.dedup_groups.len()
            invariant
                groups == self.dedup_groups@,
                decisions == self.dedup_decisions@,
                deletions_defined(groups, decisions),
                nd == decisions.len(),
                g <= groups.len(),
                dec_idx == total_dups(groups.take(g as int)),
                groups_view(to_delete@) == deletion_groups(groups.take(g as int), decisions),
            decreases groups.len() - g,
        {
            let group = &self.dedup_groups[g];
            assert(group@.len() > 0);
            proof {
                lemma_row_refs_take(groups, g as int);
                lemma_total_dups_mono(groups, g + 1);
                assert(groups.take(g + 1).drop_last() =~= groups.take(g as int));
                assert(groups.take(g + 1).last() == groups[g as int]);
            }
            let mut del_group: Vec<String> = Vec::new();
            del_group.push(clone_path(&group[0]));
            let mut i: usize = 1;
            while i < group.len()
                invariant
                    groups == self.dedup_groups@,
                    decisions == self.dedup_decisions@,
                    g < groups.len(),
                    *group == groups[g as int],
                    nd == decisions.len(),
                    1 <= i <= group@.len(),
                    dec_idx + (group@.len() - 1) <= decisions.len(),
                    del_group@.map_values(|p: String| p@) == seq![group@[0]@] + marked_dups(
                        group@.take(i as int),
                        decisions,
                        dec_idx as int,
                    ),
                decreases group@.len() - i,
            {
                let ghost before = del_group@;
                assert(group@.take(i + 1).drop_last() =~= group@.take(i as int));
                if self.dedup_decisions[dec_idx + (i - 1)] {
                    del_group.push(clone_path(&group[i]));
                    assert(del_group@.map_values(|p: String| p@) =~= before.map_values(
                        |p: String| p@,
                    ).push(group@[i as int]@));
                }
                i += 1;
            }
            assert(group@.take(i as int) =~= group@);
            let n = group.len();
            if del_group.len() > 1 {
                let ghost before = to_delete@;
                to_delete.push(del_group);
                assert(groups_view(to_delete@) =~= groups_view(before).push(
                    del_group@.map_values(|p: String| p@),
                ));
            }
            dec_idx = dec_idx + (n - 1);
            g += 1;
        }
        assert(groups.take(g as int) =~= groups);
        to_delete
    }

    /// Handles a key on the dedup results screen.
    pub fn handle_dedup(&mut self, key: Key) -> (cmd: Command)
        requires
            old(self).screen == Screen::DedupResults,
            dedup_key_defined(*old(self), key),
        ensures
            dedup_key_effect(*old(self), *final(self), key, cmd),
    {
        match key {
            Key::Up => self.scroll_up(KEY_SCROLL_ROWS),
            Key::Down => self.scroll_down(KEY_SCROLL_ROWS),
            Key::Char(' ') => self.dedup_toggle(),
            Key::Char('q') | Key::Esc => {
                self.screen = Screen::Home;
            },
            Key::Enter => {
                return Command::ApplyDeletions(self.deletion_groups());
            },
            _ => {},
        }
        Command::Nothing
    }

    /// Handles a key on the organize preview screen.
    pub fn handle_organize(&mut self, key: Key) -> (cmd: Command)
        requires
            old(self).screen == Screen::OrganizePreview,
            key == Key::Down ==> scroll_down_defined(*old(self), KEY_SCROLL_ROWS as int),
        ensures
            organize_key_effect(*old(self), *final(self), key, cmd),
    {
        match key {
            Key::Up => self.scroll_up(KEY_SCROLL_ROWS),
            Key::Down => self.scroll_down(KEY_SCROLL_ROWS),
            Key::Char('q') | Key::Esc => {
                self.screen = Screen::Home;
            },
            Key::Enter => {
                if !self.organize_done {
                    return Command::RunOrganize;
                }
            },
            _ => {},
        }
        Command::Nothing
    }
}

/// The duplicates of a prefix of the groups are no more than all duplicates.
proof fn lemma_total_dups_mono(groups: Seq<Vec<String>>, k: int)
    requires
        0 <= k <= groups.len(),
    ensures
        total_dups(groups.take(k)) <= total_dups(groups),
    decreases groups.len() - k,
{
    if k < groups.len() {
        lemma_total_dups_mono(groups, k + 1);
        lemma_row_refs_take(groups, k);
    } else {
        assert(groups.take(k) =~= groups);
    }
}


/// The state after key `key` on the scan results screen.
pub open spec fn scan_key_effect(a: App, b: App, key: Key) -> bool {
    match key {
        Key::Up => b == scrolled_up(a),
        Key::Down => b == scrolled_down(a, KEY_SCROLL_ROWS as int),
        Key::Char('q') | Key::Esc => b == App { screen: Screen::Home, ..a },
        _ => b == a,
    }
}

/// The state and command after key `key` on the organize preview screen.
pub open spec fn organize_key_effect(a: App, b: App, key: Key, cmd: Command) -> bool {
    match key {
        Key::Up => b == scrolled_up(a) && cmd == Command::Nothing,
        Key::Down => b == scrolled_down(a, KEY_SCROLL_ROWS as int) && cmd == Command::Nothing,
        Key::Char('q') | Key::Esc => b == App { screen: Screen::Home, ..a } && cmd
            == Command::Nothing,
        Key::Enter => b == a && cmd == (if a.organize_done {
            Command::Nothing
        } else {
            Command::RunOrganize
        }),
        _ => b == a && cmd == Command::Nothing,
    }
}

/// The key can be handled on the current screen without reading what does
/// not exist.
pub open spec fn key_defined(a: App, key: Key) -> bool {
    match a.screen {
        Screen::Home => home_key_defined(a, key),
        Screen::ScanResults => key == Key::Down ==> scroll_down_defined(a, KEY_SCROLL_ROWS as int),
        Screen::DedupResults => dedup_key_defined(a, key),
        Screen::OrganizePreview => key == Key::Down ==> scroll_down_defined(
            a,
            KEY_SCROLL_ROWS as int,
        ),
        _ => true,
    }
}

/// The state and command after key `key`, on whatever screen is shown.
pub open spec fn key_effect(a: App, b: App, key: Key, cmd: Command) -> bool {
    match a.screen {
        Screen::Home => home_key_effect(a, b, key, cmd),
        Screen::ScanResults => scan_key_effect(a, b, key) && cmd == Command::Nothing,
        Screen::DedupResults => dedup_key_effect(a, b, key, cmd),
        Screen::OrganizePreview => organize_key_effect(a, b, key, cmd),
        Screen::Modal { .. } => b == App { screen: Screen::Home, ..a } && cmd == Command::Nothing,
        Screen::Working { .. } => b == a && cmd == Command::Nothing,
    }
}

impl App {
    /// Handles a key on whatever screen is shown; any key dismisses a modal
    /// message, and no key does anything while work is running.
    pub fn handle_key(&mut self, key: Key) -> (cmd: Command)
        requires
            key_defined(*old(self), key),
        ensures
            key_effect(*old(self), *final(self), key, cmd),
    {
        match &self.screen {
            Screen::Home => self.handle_home(key),
            Screen::ScanResults => {
                self.handle_scan(key);
                Command::Nothing
            },
            Screen::DedupResults => self.handle_dedup(key),
            Screen::OrganizePreview => self.handle_organize(key),
            Screen::Modal { .. } => {
                self.screen = Screen::Home;
                Command::Nothing
            },
            Screen::Working { .. } => Command::Nothing,
        }
    }
}


/// Moving down and then up one row brings the cursor back, unless the
/// cursor was already on the last row.
pub proof fn law_scroll_down_then_up(cursor: int, offset: int, len: int, visible: int)
    requires
        0 <= cursor < len - 1,
    ensures
        scroll_up_spec(
            scroll_down_spec(cursor, offset, len, visible).0,
            scroll_down_spec(cursor, offset, len, visible).1,
        ).0 == cursor,
{
}

/// Scrolling keeps the cursor on a row of the list and inside the window of
/// `visible` rows that starts at the offset.
pub proof fn law_scroll_keeps_cursor_visible(cursor: int, offset: int, len: int, visible: int)
    requires
        visible > 0,
        0 <= offset <= cursor < offset + visible,
        cursor < len || cursor == 0,
    ensures
        ({
            let (c, o) = scroll_down_spec(cursor, offset, len, visible);
            0 <= o <= c < o + visible && (c < len || c == 0)
        }),
        ({
            let (c, o) = scroll_up_spec(cursor, offset);
            0 <= o <= c < o + visible && (c < len || c == 0)
        }),
{
}

/// Toggling the same row twice restores every decision.
pub proof fn law_toggle_twice(groups: Seq<Vec<String>>, decisions: Seq<bool>, cursor: int)
    requires
        toggle_defined(groups, decisions, cursor),
    ensures
        toggle_spec(groups, toggle_spec(groups, decisions, cursor), cursor) == decisions,
{
    let rows = row_refs(groups);
    if 0 <= cursor < rows.len() && rows[cursor].1 > 0 {
        let k = decision_index(groups, rows[cursor].0, rows[cursor].1);
        assert(decisions.update(k, !decisions[k]).update(k, decisions[k]) =~= decisions);
    }
}

/// A toggle changes at most one decision, the one under the cursor, and
/// never the number of decisions.
pub proof fn law_toggle_changes_one(groups: Seq<Vec<String>>, decisions: Seq<bool>, cursor: int, j: int)
    requires
        toggle_defined(groups, decisions, cursor),
        0 <= j < decisions.len(),
        !(0 <= cursor < row_refs(groups).len() && row_refs(groups)[cursor].1 > 0 && j
            == decision_index(groups, row_refs(groups)[cursor].0, row_refs(groups)[cursor].1)),
    ensures
        toggle_spec(groups, decisions, cursor).len() == decisions.len(),
        toggle_spec(groups, decisions, cursor)[j] == decisions[j],
{
}

/// The duplicates marked for deletion, group after group.
pub open spec fn all_marked(groups: Seq<Vec<String>>, decisions: Seq<bool>) -> Seq<Seq<char>>
    decreases groups.len(),
{
    if groups.len() == 0 {
        seq![]
    } else {
        all_marked(groups.drop_last(), decisions) + marked_dups(
            groups.last()@,
            decisions,
            total_dups(groups.drop_last()) as int,
        )
    }
}

/// Applying the decisions on the dedup screen deletes exactly the
/// duplicates marked for deletion, in the order shown: the first path of a
/// group is kept, and so is every duplicate not marked.
pub proof fn law_deletions_are_the_marked(groups: Seq<Vec<String>>, decisions: Seq<bool>)
    requires
        deletions_defined(groups, decisions),
    ensures
        deletion_targets_spec(deletion_groups(groups, decisions)) == all_marked(groups, decisions),
    decreases groups.len(),
{
    if groups.len() > 0 {
        let rest = groups.drop_last();
        assert forall|k: int| 0 <= k < rest.len() implies #[trigger] rest[k]@.len() > 0 by {
            assert(rest[k] == groups[k]);
        }
        lemma_row_refs_take(groups, groups.len() - 1);
        assert(groups.take(groups.len() - 1) =~= rest);
        assert(groups.take(groups.len() as int) =~= groups);
        law_deletions_are_the_marked(rest, decisions);
        let g = groups.last()@;
        assert(g.len() > 0) by {
            assert(groups[groups.len() - 1]@.len() > 0);
        }
        let m = marked_dups(g, decisions, total_dups(rest) as int);
        let del = seq![g[0]@] + m;
        let prev = deletion_groups(rest, decisions);
        assert(all_marked(groups, decisions) == all_marked(rest, decisions) + m);
        if del.len() > 1 {
            assert(deletion_groups(groups, decisions) == prev.push(del));
            assert(prev.push(del).drop_last() =~= prev);
            assert(del.subrange(1, del.len() as int) =~= m);
        } else {
            assert(deletion_groups(groups, decisions) == prev);
            assert(m =~= Seq::<Seq<char>>::empty());
            assert(all_marked(rest, decisions) + m =~= all_marked(rest, decisions));
        }
    }
}

/// On the organize action, Tab twice gives the focus back to the field
/// that had it.
pub proof fn law_tab_twice(a: App, b: App, c: App, cmd1: Command, cmd2: Command)
    requires
        a.selected_action == Action::Organize,
        a.focused_field <= 1,
        home_key_effect(a, b, Key::Tab, cmd1),
        home_key_effect(b, c, Key::Tab, cmd2),
    ensures
        c == a,
{
}

/// Backspace takes back the character just typed into a field.
pub proof fn law_backspace_undoes_typing(a: App, b: App, c: App, ch: char, cmd1: Command, cmd2: Command)
    requires
        ch != 'q' && ch != 'r' && ch != 'c',
        home_key_effect(a, b, Key::Char(ch), cmd1),
        home_key_effect(b, c, Key::Backspace, cmd2),
    ensures
        c.src_input@ == a.src_input@,
        c.dest_input@ == a.dest_input@,
        c == (App { src_input: c.src_input, dest_input: c.dest_input, ..a }),
{
    if a.focused_field == 0 {
        assert(a.src_input@.push(ch).drop_last() =~= a.src_input@);
    } else {
        assert(a.dest_input@.push(ch).drop_last() =~= a.dest_input@);
    }
}

/// Left undoes right on the action picker, and three steps right come back
/// to the start.
pub proof fn law_action_cycle(a: Action)
    ensures
        prev_action(next_action(a)) == a,
        next_action(prev_action(a)) == a,
        next_action(next_action(next_action(a))) == a,
{
}


/// Screen `s` is a modal message with this title and body.
pub open spec fn is_modal(s: Screen, title: Seq<char>, body: Seq<char>) -> bool {
    s matches Screen::Modal { title: t, body: b } && t@ == title && b@ == body
}

/// The message shown while an action runs on the folder `shown`.
pub open spec fn working_message(a: Action, shown: Seq<char>) -> Seq<char> {
    match a {
        Action::Dedup => "Scanning & hashing "@ + shown + "\u{2026}"@,
        _ => "Scanning "@ + shown + "\u{2026}"@,
    }
}

/// The body of the message after an organize run.
pub open spec fn organize_done_body(moved: nat, errors: nat, copy_mode: bool) -> Seq<char> {
    decimal(moved) + " files "@ + (if copy_mode {
        "copied"@
    } else {
        "moved"@
    }) + ".\n"@ + decimal(errors) + " errors."@
}

impl App {
    /// The source folder as typed, without surrounding white space.
    pub fn src_path_text(&self) -> (r: String)
        ensures
            r@ == strip_both(self.src_input@, Strip::WhiteSpace),
    {
        strip_str(self.src_input.as_str(), Strip::WhiteSpace)
    }

    /// The destination folder as typed, without surrounding white space.
    pub fn dest_path_text(&self) -> (r: String)
        ensures
            r@ == strip_both(self.dest_input@, Strip::WhiteSpace),
    {
        strip_str(self.dest_input.as_str(), Strip::WhiteSpace)
    }

    /// Reports that the source folder is not a folder.
    pub fn show_not_a_directory(&mut self)
        ensures
            is_modal(
                final(self).screen,
                "Error"@,
                "Not a directory:\n"@ + strip_both(old(self).src_input@, Strip::WhiteSpace),
            ),
            *final(self) == (App { screen: final(self).screen, ..*old(self) }),
    {
        let src = self.src_path_text();
        let mut body = "Not a directory:\n".to_owned();
        body.append(src.as_str());
        self.screen = Screen::Modal { title: "Error".to_owned(), body };
    }

    /// Reports that no destination folder was given.
    pub fn show_missing_destination(&mut self)
        ensures
            is_modal(final(self).screen, "Error"@, "Please enter a destination directory."@),
            *final(self) == (App { screen: final(self).screen, ..*old(self) }),
    {
        self.screen = Screen::Modal {
            title: "Error".to_owned(),
            body: "Please enter a destination directory.".to_owned(),
        };
    }

    /// Shows that the selected action is running on the source folder.
    pub fn show_working(&mut self)
        ensures
            final(self).screen matches Screen::Working { message: m } && m@ == working_message(
                old(self).selected_action,
                strip_both(old(self).src_input@, Strip::WhiteSpace),
            ),
            *final(self) == (App { screen: final(self).screen, ..*old(self) }),
    {
        let src = self.src_path_text();
        let mut message = match self.selected_action {
            Action::Dedup => "Scanning & hashing ".to_owned(),
            _ => "Scanning ".to_owned(),
        };
        message.append(src.as_str());
        message.append("\u{2026}");
        self.screen = Screen::Working { message };
    }

    /// Shows the files found by a scan, from the top.
    pub fn show_scan_results(&mut self, files: Vec<String>)
        ensures
            *final(self) == (App {
                scan_files: files,
                scan_cursor: 0,
                scan_offset: 0,
                screen: Screen::ScanResults,
                ..*old(self)
            }),
    {
        self.scan_files = files;
        self.scan_cursor = 0;
        self.scan_offset = 0;
        self.screen = Screen::ScanResults;
    }

    /// Shows the duplicate groups found, every duplicate marked for
    /// deletion, or a message when there are none.
    pub fn show_dedup_results(&mut self, groups: Vec<Vec<String>>)
        requires
            forall|k: int| 0 <= k < groups@.len() ==> (#[trigger] groups@[k])@.len() > 0,
            total_dups(groups@) <= usize::MAX,
        ensures
            final(self).dedup_groups == groups,
            final(self).dedup_decisions@ == Seq::new(total_dups(groups@), |i: int| true),
            final(self).dedup_cursor == 0,
            final(self).dedup_offset == 0,
            groups@.len() == 0 ==> is_modal(final(self).screen, "Dedup"@, "No duplicates found."@),
            groups@.len() > 0 ==> final(self).screen == Screen::DedupResults,
            *final(self) == (App {
                screen: final(self).screen,
                dedup_groups: final(self).dedup_groups,
                dedup_decisions: final(self).dedup_decisions,
                dedup_cursor: 0,
                dedup_offset: 0,
                ..*old(self)
            }),
    {
        let mut total: usize = 0;
        let mut g: usize = 0;
        while g < groups.len()
            invariant
                g <= groups@.len(),
                total == total_dups(groups@.take(g as int)),
                total_dups(groups@) <= usize::MAX,
                forall|k: int| 0 <= k < groups@.len() ==> (#[trigger] groups@[k])@.len() > 0,
            decreases groups@.len() - g,
        {
            proof {
                lemma_total_dups_step(groups@, g as int);
            }
            assert(groups@[g as int]@.len() > 0);
            total = total + (groups[g].len() - 1);
            g += 1;
        }
        assert(groups@.take(g as int) =~= groups@);
        let decisions = vec![true; total];
        assert(decisions@ =~= Seq::new(total_dups(groups@), |i: int| true));
        let empty = groups.len() == 0;
        self.dedup_decisions = decisions;
        self.dedup_groups = groups;
        self.dedup_cursor = 0;
        self.dedup_offset = 0;
        if empty {
            self.screen = Screen::Modal {
                title: "Dedup".to_owned(),
                body: "No duplicates found.".to_owned(),
            };
        } else {
            self.screen = Screen::DedupResults;
        }
    }

    /// Shows the planned moves of an organize run, from the top.
    pub fn show_organize_preview(&mut self, moves: Vec<PlannedMove>)
        ensures
            *final(self) == (App {
                planned_moves: moves,
                organize_cursor: 0,
                organize_offset: 0,
                organize_done: false,
                screen: Screen::OrganizePreview,
                ..*old(self)
            }),
    {
        self.planned_moves = moves;
        self.organize_cursor = 0;
        self.organize_offset = 0;
        self.organize_done = false;
        self.screen = Screen::OrganizePreview;
    }

    /// Reports how many duplicates were deleted.
    pub fn show_deletions_done(&mut self, n: usize)
        ensures
            is_modal(
                final(self).screen,
                "Dedup done"@,
                "Deleted "@ + decimal(n as nat) + " duplicate files."@,
            ),
            *final(self) == (App { screen: final(self).screen, ..*old(self) }),
    {
        let mut body = "Deleted ".to_owned();
        let d = decimal_string(n);
        body.append(d.as_str());
        body.append(" duplicate files.");
        self.screen = Screen::Modal { title: "Dedup done".to_owned(), body };
    }

    /// Marks the organize run done and reports its counts.
    pub fn show_organize_done(&mut self, moved: usize, errors: usize)
        ensures
            final(self).organize_done,
            is_modal(
                final(self).screen,
                "Organize done"@,
                organize_done_body(moved as nat, errors as nat, old(self).copy_mode),
            ),
            *final(self) == (App {
                screen: final(self).screen,
                organize_done: true,
                ..*old(self)
            }),
    {
        let mut body = decimal_string(moved);
        body.append(" files ");
        if self.copy_mode {
            body.append("copied");
        } else {
            body.append("moved");
        }
        body.append(".\n");
        let e = decimal_string(errors);
        body.append(e.as_str());
        body.append(" errors.");
        self.organize_done = true;
        self.screen = Screen::Modal { title: "Organize done".to_owned(), body };
    }
}

/// Work that the selected action asks of the caller, once its folders are
/// known to be usable.
#[derive(Debug, Clone, PartialEq)]
pub enum Work {
    /// Nothing more: a message is shown instead.
    Nothing,
    /// List the media files under `src`.
    Scan { src: String, recursive: bool },
    /// Find the duplicate media files under `src`.
    Dedup { src: String, recursive: bool },
    /// Plan where the media files under `src` go in `dest`.
    Organize { src: String, dest: String, recursive: bool },
}

/// The state and work after Enter on the home screen, where `src_is_dir`
/// tells whether the source folder, as typed without surrounding white
/// space, is a directory.
pub open spec fn run_action_effect(a: App, b: App, src_is_dir: bool, w: Work) -> bool {
    let src = strip_both(a.src_input@, Strip::WhiteSpace);
    let dest = strip_both(a.dest_input@, Strip::WhiteSpace);
    &&& b == App { screen: b.screen, ..a }
    &&& if !src_is_dir {
        is_modal(b.screen, "Error"@, "Not a directory:\n"@ + src) && w == Work::Nothing
    } else if a.selected_action == Action::Organize && dest.len() == 0 {
        is_modal(b.screen, "Error"@, "Please enter a destination directory."@) && w
            == Work::Nothing
    } else {
        &&& b.screen matches Screen::Working { message: m } && m@ == working_message(
            a.selected_action,
            src,
        )
        &&& match a.selected_action {
            Action::Scan => w matches Work::Scan { src: s, recursive: r } && s@ == src && r
                == a.recursive,
            Action::Dedup => w matches Work::Dedup { src: s, recursive: r } && s@ == src && r
                == a.recursive,
            Action::Organize => w matches Work::Organize { src: s, dest: d, recursive: r } && s@
                == src && d@ == dest && r == a.recursive,
        }
    }
}

impl App {
    /// Runs the selected action as far as the state goes: an unusable
    /// source folder, or a missing destination for organize, is reported;
    /// otherwise the working message is shown and the work to do returned.
    pub fn run_action(&mut self, src_is_dir: bool) -> (w: Work)
        ensures
            run_action_effect(*old(self), *final(self), src_is_dir, w),
    {
        if !src_is_dir {
            self.show_not_a_directory();
            return Work::Nothing;
        }
        let recursive = self.recursive;
        match self.selected_action {
            Action::Scan => {
                self.show_working();
                Work::Scan { src: self.src_path_text(), recursive }
            },
            Action::Dedup => {
                self.show_working();
                Work::Dedup { src: self.src_path_text(), recursive }
            },
            Action::Organize => {
                let dest = self.dest_path_text();
                if dest.unicode_len() == 0 {
                    self.show_missing_destination();
                    Work::Nothing
                } else {
                    self.show_working();
                    Work::Organize { src: self.src_path_text(), dest, recursive }
                }
            },
        }
    }
}

/// The duplicates of one more group.
pub(crate) proof fn lemma_total_dups_step(groups: Seq<Vec<String>>, k: int)
    requires
        0 <= k < groups.len(),
    ensures
        total_dups(groups.take(k + 1)) == total_dups(groups.take(k)) + (if groups[k]@.len() > 0 {
            (groups[k]@.len() - 1) as nat
        } else {
            0
        }),
        total_dups(groups.take(k + 1)) <= total_dups(groups),
{
    lemma_row_refs_take(groups, k);
    lemma_total_dups_mono(groups, k + 1);
}


impl App {
    /// The number of duplicates in the dedup groups: all paths but the first
    /// of each group.
    pub fn total_dup_count(&self) -> (r: usize)
        requires
            total_rows(self.dedup_groups@) <= usize::MAX,
            forall|k: int|
                0 <= k < self.dedup_groups@.len() ==> (#[trigger] self.dedup_groups@[k])@.len() > 0,
        ensures
            r == total_dups(self.dedup_groups@),
    {
        let ghost gs = self.dedup_groups@;
        proof {
            lemma_total_dups_le_rows(gs);
        }
        let mut total: usize = 0;
        let mut g: usize = 0;
        while g < self.dedup_groups.len()
            invariant
                gs == self.dedup_groups@,
                g <= gs.len(),
                total == total_dups(gs.take(g as int)),
                total_dups(gs) <= usize::MAX,
                forall|k: int| 0 <= k < gs.len() ==> (#[trigger] gs[k])@.len() > 0,
            decreases gs.len() - g,
        {
            proof {
                lemma_total_dups_step(gs, g as int);
            }
            assert(gs[g as int]@.len() > 0);
            total = total + (self.dedup_groups[g].len() - 1);
            g += 1;
        }
        assert(gs.take(g as int) =~= gs);
        total
    }
}

} // verus!
