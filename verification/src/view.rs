//! What the interface lists show: the rows in the visible window, their
//! text and how each is marked, and the list titles.
use vstd::prelude::*;
use crate::number::{decimal, decimal_string};
use crate::path::{file_name, file_name_spec};
use vstd::utf8::encode_utf8;
use crate::tui::{
    decision_index, locate_row, row_refs, total_dups, total_rows, Action, App, PlannedMove,
};

verus! {

/// How a row is marked.
#[derive(Debug, Clone, Copy, PartialEq, Eq)]
pub enum Tone {
    /// An ordinary row.
    Plain,
    /// The row under the cursor.
    Cursor,
    /// A duplicate marked for deletion.
    MarkedDelete,
    /// A duplicate that is kept.
    KeptDup,
    /// The first path of a duplicate group, which is always kept.
    GroupHead,
}

/// One row of a list.
#[derive(Debug, Clone)]
pub struct ListRow {
    pub text: String,
    pub tone: Tone,
}

/// A list as shown: its title and the rows in the visible window.
#[derive(Debug, Clone)]
pub struct ListView {
    pub title: String,
    pub rows: Vec<ListRow>,
}

/// The first row shown: the offset, or the end of the list.
pub open spec fn window_start(len: int, offset: int) -> int {
    if offset < len {
        offset
    } else {
        len
    }
}

/// One past the last row shown.
pub open spec fn window_end(len: int, offset: int, visible: int) -> int {
    if offset + visible < len {
        offset + visible
    } else {
        len
    }
}

/// The first row shown and how many rows are shown.
fn window(len: usize, offset: usize, visible: usize) -> (r: (usize, usize))
    ensures
        r.0 == window_start(len as int, offset as int),
        r.0 + r.1 == window_end(len as int, offset as int, visible as int),
{
    let start = if offset < len {
        offset
    } else {
        len
    };
    let end = if offset < len && visible < len - offset {
        offset + visible
    } else {
        len
    };
    (start, end - start)
}

/// The title of the scan results for `n` files.
pub open spec fn scan_title(n: nat) -> Seq<char> {
    " Scan results \u{2014} "@ + decimal(n) + " files (\u{2191}/\u{2193} scroll, Esc/q back) "@
}

/// The title of the dedup results.
pub open spec fn dedup_title(groups: nat, dups: nat, marked: nat) -> Seq<char> {
    " Dedup \u{2014} "@ + decimal(groups) + " groups, "@ + decimal(dups) + " duplicates, "@
        + decimal(marked) + " marked for deletion "@
}

/// The title of the organize preview.
pub open spec fn organize_title(n: nat, done: bool) -> Seq<char> {
    let head = " Organize preview \u{2014} "@ + decimal(n) + " moves"@;
    (if done {
        head + " \u{2713} done"@
    } else {
        head
    }) + "  (Enter to confirm) "@
}

/// How many decisions are to delete.
pub open spec fn count_marked(d: Seq<bool>) -> nat
    decreases d.len(),
{
    if d.len() == 0 {
        0
    } else {
        count_marked(d.drop_last()) + if d.last() {
            1nat
        } else {
            0nat
        }
    }
}

/// Row `r` of the dedup list: the group's first path as kept, any other
/// path with its decision (a missing decision counts as delete).
pub open spec fn dedup_row_spec(
    groups: Seq<Vec<String>>,
    decisions: Seq<bool>,
    cursor: int,
    r: int,
) -> (Seq<char>, Tone) {
    let (g, i) = row_refs(groups)[r];
    let path = groups[g]@[i]@;
    if i == 0 {
        (
            "    "@ + "KEEP  "@ + path,
            if r == cursor {
                Tone::Cursor
            } else {
                Tone::GroupHead
            },
        )
    } else {
        let k = decision_index(groups, g, i);
        let del = if k < decisions.len() {
            decisions[k]
        } else {
            true
        };
        (
            (if del {
                "[x] "@
            } else {
                "[ ] "@
            }) + "  dup "@ + path,
            if r == cursor {
                Tone::Cursor
            } else if del {
                Tone::MarkedDelete
            } else {
                Tone::KeptDup
            },
        )
    }
}

/// Row `m` of the organize preview: the source file name (or `?`), an
/// arrow, and the destination.
pub open spec fn organize_row_text(m: PlannedMove) -> Seq<char> {
    (match file_name_spec(m.src@) {
        Some(n) => n,
        None => "?"@,
    }) + "  \u{2192}  "@ + m.dest@
}

/// The tone of row `r` in a list with the cursor at `cursor`.
pub open spec fn plain_tone(r: int, cursor: int) -> Tone {
    if r == cursor {
        Tone::Cursor
    } else {
        Tone::Plain
    }
}

/// The tone of a row.
fn tone_of(r: usize, cursor: usize) -> (t: Tone)
    ensures
        t == plain_tone(r as int, cursor as int),
{
    if r == cursor {
        Tone::Cursor
    } else {
        Tone::Plain
    }
}

/// How many decisions are to delete.
fn count_marked_exec(d: &Vec<bool>) -> (r: usize)
    ensures
        r == count_marked(d@),
{
    let mut c: usize = 0;
    let mut i: usize = 0;
    while i < d.len()
        invariant
            i <= d@.len(),
            c == count_marked(d@.take(i as int)),
            c <= i,
        decreases d@.len() - i,
    {
        assert(d@.take(i + 1).drop_last() =~= d@.take(i as int));
        if d[i] {
            c = c + 1;
        }
        i += 1;
    }
    assert(d@.take(i as int) =~= d@);
    c
}

impl App {
    /// The scan results list with `visible` rows shown.
    pub fn scan_view(&self, visible: usize) -> (v: ListView)
        ensures
            v.title@ == scan_title(self.scan_files@.len()),
            v.rows@.len() == window_end(
                self.scan_files@.len() as int,
                self.scan_offset as int,
                visible as int,
            ) - window_start(self.scan_files@.len() as int, self.scan_offset as int),
            forall|k: int|
                0 <= k < v.rows@.len() ==> {
                    let r = window_start(self.scan_files@.len() as int, self.scan_offset as int)
                        + k;
                    &&& (#[trigger] v.rows@[k]).text@ == self.scan_files@[r]@
                    &&& v.rows@[k].tone == plain_tone(r, self.scan_cursor as int)
                },
    {
        let n = self.scan_files.len();
        let (start, count) = window(n, self.scan_offset, visible);
        let mut rows: Vec<ListRow> = Vec::new();
        let mut k: usize = 0;
        while k < count
            invariant
                k <= count,
                start + count <= n,
                n == self.scan_files@.len(),
                start == window_start(self.scan_files@.len() as int, self.scan_offset as int),
                rows@.len() == k,
                forall|j: int|
                    0 <= j < k ==> (#[trigger] rows@[j]).text@ == self.scan_files@[start + j]@
                        && rows@[j].tone == plain_tone(start + j, self.scan_cursor as int),
            decreases count - k,
        {
            let r = start + k;
            rows.push(ListRow { text: self.scan_files[r].clone(), tone: tone_of(r, self.scan_cursor) });
            k += 1;
        }
        let mut title = " Scan results \u{2014} ".to_owned();
        let n = decimal_string(self.scan_files.len());
        title.append(n.as_str());
        title.append(" files (\u{2191}/\u{2193} scroll, Esc/q back) ");
        ListView { title, rows }
    }

    /// The organize preview list with `visible` rows shown.
    pub fn organize_view(&self, visible: usize) -> (v: ListView)
        ensures
            v.title@ == organize_title(self.planned_moves@.len(), self.organize_done),
            v.rows@.len() == window_end(
                self.planned_moves@.len() as int,
                self.organize_offset as int,
                visible as int,
            ) - window_start(self.planned_moves@.len() as int, self.organize_offset as int),
            forall|k: int|
                0 <= k < v.rows@.len() ==> {
                    let r = window_start(
                        self.planned_moves@.len() as int,
                        self.organize_offset as int,
                    ) + k;
                    &&& (#[trigger] v.rows@[k]).text@ == organize_row_text(self.planned_moves@[r])
                    &&& v.rows@[k].tone == plain_tone(r, self.organize_cursor as int)
                },
    {
        let n = self.planned_moves.len();
        let (start, count) = window(n, self.organize_offset, visible);
        let mut rows: Vec<ListRow> = Vec::new();
        let mut k: usize = 0;
        while k < count
            invariant
                k <= count,
                start + count <= n,
                n == self.planned_moves@.len(),
                start == window_start(self.planned_moves@.len() as int, self.organize_offset as int),
                rows@.len() == k,
                forall|j: int|
                    0 <= j < k ==> (#[trigger] rows@[j]).text@ == organize_row_text(
                        self.planned_moves@[start + j],
                    ) && rows@[j].tone == plain_tone(start + j, self.organize_cursor as int),
            decreases count - k,
        {
            let r = start + k;
            let m = &self.planned_moves[r];
            let mut text = match file_name(m.src.as_str()) {
                Some(n) => n,
                None => "?".to_owned(),
            };
            text.append("  \u{2192}  ");
            text.append(m.dest.as_str());
            rows.push(ListRow { text, tone: tone_of(r, self.organize_cursor) });
            k += 1;
        }
        let mut title = " Organize preview \u{2014} ".to_owned();
        let n = decimal_string(self.planned_moves.len());
        title.append(n.as_str());
        title.append(" moves");
        if self.organize_done {
            title.append(" \u{2713} done");
        }
        title.append("  (Enter to confirm) ");
        ListView { title, rows }
    }

    /// The dedup results list with `visible` rows shown.
    pub fn dedup_view(&self, visible: usize) -> (v: ListView)
        requires
            total_rows(self.dedup_groups@) <= usize::MAX,
            forall|k: int|
                0 <= k < self.dedup_groups@.len() ==> (#[trigger] self.dedup_groups@[k])@.len() > 0,
        ensures
            v.title@ == dedup_title(
                self.dedup_groups@.len(),
                total_dups(self.dedup_groups@),
                count_marked(self.dedup_decisions@),
            ),
            v.rows@.len() == window_end(
                total_rows(self.dedup_groups@) as int,
                self.dedup_offset as int,
                visible as int,
            ) - window_start(total_rows(self.dedup_groups@) as int, self.dedup_offset as int),
            forall|k: int|
                0 <= k < v.rows@.len() ==> {
                    let r = window_start(
                        total_rows(self.dedup_groups@) as int,
                        self.dedup_offset as int,
                    ) + k;
                    let (text, tone) = dedup_row_spec(
                        self.dedup_groups@,
                        self.dedup_decisions@,
                        self.dedup_cursor as int,
                        r,
                    );
                    &&& (#[trigger] v.rows@[k]).text@ == text
                    &&& v.rows@[k].tone == tone
                },
    {
        let len = self.dedup_flat_len();
        proof {
            crate::tui::lemma_row_refs_len(self.dedup_groups@);
        }
        let (start, count) = window(len, self.dedup_offset, visible);
        let mut rows: Vec<ListRow> = Vec::new();
        let mut k: usize = 0;
        while k < count
            invariant
                k <= count,
                start + count <= len,
                len == total_rows(self.dedup_groups@),
                len == row_refs(self.dedup_groups@).len(),
                total_rows(self.dedup_groups@) <= usize::MAX,
                start == window_start(len as int, self.dedup_offset as int),
                rows@.len() == k,
                forall|j: int|
                    0 <= j < k ==> {
                        let (text, tone) = dedup_row_spec(
                            self.dedup_groups@,
                            self.dedup_decisions@,
                            self.dedup_cursor as int,
                            start + j,
                        );
                        &&& (#[trigger] rows@[j]).text@ == text
                        &&& rows@[j].tone == tone
                    },
            decreases count - k,
        {
            let r = start + k;
            match locate_row(&self.dedup_groups, r) {
                Some((g, i, dec)) => {
                    let path = &self.dedup_groups[g][i];
                    if i == 0 {
                        let mut text = "    ".to_owned();
                        text.append("KEEP  ");
                        text.append(path.as_str());
                        let tone = if r == self.dedup_cursor {
                            Tone::Cursor
                        } else {
                            Tone::GroupHead
                        };
                        rows.push(ListRow { text, tone });
                    } else {
                        let nd = self.dedup_decisions.len();
                        proof {
                            crate::tui::lemma_total_dups_step(self.dedup_groups@, g as int);
                            crate::tui::lemma_total_dups_le_rows(self.dedup_groups@);
                        }
                        let idx = dec + (i - 1);
                        let del = if idx < nd {
                            self.dedup_decisions[idx]
                        } else {
                            true
                        };
                        let mut text = if del {
                            "[x] ".to_owned()
                        } else {
                            "[ ] ".to_owned()
                        };
                        text.append("  dup ");
                        text.append(path.as_str());
                        let tone = if r == self.dedup_cursor {
                            Tone::Cursor
                        } else if del {
                            Tone::MarkedDelete
                        } else {
                            Tone::KeptDup
                        };
                        rows.push(ListRow { text, tone });
                    }
                },
                None => {
                    assert(false);
                },
            }
            k += 1;
        }
        let dups = self.total_dup_count();
        let marked = count_marked_exec(&self.dedup_decisions);
        let mut title = " Dedup \u{2014} ".to_owned();
        let a = decimal_string(self.dedup_groups.len());
        title.append(a.as_str());
        title.append(" groups, ");
        let b = decimal_string(dups);
        title.append(b.as_str());
        title.append(" duplicates, ");
        let c = decimal_string(marked);
        title.append(c.as_str());
        title.append(" marked for deletion ");
        ListView { title, rows }
    }
}


/// What the home screen shows, apart from the typed text.
#[derive(Debug, Clone)]
pub struct HomeView {
    /// Which action is selected: 0 for scan, 1 for dedup, 2 for organize.
    pub selected: usize,
    /// The title of the destination field.
    pub dest_label: String,
    /// The source field has focus.
    pub src_focused: bool,
    /// The destination field has focus (only for organize).
    pub dest_focused: bool,
    /// The text cursor is in the destination field (otherwise the source field).
    pub cursor_in_dest: bool,
    /// The length in bytes of the text in the field with the cursor.
    pub cursor_offset: usize,
}

/// The place of an action in the picker.
pub open spec fn action_index(a: Action) -> usize {
    match a {
        Action::Scan => 0,
        Action::Dedup => 1,
        Action::Organize => 2,
    }
}

impl App {
    /// What the home screen shows.
    pub fn home_view(&self) -> (v: HomeView)
        ensures
            v.selected == action_index(self.selected_action),
            v.dest_label@ == (if self.selected_action == Action::Organize {
                " Destination directory "@
            } else {
                " Destination directory (only for Organize) "@
            }),
            v.src_focused == (self.focused_field == 0),
            v.dest_focused == (self.focused_field == 1 && self.selected_action == Action::Organize),
            v.cursor_in_dest == (self.focused_field != 0),
            v.cursor_offset == (if self.focused_field == 0 {
                encode_utf8(self.src_input@).len() as usize
            } else {
                encode_utf8(self.dest_input@).len() as usize
            }),
    {
        let selected = match self.selected_action {
            Action::Scan => 0,
            Action::Dedup => 1,
            Action::Organize => 2,
        };
        let organize = match self.selected_action {
            Action::Organize => true,
            _ => false,
        };
        let dest_label = if organize {
            " Destination directory ".to_owned()
        } else {
            " Destination directory (only for Organize) ".to_owned()
        };
        let cursor_offset = if self.focused_field == 0 {
            self.src_input.as_str().len()
        } else {
            self.dest_input.as_str().len()
        };
        HomeView {
            selected,
            dest_label,
            src_focused: self.focused_field == 0,
            dest_focused: self.focused_field == 1 && organize,
            cursor_in_dest: self.focused_field != 0,
            cursor_offset,
        }
    }
}

/// The label of an option toggle: the key in brackets, then the rest.
pub open spec fn toggle_label_spec(key: Seq<char>, label: Seq<char>) -> Seq<char> {
    "["@ + key + "]"@ + label
}

/// The label of an option toggle (`[r]ecursive`).
pub fn toggle_label(key: &str, label: &str) -> (r: String)
    ensures
        r@ == toggle_label_spec(key@, label@),
{
    let mut r = "[".to_owned();
    r.append(key);
    r.append("]");
    r.append(label);
    r
}

/// The help line under the organize preview.
pub open spec fn organize_help(done: bool) -> Seq<char> {
    if done {
        "Done!   q: back to home"@
    } else {
        "\u{2191}/\u{2193}: scroll   Enter: confirm & move files   q: back"@
    }
}

impl App {
    /// The help line under the organize preview.
    pub fn organize_help(&self) -> (r: String)
        ensures
            r@ == organize_help(self.organize_done),
    {
        if self.organize_done {
            "Done!   q: back to home".to_owned()
        } else {
            "\u{2191}/\u{2193}: scroll   Enter: confirm & move files   q: back".to_owned()
        }
    }
}

} // verus!
