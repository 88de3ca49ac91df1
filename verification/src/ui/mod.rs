//! The terminal view: what each key does.
use vstd::prelude::*;

pub mod app;

verus! {

/// A key that the terminal view reacts to; any other key is `Other`.
#[derive(PartialEq, Eq, Structural, Debug)]
pub enum Key {
    Char(char),
    Esc,
    Up,
    Down,
    Other,
}

/// What the terminal view does on a key.
#[derive(PartialEq, Eq, Structural, Debug)]
pub enum KeyAction {
    /// Leave the view.
    Quit,
    /// Select the row with this index.
    Select(usize),
    /// Ask the watch loop to scan now.
    Refresh,
    /// Nothing.
    Ignore,
}

/// The row that `Down` selects: the next one, but not past the last row,
/// and the first where none is selected.
pub open spec fn row_below(selected: Option<usize>, row_count: usize) -> usize {
    match selected {
        Some(i) => if i + 1 < row_count {
            (i + 1) as usize
        } else if row_count > 0 {
            (row_count - 1) as usize
        } else {
            0
        },
        None => 0,
    }
}

/// The row that `Up` selects: the one before, but not before the first, and
/// the second where none is selected.
pub open spec fn row_above(selected: Option<usize>) -> usize {
    match selected {
        Some(i) => if i > 0 {
            (i - 1) as usize
        } else {
            0
        },
        None => 1,
    }
}

/// What `key` does while `selected` is the selected row of a table of
/// `row_count` rows: `q` and `Esc` quit, `Down` and `Up` move the selection,
/// `r` asks for a scan, and any other key does nothing.
pub open spec fn key_outcome(key: Key, selected: Option<usize>, row_count: usize) -> KeyAction {
    match key {
        Key::Char('q') | Key::Esc => KeyAction::Quit,
        Key::Down => KeyAction::Select(row_below(selected, row_count)),
        Key::Up => KeyAction::Select(row_above(selected)),
        Key::Char('r') => KeyAction::Refresh,
        _ => KeyAction::Ignore,
    }
}

/// What `key` does while `selected` is the selected row of a table of
/// `row_count` rows: `q` and `Esc` quit, `Down` and `Up` move the selection,
/// `r` asks for a scan, and any other key does nothing.
pub fn key_action(key: Key, selected: Option<usize>, row_count: usize) -> (action: KeyAction)
    requires
        key == Key::Down ==> selected != Some(usize::MAX),
    ensures
        action == key_outcome(key, selected, row_count),
{
    match key {
        Key::Char('q') | Key::Esc => KeyAction::Quit,
        Key::Down => {
            let next = match selected {
                Some(i) => {
                    let last = row_count.saturating_sub(1);
                    if i + 1 < last {
                        i + 1
                    } else {
                        last
                    }
                },
                None => 0,
            };
            KeyAction::Select(next)
        },
        Key::Up => {
            let prev = match selected {
                Some(i) => i.saturating_sub(1),
                None => 1,
            };
            KeyAction::Select(prev)
        },
        Key::Char('r') => KeyAction::Refresh,
        _ => KeyAction::Ignore,
    }
}

} // verus!

verus! {

/// Only `q` and `Esc` end the terminal view: every other key leaves it
/// running.
pub proof fn lemma_only_quit_keys_quit(key: Key, selected: Option<usize>, row_count: usize)
    ensures
        key_outcome(key, selected, row_count) == KeyAction::Quit <==> (key == Key::Char('q') || key
            == Key::Esc),
{
}

/// `Down` keeps the selection inside a table that has rows, and `Up` never
/// moves it further down.
pub proof fn lemma_selection_stays_in_table(selected: Option<usize>, row_count: usize)
    ensures
        row_count > 0 ==> row_below(selected, row_count) < row_count,
        selected matches Some(i) ==> row_above(selected) <= i,
{
}

} // verus!

verus! {

/// `Up` from row `i > 0` selects row `i - 1`, from row 0 stays on row 0,
/// and with nothing selected selects row 1; `Down` from row `i` selects
/// row `i + 1` while that is a row, else the last row (row 0 of an empty
/// table), and with nothing selected selects row 0.
pub proof fn lemma_arrow_keys(i: usize, row_count: usize)
    ensures
        i > 0 ==> key_outcome(Key::Up, Some(i), row_count) == KeyAction::Select((i - 1) as usize),
        key_outcome(Key::Up, Some(0), row_count) == KeyAction::Select(0),
        key_outcome(Key::Up, None, row_count) == KeyAction::Select(1),
        i + 1 < row_count ==> key_outcome(Key::Down, Some(i), row_count) == KeyAction::Select(
            (i + 1) as usize,
        ),
        0 < row_count <= i + 1 ==> key_outcome(Key::Down, Some(i), row_count) == KeyAction::Select(
            (row_count - 1) as usize,
        ),
        row_count == 0 ==> key_outcome(Key::Down, Some(i), row_count) == KeyAction::Select(0),
        key_outcome(Key::Down, None, row_count) == KeyAction::Select(0),
{
}

} // verus!

verus! {

/// `r` asks for a scan whatever is selected, and a key other than `q`,
/// `Esc`, `Up`, `Down` and `r` does nothing.
pub proof fn lemma_other_keys(key: Key, selected: Option<usize>, row_count: usize)
    ensures
        key_outcome(Key::Char('r'), selected, row_count) == KeyAction::Refresh,
        key != Key::Char('q') && key != Key::Esc && key != Key::Up && key != Key::Down && key
            != Key::Char('r') ==> key_outcome(key, selected, row_count) == KeyAction::Ignore,
{
}

} // verus!
