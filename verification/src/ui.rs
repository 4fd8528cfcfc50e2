//! What the terminal screens need that is not drawing: the views, the time
//! windows and how numbers and long paths are shown.

use vstd::prelude::*;
use vstd::view::View as _;
use crate::text::{decimal, dec_char, digit_char, push_char, push_decimal};
use crate::engine::metrics::{Window, DAY_SECS};
use crate::engine::model::CommitRecord;

verus! {

/// The screens of the terminal interface.
#[derive(Debug, Clone, Copy, PartialEq, Eq, Structural)]
pub enum View {
    Summary,
    Churn,
    Hotspot,
    Ownership,
    Coupling,
}

/// The time window the metrics are computed over.
#[derive(Debug, Clone, Copy, PartialEq, Eq, Structural)]
pub enum TimeWin {
    All,
    D90,
    D30,
}

impl TimeWin {
    /// The window after this one, in a cycle: all, 90 days, 30 days.
    pub fn next(self) -> (w: TimeWin)
        ensures
            w == next_window(self),
    {
        match self {
            TimeWin::All => TimeWin::D90,
            TimeWin::D90 => TimeWin::D30,
            TimeWin::D30 => TimeWin::All,
        }
    }

    /// The label shown for the window.
    pub fn label(self) -> (s: &'static str)
        ensures
            s@ == match self {
                TimeWin::All => "historial completo"@,
                TimeWin::D90 => "ultimos 90 dias"@,
                TimeWin::D30 => "ultimos 30 dias"@,
            },
    {
        match self {
            TimeWin::All => "historial completo",
            TimeWin::D90 => "ultimos 90 dias",
            TimeWin::D30 => "ultimos 30 dias",
        }
    }
}

/// Exactly three decimal digits of `m < 1000`, with leading zeros.
pub open spec fn three_digits(m: nat) -> Seq<char> {
    seq![digit_char(m / 100), digit_char((m / 10) % 10), digit_char(m % 10)]
}

/// `n` in decimal with a comma between groups of three digits: `4,080`.
pub open spec fn grouped(n: nat) -> Seq<char>
    decreases n,
{
    if n < 1000 {
        decimal(n)
    } else {
        grouped(n / 1000) + seq![','] + three_digits(n % 1000)
    }
}

fn push_grouped(s: &mut String, n: u32)
    ensures
        final(s)@ == old(s)@ + grouped(n as nat),
    decreases n,
{
    if n < 1000 {
        push_decimal(s, n);
    } else {
        push_grouped(s, n / 1000);
        push_char(s, ',');
        let m = n % 1000;
        push_char(s, dec_char(m / 100));
        push_char(s, dec_char((m / 10) % 10));
        push_char(s, dec_char(m % 10));
        assert(s@ =~= old(s)@ + grouped(n as nat));
    }
}

/// `n` with thousands separators, so metric numbers read at a glance.
pub fn fmt(n: u32) -> (s: String)
    ensures
        s@ == grouped(n as nat),
{
    let mut s = String::new();
    push_grouped(&mut s, n);
    assert(s@ =~= grouped(n as nat));
    s
}

/// `s` cut to at most `w` characters; a cut string longer than three
/// characters ends in `…`.
pub open spec fn truncated(s: Seq<char>, w: nat) -> Seq<char> {
    if s.len() <= w {
        s
    } else if w > 3 {
        s.take(w - 3).push('…')
    } else {
        s.take(w as int)
    }
}

/// `s` shortened to fit `w` columns.
pub fn truncate(s: &str, w: usize) -> (r: String)
    ensures
        r@ == truncated(s@, w as nat),
{
    let n = s.unicode_len();
    if n <= w {
        s.to_owned()
    } else if w > 3 {
        let head = s.substring_char(0, w - 3);
        let mut out = head.to_owned();
        push_char(&mut out, '…');
        assert(out@ =~= truncated(s@, w as nat));
        out
    } else {
        let head = s.substring_char(0, w);
        let out = head.to_owned();
        assert(out@ =~= truncated(s@, w as nat));
        out
    }
}


// ------------------------------------------------------------------
// Keys
// ------------------------------------------------------------------

/// A key press, as far as the interface tells keys apart.
#[derive(Debug, Clone, Copy, PartialEq, Eq, Structural)]
pub enum Key {
    /// A character key; `true` when Control was held.
    Char(char, bool),
    Esc,
    Up,
    Down,
    Enter,
    Other,
}

/// What the binary does after a key.
#[derive(Debug, Clone, Copy, PartialEq, Eq, Structural)]
pub enum KeyAction {
    Nothing,
    Quit,
    /// Open the co-change neighbours of the selected row.
    OpenCoupling,
    /// Recompute the metrics for the new window.
    Recompute,
    /// Scan the repository again.
    Refresh,
}

/// The navigation state that keys change.
#[derive(Debug, Clone, Copy, PartialEq, Eq, Structural)]
pub struct Nav {
    pub view: View,
    pub window: TimeWin,
    /// Selected row of the current list.
    pub cursor: usize,
}

pub open spec fn next_window(w: TimeWin) -> TimeWin {
    match w {
        TimeWin::All => TimeWin::D90,
        TimeWin::D90 => TimeWin::D30,
        TimeWin::D30 => TimeWin::All,
    }
}

/// The cursor one row down in a list of `n` rows (it stays on the last).
pub open spec fn cursor_down(cursor: usize, n: usize) -> usize {
    if n == 0 {
        cursor
    } else if cursor + 1 < n {
        (cursor + 1) as usize
    } else {
        (n - 1) as usize
    }
}

/// The cursor one row up (it stays on the first).
pub open spec fn cursor_up(cursor: usize) -> usize {
    if cursor > 0 {
        (cursor - 1) as usize
    } else {
        0
    }
}

/// What a key does to the navigation state, given the length of the list
/// on screen and whether a history is loaded.
pub open spec fn key_outcome(nav: Nav, key: Key, list_len: usize, has_history: bool) -> (Nav, KeyAction) {
    match key {
        Key::Char('q', _) => (nav, KeyAction::Quit),
        Key::Char('c', true) => (nav, KeyAction::Quit),
        Key::Esc => match nav.view {
            View::Coupling => (Nav { view: View::Churn, ..nav }, KeyAction::Nothing),
            View::Summary => (nav, KeyAction::Quit),
            _ => (Nav { view: View::Summary, ..nav }, KeyAction::Nothing),
        },
        Key::Char('j', _) | Key::Down => (Nav { cursor: cursor_down(nav.cursor, list_len), ..nav }, KeyAction::Nothing),
        Key::Char('k', _) | Key::Up => (Nav { cursor: cursor_up(nav.cursor), ..nav }, KeyAction::Nothing),
        Key::Enter => (nav, KeyAction::OpenCoupling),
        Key::Char('1', _) => (Nav { view: View::Summary, ..nav }, KeyAction::Nothing),
        Key::Char('2', _) if has_history => (Nav { view: View::Churn, ..nav }, KeyAction::Nothing),
        Key::Char('3', _) if has_history => (Nav { view: View::Hotspot, ..nav }, KeyAction::Nothing),
        Key::Char('4', _) if has_history => (Nav { view: View::Ownership, ..nav }, KeyAction::Nothing),
        Key::Char('t', _) => (Nav { window: next_window(nav.window), ..nav }, KeyAction::Recompute),
        Key::Char('r', _) => (nav, KeyAction::Refresh),
        _ => (nav, KeyAction::Nothing),
    }
}

/// The new navigation state and the action for a key press.
pub fn handle_key(nav: Nav, key: Key, list_len: usize, has_history: bool) -> (r: (Nav, KeyAction))
    ensures
        r == key_outcome(nav, key, list_len, has_history),
{
    match key {
        Key::Char('q', _) => (nav, KeyAction::Quit),
        Key::Char('c', true) => (nav, KeyAction::Quit),
        Key::Esc => match nav.view {
            View::Coupling => (Nav { view: View::Churn, ..nav }, KeyAction::Nothing),
            View::Summary => (nav, KeyAction::Quit),
            _ => (Nav { view: View::Summary, ..nav }, KeyAction::Nothing),
        },
        Key::Char('j', _) | Key::Down => {
            let cursor = if list_len == 0 {
                nav.cursor
            } else if nav.cursor < list_len - 1 {
                nav.cursor + 1
            } else {
                list_len - 1
            };
            (Nav { cursor, ..nav }, KeyAction::Nothing)
        },
        Key::Char('k', _) | Key::Up => {
            let cursor = if nav.cursor > 0 {
                nav.cursor - 1
            } else {
                0
            };
            (Nav { cursor, ..nav }, KeyAction::Nothing)
        },
        Key::Enter => (nav, KeyAction::OpenCoupling),
        Key::Char('1', _) => (Nav { view: View::Summary, ..nav }, KeyAction::Nothing),
        Key::Char('2', _) if has_history => (Nav { view: View::Churn, ..nav }, KeyAction::Nothing),
        Key::Char('3', _) if has_history => (Nav { view: View::Hotspot, ..nav }, KeyAction::Nothing),
        Key::Char('4', _) if has_history => (Nav { view: View::Ownership, ..nav }, KeyAction::Nothing),
        Key::Char('t', _) => (Nav { window: nav.window.next(), ..nav }, KeyAction::Recompute),
        Key::Char('r', _) => (nav, KeyAction::Refresh),
        _ => (nav, KeyAction::Nothing),
    }
}

/// Three steps of `next` come back to the same window.
pub proof fn lemma_window_cycle(w: TimeWin)
    ensures
        next_window(next_window(next_window(w))) == w,
        next_window(w) != w,
{
}

/// The cursor stays inside a non-empty list it started in.
pub proof fn lemma_cursor_in_list(cursor: usize, n: usize)
    requires
        cursor < n,
    ensures
        cursor_down(cursor, n) < n,
        cursor_up(cursor) < n,
{
}

/// A truncated string never takes more than `w` characters (and is the
/// string itself when it fits).
pub proof fn lemma_truncated_fits(s: Seq<char>, w: nat)
    ensures
        s.len() <= w ==> truncated(s, w) == s,
        truncated(s, w).len() <= w,
{
}


/// The newest commit time of `cs` (0 without commits).
pub open spec fn newest_time(cs: Seq<CommitRecord>) -> i64
    decreases cs.len(),
{
    if cs.len() == 0 {
        0
    } else {
        let rest = newest_time(cs.drop_last());
        if cs.len() == 1 || cs.last().time > rest {
            cs.last().time
        } else {
            rest
        }
    }
}

/// Days a window reaches back (none for the whole history).
pub open spec fn window_days(w: TimeWin) -> Option<i64> {
    match w {
        TimeWin::All => None,
        TimeWin::D90 => Some(90),
        TimeWin::D30 => Some(30),
    }
}

/// The metrics window of `w`: the whole history, or the last 90 or 30 days
/// before the newest commit.
pub fn window_for(w: TimeWin, commits: &Vec<CommitRecord>) -> (r: Window)
    requires
        newest_time(commits@) - 90 * DAY_SECS >= i64::MIN,
    ensures
        r.from == match window_days(w) {
            None => None,
            Some(d) => Some((newest_time(commits@) - d * DAY_SECS) as i64),
        },
{
    match w {
        TimeWin::All => Window::all(),
        _ => {
            let mut now: i64 = 0;
            let mut k: usize = 0;
            while k < commits.len()
                invariant
                    k <= commits@.len(),
                    now == newest_time(commits@.take(k as int)),
                decreases commits@.len() - k,
            {
                proof {
                    assert(commits@.take(k + 1).drop_last() =~= commits@.take(k as int));
                }
                if k == 0 || commits[k].time > now {
                    now = commits[k].time;
                }
                k = k + 1;
            }
            assert(commits@.take(k as int) =~= commits@);
            let d: i64 = if w == TimeWin::D30 {
                30
            } else {
                90
            };
            Window::last_days(d, now)
        },
    }
}

} // verus!
