use gadv::engine::model::{AuthorId, CommitRecord};
use gadv::ui::{fmt, handle_key, truncate, window_for, Key, KeyAction, Nav, TimeWin, View};

#[test]
fn fmt_adds_thousands_separators() {
    assert_eq!(fmt(0), "0");
    assert_eq!(fmt(999), "999");
    assert_eq!(fmt(1000), "1,000");
    assert_eq!(fmt(4080), "4,080");
    assert_eq!(fmt(1000000), "1,000,000");
}

#[test]
fn fmt_keeps_inner_zeros() {
    assert_eq!(fmt(1_002_003), "1,002,003");
    assert_eq!(fmt(u32::MAX), "4,294,967,295");
}

#[test]
fn truncate_cuts_with_an_ellipsis() {
    assert_eq!(truncate("src/main.rs", 20), "src/main.rs");
    assert_eq!(truncate("src/main.rs", 8), "src/m…");
    assert_eq!(truncate("abcdef", 3), "abc");
    assert_eq!(truncate("ñandú", 5), "ñandú");
    assert_eq!(truncate("ñandúes", 5), "ña…");
}

#[test]
fn windows_cycle_through_three() {
    assert_eq!(TimeWin::All.next(), TimeWin::D90);
    assert_eq!(TimeWin::D90.next(), TimeWin::D30);
    assert_eq!(TimeWin::D30.next(), TimeWin::All);
    assert_eq!(TimeWin::All.label(), "historial completo");
    assert_eq!(TimeWin::D90.label(), "ultimos 90 dias");
    assert_eq!(TimeWin::D30.label(), "ultimos 30 dias");
}

fn nav(view: View, cursor: usize) -> Nav {
    Nav { view, window: TimeWin::All, cursor }
}

#[test]
fn keys_move_between_views() {
    assert_eq!(handle_key(nav(View::Summary, 0), Key::Char('q', false), 0, true).1, KeyAction::Quit);
    assert_eq!(handle_key(nav(View::Summary, 0), Key::Char('c', true), 0, true).1, KeyAction::Quit);
    assert_eq!(handle_key(nav(View::Summary, 0), Key::Char('c', false), 0, true).1, KeyAction::Nothing);
    assert_eq!(handle_key(nav(View::Summary, 0), Key::Esc, 0, true).1, KeyAction::Quit);
    assert_eq!(handle_key(nav(View::Coupling, 0), Key::Esc, 0, true).0.view, View::Churn);
    assert_eq!(handle_key(nav(View::Hotspot, 0), Key::Esc, 0, true).0.view, View::Summary);
    assert_eq!(handle_key(nav(View::Summary, 0), Key::Char('3', false), 0, true).0.view, View::Hotspot);
    assert_eq!(handle_key(nav(View::Summary, 0), Key::Char('3', false), 0, false).0.view, View::Summary);
    assert_eq!(handle_key(nav(View::Churn, 0), Key::Enter, 5, true).1, KeyAction::OpenCoupling);
    assert_eq!(handle_key(nav(View::Churn, 0), Key::Char('r', false), 5, true).1, KeyAction::Refresh);
}

#[test]
fn cursor_stays_inside_the_list() {
    assert_eq!(handle_key(nav(View::Churn, 0), Key::Down, 3, true).0.cursor, 1);
    assert_eq!(handle_key(nav(View::Churn, 2), Key::Char('j', false), 3, true).0.cursor, 2);
    assert_eq!(handle_key(nav(View::Churn, 0), Key::Up, 3, true).0.cursor, 0);
    assert_eq!(handle_key(nav(View::Churn, 2), Key::Char('k', false), 3, true).0.cursor, 1);
    assert_eq!(handle_key(nav(View::Summary, 0), Key::Down, 0, true).0.cursor, 0);
}

#[test]
fn t_key_moves_the_window_and_recomputes() {
    let (n, a) = handle_key(nav(View::Churn, 1), Key::Char('t', false), 3, true);
    assert_eq!((n.window, n.view, n.cursor, a), (TimeWin::D90, View::Churn, 1, KeyAction::Recompute));
}

#[test]
fn windows_reach_back_from_the_newest_commit() {
    let c = |t: i64| CommitRecord { oid: [0; 20], time: t, author: AuthorId(0), n_parents: 1, files: vec![] };
    let cs = vec![c(5_000_000), c(9_000_000), c(7_000_000)];
    assert_eq!(window_for(TimeWin::All, &cs).from, None);
    assert_eq!(window_for(TimeWin::D30, &cs).from, Some(9_000_000 - 30 * 86_400));
    assert_eq!(window_for(TimeWin::D90, &cs).from, Some(9_000_000 - 90 * 86_400));
    assert_eq!(window_for(TimeWin::D30, &vec![]).from, Some(-30 * 86_400));
}
