//! What the terminal views do with a key press: quit, toggle the help bar, or move the
//! selected table row; also the poll interval and the interface filter of the network view.
use vstd::prelude::*;
use crate::text::{compare_text, text_lt, string_views, TextOrder, lemma_text_lt_transitive,
    lemma_text_lt_asymmetric};

verus! {

/// A key press, as far as the views tell keys apart.
#[derive(PartialEq, Eq, Structural, Debug, Clone, Copy)]
pub enum KeyInput {
    Char(char),
    Esc,
    /// A function key, by number.
    F(u8),
    Up,
    Down,
    Other,
}

/// The part of a view's state that keys change.
#[derive(PartialEq, Eq, Structural, Debug, Clone, Copy)]
pub struct ViewState {
    /// The selected table row.
    pub selected: Option<usize>,
    /// Whether the help bar shows its long text.
    pub show_help: bool,
}

/// What a view does after a key press.
#[derive(PartialEq, Eq, Structural, Debug, Clone, Copy)]
pub enum Step {
    Quit,
    Continue(ViewState),
}

/// A view starts with the first row selected and the help bar showing its long text.
pub fn initial_view() -> (s: ViewState)
    ensures
        s == (ViewState { selected: Some(0), show_help: true }),
{
    ViewState { selected: Some(0), show_help: true }
}

/// `q` and Esc quit every view.
pub open spec fn is_quit_key(key: KeyInput) -> bool {
    key == KeyInput::Char('q') || key == KeyInput::Esc
}

/// The row selected after Down: one further, but not past the last row (row 0 when empty).
pub open spec fn row_below(selected: Option<usize>, rows: usize) -> usize {
    let cur = match selected {
        Some(i) => i as int,
        None => 0,
    };
    let next = if cur + 1 > usize::MAX { usize::MAX as int } else { cur + 1 };
    let last = if rows == 0 { 0 } else { rows - 1 };
    (if next < last { next } else { last }) as usize
}

/// The row selected after Up: one back, not before row 0.
pub open spec fn row_above(selected: Option<usize>) -> usize {
    let cur = match selected {
        Some(i) => i as int,
        None => 0,
    };
    (if cur == 0 { 0 } else { cur - 1 }) as usize
}

/// How a view with a selectable table of `rows` rows reacts to a key; `with_help` views
/// also toggle the help bar on `?` and F1.
pub open spec fn table_view_step(s: ViewState, key: KeyInput, rows: usize, with_help: bool) -> Step {
    if is_quit_key(key) {
        Step::Quit
    } else if with_help && (key == KeyInput::Char('?') || key == KeyInput::F(1)) {
        Step::Continue(ViewState { show_help: !s.show_help, ..s })
    } else if key == KeyInput::Down {
        Step::Continue(ViewState { selected: Some(row_below(s.selected, rows)), ..s })
    } else if key == KeyInput::Up {
        Step::Continue(ViewState { selected: Some(row_above(s.selected)), ..s })
    } else {
        Step::Continue(s)
    }
}

fn table_view_on_key(s: ViewState, key: KeyInput, rows: usize, with_help: bool) -> (r: Step)
    ensures
        r == table_view_step(s, key, rows, with_help),
{
    let cur: usize = match s.selected {
        Some(i) => i,
        None => 0,
    };
    match key {
        KeyInput::Char('q') | KeyInput::Esc => Step::Quit,
        KeyInput::Char('?') if with_help => {
            Step::Continue(ViewState { selected: s.selected, show_help: !s.show_help })
        },
        KeyInput::F(1) if with_help => {
            Step::Continue(ViewState { selected: s.selected, show_help: !s.show_help })
        },
        KeyInput::Down => {
            let last = if rows == 0 { 0 } else { rows - 1 };
            let next = if cur == usize::MAX { usize::MAX } else { cur + 1 };
            let i = if next < last { next } else { last };
            Step::Continue(ViewState { selected: Some(i), show_help: s.show_help })
        },
        KeyInput::Up => {
            let i = if cur == 0 { 0 } else { cur - 1 };
            Step::Continue(ViewState { selected: Some(i), show_help: s.show_help })
        },
        _ => Step::Continue(s),
    }
}

/// The network view: quit, help toggle, row selection among `rows` interfaces.
pub fn network_on_key(s: ViewState, key: KeyInput, rows: usize) -> (r: Step)
    ensures
        r == table_view_step(s, key, rows, true),
{
    table_view_on_key(s, key, rows, true)
}

/// The Docker view: quit and row selection among `rows` containers.
pub fn docker_on_key(s: ViewState, key: KeyInput, rows: usize) -> (r: Step)
    ensures
        r == table_view_step(s, key, rows, false),
{
    table_view_on_key(s, key, rows, false)
}

/// The system view only quits.
pub fn system_on_key(key: KeyInput) -> (quit: bool)
    ensures
        quit == is_quit_key(key),
        quit <==> (key == KeyInput::Char('q') || key == KeyInput::Esc),
{
    match key {
        KeyInput::Char('q') | KeyInput::Esc => true,
        _ => false,
    }
}

/// The poll interval of a view: the configured refresh, but at least `floor_ms`.
pub fn poll_interval_ms(refresh_ms: u64, floor_ms: u64) -> (r: u64)
    ensures
        r == if refresh_ms >= floor_ms { refresh_ms } else { floor_ms },
{
    if refresh_ms >= floor_ms {
        refresh_ms
    } else {
        floor_ms
    }
}

/// Whether the network view hides an interface: its name is one of `hide` exactly.
pub fn is_hidden_interface(hide: &Vec<String>, iface: &str) -> (b: bool)
    ensures
        b == exists|i: int| 0 <= i < hide@.len() && #[trigger] hide@[i]@ == iface@,
{
    let mut i: usize = 0;
    while i < hide.len()
        invariant
            i <= hide.len(),
            forall|j: int| 0 <= j < i ==> #[trigger] hide@[j]@ != iface@,
        decreases hide.len() - i,
    {
        if compare_text(hide[i].as_str(), iface) == TextOrder::Equal {
            return true;
        }
        i = i + 1;
    }
    false
}

/// A selection that points at one of `rows` rows.
pub open spec fn selection_on_table(s: ViewState, rows: usize) -> bool {
    match s.selected {
        Some(i) => i < rows,
        None => true,
    }
}

/// Law: while the table keeps its `rows` rows (at least one), no key moves the selection
/// off the table; Down stops at the last row and Up at the first.
pub proof fn law_selection_stays_on_table(s: ViewState, key: KeyInput, rows: usize, with_help: bool)
    requires
        rows > 0,
        selection_on_table(s, rows),
    ensures
        table_view_step(s, key, rows, with_help) matches Step::Continue(t) ==> selection_on_table(t, rows),
{
}

/// `name` is one of the names in `hide`, exactly.
pub open spec fn hidden(hide: Seq<String>, name: Seq<char>) -> bool {
    exists|i: int| 0 <= i < hide.len() && #[trigger] hide[i]@ == name
}

/// In ascending string order (equal neighbours allowed).
pub open spec fn ascending(s: Seq<Seq<char>>) -> bool {
    forall|i: int, j: int| 0 <= i < j < s.len() ==> !text_lt(#[trigger] s[j], #[trigger] s[i])
}

/// The interface names the network view shows: those not hidden.
pub open spec fn shown_names(names: Seq<String>, hide: Seq<String>) -> Seq<Seq<char>> {
    string_views(names).filter(|n: Seq<char>| !hidden(hide, n))
}

/// Puts `s` into an ascending list, after any equal names.
fn insert_ascending(v: &mut Vec<String>, s: String)
    requires
        ascending(string_views(old(v)@)),
    ensures
        ascending(string_views(final(v)@)),
        string_views(final(v)@).to_multiset() == string_views(old(v)@).to_multiset().insert(s@),
{
    let ghost old_views = string_views(v@);
    let mut i: usize = 0;
    while i < v.len() && compare_text(s.as_str(), v[i].as_str()) != TextOrder::Less
        invariant
            i <= v.len(),
            v@ == old(v)@,
            old_views == string_views(v@),
            ascending(old_views),
            forall|j: int| 0 <= j < i ==> !text_lt(s@, #[trigger] old_views[j]),
        decreases v.len() - i,
    {
        proof {
            assert(old_views[i as int] == v@[i as int]@);
        }
        i = i + 1;
    }
    proof {
        if i < v.len() {
            assert(old_views[i as int] == v@[i as int]@);
            assert(text_lt(s@, old_views[i as int]));
        }
        assert forall|k: int| i <= k < old_views.len() implies !text_lt(#[trigger] old_views[k], s@) by {
            if text_lt(old_views[k], s@) {
                lemma_text_lt_transitive(old_views[k], s@, old_views[i as int]);
                if k == i {
                    lemma_text_lt_asymmetric(old_views[k], old_views[i as int]);
                }
            }
        }
    }
    v.insert(i, s);
    proof {
        let nv = string_views(v@);
        assert(nv =~= old_views.insert(i as int, s@));
        assert forall|a: int, b: int| 0 <= a < b < nv.len() implies !text_lt(#[trigger] nv[b], #[trigger] nv[a]) by {
            if b < i {
                assert(nv[a] == old_views[a]);
                assert(nv[b] == old_views[b]);
            } else if b == i {
                assert(nv[a] == old_views[a]);
            } else if a < i {
                assert(nv[a] == old_views[a]);
                assert(nv[b] == old_views[b - 1]);
            } else if a == i {
                assert(nv[b] == old_views[b - 1]);
            } else {
                assert(nv[a] == old_views[a - 1]);
                assert(nv[b] == old_views[b - 1]);
            }
        }
        vstd::seq_lib::to_multiset_insert(old_views, i as int, s@);
    }
}

/// The rows of the network view: the interfaces whose names are not hidden, in ascending
/// order of name.
pub fn visible_interfaces(names: &Vec<String>, hide: &Vec<String>) -> (r: Vec<String>)
    ensures
        ascending(string_views(r@)),
        string_views(r@).to_multiset() == shown_names(names@, hide@).to_multiset(),
{
    let ghost all = string_views(names@);
    let ghost pred = |n: Seq<char>| !hidden(hide@, n);
    let mut r: Vec<String> = Vec::new();
    let mut i: usize = 0;
    proof {
        reveal(Seq::filter);
        assert(all.take(0) =~= Seq::<Seq<char>>::empty());
        assert(string_views(r@) =~= Seq::<Seq<char>>::empty());
    }
    while i < names.len()
        invariant
            i <= names@.len(),
            all == string_views(names@),
            pred == (|n: Seq<char>| !hidden(hide@, n)),
            ascending(string_views(r@)),
            string_views(r@).to_multiset() == all.take(i as int).filter(pred).to_multiset(),
        decreases names.len() - i,
    {
        proof {
            reveal(Seq::filter);
            assert(all.take(i + 1).drop_last() =~= all.take(i as int));
            assert(all.take(i + 1).last() == names@[i as int]@);
        }
        if !is_hidden_interface(hide, names[i].as_str()) {
            let ghost f = all.take(i as int).filter(pred);
            insert_ascending(&mut r, names[i].clone());
            proof {
                vstd::seq_lib::to_multiset_build(f, names@[i as int]@);
            }
        }
        i = i + 1;
    }
    proof {
        assert(all.take(names@.len() as int) =~= all);
    }
    r
}

/// Law (quitting): in every view exactly `q` and Esc quit; any other key keeps the view
/// running.
pub proof fn law_only_q_and_esc_quit(s: ViewState, key: KeyInput, rows: usize, with_help: bool)
    ensures
        (table_view_step(s, key, rows, with_help) == Step::Quit) <==> (key == KeyInput::Char('q')
            || key == KeyInput::Esc),
        is_quit_key(key) <==> (key == KeyInput::Char('q') || key == KeyInput::Esc),
{
}

/// Law (Down): from row `i` with a row below it, Down selects row `i + 1` and changes nothing
/// else; on the last row it stays where it is.
pub proof fn law_down_moves_one_row(s: ViewState, i: usize, rows: usize, with_help: bool)
    requires
        s.selected == Some(i),
    ensures
        i + 1 < rows ==> table_view_step(s, KeyInput::Down, rows, with_help)
            == Step::Continue(ViewState { selected: Some((i + 1) as usize), show_help: s.show_help }),
        i + 1 == rows ==> table_view_step(s, KeyInput::Down, rows, with_help) == Step::Continue(s),
{
}

/// Law (Up): from row `i > 0`, Up selects row `i - 1` and changes nothing else; on the first
/// row it stays where it is.
pub proof fn law_up_moves_one_row(s: ViewState, i: usize, rows: usize, with_help: bool)
    requires
        s.selected == Some(i),
    ensures
        i > 0 ==> table_view_step(s, KeyInput::Up, rows, with_help)
            == Step::Continue(ViewState { selected: Some((i - 1) as usize), show_help: s.show_help }),
        i == 0 ==> table_view_step(s, KeyInput::Up, rows, with_help) == Step::Continue(s),
{
}

/// Law (no selection): with no row selected, Down selects the second row (the only one on a
/// table of one row or none) and Up the first.
pub proof fn law_moves_without_selection(s: ViewState, rows: usize, with_help: bool)
    requires
        s.selected is None,
    ensures
        rows >= 2 ==> table_view_step(s, KeyInput::Down, rows, with_help)
            == Step::Continue(ViewState { selected: Some(1), show_help: s.show_help }),
        rows <= 1 ==> table_view_step(s, KeyInput::Down, rows, with_help)
            == Step::Continue(ViewState { selected: Some(0), show_help: s.show_help }),
        table_view_step(s, KeyInput::Up, rows, with_help)
            == Step::Continue(ViewState { selected: Some(0), show_help: s.show_help }),
{
}

/// Law (help bar): in the network view `?` and F1 flip whether the help bar shows its long
/// text and keep the selection, so pressing either twice restores the state; the Docker view
/// ignores them.
pub proof fn law_help_keys_toggle(s: ViewState, rows: usize)
    ensures
        table_view_step(s, KeyInput::Char('?'), rows, true)
            == Step::Continue(ViewState { selected: s.selected, show_help: !s.show_help }),
        table_view_step(s, KeyInput::F(1), rows, true)
            == Step::Continue(ViewState { selected: s.selected, show_help: !s.show_help }),
        table_view_step(s, KeyInput::Char('?'), rows, true) matches Step::Continue(t)
            && table_view_step(t, KeyInput::Char('?'), rows, true) == Step::Continue(s),
        table_view_step(s, KeyInput::Char('?'), rows, false) == Step::Continue(s),
        table_view_step(s, KeyInput::F(1), rows, false) == Step::Continue(s),
{
}

/// Law (other keys): a key that neither quits, toggles help, nor moves the selection leaves
/// the view as it is.
pub proof fn law_other_keys_change_nothing(s: ViewState, key: KeyInput, rows: usize, with_help: bool)
    requires
        key != KeyInput::Char('q'),
        key != KeyInput::Esc,
        key != KeyInput::Up,
        key != KeyInput::Down,
        key != KeyInput::Char('?'),
        key != KeyInput::F(1),
    ensures
        table_view_step(s, key, rows, with_help) == Step::Continue(s),
{
}

} // verus!
