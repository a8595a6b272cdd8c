//! The screens a question can be asked on.
//!
//! A screen is a page and a widget on it. It can be drawn, and it can be told
//! a key, to which it replies once it has been answered. Esc and Ctrl-C never
//! get here: they leave a screen whatever it shows.

use vstd::prelude::*;

use crate::keys::Key;
use crate::rules::{Check, CheckView};
use crate::text;
use crate::text::{bytes_in, contains, emit, filled, number, same, Text};
use crate::tui;
use crate::tui::{
    arrow_text, column, note_text, Opt, OptView, Page, PageView, Ui, ACCENT, BOLD, DANGER, DIM, OK,
    PAD, RESET,
};

verus! {

// ---------------------------------------------------------------------------
// Rows of a list
// ---------------------------------------------------------------------------

/// The numbers below `n` that fulfil `p`, in order.
pub open spec fn picked(n: int, p: spec_fn(int) -> bool) -> Seq<int>
    decreases n,
{
    if n <= 0 {
        Seq::empty()
    } else if p(n - 1) {
        picked(n - 1, p).push(n - 1)
    } else {
        picked(n - 1, p)
    }
}

/// What is picked is in order, is below `n`, fulfils `p`, and is all that does.
pub proof fn lemma_picked(n: int, p: spec_fn(int) -> bool)
    ensures
        forall|k: int|
            0 <= k < picked(n, p).len() ==> 0 <= #[trigger] picked(n, p)[k] < n && p(
                picked(n, p)[k],
            ),
        forall|j: int, k: int|
            0 <= j < k < picked(n, p).len() ==> #[trigger] picked(n, p)[j]
                < #[trigger] picked(n, p)[k],
        forall|i: int| 0 <= i < n && p(i) ==> #[trigger] picked(n, p).contains(i),
    decreases n,
{
    if n > 0 {
        lemma_picked(n - 1, p);
        let rest = picked(n - 1, p);
        let all = picked(n, p);
        assert forall|i: int| 0 <= i < n && p(i) implies #[trigger] all.contains(i) by {
            if i < n - 1 {
                assert(rest.contains(i));
                let k = choose|k: int| 0 <= k < rest.len() && rest[k] == i;
                assert(all[k] == i);
            } else {
                assert(all[all.len() - 1] == i);
            }
        }
    }
}

/// Row numbers as contracts see them.
pub open spec fn ints(v: Seq<usize>) -> Seq<int> {
    v.map_values(|u: usize| u as int)
}

/// The rows of a list that are shown, and those of them that can be chosen.
pub struct Rows {
    pub shown: Vec<usize>,
    pub choices: Vec<usize>,
}

/// What `Rows` hold, as contracts see it.
#[verifier::ext_equal]
pub struct RowsView {
    pub shown: Seq<int>,
    pub choices: Seq<int>,
}

impl View for Rows {
    type V = RowsView;

    open spec fn view(&self) -> RowsView {
        RowsView { shown: ints(self.shown@), choices: ints(self.choices@) }
    }
}

impl RowsView {
    /// Whether all row numbers belong to a list of `n` rows.
    pub open spec fn within(self, n: int) -> bool {
        &&& forall|k: int| 0 <= k < self.shown.len() ==> 0 <= #[trigger] self.shown[k] < n
        &&& forall|k: int| 0 <= k < self.choices.len() ==> 0 <= #[trigger] self.choices[k] < n
    }
}

/// What `str::to_lowercase` makes of a text.
pub uninterp spec fn lowercase(s: Text) -> Text;

/// `str::to_lowercase`: the lowercase equivalent of the string. It depends on
/// the string alone; the mapping itself is left to Unicode's tables.
#[verifier::external_body]
fn to_lowercase(s: &str) -> (out: String)
    ensures
        out@ == lowercase(s@),
{
    s.to_lowercase()
}

/// Whether a row passes the filter: a heading always does, and so does anything
/// while the filter is empty. `label` and `wanted` are the row's label and the
/// filter in lowercase.
pub open spec fn passes(o: OptView, filter: Text, label: Text, wanted: Text) -> bool {
    o.heading || filter.len() == 0 || text::occurs(label, wanted)
}

/// Whether a row is shown: it passes the filter, and if it is a heading, some
/// later row that is none passes too.
pub open spec fn row_shown(
    options: Seq<OptView>,
    filter: Text,
    labels: Seq<Text>,
    wanted: Text,
    i: int,
) -> bool {
    &&& passes(options[i], filter, labels[i], wanted)
    &&& options[i].heading ==> exists|j: int|
        i < j < options.len() && !(#[trigger] options[j]).heading && passes(
            options[j],
            filter,
            labels[j],
            wanted,
        )
}

/// The rows that are shown and those that can be chosen, given the labels and
/// the filter in lowercase.
pub open spec fn sifted(
    options: Seq<OptView>,
    filter: Text,
    labels: Seq<Text>,
    wanted: Text,
) -> RowsView {
    RowsView {
        shown: picked(
            options.len() as int,
            |i: int| row_shown(options, filter, labels, wanted, i),
        ),
        choices: picked(
            options.len() as int,
            |i: int| row_shown(options, filter, labels, wanted, i) && options[i].selectable(),
        ),
    }
}

/// The rows that are shown and those that can be chosen, given the labels and
/// the filter in lowercase.
pub fn sift(options: &[Opt], filter: &str, labels: &[String], wanted: &str) -> (out: Rows)
    requires
        labels@.len() == options@.len(),
    ensures
        out@ == sifted(options.deep_view(), filter@, labels.deep_view(), wanted@),
        out@.within(options@.len() as int),
{
    let ghost os = options.deep_view();
    let ghost ls = labels.deep_view();
    let ghost shows = |i: int| row_shown(os, filter@, ls, wanted@, i);
    let ghost offers = |i: int| row_shown(os, filter@, ls, wanted@, i) && os[i].selectable();
    let all: bool = filter.is_empty();
    let n: usize = options.len();

    let mut passed: Vec<bool> = Vec::new();
    let mut end: usize = 0;
    while passed.len() < n
        invariant
            os == options.deep_view(),
            ls == labels.deep_view(),
            n == options@.len(),
            n == labels@.len(),
            all == (filter@.len() == 0),
            passed@.len() <= n,
            end <= passed@.len(),
            forall|j: int|
                0 <= j < passed@.len() ==> #[trigger] passed@[j] == passes(
                    os[j],
                    filter@,
                    ls[j],
                    wanted@,
                ),
            end > 0 ==> passed@[end - 1] && !os[end - 1].heading,
            forall|j: int| end <= j < passed@.len() ==> #[trigger] os[j].heading || !passed@[j],
        decreases n - passed@.len(),
    {
        let i: usize = passed.len();
        assert(os[i as int] == options@[i as int]@);
        assert(ls[i as int] == labels@[i as int]@);
        let p: bool = options[i].heading || all || contains(labels[i].as_str(), wanted);
        passed.push(p);
        if p && !options[i].heading {
            end = i + 1;
        }
    }

    let mut shown: Vec<usize> = Vec::new();
    let mut choices: Vec<usize> = Vec::new();
    let mut i: usize = 0;
    assert(ints(shown@) == picked(0, shows));
    assert(ints(choices@) == picked(0, offers));
    while i < n
        invariant
            os == options.deep_view(),
            n == options@.len(),
            n == passed@.len(),
            i <= n,
            end <= n,
            shows == (|i: int| row_shown(os, filter@, ls, wanted@, i)),
            offers == (|i: int|
                row_shown(os, filter@, ls, wanted@, i) && os[i].selectable()),
            forall|j: int|
                0 <= j < n ==> #[trigger] passed@[j] == passes(os[j], filter@, ls[j], wanted@),
            end > 0 ==> passed@[end - 1] && !os[end - 1].heading,
            forall|j: int| end <= j < n ==> #[trigger] os[j].heading || !passed@[j],
            ints(shown@) == picked(i as int, shows),
            ints(choices@) == picked(i as int, offers),
        decreases n - i,
    {
        assert(os[i as int] == options@[i as int]@);
        let p: bool = passed[i] && (!options[i].heading || i + 1 < end);
        proof {
            if os[i as int].heading {
                if i + 1 < end {
                    assert(!os[end - 1].heading && passed@[end - 1]);
                } else if shows(i as int) {
                    let j = choose|j: int|
                        i < j < os.len() && !(#[trigger] os[j]).heading && passes(
                            os[j],
                            filter@,
                            ls[j],
                            wanted@,
                        );
                    assert(passed@[j]);
                }
            }
            assert(p == shows(i as int));
        }
        if p {
            let ghost s = ints(shown@);
            let ghost c = ints(choices@);
            shown.push(i);
            assert(ints(shown@) == s.push(i as int));
            if !options[i].heading && options[i].enabled {
                choices.push(i);
                assert(ints(choices@) == c.push(i as int));
            }
        }
        i += 1;
    }
    proof {
        lemma_picked(n as int, shows);
        lemma_picked(n as int, offers);
    }
    let out = Rows { shown, choices };
    assert(out@ == sifted(os, filter@, ls, wanted@));
    out
}

/// Where the window on a list stands after the cursor moved to `here`: moved no
/// further than needed, and without empty rows at the end.
pub open spec fn scrolled(top: int, here: int, room: int, len: int) -> int {
    let up = if here < top {
        here
    } else {
        top
    };
    let down = if here >= up + room {
        here + 1 - room
    } else {
        up
    };
    if down < tui::less(len, room) {
        down
    } else {
        tui::less(len, room)
    }
}

/// Where the window on a list stands after the cursor moved to `here`.
fn scroll(top: usize, here: usize, room: usize, len: usize) -> (out: usize)
    requires
        room > 0,
        here < usize::MAX,
    ensures
        out == scrolled(top as int, here as int, room as int, len as int),
        out + room <= len || out == 0,
{
    let up: usize = if here < top {
        here
    } else {
        top
    };
    let down: usize = if here - up >= room {
        here + 1 - room
    } else {
        up
    };
    let most: usize = if len > room {
        len - room
    } else {
        0
    };
    if down < most {
        down
    } else {
        most
    }
}

/// The line that says how many rows follow the window.
pub open spec fn more_line(n: int) -> Text {
    PAD@ + DIM@ + "  … "@ + text::decimal(n as nat) + " more"@ + RESET@
}

/// The cursor is always in the window, however it moved, and the window is in
/// the list.
pub proof fn lemma_cursor_stays_in_view(top: int, here: int, room: int, len: int)
    requires
        0 <= top,
        0 <= here < len,
        0 < room,
    ensures
        0 <= scrolled(top, here, room, len) <= here < scrolled(top, here, room, len) + room,
        scrolled(top, here, room, len) + room <= len || scrolled(top, here, room, len) == 0,
{
}

// ---------------------------------------------------------------------------
// One of several
// ---------------------------------------------------------------------------

/// The key legend of a screen of one choice.
pub const SELECT_HELP: &'static str =
    "↑↓ move · type to filter · enter select · esc back · ctrl-c quit";

/// Picking one row. Typing filters, which is what makes six hundred timezones a
/// usable question rather than a scrolling exercise.
pub struct Select {
    pub options: Vec<Opt>,
    pub filter: String,
    /// Which of the rows that can be chosen the cursor is on.
    pub cursor: usize,
    /// The first row in the window.
    pub top: usize,
}

/// What a `Select` holds, as contracts see it.
#[verifier::ext_equal]
pub struct SelectView {
    pub options: Seq<OptView>,
    pub filter: Text,
    pub cursor: int,
    pub top: int,
}

impl View for Select {
    type V = SelectView;

    open spec fn view(&self) -> SelectView {
        SelectView {
            options: self.options.deep_view(),
            filter: self.filter@,
            cursor: self.cursor as int,
            top: self.top as int,
        }
    }
}

/// The first of some rows, from the `k`-th on, that is checked; the very first
/// if none is.
pub open spec fn first_checked(options: Seq<OptView>, rows: Seq<int>, k: int) -> int
    decreases rows.len() - k,
{
    if k >= rows.len() {
        0
    } else if options[rows[k]].checked {
        k
    } else {
        first_checked(options, rows, k + 1)
    }
}

/// A text without its last character.
pub open spec fn shortened(s: Text) -> Text {
    if s.len() == 0 {
        s
    } else {
        s.drop_last()
    }
}

/// A string without its last character.
fn shorten(s: &str) -> (out: String)
    ensures
        out@ == shortened(s@),
{
    let n: usize = s.unicode_len();
    if n == 0 {
        let out = s.to_owned();
        out
    } else {
        let out = s.substring_char(0, n - 1).to_owned();
        assert(out@ == s@.drop_last());
        out
    }
}

/// A string with one more character.
fn lengthen(s: &str, c: char) -> (out: String)
    ensures
        out@ == s@.push(c),
{
    let mut out = s.to_owned();
    out.push(c);
    out
}

/// Where a value stands first in a list, or 0 where it does not.
pub open spec fn place_of(rows: Seq<int>, x: int, k: int) -> int
    decreases rows.len() - k,
{
    if k >= rows.len() {
        0
    } else if rows[k] == x {
        k
    } else {
        place_of(rows, x, k + 1)
    }
}

impl SelectView {
    /// The rows, as the filter leaves them.
    pub open spec fn rows(self) -> RowsView {
        sifted(
            self.options,
            self.filter,
            self.options.map_values(|o: OptView| lowercase(o.label)),
            lowercase(self.filter),
        )
    }

    /// The choice the cursor is on when there are `rows`: the last one, where
    /// the filter has left fewer.
    pub open spec fn at(self, rows: RowsView) -> int {
        if rows.choices.len() == 0 {
            if self.filter.len() > 0 {
                0
            } else {
                self.cursor
            }
        } else if self.cursor < rows.choices.len() {
            self.cursor
        } else {
            rows.choices.len() - 1
        }
    }

    /// Where among the rows shown the cursor is.
    pub open spec fn here(self, rows: RowsView) -> int {
        if self.at(rows) < rows.choices.len() {
            place_of(rows.shown, rows.choices[self.at(rows)], 0)
        } else {
            0
        }
    }

    /// What stands above the rows.
    pub open spec fn above(self, ui: Ui, page: PageView) -> Seq<Text> {
        tui::header_lines(ui.cols as int, page) + if self.filter.len() > 0 {
            seq![PAD@ + ACCENT@ + "/"@ + self.filter + RESET@, Seq::<char>::empty()]
        } else {
            Seq::<Text>::empty()
        }
    }

    /// How many rows fit.
    pub open spec fn room(self, ui: Ui, page: PageView) -> int {
        tui::room_for_list(ui.rows as int, self.above(ui, page).len() as int)
    }

    /// The screen once it has been drawn: the cursor on a row that is there, and
    /// the window around it.
    pub open spec fn settled(self, ui: Ui, page: PageView, rows: RowsView) -> SelectView {
        SelectView {
            cursor: self.at(rows),
            top: scrolled(
                self.top,
                self.here(rows),
                self.room(ui, page),
                rows.shown.len() as int,
            ),
            ..self
        }
    }

    /// The rows in the window that begins at `top`.
    pub open spec fn window(self, rows: RowsView, top: int, room: int) -> Seq<Text> {
        let count = if rows.shown.len() - top < room {
            rows.shown.len() - top
        } else {
            room
        };
        Seq::new(
            count as nat,
            |k: int|
                tui::row_line(
                    self.options[rows.shown[top + k]],
                    top + k == self.here(rows) && rows.choices.len() > 0,
                    tui::widest(self.options),
                ),
        )
    }

    /// The lines of the screen.
    pub open spec fn lines(self, ui: Ui, page: PageView, rows: RowsView) -> Seq<Text> {
        let room = self.room(ui, page);
        let top = self.settled(ui, page, rows).top;
        let nothing = if rows.shown.len() == 0 {
            seq![PAD@ + DIM@ + "  nothing matches `"@ + self.filter + "`"@ + RESET@]
        } else {
            Seq::<Text>::empty()
        };
        let more = if rows.shown.len() > top + room {
            seq![more_line(rows.shown.len() - top - room)]
        } else {
            Seq::<Text>::empty()
        };
        tui::with_footer(
            self.above(ui, page) + nothing + self.window(rows, top, room) + more,
            ui.rows as int,
            page.legend(SELECT_HELP@),
        )
    }

    /// The screen after a key, and the row that was chosen, if one was.
    pub open spec fn pressed(self, key: Key, rows: RowsView) -> (SelectView, Option<int>) {
        let at = self.at(rows);
        let n = rows.choices.len() as int;
        match key {
            Key::Up => (SelectView { cursor: tui::less(at, 1), ..self }, None),
            Key::Down => (
                SelectView {
                    cursor: if n == 0 {
                        at
                    } else if at + 1 < n {
                        at + 1
                    } else {
                        n - 1
                    },
                    ..self
                },
                None,
            ),
            Key::Enter => (
                SelectView { cursor: at, ..self },
                if at < n {
                    Some(rows.choices[at])
                } else {
                    None
                },
            ),
            Key::Backspace => (
                SelectView { filter: shortened(self.filter), cursor: 0, ..self },
                None,
            ),
            Key::Char(c) => (SelectView { filter: self.filter.push(c), cursor: 0, ..self }, None),
            Key::Space => (SelectView { filter: self.filter.push(' '), cursor: 0, ..self }, None),
            Key::ClearLine | Key::Resize => (SelectView { cursor: at, ..self }, None),
        }
    }

    /// The screen as it opens: nothing filtered, and the cursor on the row that
    /// is checked.
    pub open spec fn opened(options: Seq<OptView>) -> SelectView {
        let bare = SelectView { options, filter: Seq::empty(), cursor: 0, top: 0 };
        SelectView { cursor: first_checked(options, bare.rows().choices, 0), ..bare }
    }
}

impl Select {
    /// The screen as it opens.
    pub fn new(options: Vec<Opt>) -> (out: Select)
        ensures
            out@ == SelectView::opened(options.deep_view()),
    {
        let mut out = Select { options, filter: String::new(), cursor: 0, top: 0 };
        assert(out.filter@ == Seq::<char>::empty());
        let rows = out.rows();
        let ghost choices = rows@.choices;
        let mut k: usize = 0;
        while k < rows.choices.len()
            invariant_except_break
                out.cursor == 0,
            invariant
                out.filter@ == Seq::<char>::empty(),
                out.top == 0,
                out.options == options,
                choices == ints(rows.choices@),
                rows@.within(out.options@.len() as int),
                k <= rows.choices.len(),
                first_checked(options.deep_view(), choices, 0) == first_checked(
                    options.deep_view(),
                    choices,
                    k as int,
                ),
            ensures
                out.filter@ == Seq::<char>::empty(),
                out.top == 0,
                out.options == options,
                out.cursor == first_checked(options.deep_view(), choices, 0),
            decreases rows.choices.len() - k,
        {
            assert(rows@.choices[k as int] == rows.choices@[k as int]);
            assert(options.deep_view()[choices[k as int]] == options@[choices[k as int]]@);
            if out.options[rows.choices[k]].checked {
                out.cursor = k;
                break ;
            }
            k += 1;
        }
        assert(out@ =~= SelectView::opened(options.deep_view()));
        out
    }

    /// The rows, as the filter leaves them.
    pub fn rows(&self) -> (out: Rows)
        ensures
            out@ == self@.rows(),
            out@.within(self.options@.len() as int),
    {
        let ghost all = self@.options.map_values(|o: OptView| lowercase(o.label));
        let mut labels: Vec<String> = Vec::new();
        let mut i: usize = 0;
        assert(labels.deep_view() == all.take(0));
        while i < self.options.len()
            invariant
                all == self@.options.map_values(|o: OptView| lowercase(o.label)),
                i <= self.options.len(),
                labels.deep_view() == all.take(i as int),
            decreases self.options.len() - i,
        {
            let low = to_lowercase(self.options[i].label.as_str());
            assert(all[i as int] == low@);
            assert(all.take(i + 1) == all.take(i as int).push(low@));
            emit(&mut labels, low);
            i += 1;
        }
        assert(all.take(i as int) == all);
        assert(labels@.len() == labels.deep_view().len());
        let wanted = to_lowercase(self.filter.as_str());
        sift(self.options.as_slice(), self.filter.as_str(), labels.as_slice(), wanted.as_str())
    }

    /// The choice the cursor is on.
    fn at(&self, rows: &Rows) -> (at: usize)
        ensures
            at == self@.at(rows@),
    {
        let n: usize = rows.choices.len();
        if n == 0 {
            if self.filter.as_str().is_empty() {
                self.cursor
            } else {
                0
            }
        } else if self.cursor < n {
            self.cursor
        } else {
            n - 1
        }
    }

    /// Where among the rows shown the cursor is.
    fn here(&self, rows: &Rows) -> (here: usize)
        ensures
            here == self@.here(rows@),
            here < rows.shown@.len() || here == 0,
    {
        let at = self.at(rows);
        if at >= rows.choices.len() {
            return 0;
        }
        let want: usize = rows.choices[at];
        assert(rows@.choices[at as int] == want);
        let ghost shown = rows@.shown;
        let mut k: usize = 0;
        while k < rows.shown.len()
            invariant
                shown == ints(rows.shown@),
                shown == rows@.shown,
                at == self@.at(rows@),
                at < rows.choices@.len(),
                want == rows@.choices[at as int],
                k <= rows.shown.len(),
                place_of(shown, want as int, 0) == place_of(shown, want as int, k as int),
            decreases rows.shown.len() - k,
        {
            assert(shown[k as int] == rows.shown@[k as int]);
            if rows.shown[k] == want {
                return k;
            }
            k += 1;
        }
        0
    }

    /// Draws the screen, given the rows as the filter leaves them.
    pub fn draw_rows(&mut self, ui: &Ui, page: &Page, rows: &Rows) -> (out: Vec<String>)
        requires
            rows@.within(old(self).options@.len() as int),
        ensures
            final(self)@ == old(self)@.settled(*ui, page@, rows@),
            out.deep_view() == old(self)@.lines(*ui, page@, rows@),
            final(self).options@.len() == old(self).options@.len(),
    {
        let ghost was = self@;
        let ghost rv = rows@;
        let at = self.at(rows);
        let here = self.here(rows);
        let width = column(self.options.as_slice());

        let mut out = ui.header(page);
        let ghost head = out.deep_view();
        if !self.filter.as_str().is_empty() {
            emit(
                &mut out,
                PAD.to_owned().concat(ACCENT).concat("/").concat(self.filter.as_str()).concat(
                    RESET,
                ),
            );
            emit(&mut out, String::new());
        }
        assert(out.deep_view() =~= was.above(*ui, page@));
        assert(out.len() == out.deep_view().len());
        let screen: usize = ui.rows as usize;
        let room: usize = if screen > 6 && out.len() < screen - 5 {
            screen - 3 - out.len()
        } else {
            3
        };
        assert(room == was.room(*ui, page@));

        let len: usize = rows.shown.len();
        let top = scroll(self.top, here, room, len);
        self.cursor = at;
        self.top = top;
        assert(self@ =~= was.settled(*ui, page@, rv));

        if len == 0 {
            emit(
                &mut out,
                PAD.to_owned().concat(DIM).concat("  nothing matches `").concat(
                    self.filter.as_str(),
                ).concat("`").concat(RESET),
            );
        }
        let ghost above = out.deep_view();
        let ghost window = was.window(rv, top as int, room as int);
        let count: usize = if len - top < room {
            len - top
        } else {
            room
        };
        let mut k: usize = 0;
        assert(above + window.take(0) == above);
        while k < count
            invariant
                was.options == self.options.deep_view(),
                rv == rows@,
                rv.within(self.options@.len() as int),
                len == rows.shown@.len(),
                top + count <= len,
                count == window.len(),
                window == was.window(rv, top as int, room as int),
                here == was.here(rv),
                width == tui::widest(was.options),
                k <= count,
                out.deep_view() == above + window.take(k as int),
            decreases count - k,
        {
            let pos: usize = top + k;
            assert(rv.shown[pos as int] == rows.shown@[pos as int]);
            let i: usize = rows.shown[pos];
            assert(was.options[i as int] == self.options@[i as int]@);
            let line = ui.row(&self.options[i], pos == here && rows.choices.len() > 0, width);
            assert(window[k as int] == line@);
            assert(window.take(k + 1) == window.take(k as int).push(line@));
            assert((above + window.take(k as int)).push(line@) == above + window.take(k + 1));
            emit(&mut out, line);
            k += 1;
        }
        assert(window.take(k as int) == window);
        if len - top > room {
            emit(
                &mut out,
                PAD.to_owned().concat(DIM).concat("  … ").concat(
                    number((len - top - room) as u64).as_str(),
                ).concat(" more").concat(RESET),
            );
        }
        let help = page.legend(SELECT_HELP);
        let ghost body = out.deep_view();
        ui.footer(help.as_str(), &mut out);
        proof {
            let nothing = if rv.shown.len() == 0 {
                seq![PAD@ + DIM@ + "  nothing matches `"@ + was.filter + "`"@ + RESET@]
            } else {
                Seq::<Text>::empty()
            };
            let more = if rv.shown.len() > top + room {
                seq![more_line(rv.shown.len() - top - room)]
            } else {
                Seq::<Text>::empty()
            };
            assert(body =~= was.above(*ui, page@) + nothing + window + more);
        }
        out
    }

    /// Draws the screen.
    pub fn draw(&mut self, ui: &Ui, page: &Page) -> (out: Vec<String>)
        ensures
            final(self)@ == old(self)@.settled(*ui, page@, old(self)@.rows()),
            out.deep_view() == old(self)@.lines(*ui, page@, old(self)@.rows()),
    {
        let rows = self.rows();
        self.draw_rows(ui, page, &rows)
    }

    /// Tells the screen a key, given the rows as the filter leaves them; `Some`
    /// is the row that was chosen.
    pub fn press_rows(&mut self, key: Key, rows: &Rows) -> (out: Option<usize>)
        requires
            rows@.within(old(self).options@.len() as int),
        ensures
            final(self)@ == old(self)@.pressed(key, rows@).0,
            (match out {
                Some(i) => Some(i as int),
                None => None,
            }) == old(self)@.pressed(key, rows@).1,
            final(self).options == old(self).options,
            out matches Some(i) ==> i < old(self).options@.len(),
    {
        let at = self.at(rows);
        let n: usize = rows.choices.len();
        let ghost rv = rows@;
        match key {
            Key::Up => {
                self.cursor = if at > 1 {
                    at - 1
                } else {
                    0
                };
                None
            },
            Key::Down => {
                self.cursor = if n == 0 {
                    at
                } else if at < n - 1 {
                    at + 1
                } else {
                    n - 1
                };
                None
            },
            Key::Enter => {
                self.cursor = at;
                if at < n {
                    assert(rv.choices[at as int] == rows.choices@[at as int]);
                    Some(rows.choices[at])
                } else {
                    None
                }
            },
            Key::Backspace => {
                self.filter = shorten(self.filter.as_str());
                self.cursor = 0;
                None
            },
            Key::Char(c) => {
                self.filter = lengthen(self.filter.as_str(), c);
                self.cursor = 0;
                None
            },
            Key::Space => {
                self.filter = lengthen(self.filter.as_str(), ' ');
                self.cursor = 0;
                None
            },
            Key::ClearLine | Key::Resize => {
                self.cursor = at;
                None
            },
        }
    }

    /// Tells the screen a key; `Some` is the row that was chosen.
    pub fn press(&mut self, key: Key) -> (out: Option<usize>)
        ensures
            final(self)@ == old(self)@.pressed(key, old(self)@.rows()).0,
            (match out {
                Some(i) => Some(i as int),
                None => None,
            }) == old(self)@.pressed(key, old(self)@.rows()).1,
            final(self).options == old(self).options,
            out matches Some(i) ==> i < old(self).options@.len(),
    {
        let rows = self.rows();
        self.press_rows(key, &rows)
    }
}

/// Whatever is typed, a row that is chosen is there, is no heading, is enabled
/// and passes the filter.
pub proof fn lemma_only_enabled_rows_are_chosen(s: SelectView, key: Key)
    requires
        0 <= s.cursor,
    ensures
        s.pressed(key, s.rows()).1 matches Some(i) ==> {
            &&& key == Key::Enter
            &&& 0 <= i < s.options.len()
            &&& s.options[i].selectable()
            &&& s.filter.len() == 0 || text::occurs(
                lowercase(s.options[i].label),
                lowercase(s.filter),
            )
        },
{
    let low = s.options.map_values(|o: OptView| lowercase(o.label));
    let offers = |i: int|
        row_shown(s.options, s.filter, low, lowercase(s.filter), i) && s.options[i].selectable();
    lemma_picked(s.options.len() as int, offers);
    assert(s.rows().choices == picked(s.options.len() as int, offers));
    if let Some(i) = s.pressed(key, s.rows()).1 {
        assert(i == s.rows().choices[s.at(s.rows())]);
        assert(offers(i));
        assert(low[i] == lowercase(s.options[i].label));
    }
}

proof fn lemma_first_checked(options: Seq<OptView>, rows: Seq<int>, k: int)
    requires
        0 <= k,
        exists|j: int| k <= j < rows.len() && options[#[trigger] rows[j]].checked,
    ensures
        k <= first_checked(options, rows, k) < rows.len(),
        options[rows[first_checked(options, rows, k)]].checked,
    decreases rows.len() - k,
{
    let j = choose|j: int| k <= j < rows.len() && options[#[trigger] rows[j]].checked;
    if !options[rows[k]].checked {
        assert(k + 1 <= j);
        lemma_first_checked(options, rows, k + 1);
    }
}

/// Enter on a screen of one choice that has just opened gives back the row that
/// was checked, so an earlier answer stands unless it is changed.
pub proof fn lemma_enter_keeps_the_answer(options: Seq<OptView>, i: int)
    requires
        0 <= i < options.len(),
        options[i].selectable(),
        options[i].checked,
        forall|j: int| 0 <= j < options.len() && (#[trigger] options[j]).checked ==> j == i,
    ensures
        ({
            let s = SelectView::opened(options);
            s.pressed(Key::Enter, s.rows()).1 == Some(i)
        }),
{
    let s = SelectView::opened(options);
    let bare = SelectView { options, filter: Seq::empty(), cursor: 0, top: 0 };
    assert(s.rows() == bare.rows());
    let rows = s.rows();
    let low = options.map_values(|o: OptView| lowercase(o.label));
    let offers = |i: int|
        row_shown(options, s.filter, low, lowercase(s.filter), i) && options[i].selectable();
    lemma_picked(options.len() as int, offers);
    assert(offers(i));
    assert(rows.choices.contains(i));
    let k = choose|k: int| 0 <= k < rows.choices.len() && rows.choices[k] == i;
    assert(options[rows.choices[k]].checked);
    lemma_first_checked(options, rows.choices, 0);
    let at = first_checked(options, rows.choices, 0);
    assert(offers(rows.choices[at]));
}

// ---------------------------------------------------------------------------
// Any number of several
// ---------------------------------------------------------------------------

/// The key legend of a screen of several choices.
pub const MULTISELECT_HELP: &'static str =
    "↑↓ move · space toggle · enter continue · esc back · ctrl-c quit";

/// Picking any number of rows. No filter: the only such screen in the interview
/// is the module library, which is grouped by namespace and meant to be read.
pub struct Multiselect {
    pub options: Vec<Opt>,
    pub chosen: Vec<bool>,
    /// Which of the rows that can be chosen the cursor is on.
    pub cursor: usize,
    /// The first row in the window.
    pub top: usize,
}

/// What a `Multiselect` holds, as contracts see it.
#[verifier::ext_equal]
pub struct MultiselectView {
    pub options: Seq<OptView>,
    pub chosen: Seq<bool>,
    pub cursor: int,
    pub top: int,
}

impl View for Multiselect {
    type V = MultiselectView;

    open spec fn view(&self) -> MultiselectView {
        MultiselectView {
            options: self.options.deep_view(),
            chosen: self.chosen@,
            cursor: self.cursor as int,
            top: self.top as int,
        }
    }
}

/// The rows of a list that can be chosen.
pub open spec fn selectable_rows(options: Seq<OptView>) -> Seq<int> {
    picked(options.len() as int, |i: int| options[i].selectable())
}

/// The rows of a list that are marked.
pub open spec fn marked_rows(chosen: Seq<bool>) -> Seq<int> {
    picked(chosen.len() as int, |i: int| chosen[i])
}

/// How a row of the list is drawn.
pub open spec fn marked_line(o: OptView, chosen: bool, selected: bool, width: int) -> Text {
    if o.heading {
        tui::heading_line(o.label)
    } else {
        let mark = if chosen {
            OK@ + "[x]"@ + RESET@
        } else {
            DIM@ + "[ ]"@ + RESET@
        };
        let label = if selected {
            BOLD@ + o.label + RESET@
        } else {
            o.label
        };
        PAD@ + tui::arrow(selected) + " "@ + mark + " "@ + label + tui::note_column(o, width)
    }
}

/// How a row of the list is drawn.
fn marked_text(o: &Opt, chosen: bool, selected: bool, width: usize) -> (out: String)
    ensures
        out@ == marked_line(o@, chosen, selected, width as int),
{
    if o.heading {
        return PAD.to_owned().concat(DIM).concat(o.label.as_str()).concat(RESET);
    }
    let mark = if chosen {
        OK.to_owned().concat("[x]").concat(RESET)
    } else {
        DIM.to_owned().concat("[ ]").concat(RESET)
    };
    let label = if selected {
        BOLD.to_owned().concat(o.label.as_str()).concat(RESET)
    } else {
        o.label.clone()
    };
    PAD.to_owned().concat(arrow_text(selected).as_str()).concat(" ").concat(mark.as_str()).concat(
        " ",
    ).concat(label.as_str()).concat(note_text(o, width).as_str())
}

impl MultiselectView {
    /// Whether every row has its mark, and no heading is marked.
    pub open spec fn well_formed(self) -> bool {
        &&& self.chosen.len() == self.options.len()
        &&& forall|i: int|
            0 <= i < self.options.len() && (#[trigger] self.options[i]).heading ==> !self.chosen[i]
    }

    /// The screen as it opens: marked is what is checked, headings aside.
    pub open spec fn opened(options: Seq<OptView>) -> MultiselectView {
        MultiselectView {
            options,
            chosen: options.map_values(|o: OptView| o.checked && !o.heading),
            cursor: 0,
            top: 0,
        }
    }

    /// Whether the cursor is on a row: it is on none when none can be chosen.
    pub open spec fn on_a_row(self) -> bool {
        self.cursor < selectable_rows(self.options).len()
    }

    /// The row the cursor is on, or the first one when it is on none.
    pub open spec fn here(self) -> int {
        let rows = selectable_rows(self.options);
        if self.on_a_row() {
            rows[self.cursor]
        } else {
            0
        }
    }

    /// How many rows fit.
    pub open spec fn room(self, ui: Ui, page: PageView) -> int {
        tui::room_for_list(
            ui.rows as int,
            tui::header_lines(ui.cols as int, page).len() as int,
        )
    }

    /// The screen once it has been drawn: the window around the cursor.
    pub open spec fn settled(self, ui: Ui, page: PageView) -> MultiselectView {
        MultiselectView {
            top: scrolled(
                self.top,
                self.here(),
                self.room(ui, page),
                self.options.len() as int,
            ),
            ..self
        }
    }

    /// The rows in the window that begins at `top`.
    pub open spec fn window(self, top: int, room: int) -> Seq<Text> {
        let count = if self.options.len() - top < room {
            self.options.len() - top
        } else {
            room
        };
        Seq::new(
            count as nat,
            |k: int|
                marked_line(
                    self.options[top + k],
                    self.chosen[top + k],
                    self.on_a_row() && top + k == self.here(),
                    tui::widest(self.options),
                ),
        )
    }

    /// The lines of the screen.
    pub open spec fn lines(self, ui: Ui, page: PageView) -> Seq<Text> {
        let room = self.room(ui, page);
        let top = self.settled(ui, page).top;
        let more = if self.options.len() > top + room {
            seq![more_line(self.options.len() - top - room)]
        } else {
            Seq::<Text>::empty()
        };
        tui::with_footer(
            tui::header_lines(ui.cols as int, page) + self.window(top, room) + more,
            ui.rows as int,
            page.legend(MULTISELECT_HELP@),
        )
    }

    /// The screen after a key, and the rows that were marked, if it is done.
    pub open spec fn pressed(self, key: Key) -> (MultiselectView, Option<Seq<int>>) {
        let last = tui::less(selectable_rows(self.options).len() as int, 1);
        match key {
            Key::Up => (MultiselectView { cursor: tui::less(self.cursor, 1), ..self }, None),
            Key::Down => (
                MultiselectView {
                    cursor: if self.cursor < last {
                        self.cursor + 1
                    } else {
                        last
                    },
                    ..self
                },
                None,
            ),
            Key::Space => (
                if self.on_a_row() {
                    MultiselectView {
                        chosen: self.chosen.update(self.here(), !self.chosen[self.here()]),
                        ..self
                    }
                } else {
                    self
                },
                None,
            ),
            Key::Enter => (self, Some(marked_rows(self.chosen))),
            Key::Backspace | Key::ClearLine | Key::Char(_) | Key::Resize => (self, None),
        }
    }
}

impl Multiselect {
    /// The screen as it opens.
    pub fn new(options: Vec<Opt>) -> (out: Multiselect)
        ensures
            out@ == MultiselectView::opened(options.deep_view()),
            out@.well_formed(),
    {
        let ghost marks = options.deep_view().map_values(|o: OptView| o.checked && !o.heading);
        let mut chosen: Vec<bool> = Vec::new();
        while chosen.len() < options.len()
            invariant
                marks == options.deep_view().map_values(|o: OptView| o.checked && !o.heading),
                chosen@.len() <= options@.len(),
                chosen@ == marks.take(chosen@.len() as int),
            decreases options.len() - chosen.len(),
        {
            let i: usize = chosen.len();
            let c: bool = options[i].checked && !options[i].heading;
            assert(marks[i as int] == c);
            assert(marks.take(i + 1) == marks.take(i as int).push(c));
            chosen.push(c);
        }
        assert(marks.take(chosen@.len() as int) == marks);
        Multiselect { options, chosen, cursor: 0, top: 0 }
    }

    /// The rows that can be chosen.
    fn rows(&self) -> (out: Vec<usize>)
        ensures
            ints(out@) == selectable_rows(self@.options),
            forall|k: int| 0 <= k < out@.len() ==> #[trigger] out@[k] < self.options@.len(),
    {
        let ghost os = self@.options;
        let ghost p = |i: int| os[i].selectable();
        let mut out: Vec<usize> = Vec::new();
        let mut i: usize = 0;
        assert(ints(out@) == picked(0, p));
        while i < self.options.len()
            invariant
                os == self.options.deep_view(),
                p == (|i: int| os[i].selectable()),
                i <= self.options.len(),
                ints(out@) == picked(i as int, p),
                forall|k: int| 0 <= k < out@.len() ==> #[trigger] out@[k] < i,
            decreases self.options.len() - i,
        {
            assert(os[i as int] == self.options@[i as int]@);
            if !self.options[i].heading && self.options[i].enabled {
                let ghost before = ints(out@);
                out.push(i);
                assert(ints(out@) == before.push(i as int));
            }
            i += 1;
        }
        out
    }

    /// The row the cursor is on, if it is on one.
    fn here(&self) -> (here: Option<usize>)
        ensures
            here is Some == self@.on_a_row(),
            here matches Some(i) ==> i == self@.here() && i < self.options@.len()
                && self@.options[i as int].selectable(),
    {
        let rows = self.rows();
        assert(ints(rows@).len() == rows@.len());
        if self.cursor < rows.len() {
            proof {
                let os = self@.options;
                lemma_picked(os.len() as int, |i: int| os[i].selectable());
                assert(ints(rows@)[self.cursor as int] == rows@[self.cursor as int]);
            }
            Some(rows[self.cursor])
        } else {
            None
        }
    }

    /// The rows that are marked.
    fn marked(&self) -> (out: Vec<usize>)
        ensures
            ints(out@) == marked_rows(self.chosen@),
    {
        let ghost marks = self.chosen@;
        let ghost p = |i: int| marks[i];
        let mut out: Vec<usize> = Vec::new();
        let mut i: usize = 0;
        assert(ints(out@) == picked(0, p));
        while i < self.chosen.len()
            invariant
                marks == self.chosen@,
                p == (|i: int| marks[i]),
                i <= self.chosen.len(),
                ints(out@) == picked(i as int, p),
            decreases self.chosen.len() - i,
        {
            if self.chosen[i] {
                let ghost before = ints(out@);
                out.push(i);
                assert(ints(out@) == before.push(i as int));
            }
            i += 1;
        }
        out
    }

    /// Draws the screen.
    pub fn draw(&mut self, ui: &Ui, page: &Page) -> (out: Vec<String>)
        requires
            old(self)@.well_formed(),
        ensures
            final(self)@ == old(self)@.settled(*ui, page@),
            out.deep_view() == old(self)@.lines(*ui, page@),
    {
        let ghost was = self@;
        let cursor = self.here();
        let here: usize = match cursor {
            Some(i) => i,
            None => 0,
        };
        let width = column(self.options.as_slice());
        let mut out = ui.header(page);
        let ghost head = out.deep_view();
        assert(out.len() == out.deep_view().len());
        let screen: usize = ui.rows as usize;
        let room: usize = if screen > 6 && out.len() < screen - 5 {
            screen - 3 - out.len()
        } else {
            3
        };
        assert(room == was.room(*ui, page@));
        let len: usize = self.options.len();
        let top = scroll(self.top, here, room, len);
        self.top = top;
        assert(self@ =~= was.settled(*ui, page@));

        let ghost window = was.window(top as int, room as int);
        let count: usize = if len - top < room {
            len - top
        } else {
            room
        };
        let mut k: usize = 0;
        assert(head + window.take(0) == head);
        while k < count
            invariant
                was.options == self.options.deep_view(),
                was.chosen == self.chosen@,
                was.chosen.len() == was.options.len(),
                len == self.options@.len(),
                top + count <= len,
                count == window.len(),
                window == was.window(top as int, room as int),
                here == was.here(),
                cursor is Some == was.on_a_row(),
                width == tui::widest(was.options),
                k <= count,
                out.deep_view() == head + window.take(k as int),
            decreases count - k,
        {
            let i: usize = top + k;
            assert(was.options[i as int] == self.options@[i as int]@);
            let line = marked_text(&self.options[i], self.chosen[i], cursor.is_some() && i == here, width);
            assert(window[k as int] == line@);
            assert(window.take(k + 1) == window.take(k as int).push(line@));
            assert((head + window.take(k as int)).push(line@) == head + window.take(k + 1));
            emit(&mut out, line);
            k += 1;
        }
        assert(window.take(k as int) == window);
        if len - top > room {
            emit(
                &mut out,
                PAD.to_owned().concat(DIM).concat("  … ").concat(
                    number((len - top - room) as u64).as_str(),
                ).concat(" more").concat(RESET),
            );
        }
        let help = page.legend(MULTISELECT_HELP);
        let ghost body = out.deep_view();
        ui.footer(help.as_str(), &mut out);
        proof {
            let more = if was.options.len() > top + room {
                seq![more_line(was.options.len() - top - room)]
            } else {
                Seq::<Text>::empty()
            };
            assert(body =~= head + window + more);
        }
        out
    }

    /// Tells the screen a key; `Some` are the rows that were marked when it is
    /// done.
    pub fn press(&mut self, key: Key) -> (out: Option<Vec<usize>>)
        requires
            old(self)@.well_formed(),
        ensures
            final(self)@ == old(self)@.pressed(key).0,
            final(self)@.well_formed(),
            final(self).options == old(self).options,
            (match out {
                Some(rows) => Some(ints(rows@)),
                None => None,
            }) == old(self)@.pressed(key).1,
    {
        match key {
            Key::Up => {
                self.cursor = if self.cursor > 1 {
                    self.cursor - 1
                } else {
                    0
                };
                None
            },
            Key::Down => {
                let rows = self.rows();
                assert(ints(rows@).len() == rows@.len());
                let last: usize = if rows.len() > 1 {
                    rows.len() - 1
                } else {
                    0
                };
                self.cursor = if self.cursor < last {
                    self.cursor + 1
                } else {
                    last
                };
                None
            },
            Key::Space => {
                if let Some(here) = self.here() {
                    let flipped: bool = !self.chosen[here];
                    self.chosen.set(here, flipped);
                }
                None
            },
            Key::Enter => Some(self.marked()),
            Key::Backspace | Key::ClearLine | Key::Char(_) | Key::Resize => None,
        }
    }
}

/// Enter gives back exactly the rows that are marked, in order.
pub proof fn lemma_enter_gives_the_marked(m: MultiselectView, i: int)
    requires
        m.well_formed(),
        0 <= i < m.options.len(),
    ensures
        m.pressed(Key::Enter).1 matches Some(rows) && (rows.contains(i) <==> m.chosen[i]),
{
    let p = |i: int| m.chosen[i];
    lemma_picked(m.chosen.len() as int, p);
    let rows = marked_rows(m.chosen);
    if rows.contains(i) {
        let k = choose|k: int| 0 <= k < rows.len() && rows[k] == i;
        assert(p(rows[k]));
    }
    if m.chosen[i] {
        assert(p(i));
    }
}

/// Space twice leaves everything as it was. Once, it changes the mark of the row
/// under the cursor alone, and a row whose mark changed is one that can be
/// chosen. With no row under the cursor it changes nothing.
pub proof fn lemma_space_toggles(m: MultiselectView)
    requires
        m.well_formed(),
        0 <= m.cursor,
    ensures
        m.pressed(Key::Space).0.pressed(Key::Space).0 == m,
        forall|i: int|
            0 <= i < m.options.len() && #[trigger] m.pressed(Key::Space).0.chosen[i] != m.chosen[i]
                ==> m.on_a_row() && i == m.here() && m.options[i].selectable(),
        m.on_a_row() ==> m.pressed(Key::Space).0.chosen[m.here()] == !m.chosen[m.here()],
        !m.on_a_row() ==> m.pressed(Key::Space).0 == m,
{
    let p = |i: int| m.options[i].selectable();
    lemma_picked(m.options.len() as int, p);
    let rows = selectable_rows(m.options);
    if m.on_a_row() {
        assert(p(rows[m.cursor]));
        let once = m.pressed(Key::Space).0;
        assert(once.here() == m.here());
        let twice = once.pressed(Key::Space).0;
        assert(twice.chosen =~= m.chosen);
    }
}

/// A heading cannot be selected: none is marked when the screen opens, no key
/// marks one, and Enter never gives one back.
pub proof fn lemma_headings_are_never_selected(m: MultiselectView, key: Key, i: int)
    requires
        m.well_formed(),
        0 <= m.cursor,
        0 <= i < m.options.len(),
        m.options[i].heading,
    ensures
        MultiselectView::opened(m.options).well_formed(),
        m.pressed(key).0.well_formed(),
        m.pressed(Key::Enter).1 matches Some(rows) && !rows.contains(i),
{
    lemma_enter_gives_the_marked(m, i);
    let p = |i: int| m.options[i].selectable();
    lemma_picked(m.options.len() as int, p);
    if m.on_a_row() {
        assert(p(selectable_rows(m.options)[m.cursor]));
    }
    let next = m.pressed(key).0;
    assert forall|j: int|
        0 <= j < next.options.len() && (#[trigger] next.options[j]).heading implies !next.chosen[j] by {
        assert(m.options[j].heading);
    }
}

// ---------------------------------------------------------------------------
// A line of text
// ---------------------------------------------------------------------------

/// The key legend of a text field.
pub const FIELD_HELP: &'static str = "enter continue · ctrl-u clear · esc back · ctrl-c quit";

/// A line of text, with validation shown under the field rather than after it
/// is accepted.
pub struct Field {
    pub label: String,
    pub value: String,
    /// Whether what is typed is hidden.
    pub mask: bool,
    pub error: Option<String>,
    pub check: Check,
}

/// What a `Field` holds, as contracts see it.
#[verifier::ext_equal]
pub struct FieldView {
    pub label: Text,
    pub value: Text,
    pub mask: bool,
    pub error: Option<Text>,
    pub check: CheckView,
}

impl View for Field {
    type V = FieldView;

    open spec fn view(&self) -> FieldView {
        FieldView {
            label: self.label@,
            value: self.value@,
            mask: self.mask,
            error: self.error.deep_view(),
            check: self.check@,
        }
    }
}

impl FieldView {
    /// A field before anything is typed.
    pub open spec fn fresh(label: Text, value: Text, mask: bool, check: CheckView) -> FieldView {
        FieldView { label, value, mask, error: None, check }
    }

    /// The lines of the screen.
    pub open spec fn lines(self, ui: Ui, page: PageView) -> Seq<Text> {
        let shown = if self.mask {
            text::fill('•', self.value.len() as int)
        } else {
            self.value
        };
        let complaint = match self.error {
            Some(e) => seq![Seq::<char>::empty(), PAD@ + DANGER@ + e + RESET@],
            None => Seq::<Text>::empty(),
        };
        tui::with_footer(
            tui::header_lines(ui.cols as int, page) + seq![
                PAD@ + self.label,
                PAD@ + ACCENT@ + "▸"@ + RESET@ + " "@ + shown + ACCENT@ + "▏"@ + RESET@,
            ] + complaint,
            ui.rows as int,
            page.legend(FIELD_HELP@),
        )
    }

    /// The field with another value, and no complaint about it yet.
    pub open spec fn edited(self, value: Text) -> FieldView {
        FieldView { value, error: None, ..self }
    }

    /// The field after a key, and its value once that is accepted, where
    /// `complaint` is what is wrong with the value.
    pub open spec fn judged(self, key: Key, complaint: Option<Text>) -> (FieldView, Option<Text>) {
        match key {
            Key::Enter => match complaint {
                None => (self, Some(self.value)),
                Some(e) => (FieldView { error: Some(e), ..self }, None),
            },
            Key::Backspace => (self.edited(shortened(self.value)), None),
            Key::ClearLine => (self.edited(Seq::empty()), None),
            Key::Char(c) => (self.edited(self.value.push(c)), None),
            Key::Space => (self.edited(self.value.push(' ')), None),
            Key::Up | Key::Down | Key::Resize => (self, None),
        }
    }

    /// The field after a key, and its value once its check accepts that.
    pub open spec fn pressed(self, key: Key) -> (FieldView, Option<Text>) {
        self.judged(key, self.check.complaint(self.value))
    }
}

impl Field {
    /// A field before anything is typed.
    pub fn new(label: &str, value: &str, mask: bool, check: Check) -> (out: Field)
        ensures
            out@ == FieldView::fresh(label@, value@, mask, check@),
    {
        Field { label: label.to_owned(), value: value.to_owned(), mask, error: None, check }
    }

    /// Draws the screen.
    pub fn draw(&self, ui: &Ui, page: &Page) -> (out: Vec<String>)
        ensures
            out.deep_view() == self@.lines(*ui, page@),
    {
        let mut out = ui.header(page);
        let shown = if self.mask {
            filled('•', self.value.as_str().unicode_len())
        } else {
            self.value.clone()
        };
        emit(&mut out, PAD.to_owned().concat(self.label.as_str()));
        emit(
            &mut out,
            PAD.to_owned().concat(ACCENT).concat("▸").concat(RESET).concat(" ").concat(
                shown.as_str(),
            ).concat(ACCENT).concat("▏").concat(RESET),
        );
        if let Some(e) = &self.error {
            emit(&mut out, String::new());
            emit(&mut out, PAD.to_owned().concat(DANGER).concat(e.as_str()).concat(RESET));
        }
        let help = page.legend(FIELD_HELP);
        let ghost body = out.deep_view();
        ui.footer(help.as_str(), &mut out);
        proof {
            let shown = if self@.mask {
                text::fill('•', self@.value.len() as int)
            } else {
                self@.value
            };
            let complaint = match self@.error {
                Some(e) => seq![Seq::<char>::empty(), PAD@ + DANGER@ + e + RESET@],
                None => Seq::<Text>::empty(),
            };
            assert(body =~= tui::header_lines(ui.cols as int, page@) + seq![
                PAD@ + self@.label,
                PAD@ + ACCENT@ + "▸"@ + RESET@ + " "@ + shown + ACCENT@ + "▏"@ + RESET@,
            ] + complaint);
        }
        out
    }

    /// Tells the field a key; `Some` is its value once its check accepts that.
    pub fn press(&mut self, key: Key) -> (out: Option<String>)
        ensures
            final(self)@ == old(self)@.pressed(key).0,
            out.deep_view() == old(self)@.pressed(key).1,
    {
        let complaint = self.check.complaint(self.value.as_str());
        self.judge(key, complaint)
    }

    /// The same, with a verdict from outside in place of the field's own check:
    /// `complaint` is what is wrong with the value, `None` when it is accepted.
    pub fn judge(&mut self, key: Key, complaint: Option<String>) -> (out: Option<String>)
        ensures
            final(self)@ == old(self)@.judged(key, complaint.deep_view()).0,
            out.deep_view() == old(self)@.judged(key, complaint.deep_view()).1,
    {
        match key {
            Key::Enter => {
                if complaint.is_none() {
                    return Some(self.value.clone());
                }
                self.error = complaint;
                None
            },
            Key::Backspace => {
                self.value = shorten(self.value.as_str());
                self.error = None;
                None
            },
            Key::ClearLine => {
                self.value = String::new();
                assert(self.value@ == Seq::<char>::empty());
                self.error = None;
                None
            },
            Key::Char(c) => {
                self.value = lengthen(self.value.as_str(), c);
                self.error = None;
                None
            },
            Key::Space => {
                self.value = lengthen(self.value.as_str(), ' ');
                self.error = None;
                None
            },
            Key::Up | Key::Down | Key::Resize => None,
        }
    }
}

/// What a field gives back is what it shows, and its check has nothing against
/// it; the field is never left with something its check refuses.
pub proof fn lemma_accepted_passes_the_check(f: FieldView, key: Key)
    ensures
        f.pressed(key).1 matches Some(v) ==> key == Key::Enter && v == f.value && f.check.complaint(
            v,
        ) is None,
        f.pressed(key).0.check == f.check,
{
}

// ---------------------------------------------------------------------------
// A secret
// ---------------------------------------------------------------------------

/// How far a secret has been entered.
pub enum Stage {
    /// For the first time.
    First { field: Field },
    /// Once more.
    Again { first: String, field: Field },
    /// The two were not the same.
    Mismatch,
}

/// What a `Stage` holds, as contracts see it.
#[verifier::ext_equal]
pub enum StageView {
    First { field: FieldView },
    Again { first: Text, field: FieldView },
    Mismatch,
}

impl View for Stage {
    type V = StageView;

    open spec fn view(&self) -> StageView {
        match self {
            Stage::First { field } => StageView::First { field: field@ },
            Stage::Again { first, field } => StageView::Again { first: first@, field: field@ },
            Stage::Mismatch => StageView::Mismatch,
        }
    }
}

/// A password, entered twice. `allow_empty` is how "no root password, use sudo"
/// is expressed without a separate screen.
pub struct Secret {
    pub label: String,
    pub allow_empty: bool,
    pub stage: Stage,
}

/// What a `Secret` holds, as contracts see it.
#[verifier::ext_equal]
pub struct SecretView {
    pub label: Text,
    pub allow_empty: bool,
    pub stage: StageView,
}

impl View for Secret {
    type V = SecretView;

    open spec fn view(&self) -> SecretView {
        SecretView { label: self.label@, allow_empty: self.allow_empty, stage: self.stage@ }
    }
}

/// The field a password is entered in for the first time.
pub open spec fn first_field(label: Text, allow_empty: bool) -> FieldView {
    FieldView::fresh(label, Seq::empty(), true, CheckView::Password { allow_empty })
}

/// The field a password is repeated in.
pub open spec fn again_field() -> FieldView {
    FieldView::fresh("repeat it"@, Seq::empty(), true, CheckView::Anything)
}

/// The page that says that the two were not the same.
pub open spec fn mismatch_page(page: PageView) -> PageView {
    PageView::titled(page.step, page.title).noted(
        DANGER@ + "they do not match — try again"@ + RESET@,
    )
}

impl SecretView {
    /// The screen as it opens.
    pub open spec fn opened(label: Text, allow_empty: bool) -> SecretView {
        SecretView {
            label,
            allow_empty,
            stage: StageView::First { field: first_field(label, allow_empty) },
        }
    }

    /// The lines of the screen.
    pub open spec fn lines(self, ui: Ui, page: PageView) -> Seq<Text> {
        match self.stage {
            StageView::First { field } => field.lines(ui, page),
            StageView::Again { first, field } => field.lines(ui, page),
            StageView::Mismatch => pause_lines(ui, mismatch_page(page), PAUSE_HELP@),
        }
    }

    /// The screen after a key, and the password once it was entered twice.
    pub open spec fn pressed(self, key: Key) -> (SecretView, Option<Text>) {
        match self.stage {
            StageView::First { field } => {
                let (next, done) = field.pressed(key);
                match done {
                    None => (SecretView { stage: StageView::First { field: next }, ..self }, None),
                    Some(v) => if v.len() == 0 {
                        (self, Some(v))
                    } else {
                        (
                            SecretView {
                                stage: StageView::Again { first: v, field: again_field() },
                                ..self
                            },
                            None,
                        )
                    },
                }
            },
            StageView::Again { first, field } => {
                let (next, done) = field.pressed(key);
                match done {
                    None => (
                        SecretView { stage: StageView::Again { first, field: next }, ..self },
                        None,
                    ),
                    Some(v) => if v == first {
                        (self, Some(first))
                    } else {
                        (SecretView { stage: StageView::Mismatch, ..self }, None)
                    },
                }
            },
            StageView::Mismatch => if key == Key::Enter {
                (SecretView::opened(self.label, self.allow_empty), None)
            } else {
                (self, None)
            },
        }
    }

    /// Whether the password at hand, if any, is one that may be taken.
    pub open spec fn well_formed(self) -> bool {
        match self.stage {
            StageView::First { field } => field.check == (CheckView::Password {
                allow_empty: self.allow_empty,
            }),
            StageView::Again { first, field } => (CheckView::Password {
                allow_empty: self.allow_empty,
            }).complaint(first) is None,
            StageView::Mismatch => true,
        }
    }
}

impl Secret {
    /// The screen as it opens.
    pub fn new(label: &str, allow_empty: bool) -> (out: Secret)
        ensures
            out@ == SecretView::opened(label@, allow_empty),
    {
        proof {
            reveal_strlit("");
        }
        assert(""@ == Seq::<char>::empty());
        Secret {
            label: label.to_owned(),
            allow_empty,
            stage: Stage::First {
                field: Field::new(label, "", true, Check::Password { allow_empty }),
            },
        }
    }

    /// Draws the screen.
    pub fn draw(&self, ui: &Ui, page: &Page) -> (out: Vec<String>)
        ensures
            out.deep_view() == self@.lines(*ui, page@),
    {
        match &self.stage {
            Stage::First { field } => field.draw(ui, page),
            Stage::Again { first: _, field } => field.draw(ui, page),
            Stage::Mismatch => {
                let line = DANGER.to_owned().concat("they do not match — try again").concat(RESET);
                let wrong = Page::new(page.step, page.title.as_str()).note(line.as_str());
                draw_pause(ui, &wrong, PAUSE_HELP)
            },
        }
    }

    /// Tells the screen a key; `Some` is the password once it was entered twice.
    pub fn press(&mut self, key: Key) -> (out: Option<String>)
        ensures
            final(self)@ == old(self)@.pressed(key).0,
            out.deep_view() == old(self)@.pressed(key).1,
    {
        proof {
            reveal_strlit("");
        }
        assert(""@ == Seq::<char>::empty());
        match &mut self.stage {
            Stage::First { field } => {
                match field.press(key) {
                    None => None,
                    Some(v) => {
                        if v.as_str().is_empty() {
                            return Some(v);
                        }
                        self.stage = Stage::Again {
                            first: v,
                            field: Field::new("repeat it", "", true, Check::Anything),
                        };
                        None
                    },
                }
            },
            Stage::Again { first, field } => {
                match field.press(key) {
                    None => None,
                    Some(v) => {
                        if same(v.as_str(), first.as_str()) {
                            return Some(v);
                        }
                        self.stage = Stage::Mismatch;
                        None
                    },
                }
            },
            Stage::Mismatch => {
                if key == Key::Enter {
                    self.stage = Stage::First {
                        field: Field::new(
                            self.label.as_str(),
                            "",
                            true,
                            Check::Password { allow_empty: self.allow_empty },
                        ),
                    };
                }
                None
            },
        }
    }
}

/// A password is taken only when it may be, and one that is not empty only when
/// it was entered twice the same.
pub proof fn lemma_secrets_are_entered_twice(s: SecretView, key: Key)
    requires
        s.well_formed(),
    ensures
        s.pressed(key).0.well_formed(),
        s.pressed(key).1 matches Some(v) ==> (CheckView::Password {
            allow_empty: s.allow_empty,
        }).complaint(v) is None,
        s.pressed(key).1 matches Some(v) ==> v.len() == 0 || (s.stage matches StageView::Again {
            first,
            field,
        } && first == v && field.value == v),
{
}

/// An empty password is taken only where it may be empty.
pub proof fn lemma_empty_only_where_allowed(s: SecretView, key: Key)
    requires
        s.well_formed(),
        !s.allow_empty,
    ensures
        s.pressed(key).1 matches Some(v) ==> v.len() > 0,
{
}

// ---------------------------------------------------------------------------
// Messages
// ---------------------------------------------------------------------------

/// The key legend of a message.
pub const PAUSE_HELP: &'static str = "enter continue · esc back · ctrl-c quit";

/// The key legend of the review.
pub const REVIEW_HELP: &'static str = "enter install · esc back · ctrl-c quit";

/// The lines of a message.
pub open spec fn pause_lines(ui: Ui, page: PageView, help: Text) -> Seq<Text> {
    tui::with_footer(
        tui::header_lines(ui.cols as int, page),
        ui.rows as int,
        page.legend(help),
    )
}

/// Draws a message.
fn draw_pause(ui: &Ui, page: &Page, help: &str) -> (out: Vec<String>)
    ensures
        out.deep_view() == pause_lines(*ui, page@, help@),
{
    let mut out = ui.header(page);
    let legend = page.legend(help);
    ui.footer(legend.as_str(), &mut out);
    out
}

/// The names and values of a review, as contracts see them.
pub type Reviewed = Seq<(Text, Text)>;

/// The most bytes a name of the review takes.
pub open spec fn longest_name(rows: Reviewed) -> int
    decreases rows.len(),
{
    if rows.len() == 0 {
        0
    } else {
        let w = longest_name(rows.drop_last());
        let n = text::byte_len(rows.last().0);
        if n > w {
            n as int
        } else {
            w
        }
    }
}

/// How a row of the review is drawn.
pub open spec fn review_line(name: Text, value: Text, width: int) -> Text {
    PAD@ + DIM@ + name + text::fill(' ', tui::padding(name, width)) + RESET@ + "  "@ + value
}

/// The lines of the review.
pub open spec fn review_lines(ui: Ui, page: PageView, rows: Reviewed) -> Seq<Text> {
    tui::with_footer(
        tui::header_lines(ui.cols as int, page) + rows.map_values(
            |r: (Text, Text)| review_line(r.0, r.1, longest_name(rows)),
        ) + seq![
            Seq::<char>::empty(),
            PAD@ + DANGER@ + "▸"@ + RESET@ + " "@ + BOLD@ + "enter"@ + RESET@
                + " begins the install. Nothing has been written yet."@,
        ],
        ui.rows as int,
        page.legend(REVIEW_HELP@),
    )
}

/// The most bytes a name of the review takes.
fn name_column(rows: &[(String, String)]) -> (w: usize)
    ensures
        w == longest_name(rows.deep_view()),
{
    let ghost all = rows.deep_view();
    let mut w: usize = 0;
    let mut i: usize = 0;
    while i < rows.len()
        invariant
            all == rows.deep_view(),
            i <= rows.len(),
            w == longest_name(all.take(i as int)),
        decreases rows.len() - i,
    {
        assert(all.take(i + 1).drop_last() == all.take(i as int));
        assert(all.take(i + 1).last() == (rows@[i as int].0@, rows@[i as int].1@));
        let n: usize = bytes_in(rows[i].0.as_str());
        if n > w {
            w = n;
        }
        i += 1;
    }
    assert(all.take(i as int) == all);
    w
}

/// Draws the review.
fn draw_review(ui: &Ui, page: &Page, rows: &[(String, String)]) -> (out: Vec<String>)
    ensures
        out.deep_view() == review_lines(*ui, page@, rows.deep_view()),
{
    let width = name_column(rows);
    let ghost rv = rows.deep_view();
    let ghost drawn = rv.map_values(|r: (Text, Text)| review_line(r.0, r.1, longest_name(rv)));
    let mut out = ui.header(page);
    let ghost head = out.deep_view();
    let mut i: usize = 0;
    assert(head + drawn.take(0) == head);
    while i < rows.len()
        invariant
            rv == rows.deep_view(),
            width == longest_name(rv),
            drawn == rv.map_values(|r: (Text, Text)| review_line(r.0, r.1, longest_name(rv))),
            i <= rows.len(),
            out.deep_view() == head + drawn.take(i as int),
        decreases rows.len() - i,
    {
        let name = rows[i].0.as_str();
        let line = PAD.to_owned().concat(DIM).concat(name).concat(
            filled(' ', tui::pad(name, width)).as_str(),
        ).concat(RESET).concat("  ").concat(rows[i].1.as_str());
        assert(rv[i as int] == (rows@[i as int].0@, rows@[i as int].1@));
        assert(drawn[i as int] == line@);
        assert(drawn.take(i + 1) == drawn.take(i as int).push(line@));
        assert((head + drawn.take(i as int)).push(line@) == head + drawn.take(i + 1));
        emit(&mut out, line);
        i += 1;
    }
    assert(drawn.take(i as int) == drawn);
    emit(&mut out, String::new());
    emit(
        &mut out,
        PAD.to_owned().concat(DANGER).concat("▸").concat(RESET).concat(" ").concat(BOLD).concat(
            "enter",
        ).concat(RESET).concat(" begins the install. Nothing has been written yet."),
    );
    let help = page.legend(REVIEW_HELP);
    let ghost body = out.deep_view();
    ui.footer(help.as_str(), &mut out);
    assert(body =~= head + drawn + seq![
        Seq::<char>::empty(),
        PAD@ + DANGER@ + "▸"@ + RESET@ + " "@ + BOLD@ + "enter"@ + RESET@
            + " begins the install. Nothing has been written yet."@,
    ]);
    out
}

// ---------------------------------------------------------------------------
// Screens
// ---------------------------------------------------------------------------

/// What a screen asks with.
pub enum Widget {
    Select(Select),
    Multiselect(Multiselect),
    Field(Field),
    Secret(Secret),
    Review { rows: Vec<(String, String)> },
    Pause { help: String },
}

/// What a `Widget` holds, as contracts see it.
#[verifier::ext_equal]
pub enum WidgetView {
    Select(SelectView),
    Multiselect(MultiselectView),
    Field(FieldView),
    Secret(SecretView),
    Review { rows: Reviewed },
    Pause { help: Text },
}

impl View for Widget {
    type V = WidgetView;

    open spec fn view(&self) -> WidgetView {
        match self {
            Widget::Select(w) => WidgetView::Select(w@),
            Widget::Multiselect(w) => WidgetView::Multiselect(w@),
            Widget::Field(w) => WidgetView::Field(w@),
            Widget::Secret(w) => WidgetView::Secret(w@),
            Widget::Review { rows } => WidgetView::Review { rows: rows.deep_view() },
            Widget::Pause { help } => WidgetView::Pause { help: help@ },
        }
    }
}

/// A page and what it asks with.
pub struct Screen {
    pub page: Page,
    pub widget: Widget,
}

/// What a `Screen` holds, as contracts see it.
#[verifier::ext_equal]
pub struct ScreenView {
    pub page: PageView,
    pub widget: WidgetView,
}

impl View for Screen {
    type V = ScreenView;

    open spec fn view(&self) -> ScreenView {
        ScreenView { page: self.page@, widget: self.widget@ }
    }
}

/// What a screen was answered.
pub enum Reply {
    /// This row.
    Row(usize),
    /// These rows.
    Rows(Vec<usize>),
    /// This text.
    Line(String),
    /// Go on.
    Done,
}

/// What a `Reply` holds, as contracts see it.
#[verifier::ext_equal]
pub enum ReplyView {
    Row(int),
    Rows(Seq<int>),
    Line(Text),
    Done,
}

impl View for Reply {
    type V = ReplyView;

    open spec fn view(&self) -> ReplyView {
        match self {
            Reply::Row(i) => ReplyView::Row(*i as int),
            Reply::Rows(v) => ReplyView::Rows(ints(v@)),
            Reply::Line(t) => ReplyView::Line(t@),
            Reply::Done => ReplyView::Done,
        }
    }
}

impl DeepView for Reply {
    type V = ReplyView;

    open spec fn deep_view(&self) -> ReplyView {
        self@
    }
}

impl ScreenView {
    /// Whether every row that can be marked has its mark, and no heading is marked.
    pub open spec fn well_formed(self) -> bool {
        match self.widget {
            WidgetView::Multiselect(w) => w.well_formed(),
            _ => true,
        }
    }

    /// The lines of the screen.
    pub open spec fn lines(self, ui: Ui) -> Seq<Text> {
        match self.widget {
            WidgetView::Select(w) => w.lines(ui, self.page, w.rows()),
            WidgetView::Multiselect(w) => w.lines(ui, self.page),
            WidgetView::Field(w) => w.lines(ui, self.page),
            WidgetView::Secret(w) => w.lines(ui, self.page),
            WidgetView::Review { rows } => review_lines(ui, self.page, rows),
            WidgetView::Pause { help } => pause_lines(ui, self.page, help),
        }
    }

    /// The screen once it has been drawn.
    pub open spec fn settled(self, ui: Ui) -> ScreenView {
        ScreenView {
            widget: match self.widget {
                WidgetView::Select(w) => WidgetView::Select(w.settled(ui, self.page, w.rows())),
                WidgetView::Multiselect(w) => WidgetView::Multiselect(w.settled(ui, self.page)),
                other => other,
            },
            ..self
        }
    }

    /// The screen after a key, and what it was answered, if it was.
    pub open spec fn pressed(self, key: Key) -> (ScreenView, Option<ReplyView>) {
        match self.widget {
            WidgetView::Select(w) => {
                let (next, done) = w.pressed(key, w.rows());
                (
                    ScreenView { widget: WidgetView::Select(next), ..self },
                    match done {
                        Some(i) => Some(ReplyView::Row(i)),
                        None => None,
                    },
                )
            },
            WidgetView::Multiselect(w) => {
                let (next, done) = w.pressed(key);
                (
                    ScreenView { widget: WidgetView::Multiselect(next), ..self },
                    match done {
                        Some(rows) => Some(ReplyView::Rows(rows)),
                        None => None,
                    },
                )
            },
            WidgetView::Field(w) => {
                let (next, done) = w.pressed(key);
                (
                    ScreenView { widget: WidgetView::Field(next), ..self },
                    match done {
                        Some(t) => Some(ReplyView::Line(t)),
                        None => None,
                    },
                )
            },
            WidgetView::Secret(w) => {
                let (next, done) = w.pressed(key);
                (
                    ScreenView { widget: WidgetView::Secret(next), ..self },
                    match done {
                        Some(t) => Some(ReplyView::Line(t)),
                        None => None,
                    },
                )
            },
            WidgetView::Review { .. } | WidgetView::Pause { .. } => (
                self,
                if key == Key::Enter {
                    Some(ReplyView::Done)
                } else {
                    None
                },
            ),
        }
    }
}

impl Screen {
    /// Draws the screen.
    pub fn draw(&mut self, ui: &Ui) -> (out: Vec<String>)
        requires
            old(self)@.well_formed(),
        ensures
            out.deep_view() == old(self)@.lines(*ui),
            final(self)@ == old(self)@.settled(*ui),
    {
        let ghost was = self@;
        let out = match &mut self.widget {
            Widget::Select(w) => w.draw(ui, &self.page),
            Widget::Multiselect(w) => w.draw(ui, &self.page),
            Widget::Field(w) => w.draw(ui, &self.page),
            Widget::Secret(w) => w.draw(ui, &self.page),
            Widget::Review { rows } => draw_review(ui, &self.page, rows.as_slice()),
            Widget::Pause { help } => draw_pause(ui, &self.page, help.as_str()),
        };
        assert(self@ =~= was.settled(*ui));
        out
    }

    /// Tells the screen a key; `Some` is what it was answered.
    pub fn press(&mut self, key: Key) -> (out: Option<Reply>)
        requires
            old(self)@.well_formed(),
        ensures
            final(self)@ == old(self)@.pressed(key).0,
            final(self)@.well_formed(),
            out.deep_view() == old(self)@.pressed(key).1,
    {
        match &mut self.widget {
            Widget::Select(w) => match w.press(key) {
                Some(i) => Some(Reply::Row(i)),
                None => None,
            },
            Widget::Multiselect(w) => match w.press(key) {
                Some(rows) => Some(Reply::Rows(rows)),
                None => None,
            },
            Widget::Field(w) => match w.press(key) {
                Some(t) => Some(Reply::Line(t)),
                None => None,
            },
            Widget::Secret(w) => match w.press(key) {
                Some(t) => Some(Reply::Line(t)),
                None => None,
            },
            Widget::Review { .. } | Widget::Pause { .. } => if key == Key::Enter {
                Some(Reply::Done)
            } else {
                None
            },
        }
    }
}

impl Ui {
    /// A screen to pick one row on.
    pub fn select(page: Page, options: Vec<Opt>) -> (out: Screen)
        ensures
            out@ == (ScreenView {
                page: page@,
                widget: WidgetView::Select(SelectView::opened(options.deep_view())),
            }),
    {
        Screen { page, widget: Widget::Select(Select::new(options)) }
    }

    /// A screen to pick any number of rows on.
    pub fn multiselect(page: Page, options: Vec<Opt>) -> (out: Screen)
        ensures
            out@ == (ScreenView {
                page: page@,
                widget: WidgetView::Multiselect(MultiselectView::opened(options.deep_view())),
            }),
            out@.well_formed(),
    {
        Screen { page, widget: Widget::Multiselect(Multiselect::new(options)) }
    }

    /// A screen to type a line of text on.
    pub fn text(page: Page, label: &str, initial: &str, check: Check) -> (out: Screen)
        ensures
            out@ == (ScreenView {
                page: page@,
                widget: WidgetView::Field(FieldView::fresh(label@, initial@, false, check@)),
            }),
    {
        Screen { page, widget: Widget::Field(Field::new(label, initial, false, check)) }
    }

    /// A screen to enter a password on, twice.
    pub fn secret(page: Page, label: &str, allow_empty: bool) -> (out: Screen)
        ensures
            out@ == (ScreenView {
                page: page@,
                widget: WidgetView::Secret(SecretView::opened(label@, allow_empty)),
            }),
    {
        Screen { page, widget: Widget::Secret(Secret::new(label, allow_empty)) }
    }

    /// The one screen that cannot be answered by leaning on the keyboard: the
    /// user types the disk's own name. Erasing has no undo, and a y/n on that
    /// question is a coin flip somebody loses.
    pub fn typed_confirm(page: Page, word: &str) -> (out: Screen)
        ensures
            out@ == (ScreenView {
                page: page@,
                widget: WidgetView::Field(
                    FieldView::fresh(
                        "type "@ + BOLD@ + word@ + RESET@ + " to confirm"@,
                        Seq::empty(),
                        false,
                        CheckView::Word { word: word@ },
                    ),
                ),
            }),
    {
        let label = "type ".to_owned().concat(BOLD).concat(word).concat(RESET).concat(
            " to confirm",
        );
        proof {
            reveal_strlit("");
        }
        assert(""@ == Seq::<char>::empty());
        Screen {
            page,
            widget: Widget::Field(
                Field::new(label.as_str(), "", false, Check::Word { word: word.to_owned() }),
            ),
        }
    }

    /// The review screen: everything that was answered, and the last chance.
    pub fn review(page: Page, rows: Vec<(String, String)>) -> (out: Screen)
        ensures
            out@ == (ScreenView {
                page: page@,
                widget: WidgetView::Review { rows: rows.deep_view() },
            }),
    {
        Screen { page, widget: Widget::Review { rows } }
    }

    /// A message with nothing to answer.
    pub fn pause(page: Page) -> (out: Screen)
        ensures
            out@ == (ScreenView { page: page@, widget: WidgetView::Pause { help: PAUSE_HELP@ } }),
    {
        Ui::pause_with(page, PAUSE_HELP)
    }

    /// The same, with its own key legend. The last screen of the install has no
    /// "esc back" to offer, and a footer that says otherwise is a footer people
    /// stop reading.
    pub fn pause_with(page: Page, help: &str) -> (out: Screen)
        ensures
            out@ == (ScreenView { page: page@, widget: WidgetView::Pause { help: help@ } }),
    {
        Screen { page, widget: Widget::Pause { help: help.to_owned() } }
    }
}

/// The screen on which a disk is confirmed is answered by its word alone.
pub proof fn lemma_only_the_word_confirms(page: PageView, field: FieldView, word: Text, key: Key)
    requires
        field.check == (CheckView::Word { word }),
    ensures
        ({
            let screen = ScreenView { page, widget: WidgetView::Field(field) };
            screen.pressed(key).1 is Some <==> key == Key::Enter && field.value == word
        }),
{
}

// ---------------------------------------------------------------------------
// What keys come to
// ---------------------------------------------------------------------------

/// A row that is no heading is shown exactly when nothing is filtered or its
/// label, without regard to case, holds what is typed; and it can be chosen
/// exactly when it is shown and enabled. Every row shown or to be chosen is one
/// of the list, in the list's order.
pub proof fn lemma_filter_shows_what_matches(
    options: Seq<OptView>,
    filter: Text,
    labels: Seq<Text>,
    wanted: Text,
    i: int,
)
    requires
        labels.len() == options.len(),
        0 <= i < options.len(),
        !options[i].heading,
    ensures
        sifted(options, filter, labels, wanted).shown.contains(i) <==> filter.len() == 0
            || text::occurs(labels[i], wanted),
        sifted(options, filter, labels, wanted).choices.contains(i) <==> options[i].enabled && (
        filter.len() == 0 || text::occurs(labels[i], wanted)),
        sifted(options, filter, labels, wanted).within(options.len() as int),
        forall|j: int, k: int|
            0 <= j < k < sifted(options, filter, labels, wanted).shown.len() ==> #[trigger] sifted(
                options,
                filter,
                labels,
                wanted,
            ).shown[j] < #[trigger] sifted(options, filter, labels, wanted).shown[k],
        forall|j: int, k: int|
            0 <= j < k < sifted(options, filter, labels, wanted).choices.len()
                ==> #[trigger] sifted(options, filter, labels, wanted).choices[j]
                < #[trigger] sifted(options, filter, labels, wanted).choices[k],
{
    let shows = |k: int| row_shown(options, filter, labels, wanted, k);
    let offers = |k: int|
        row_shown(options, filter, labels, wanted, k) && options[k].selectable();
    let n = options.len() as int;
    lemma_picked(n, shows);
    lemma_picked(n, offers);
    let r = sifted(options, filter, labels, wanted);
    assert(r.shown == picked(n, shows));
    assert(r.choices == picked(n, offers));
    if r.shown.contains(i) {
        let k = choose|k: int| 0 <= k < r.shown.len() && r.shown[k] == i;
        assert(shows(r.shown[k]));
    }
    if r.choices.contains(i) {
        let k = choose|k: int| 0 <= k < r.choices.len() && r.choices[k] == i;
        assert(offers(r.choices[k]));
    }
    if filter.len() == 0 || text::occurs(labels[i], wanted) {
        assert(shows(i));
        assert(options[i].enabled ==> offers(i));
    }
}

/// A heading is shown exactly when it has a row after it that is shown and is no
/// heading.
pub proof fn lemma_headings_lead_to_rows(
    options: Seq<OptView>,
    filter: Text,
    labels: Seq<Text>,
    wanted: Text,
    i: int,
)
    requires
        labels.len() == options.len(),
        0 <= i < options.len(),
        options[i].heading,
    ensures
        sifted(options, filter, labels, wanted).shown.contains(i) <==> exists|j: int|
            i < j < options.len() && !(#[trigger] options[j]).heading && (filter.len() == 0
                || text::occurs(labels[j], wanted)),
        !sifted(options, filter, labels, wanted).choices.contains(i),
{
    let shows = |k: int| row_shown(options, filter, labels, wanted, k);
    let offers = |k: int|
        row_shown(options, filter, labels, wanted, k) && options[k].selectable();
    let n = options.len() as int;
    lemma_picked(n, shows);
    lemma_picked(n, offers);
    let r = sifted(options, filter, labels, wanted);
    if r.shown.contains(i) {
        let k = choose|k: int| 0 <= k < r.shown.len() && r.shown[k] == i;
        assert(shows(r.shown[k]));
    }
    if r.choices.contains(i) {
        let k = choose|k: int| 0 <= k < r.choices.len() && r.choices[k] == i;
        assert(offers(r.choices[k]));
    }
    if exists|j: int|
        i < j < options.len() && !(#[trigger] options[j]).heading && (filter.len() == 0
            || text::occurs(labels[j], wanted)) {
        assert(shows(i));
    }
}

/// On a list of one choice the arrows move by one row that can be chosen and
/// stop at the ends, Enter gives the row the cursor is on, and none of them
/// touches what is typed. Typing adds to it and Backspace takes the last
/// character back; both return the cursor to the first row.
pub proof fn lemma_select_keys(s: SelectView, j: int, c: char)
    requires
        0 <= j < s.rows().choices.len(),
        s.cursor == j,
    ensures
        ({
            let n = s.rows().choices.len() as int;
            let down = s.pressed(Key::Down, s.rows());
            let up = s.pressed(Key::Up, s.rows());
            let enter = s.pressed(Key::Enter, s.rows());
            let typed = s.pressed(Key::Char(c), s.rows());
            let spaced = s.pressed(Key::Space, s.rows());
            &&& down.0 == (SelectView { cursor: if j + 1 == n { j } else { j + 1 }, ..s })
            &&& up.0 == (SelectView { cursor: if j == 0 { 0 } else { j - 1 }, ..s })
            &&& enter == (s, Some(s.rows().choices[j]))
            &&& down.1 is None && up.1 is None && typed.1 is None && spaced.1 is None
            &&& typed.0 == (SelectView { filter: s.filter.push(c), cursor: 0, ..s })
            &&& spaced.0 == (SelectView { filter: s.filter.push(' '), cursor: 0, ..s })
            &&& typed.0.pressed(Key::Backspace, typed.0.rows()).0.filter == s.filter
        }),
{
    let typed = s.pressed(Key::Char(c), s.rows()).0;
    assert(typed.filter.drop_last() =~= s.filter);
}

/// On a list of several choices the arrows move by one row that can be chosen
/// and stop at the ends, and nothing but Space changes a mark.
pub proof fn lemma_multiselect_keys(m: MultiselectView, key: Key)
    requires
        m.on_a_row(),
        0 <= m.cursor,
    ensures
        ({
            let n = selectable_rows(m.options).len() as int;
            let down = m.pressed(Key::Down).0;
            let up = m.pressed(Key::Up).0;
            &&& down.cursor == (if m.cursor + 1 == n { m.cursor } else { m.cursor + 1 })
            &&& up.cursor == (if m.cursor == 0 { 0 } else { m.cursor - 1 })
            &&& key != Key::Space ==> m.pressed(key).0.chosen == m.chosen
            &&& m.pressed(key).0.options == m.options
            &&& m.pressed(key).1 is Some <==> key == Key::Enter
        }),
{
}

/// The row the cursor of a list of several choices is on is the one that many
/// rows that can be chosen come before.
pub proof fn lemma_cursor_counts_rows(m: MultiselectView, i: int)
    requires
        0 <= i < m.options.len(),
    ensures
        selectable_rows(m.options).contains(i) <==> !m.options[i].heading && m.options[i].enabled,
        forall|j: int, k: int|
            0 <= j < k < selectable_rows(m.options).len() ==> #[trigger] selectable_rows(
                m.options,
            )[j] < #[trigger] selectable_rows(m.options)[k],
        0 <= m.cursor && m.on_a_row() ==> m.here() == selectable_rows(m.options)[m.cursor],
{
    let p = |k: int| m.options[k].selectable();
    lemma_picked(m.options.len() as int, p);
    let rows = selectable_rows(m.options);
    if rows.contains(i) {
        let k = choose|k: int| 0 <= k < rows.len() && rows[k] == i;
        assert(p(rows[k]));
    }
    if m.options[i].selectable() {
        assert(p(i));
    }
}

/// The key of a character.
pub open spec fn key_of(c: char) -> Key {
    if c == ' ' {
        Key::Space
    } else {
        Key::Char(c)
    }
}

/// A field after the keys of a text.
pub open spec fn typed(f: FieldView, t: Text) -> FieldView
    decreases t.len(),
{
    if t.len() == 0 {
        f
    } else {
        typed(f.pressed(key_of(t[0])).0, t.drop_first())
    }
}

/// What is typed into a field is what it holds, after what it held before, and
/// Enter then gives exactly that when the field's check accepts it. When it does
/// not, the field keeps the text and shows the complaint.
pub proof fn lemma_typing_is_taken(f: FieldView, t: Text)
    ensures
        typed(f, t).value == f.value + t,
        typed(f, t).check == f.check && typed(f, t).label == f.label && typed(f, t).mask == f.mask,
        f.check.complaint(f.value + t) is None ==> typed(f, t).pressed(Key::Enter) == (
            typed(f, t),
            Some(f.value + t),
        ),
        f.check.complaint(f.value + t) is Some ==> typed(f, t).pressed(Key::Enter).1 is None
            && typed(f, t).pressed(Key::Enter).0.error == f.check.complaint(f.value + t) && typed(
            f,
            t,
        ).pressed(Key::Enter).0.value == f.value + t,
    decreases t.len(),
{
    if t.len() == 0 {
        assert(f.value + t =~= f.value);
    } else {
        let next = f.pressed(key_of(t[0])).0;
        lemma_typing_is_taken(next, t.drop_first());
        assert(next.value + t.drop_first() =~= f.value + t);
    }
}

/// Backspace takes back the last character, Ctrl-U everything, and any change
/// takes the complaint away.
pub proof fn lemma_corrections(f: FieldView, c: char)
    ensures
        f.pressed(Key::Char(c)).0.pressed(Key::Backspace).0.value == f.value,
        f.value.len() == 0 ==> f.pressed(Key::Backspace).0.value == f.value,
        f.value.len() > 0 ==> f.pressed(Key::Backspace).0.value == f.value.take(
            f.value.len() - 1,
        ),
        f.pressed(Key::ClearLine).0.value.len() == 0,
        f.pressed(Key::Char(c)).0.error is None && f.pressed(Key::Backspace).0.error is None
            && f.pressed(Key::ClearLine).0.error is None,
        f.pressed(Key::Up).0 == f && f.pressed(Key::Down).0 == f && f.pressed(Key::Resize).0 == f,
{
    assert(f.value.push(c).drop_last() =~= f.value);
    if f.value.len() > 0 {
        assert(f.value.drop_last() =~= f.value.take(f.value.len() - 1));
    }
}

/// A secret after the keys of a text and Enter.
pub open spec fn entered(s: SecretView, t: Text) -> (SecretView, Option<Text>)
    decreases t.len(),
{
    if t.len() == 0 {
        s.pressed(Key::Enter)
    } else {
        entered(s.pressed(key_of(t[0])).0, t.drop_first())
    }
}

/// Entering a password twice gives that password; entering two different ones
/// gives none, and starts again after the message; an empty one is given back
/// at once where it may be empty.
pub proof fn lemma_secret_is_what_was_entered(
    label: Text,
    allow_empty: bool,
    first: Text,
    second: Text,
)
    requires
        first.len() > 0,
        text::byte_len(first) >= 6,
    ensures
        ({
            let once = entered(SecretView::opened(label, allow_empty), first);
            let twice = entered(once.0, second);
            &&& once.1 is None
            &&& second == first ==> twice.1 == Some(first)
            &&& second != first ==> twice.1 is None && twice.0.pressed(Key::Enter)
                == (SecretView::opened(label, allow_empty), None::<Text>)
        }),
        allow_empty ==> (SecretView::opened(label, allow_empty).pressed(Key::Enter).1 matches Some(
            t,
        ) && t.len() == 0),
        !allow_empty ==> SecretView::opened(label, allow_empty).pressed(Key::Enter).1 is None,
{
    let open = SecretView::opened(label, allow_empty);
    let f = first_field(label, allow_empty);
    lemma_first_entry(open, f, first);
    lemma_typing_is_taken(f, first);
    assert(f.value + first =~= first);
    let once = entered(open, first).0;
    let g = again_field();
    lemma_second_entry(once, first, g, second);
    lemma_typing_is_taken(g, second);
    assert(g.value + second =~= second);
}

proof fn lemma_first_entry(s: SecretView, f: FieldView, t: Text)
    requires
        s.stage == (StageView::First { field: f }),
    ensures
        entered(s, t) == (SecretView {
            stage: StageView::First { field: typed(f, t) },
            ..s
        }).pressed(Key::Enter),
    decreases t.len(),
{
    if t.len() > 0 {
        let next = s.pressed(key_of(t[0])).0;
        lemma_first_entry(next, f.pressed(key_of(t[0])).0, t.drop_first());
    } else {
        assert((SecretView { stage: StageView::First { field: typed(f, t) }, ..s }) =~= s);
    }
}

proof fn lemma_second_entry(s: SecretView, first: Text, f: FieldView, t: Text)
    requires
        s.stage == (StageView::Again { first, field: f }),
    ensures
        entered(s, t) == (SecretView {
            stage: StageView::Again { first, field: typed(f, t) },
            ..s
        }).pressed(Key::Enter),
    decreases t.len(),
{
    if t.len() > 0 {
        let next = s.pressed(key_of(t[0])).0;
        lemma_second_entry(next, first, f.pressed(key_of(t[0])).0, t.drop_first());
    } else {
        assert((SecretView { stage: StageView::Again { first, field: typed(f, t) }, ..s }) =~= s);
    }
}

/// A secret is never shown: what is drawn of it depends on how long it is and
/// on nothing else of it.
pub proof fn lemma_secrets_are_not_drawn(f: FieldView, other: Text, ui: Ui, page: PageView)
    requires
        f.mask,
        other.len() == f.value.len(),
    ensures
        f.lines(ui, page) == (FieldView { value: other, ..f }).lines(ui, page),
{
}

/// A screen replies what its widget was answered: the row, the marked rows, the
/// line or the secret; and a message or a review is answered by Enter alone.
pub proof fn lemma_screens_reply_their_answers(s: ScreenView, key: Key)
    ensures
        s.pressed(key).0.page == s.page,
        s.widget matches WidgetView::Select(w) ==> {
            &&& s.pressed(key).1 is Some <==> w.pressed(key, w.rows()).1 is Some
            &&& w.pressed(key, w.rows()).1 matches Some(i) ==> s.pressed(key).1 == Some(
                ReplyView::Row(i),
            )
        },
        s.widget matches WidgetView::Multiselect(w) ==> {
            &&& s.pressed(key).1 is Some <==> w.pressed(key).1 is Some
            &&& w.pressed(key).1 matches Some(rows) ==> s.pressed(key).1 == Some(
                ReplyView::Rows(rows),
            )
        },
        s.widget matches WidgetView::Field(w) ==> {
            &&& s.pressed(key).1 is Some <==> w.pressed(key).1 is Some
            &&& w.pressed(key).1 matches Some(t) ==> s.pressed(key).1 == Some(ReplyView::Line(t))
        },
        s.widget matches WidgetView::Secret(w) ==> {
            &&& s.pressed(key).1 is Some <==> w.pressed(key).1 is Some
            &&& w.pressed(key).1 matches Some(t) ==> s.pressed(key).1 == Some(ReplyView::Line(t))
        },
        s.widget is Review || s.widget is Pause ==> s.pressed(key).0 == s && (s.pressed(
            key,
        ).1 is Some <==> key == Key::Enter),
{
}

/// A screen of several choices opens with exactly what is checked marked, and
/// one of one choice with nothing typed and the list from its top.
pub proof fn lemma_screens_open_with_what_is_checked(options: Seq<OptView>, i: int)
    requires
        0 <= i < options.len(),
    ensures
        MultiselectView::opened(options).options == options,
        MultiselectView::opened(options).chosen.len() == options.len(),
        !options[i].heading ==> MultiselectView::opened(options).chosen[i] == options[i].checked,
        options[i].heading ==> !MultiselectView::opened(options).chosen[i],
        MultiselectView::opened(options).cursor == 0,
        SelectView::opened(options).options == options,
        SelectView::opened(options).filter.len() == 0 && SelectView::opened(options).top == 0,
        (forall|k: int| 0 <= k < options.len() ==> !(#[trigger] options[k]).checked)
            ==> SelectView::opened(options).cursor == 0,
{
    let bare = SelectView { options, filter: Seq::empty(), cursor: 0, top: 0 };
    if forall|k: int| 0 <= k < options.len() ==> !(#[trigger] options[k]).checked {
        let low = options.map_values(|o: OptView| lowercase(o.label));
        let offers = |k: int|
            row_shown(options, bare.filter, low, lowercase(bare.filter), k)
                && options[k].selectable();
        lemma_picked(options.len() as int, offers);
        assert(bare.rows().choices == picked(options.len() as int, offers));
        lemma_none_checked(options, bare.rows().choices, 0);
    }
}

proof fn lemma_none_checked(options: Seq<OptView>, rows: Seq<int>, k: int)
    requires
        0 <= k,
        forall|j: int| 0 <= j < rows.len() ==> !options[#[trigger] rows[j]].checked,
    ensures
        first_checked(options, rows, k) == 0,
    decreases rows.len() - k,
{
    if k < rows.len() {
        lemma_none_checked(options, rows, k + 1);
    }
}

/// Where the filter has left fewer rows than the cursor counts, the cursor is on
/// the last of them.
pub proof fn lemma_cursor_falls_back(s: SelectView)
    requires
        s.rows().choices.len() > 0,
        s.cursor >= s.rows().choices.len(),
    ensures
        s.pressed(Key::Enter, s.rows()).1 == Some(s.rows().choices.last()),
{
}

/// Every row in the window is drawn, with the arrow on the row the cursor is on
/// and on no other, and the cursor's row is always in the window.
pub proof fn lemma_window_is_drawn(
    s: SelectView,
    ui: Ui,
    page: PageView,
    rows: RowsView,
    p: int,
)
    requires
        0 <= s.cursor,
        0 <= s.top,
        s.settled(ui, page, rows).top <= p < rows.shown.len(),
        p < s.settled(ui, page, rows).top + s.room(ui, page),
        0 <= s.settled(ui, page, rows).top,
    ensures
        s.lines(ui, page, rows).contains(
            tui::row_line(
                s.options[rows.shown[p]],
                rows.choices.len() > 0 && p == s.here(rows),
                tui::widest(s.options),
            ),
        ),
        s.room(ui, page) >= 3,
{
    let room = s.room(ui, page);
    let top = s.settled(ui, page, rows).top;
    let window = s.window(rows, top, room);
    let line = tui::row_line(
        s.options[rows.shown[p]],
        rows.choices.len() > 0 && p == s.here(rows),
        tui::widest(s.options),
    );
    assert(window[p - top] == line);
    let above = s.above(ui, page);
    let all = s.lines(ui, page, rows);
    assert(all[above.len() + p - top] == line);
}

/// The cursor's place among the rows shown is that of the row it chooses.
pub proof fn lemma_cursor_is_at_its_row(s: SelectView)
    requires
        0 <= s.cursor < s.rows().choices.len(),
    ensures
        0 <= s.here(s.rows()) < s.rows().shown.len(),
        s.rows().shown[s.here(s.rows())] == s.rows().choices[s.cursor],
{
    let low = s.options.map_values(|o: OptView| lowercase(o.label));
    let shows = |k: int| row_shown(s.options, s.filter, low, lowercase(s.filter), k);
    let offers = |k: int|
        row_shown(s.options, s.filter, low, lowercase(s.filter), k) && s.options[k].selectable();
    let n = s.options.len() as int;
    lemma_picked(n, shows);
    lemma_picked(n, offers);
    let x = s.rows().choices[s.cursor];
    assert(offers(x));
    assert(shows(x));
    assert(s.rows().shown.contains(x));
    let k = choose|k: int| 0 <= k < s.rows().shown.len() && s.rows().shown[k] == x;
    lemma_place_is_found(s.rows().shown, x, 0, k);
}

proof fn lemma_place_is_found(rows: Seq<int>, x: int, from: int, k: int)
    requires
        0 <= from <= k < rows.len(),
        rows[k] == x,
    ensures
        from <= place_of(rows, x, from) < rows.len(),
        rows[place_of(rows, x, from)] == x,
    decreases rows.len() - from,
{
    if rows[from] != x {
        lemma_place_is_found(rows, x, from + 1, k);
    }
}

/// A field shows its label, what was typed unless it is secret, and what is
/// wrong with it.
pub proof fn lemma_fields_are_drawn(f: FieldView, ui: Ui, page: PageView)
    ensures
        ({
            let head = tui::header_lines(ui.cols as int, page).len() as int;
            let lines = f.lines(ui, page);
            &&& lines[head] == PAD@ + f.label
            &&& !f.mask ==> text::occurs(lines[head + 1], f.value)
            &&& f.mask ==> text::occurs(lines[head + 1], text::fill('•', f.value.len() as int))
            &&& f.error matches Some(e) ==> text::occurs(lines[head + 3], e)
        }),
{
    let front = PAD@ + ACCENT@ + "▸"@ + RESET@ + " "@;
    let back = ACCENT@ + "▏"@ + RESET@;
    let shown = if f.mask {
        text::fill('•', f.value.len() as int)
    } else {
        f.value
    };
    text::lemma_occurs_between(front, shown, back);
    let head = tui::header_lines(ui.cols as int, page).len() as int;
    let lines = f.lines(ui, page);
    assert(lines[head + 1] =~= front + shown + back);
    if let Some(e) = f.error {
        text::lemma_occurs_between(PAD@ + DANGER@, e, RESET@);
        assert(lines[head + 3] == PAD@ + DANGER@ + e + RESET@);
    }
}

/// The review shows each of its names and values, in order.
pub proof fn lemma_reviews_are_drawn(ui: Ui, page: PageView, rows: Reviewed, k: int)
    requires
        0 <= k < rows.len(),
    ensures
        ({
            let head = tui::header_lines(ui.cols as int, page).len() as int;
            let line = review_lines(ui, page, rows)[head + k];
            text::occurs(line, rows[k].0) && text::ends(line, rows[k].1)
        }),
{
    let head = tui::header_lines(ui.cols as int, page).len() as int;
    let width = longest_name(rows);
    let line = review_line(rows[k].0, rows[k].1, width);
    assert(review_lines(ui, page, rows)[head + k] == line);
    let gap = text::fill(' ', tui::padding(rows[k].0, width));
    text::lemma_occurs_between(PAD@ + DIM@, rows[k].0, gap + RESET@ + "  "@ + rows[k].1);
    assert(line =~= PAD@ + DIM@ + rows[k].0 + (gap + RESET@ + "  "@ + rows[k].1));
    let v = rows[k].1;
    assert(line.subrange(line.len() - v.len(), line.len() as int) =~= v);
}

/// What the list is filtered by stands above it, and where nothing matches the list
/// says so and of what.
pub proof fn lemma_filter_is_drawn(s: SelectView, ui: Ui, page: PageView, rows: RowsView)
    requires
        s.filter.len() > 0,
    ensures
        ({
            let n = tui::header_lines(ui.cols as int, page).len() as int;
            let all = s.lines(ui, page, rows);
            &&& text::occurs(all[n], s.filter)
            &&& all[n + 1].len() == 0
            &&& rows.shown.len() == 0 ==> text::occurs(all[n + 2], s.filter)
        }),
{
    let head = tui::header_lines(ui.cols as int, page);
    let n = head.len() as int;
    let all = s.lines(ui, page, rows);
    text::lemma_occurs_between(PAD@ + ACCENT@ + "/"@, s.filter, RESET@);
    assert(s.above(ui, page)[n] == PAD@ + ACCENT@ + "/"@ + s.filter + RESET@);
    assert(all[n] == s.above(ui, page)[n]);
    assert(all[n + 1] == s.above(ui, page)[n + 1]);
    if rows.shown.len() == 0 {
        text::lemma_occurs_between(
            PAD@ + DIM@ + "  nothing matches `"@,
            s.filter,
            "`"@ + RESET@,
        );
        assert(all[n + 2] =~= PAD@ + DIM@ + "  nothing matches `"@ + s.filter + ("`"@ + RESET@));
    }
}

/// A list without a filter begins right under the header.
pub proof fn lemma_unfiltered_list_is_under_the_header(
    s: SelectView,
    ui: Ui,
    page: PageView,
    rows: RowsView,
)
    requires
        s.filter.len() == 0,
        0 <= s.settled(ui, page, rows).top < rows.shown.len(),
    ensures
        s.lines(ui, page, rows)[tui::header_lines(ui.cols as int, page).len() as int]
            == tui::row_line(
            s.options[rows.shown[s.settled(ui, page, rows).top]],
            rows.choices.len() > 0 && s.settled(ui, page, rows).top == s.here(rows),
            tui::widest(s.options),
        ),
{
    let head = tui::header_lines(ui.cols as int, page);
    assert(s.above(ui, page) =~= head);
    let top = s.settled(ui, page, rows).top;
    assert(s.lines(ui, page, rows)[head.len() as int] == s.window(
        rows,
        top,
        s.room(ui, page),
    )[0]);
}

/// Rows below the window are counted: those above it, those in it and those counted
/// are all there are. Where none is below, the list ends with its last row.
pub proof fn lemma_rows_below_are_counted(s: SelectView, ui: Ui, page: PageView, rows: RowsView)
    requires
        0 <= s.settled(ui, page, rows).top < rows.shown.len(),
    ensures
        ({
            let top = s.settled(ui, page, rows).top;
            let drawn = s.window(rows, top, s.room(ui, page)).len() as int;
            let below = rows.shown.len() - top - drawn;
            let next = s.above(ui, page).len() + drawn;
            &&& 0 <= below
            &&& below > 0 ==> text::occurs(
                s.lines(ui, page, rows)[next],
                " "@ + text::decimal(below as nat) + " more"@,
            )
            &&& below == 0 && s.above(ui, page).len() + drawn < ui.rows - 2 ==> s.lines(
                ui,
                page,
                rows,
            )[next].len() == 0
        }),
{
    let top = s.settled(ui, page, rows).top;
    let window = s.window(rows, top, s.room(ui, page));
    let below = rows.shown.len() - top - window.len();
    let all = s.lines(ui, page, rows);
    let next = (s.above(ui, page).len() + window.len()) as int;
    if below > 0 {
        assert(all[next] == more_line(below));
        lemma_more_is_counted(below);
    }
}

proof fn lemma_more_is_counted(n: int)
    requires
        n > 0,
    ensures
        text::occurs(more_line(n), " "@ + text::decimal(n as nat) + " more"@),
{
    let d = text::decimal(n as nat);
    reveal_strlit("  … ");
    reveal_strlit(" ");
    let before = PAD@ + DIM@ + "  … "@.take(3);
    text::lemma_occurs_between(before, " "@ + d + " more"@, RESET@);
    assert("  … "@ =~= "  … "@.take(3) + " "@);
    assert(before + (" "@ + d + " more"@) + RESET@ =~= more_line(n));
}

/// Every row of the window of a list with marks is drawn, with the mark it has; rows
/// below are counted.
pub proof fn lemma_marked_window_is_drawn(s: MultiselectView, ui: Ui, page: PageView, p: int)
    requires
        0 <= s.settled(ui, page).top <= p < s.options.len(),
        p < s.settled(ui, page).top + s.room(ui, page),
    ensures
        ({
            let head = tui::header_lines(ui.cols as int, page).len();
            let top = s.settled(ui, page).top;
            let line = s.lines(ui, page)[head + p - top];
            let drawn = s.window(top, s.room(ui, page)).len() as int;
            let below = s.options.len() - top - drawn;
            &&& text::occurs(line, s.options[p].label)
            &&& !s.options[p].heading ==> (text::occurs(line, "[x]"@) || !s.chosen[p])
            &&& !s.options[p].heading ==> (text::occurs(line, "[ ]"@) || s.chosen[p])
            &&& 0 <= below
            &&& below > 0 ==> text::occurs(
                s.lines(ui, page)[head + drawn],
                " "@ + text::decimal(below as nat) + " more"@,
            )
        }),
{
    let head = tui::header_lines(ui.cols as int, page).len();
    let top = s.settled(ui, page).top;
    let window = s.window(top, s.room(ui, page));
    let o = s.options[p];
    let on = s.on_a_row() && p == s.here();
    let width = tui::widest(s.options);
    let line = marked_line(o, s.chosen[p], on, width);
    assert(window[p - top] == line);
    assert(s.lines(ui, page)[head + p - top] == line);
    lemma_marks_are_drawn(o, s.chosen[p], on, width);
    let below = s.options.len() - top - window.len();
    if below > 0 {
        assert(s.lines(ui, page)[(head + window.len()) as int] == more_line(below));
        lemma_more_is_counted(below);
    }
}

/// A row of a list with marks shows its label, and one of the two marks.
pub proof fn lemma_marks_are_drawn(o: OptView, chosen: bool, selected: bool, width: int)
    ensures
        text::occurs(marked_line(o, chosen, selected, width), o.label),
        !o.heading && chosen ==> text::occurs(marked_line(o, chosen, selected, width), "[x]"@),
        !o.heading && !chosen ==> text::occurs(marked_line(o, chosen, selected, width), "[ ]"@),
        !o.heading ==> text::ends(
            marked_line(o, chosen, selected, width),
            tui::note_column(o, width),
        ),
{
    let line = marked_line(o, chosen, selected, width);
    if o.heading {
        text::lemma_occurs_between(PAD@ + DIM@, o.label, RESET@);
        assert(text::occurs(tui::heading_line(o.label), o.label));
    } else {
        let note = tui::note_column(o, width);
        let mark = if chosen {
            "[x]"@
        } else {
            "[ ]"@
        };
        let paint = if chosen {
            OK@
        } else {
            DIM@
        };
        let label = if selected {
            BOLD@ + o.label + RESET@
        } else {
            o.label
        };
        let lead = PAD@ + tui::arrow(selected) + " "@;
        text::lemma_occurs_between(lead + paint, mark, RESET@ + " "@ + label + note);
        assert(line =~= lead + paint + mark + (RESET@ + " "@ + label + note));
        let front = lead + (paint + mark + RESET@) + " "@;
        if selected {
            text::lemma_occurs_between(front + BOLD@, o.label, RESET@ + note);
            assert(line =~= front + BOLD@ + o.label + (RESET@ + note));
        } else {
            text::lemma_occurs_between(front, o.label, note);
            assert(line =~= front + o.label + note);
        }
        assert(line.subrange(line.len() - note.len(), line.len() as int) =~= note);
    }
}

} // verus!
