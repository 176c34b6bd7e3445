//! Lays a session out as display cells for a renderer to paint, and the
//! styles and cursor a renderer paints them with.
//!
//! Laying out is a pure function of the session state and the viewport: the
//! renderer diffs successive results to update only what changed, and lays
//! out again on resize. Nothing here writes to a terminal.

use vstd::prelude::*;

use crate::session::{position_of, view_wf, Outcome, SessionState, SessionView};
use crate::text::str_equal;

verus! {

/// The display width in columns that the `unicode-width` tables give a
/// character, `None` for a control character.
pub uninterp spec fn char_display_width(c: char) -> Option<usize>;

/// `UnicodeWidthChar::width` of `unicode-width`. Its source gives printable
/// ASCII one column, the C0 and C1 control codes none, every character
/// from U+00A0 on some width from its tables, and no width above three;
/// the rest is the name.
#[verifier::external_body]
fn char_width(c: char) -> (r: Option<usize>)
    ensures
        r == char_display_width(c),
        ('\u{20}' <= c && c < '\u{7F}') ==> r == Some(1usize),
        (c < '\u{20}' || ('\u{7F}' <= c && c < '\u{A0}')) ==> r is None,
        '\u{A0}' <= c ==> r is Some,
        r matches Some(w) ==> w <= 3,
{
    unicode_width::UnicodeWidthChar::width(c)
}

/// The area available for the prompt, in terminal cells.
#[derive(Debug, Clone, Copy, PartialEq, Eq, Structural)]
pub struct Viewport {
    pub columns: usize,
    pub rows: usize,
}

/// How a cell should look, before colors are chosen.
#[derive(Debug, Clone, Copy, PartialEq, Eq, Structural, Hash)]
pub enum CellClass {
    /// Not yet typed, including a character never typed in a word that has
    /// been submitted; also the separator space before its word is
    /// submitted.
    Untyped,
    /// Typed correctly; also the separator space of a submitted word.
    Correct,
    /// Typed incorrectly. The cell still shows the expected character.
    Incorrect,
    /// An extra character typed past the end of a word; shows what was
    /// typed.
    Extra,
}

/// One terminal cell, or two for a double-width character.
#[derive(Debug, Clone, Copy, PartialEq, Eq, Structural)]
pub struct Cell {
    pub ch: char,
    pub class: CellClass,
    /// The cell is part of a word that was submitted with an uncorrected
    /// error. Every character of such a word is marked, whether or not it
    /// was itself typed wrong, so a skipped or misspelled word stands out
    /// as a whole; its separator space is not.
    pub uncorrected: bool,
}

/// Where the caret is within the visible lines: the cell the next
/// keystroke is expected on. The renderer places the hardware cursor here,
/// so the cell itself carries no caret styling.
#[derive(Debug, Clone, Copy, PartialEq, Eq, Structural)]
pub struct Caret {
    /// Index into [`Display::lines`].
    pub line: usize,
    pub column: usize,
}

/// Which set of terminal styles to use.
#[derive(Debug, Clone, Copy, PartialEq, Eq, Structural)]
pub enum Palette {
    Color,
    /// Color is disabled: incorrect text is bold and underlined, untyped
    /// text is dim.
    NoColor,
}

/// A cell's text color; `Default` is the terminal's own foreground.
#[derive(Debug, Clone, Copy, PartialEq, Eq, Structural)]
pub enum Foreground {
    Default,
    BrightBlack,
    Red,
    /// Extras: wrong like a mistake, but not a character of the prompt, so
    /// a step darker.
    DarkRed,
}

/// Terminal attributes for one cell class under a palette.
#[derive(Debug, Clone, Copy, PartialEq, Eq, Structural)]
pub struct Style {
    pub foreground: Foreground,
    pub dim: bool,
    pub bold: bool,
    pub underline: bool,
}

/// The shape of the hardware cursor while a session runs. The names are
/// kitty's, so a setting reads the same in both places.
#[derive(Debug, Clone, Copy, PartialEq, Eq, Structural)]
pub enum CursorShape {
    Block,
    /// A thin vertical bar before the next expected character, as a typing
    /// site shows it.
    Beam,
    Underline,
}

/// How the hardware cursor is shown while a session runs: its shape and
/// whether it blinks. The terminal is asked for this on entry and given its
/// own cursor back on exit.
#[derive(Debug, Clone, Copy, PartialEq, Eq, Structural)]
pub struct CursorStyle {
    pub shape: CursorShape,
    pub blink: bool,
}

// --- Styles -------------------------------------------------------------------

/// No color and no attribute.
pub open spec fn plain_style() -> Style {
    Style { foreground: Foreground::Default, dim: false, bold: false, underline: false }
}

/// The style of a cell class under a palette.
pub open spec fn class_style(class: CellClass, palette: Palette) -> Style {
    match class {
        CellClass::Correct => plain_style(),
        CellClass::Untyped => match palette {
            Palette::Color => Style { foreground: Foreground::BrightBlack, ..plain_style() },
            Palette::NoColor => Style { dim: true, ..plain_style() },
        },
        CellClass::Incorrect => match palette {
            Palette::Color => Style { foreground: Foreground::Red, ..plain_style() },
            Palette::NoColor => Style { bold: true, underline: true, ..plain_style() },
        },
        CellClass::Extra => match palette {
            Palette::Color => Style { foreground: Foreground::DarkRed, ..plain_style() },
            Palette::NoColor => Style { bold: true, underline: true, ..plain_style() },
        },
    }
}

/// The palette the `NO_COLOR` convention chooses: no color when the
/// variable is present with a non-empty value.
pub open spec fn palette_for(value: Option<Seq<char>>) -> Palette {
    match value {
        Some(v) => if v.len() > 0 {
            Palette::NoColor
        } else {
            Palette::Color
        },
        None => Palette::Color,
    }
}

/// The name each cursor shape is set and stored under.
pub open spec fn shape_name(shape: CursorShape) -> Seq<char> {
    match shape {
        CursorShape::Block => "block"@,
        CursorShape::Beam => "beam"@,
        CursorShape::Underline => "underline"@,
    }
}

/// The shape set under a name, if any.
pub open spec fn shape_named(name: Seq<char>) -> Option<CursorShape> {
    if name == "block"@ {
        Some(CursorShape::Block)
    } else if name == "beam"@ {
        Some(CursorShape::Beam)
    } else if name == "underline"@ {
        Some(CursorShape::Underline)
    } else {
        None
    }
}

/// The name a blink setting is set and stored under.
pub open spec fn blink_name_of(blink: bool) -> Seq<char> {
    if blink {
        "on"@
    } else {
        "off"@
    }
}

/// The blink setting stored under a name, if any.
pub open spec fn blink_named(name: Seq<char>) -> Option<bool> {
    if name == "on"@ {
        Some(true)
    } else if name == "off"@ {
        Some(false)
    } else {
        None
    }
}

/// Every cursor shape and every blink setting reads back from its name.
pub proof fn lemma_cursor_names_round_trip(shape: CursorShape, blink: bool)
    ensures
        shape_named(shape_name(shape)) == Some(shape),
        blink_named(blink_name_of(blink)) == Some(blink),
{
    reveal_strlit("block");
    reveal_strlit("beam");
    reveal_strlit("underline");
    reveal_strlit("on");
    reveal_strlit("off");
    assert("block"@.len() == 5);
    assert("beam"@.len() == 4);
    assert("underline"@.len() == 9);
    assert("on"@.len() == 2);
    assert("off"@.len() == 3);
}

impl CellClass {
    pub fn style(self, palette: Palette) -> (r: Style)
        ensures
            r == class_style(self, palette),
    {
        let plain = Style { foreground: Foreground::Default, dim: false, bold: false, underline: false };
        match (self, palette) {
            (CellClass::Correct, _) => plain,
            (CellClass::Untyped, Palette::Color) => Style { foreground: Foreground::BrightBlack, ..plain },
            (CellClass::Untyped, Palette::NoColor) => Style { dim: true, ..plain },
            (CellClass::Incorrect, Palette::Color) => Style { foreground: Foreground::Red, ..plain },
            (CellClass::Extra, Palette::Color) => Style { foreground: Foreground::DarkRed, ..plain },
            (CellClass::Incorrect, Palette::NoColor) | (CellClass::Extra, Palette::NoColor) => Style {
                bold: true,
                underline: true,
                ..plain
            },
        }
    }
}

impl Palette {
    /// Follows the `NO_COLOR` convention: color is disabled when the
    /// variable is present with a non-empty value.
    pub fn from_no_color(value: Option<&str>) -> (r: Palette)
        ensures
            r == palette_for(
                match value {
                    Some(v) => Some(v@),
                    None => None,
                },
            ),
    {
        match value {
            Some(v) => {
                if v.unicode_len() > 0 {
                    Palette::NoColor
                } else {
                    Palette::Color
                }
            },
            None => Palette::Color,
        }
    }
}

impl Default for Foreground {
    fn default() -> (r: Foreground)
        ensures
            r == Foreground::Default,
    {
        Foreground::Default
    }
}

impl Default for Style {
    fn default() -> (r: Style)
        ensures
            r == plain_style(),
    {
        Style { foreground: Foreground::Default, dim: false, bold: false, underline: false }
    }
}

impl CursorShape {
    /// Every shape, in the order they are listed to the user.
    pub fn all() -> (r: Vec<CursorShape>)
        ensures
            r@ == seq![CursorShape::Block, CursorShape::Beam, CursorShape::Underline],
    {
        vec![CursorShape::Block, CursorShape::Beam, CursorShape::Underline]
    }

    /// The name the user sets and sees, and the form a setting stores.
    pub fn name(self) -> (r: &'static str)
        ensures
            r@ == shape_name(self),
    {
        match self {
            CursorShape::Block => "block",
            CursorShape::Beam => "beam",
            CursorShape::Underline => "underline",
        }
    }

    /// The shape with the given name, if there is one; names match exactly.
    pub fn from_name(name: &str) -> (r: Option<CursorShape>)
        ensures
            r == shape_named(name@),
    {
        if str_equal(name, "block") {
            Some(CursorShape::Block)
        } else if str_equal(name, "beam") {
            Some(CursorShape::Beam)
        } else if str_equal(name, "underline") {
            Some(CursorShape::Underline)
        } else {
            None
        }
    }
}

impl Default for CursorShape {
    fn default() -> (r: CursorShape)
        ensures
            r == CursorShape::Beam,
    {
        CursorShape::Beam
    }
}

impl CursorStyle {
    /// The name the user sets and sees for a blink setting, and the form a
    /// setting stores: `on` or `off`.
    pub fn blink_name(blink: bool) -> (r: &'static str)
        ensures
            r@ == blink_name_of(blink),
    {
        if blink {
            "on"
        } else {
            "off"
        }
    }

    /// The blink setting with the given name, if it is one.
    pub fn blink_from_name(name: &str) -> (r: Option<bool>)
        ensures
            r == blink_named(name@),
    {
        if str_equal(name, "on") {
            Some(true)
        } else if str_equal(name, "off") {
            Some(false)
        } else {
            None
        }
    }
}

impl Default for CursorStyle {
    /// A steady beam.
    fn default() -> (r: CursorStyle)
        ensures
            r == (CursorStyle { shape: CursorShape::Beam, blink: false }),
    {
        CursorStyle { shape: CursorShape::Beam, blink: false }
    }
}

// --- Cells of a word ----------------------------------------------------------

/// The columns a character occupies as a cell: its display width, and at
/// least one.
pub open spec fn char_cell_width(c: char) -> nat {
    match char_display_width(c) {
        Some(w) => if w == 0 {
            1
        } else {
            w as nat
        },
        None => 1,
    }
}

/// The columns a cell occupies.
pub open spec fn cell_width(cell: Cell) -> nat {
    char_cell_width(cell.ch)
}

/// How a typed extra is shown: as itself, or as the replacement character
/// when it would occupy no cell (a combining mark, a control).
pub open spec fn shown_extra(c: char) -> char {
    if char_display_width(c) matches Some(w) && w > 0 {
        c
    } else {
        '\u{FFFD}'
    }
}

/// The class of the target character at `i`, by what was typed there.
pub open spec fn target_class(typed: Seq<char>, target: Seq<char>, i: int) -> CellClass {
    if i < typed.len() {
        if typed[i] == target[i] {
            CellClass::Correct
        } else {
            CellClass::Incorrect
        }
    } else {
        CellClass::Untyped
    }
}

/// A word has been submitted: the caret has moved past it, or the session
/// completed.
pub open spec fn word_submitted(v: SessionView, word: int) -> bool {
    word < v.current_word || v.outcome == Some(Outcome::Completed)
}

/// A word is marked when it was submitted with an uncorrected error.
pub open spec fn word_marked(v: SessionView, word: int) -> bool {
    word_submitted(v, word) && v.typed[word] != v.prompt[word]
}

/// The cell of a word's target character at `i`.
pub open spec fn target_cell(typed: Seq<char>, target: Seq<char>, marked: bool, i: int) -> Cell {
    Cell { ch: target[i], class: target_class(typed, target, i), uncorrected: marked }
}

/// The cells of a word's target characters.
pub open spec fn target_cells(typed: Seq<char>, target: Seq<char>, marked: bool) -> Seq<Cell> {
    Seq::new(target.len(), |i: int| target_cell(typed, target, marked, i))
}

/// The number of extras typed past a word's end.
pub open spec fn extra_count(typed: Seq<char>, target: Seq<char>) -> nat {
    if typed.len() > target.len() {
        (typed.len() - target.len()) as nat
    } else {
        0
    }
}

/// The cell of a word's `k`th extra.
pub open spec fn extra_cell(typed: Seq<char>, target: Seq<char>, marked: bool, k: int) -> Cell {
    Cell { ch: shown_extra(typed[target.len() + k]), class: CellClass::Extra, uncorrected: marked }
}

/// The cells of a word's extras.
pub open spec fn extra_cells(typed: Seq<char>, target: Seq<char>, marked: bool) -> Seq<Cell> {
    Seq::new(extra_count(typed, target), |k: int| extra_cell(typed, target, marked, k))
}

/// The cells of one word: its target characters, then any extras, then the
/// separator space.
pub open spec fn word_cells_of(v: SessionView, word: int) -> Seq<Cell> {
    let target = v.prompt[word];
    let typed = v.typed[word];
    let marked = word_marked(v, word);
    target_cells(typed, target, marked) + extra_cells(typed, target, marked) + seq![
        Cell {
            ch: ' ',
            class: if word_submitted(v, word) {
                CellClass::Correct
            } else {
                CellClass::Untyped
            },
            uncorrected: false,
        },
    ]
}

/// The cell of a word the caret sits on, if the caret is in that word: the
/// cell after the last character typed.
pub open spec fn caret_cell_of(v: SessionView, word: int) -> Option<int> {
    if v.outcome is None && word == v.current_word {
        Some(v.typed[word].len() as int)
    } else {
        None
    }
}

// --- Flowing cells into lines -------------------------------------------------

/// Lines being filled: the lines so far, the column the next cell starts
/// at, and the caret once placed.
pub struct Flow {
    pub lines: Seq<Seq<Cell>>,
    pub column: nat,
    pub caret: Option<Caret>,
}

/// The columns a run of cells occupies.
pub open spec fn cells_width(cells: Seq<Cell>) -> nat
    decreases cells.len(),
{
    if cells.len() == 0 {
        0
    } else {
        cells_width(cells.drop_last()) + cell_width(cells.last())
    }
}

/// Something `width` columns wide starting at `column` must go on a new
/// line: the line is not empty and it would run past the viewport.
pub open spec fn breaks(column: nat, width: nat, columns: nat) -> bool {
    column > 0 && column + width > columns
}

/// The flow with a new, empty line started.
pub open spec fn new_line(f: Flow) -> Flow {
    Flow { lines: f.lines.push(seq![]), column: 0, ..f }
}

/// Places one cell, on a new line if it does not fit, noting the caret if
/// it sits on this cell.
pub open spec fn place_cell(f: Flow, cell: Cell, at_caret: bool, columns: nat) -> Flow {
    let g = if breaks(f.column, cell_width(cell), columns) {
        new_line(f)
    } else {
        f
    };
    let last = g.lines.len() - 1;
    Flow {
        lines: g.lines.update(last, g.lines[last].push(cell)),
        column: g.column + cell_width(cell),
        caret: if at_caret {
            Some(Caret { line: last as usize, column: g.column as usize })
        } else {
            g.caret
        },
    }
}

/// Places the first `k` cells of a word one after another.
pub open spec fn place_cells(f: Flow, cells: Seq<Cell>, caret: Option<int>, columns: nat, k: int) -> Flow
    decreases k,
{
    if k <= 0 {
        f
    } else {
        place_cell(
            place_cells(f, cells, caret, columns, k - 1),
            cells[k - 1],
            caret == Some(k - 1),
            columns,
        )
    }
}

/// Places a word's cells, starting a new line first if the whole word does
/// not fit on the current one.
pub open spec fn place_word(f: Flow, cells: Seq<Cell>, caret: Option<int>, columns: nat) -> Flow {
    let g = if breaks(f.column, cells_width(cells), columns) {
        new_line(f)
    } else {
        f
    };
    place_cells(g, cells, caret, columns, cells.len() as int)
}

/// The flow of the first `k` words of a session.
pub open spec fn flow_words(v: SessionView, columns: nat, k: int) -> Flow
    decreases k,
{
    if k <= 0 {
        Flow { lines: seq![seq![]], column: 0, caret: None }
    } else {
        place_word(flow_words(v, columns, k - 1), word_cells_of(v, k - 1), caret_cell_of(v, k - 1), columns)
    }
}

/// The first line of the window: the whole prompt when it fits; otherwise
/// one line above the caret's line where possible, or the last lines once
/// there is no caret.
pub open spec fn first_visible(total: nat, rows: nat, caret: Option<Caret>) -> nat {
    if total <= rows {
        0
    } else {
        let anchor: int = match caret {
            Some(c) => c.line as int,
            None => total - 1,
        };
        let above: int = if anchor >= 1 { anchor - 1 } else { 0 };
        let bottom: int = if anchor >= rows { anchor + 1 - rows } else { 0 };
        let start: int = if above > bottom { above } else { bottom };
        (if start < total - rows { start } else { total - rows }) as nat
    }
}

/// What a display shows.
pub struct DisplayView {
    pub lines: Seq<Seq<Cell>>,
    pub first_line: nat,
    pub total_lines: nat,
    pub caret: Option<Caret>,
}

/// At least one, as the viewport is read.
pub open spec fn at_least_one(n: usize) -> nat {
    if n < 1 {
        1
    } else {
        n as nat
    }
}

/// The display of a session in a viewport.
pub open spec fn laid_out(v: SessionView, viewport: Viewport) -> DisplayView {
    let columns = at_least_one(viewport.columns);
    let rows = at_least_one(viewport.rows);
    let f = flow_words(v, columns, v.word_count as int);
    let total = f.lines.len();
    let first = first_visible(total, rows, f.caret);
    let end = if first + rows < total { first + rows } else { total };
    DisplayView {
        lines: f.lines.subrange(first as int, end as int),
        first_line: first,
        total_lines: total,
        caret: match f.caret {
            Some(c) => Some(Caret { line: (c.line - first) as usize, column: c.column }),
            None => None,
        },
    }
}

/// The visible window of the laid-out prompt.
#[derive(Debug, Clone, PartialEq, Eq)]
pub struct Display {
    lines: Vec<Vec<Cell>>,
    first_line: usize,
    total_lines: usize,
    caret: Option<Caret>,
}

/// The cells of some lines, line by line.
pub open spec fn lines_view(lines: Seq<Vec<Cell>>) -> Seq<Seq<Cell>> {
    Seq::new(lines.len(), |i: int| lines[i]@)
}

impl View for Display {
    type V = DisplayView;

    closed spec fn view(&self) -> DisplayView {
        DisplayView {
            lines: lines_view(self.lines@),
            first_line: self.first_line as nat,
            total_lines: self.total_lines as nat,
            caret: self.caret,
        }
    }
}

impl Display {
    /// The lines to paint, at most the viewport's rows.
    pub fn lines(&self) -> (r: &[Vec<Cell>])
        ensures
            lines_view(r@) == self@.lines,
    {
        self.lines.as_slice()
    }

    /// Index of the first visible line within the whole wrapped prompt;
    /// non-zero only when the prompt is taller than the viewport.
    pub fn first_line(&self) -> (r: usize)
        ensures
            r == self@.first_line,
    {
        self.first_line
    }

    /// Lines the whole wrapped prompt occupies.
    pub fn total_lines(&self) -> (r: usize)
        ensures
            r == self@.total_lines,
    {
        self.total_lines
    }

    /// `None` once the session is over.
    pub fn caret(&self) -> (r: Option<Caret>)
        ensures
            r == self@.caret,
    {
        self.caret
    }
}

impl Cell {
    /// Columns the cell occupies; always at least one.
    pub fn width(&self) -> (r: usize)
        ensures
            r == cell_width(*self),
            1 <= r <= 3,
    {
        match char_width(self.ch) {
            Some(w) => if w == 0 {
                1
            } else {
                w
            },
            None => 1,
        }
    }

    /// The cell's class style, underlined when its word was submitted with
    /// an uncorrected error.
    pub fn style(&self, palette: Palette) -> (r: Style)
        ensures
            r == (Style {
                underline: class_style(self.class, palette).underline || self.uncorrected,
                ..class_style(self.class, palette)
            }),
    {
        let style = self.class.style(palette);
        Style { underline: style.underline || self.uncorrected, ..style }
    }
}

/// How a typed extra is shown.
fn displayable(c: char) -> (r: char)
    ensures
        r == shown_extra(c),
{
    match char_width(c) {
        Some(w) => if w > 0 {
            c
        } else {
            '\u{FFFD}'
        },
        None => '\u{FFFD}',
    }
}

/// The cells for one word and the index of the caret's cell, if the caret
/// is in this word.
fn word_cells(state: &SessionState, word: usize) -> (r: (Vec<Cell>, Option<usize>))
    requires
        state.wf(),
        word < state@.word_count,
    ensures
        r.0@ == word_cells_of(state@, word as int),
        match r.1 {
            Some(i) => caret_cell_of(state@, word as int) == Some(i as int),
            None => caret_cell_of(state@, word as int) is None,
        },
{
    proof {
        state.lemma_wf();
    }
    let ghost v = state@;
    let prompt = state.prompt();
    let target = prompt.word_chars(word);
    let typed = state.typed(word);
    let submitted = word < state.current_word() || state.outcome() == Some(Outcome::Completed);
    let marked = submitted && state.has_uncorrected_error(word);
    let ghost front = target_cells(typed@, target@, marked);
    let mut cells: Vec<Cell> = Vec::new();
    let mut i: usize = 0;
    while i < target.len()
        invariant
            i <= target@.len(),
            cells@ == front.take(i as int),
            front.len() == target@.len(),
            forall|k: int|
                0 <= k < target@.len() ==> #[trigger] front[k] == (Cell {
                    ch: target@[k],
                    class: target_class(typed@, target@, k),
                    uncorrected: marked,
                }),
        decreases target@.len() - i,
    {
        let expected = target[i];
        let class = if i < typed.len() {
            if typed[i] == expected {
                CellClass::Correct
            } else {
                CellClass::Incorrect
            }
        } else {
            CellClass::Untyped
        };
        cells.push(Cell { ch: expected, class, uncorrected: marked });
        proof {
            assert(front.take(i + 1) =~= front.take(i as int).push(front[i as int]));
        }
        i += 1;
    }
    assert(front.take(target@.len() as int) =~= front);
    let ghost n_extra = extra_count(typed@, target@);
    let ghost back = extra_cells(typed@, target@, marked);
    let mut j: usize = target.len();
    while j < typed.len()
        invariant
            target@.len() <= j,
            j <= typed@.len() || typed@.len() <= target@.len(),
            typed@.len() <= target@.len() ==> j == target@.len(),
            back.len() == n_extra,
            n_extra == (if typed@.len() > target@.len() { typed@.len() - target@.len() } else { 0 }),
            cells@ == front + back.take(j - target@.len()),
            forall|k: int|
                0 <= k < n_extra ==> #[trigger] back[k] == (Cell {
                    ch: shown_extra(typed@[target@.len() + k]),
                    class: CellClass::Extra,
                    uncorrected: marked,
                }),
        decreases typed@.len() - j,
    {
        let shown = displayable(typed[j]);
        cells.push(Cell { ch: shown, class: CellClass::Extra, uncorrected: marked });
        proof {
            let k = j - target@.len();
            assert(back.take(k + 1) =~= back.take(k).push(back[k]));
        }
        j += 1;
    }
    assert(back.take(n_extra as int) =~= back);
    if typed.len() <= target.len() {
        assert(back.take(j - target@.len()) =~= back);
    }
    cells.push(
        Cell {
            ch: ' ',
            class: if submitted {
                CellClass::Correct
            } else {
                CellClass::Untyped
            },
            uncorrected: false,
        },
    );
    proof {
        assert(marked == word_marked(v, word as int));
        assert(cells@ =~= word_cells_of(v, word as int));
    }
    let caret = if state.outcome().is_none() && word == state.current_word() {
        Some(typed.len())
    } else {
        None
    };
    (cells, caret)
}

/// Whether something `width` columns wide starting at `column` goes on a
/// new line.
fn must_break(column: usize, width: usize, columns: usize) -> (r: bool)
    ensures
        r == breaks(column as nat, width as nat, columns as nat),
{
    column > 0 && (width > columns || column > columns - width)
}

/// The columns a word's cells occupy, saturating at the largest `usize`.
fn word_width(cells: &[Cell]) -> (r: usize)
    ensures
        r == (if cells_width(cells@) <= usize::MAX { cells_width(cells@) } else { usize::MAX as nat }),
{
    let mut width: usize = 0;
    let mut i: usize = 0;
    while i < cells.len()
        invariant
            i <= cells@.len(),
            width == (if cells_width(cells@.take(i as int)) <= usize::MAX {
                cells_width(cells@.take(i as int))
            } else {
                usize::MAX as nat
            }),
        decreases cells@.len() - i,
    {
        let w = cells[i].width();
        proof {
            assert(cells@.take(i + 1).drop_last() =~= cells@.take(i as int));
        }
        if width > usize::MAX - w {
            width = usize::MAX;
        } else {
            width = width + w;
        }
        i += 1;
    }
    assert(cells@.take(cells@.len() as int) =~= cells@);
    width
}

/// Wraps the prompt at word boundaries into the viewport's width and picks
/// the window of lines to show.
///
/// A word, its extras, and the following space are kept together on one
/// line, so the caret always has a cell to sit on and text never re-wraps
/// because of where the caret is. A word that alone is wider than the
/// viewport is split across lines rather than overflowing. When the prompt
/// is taller than the viewport, the window keeps one line above the caret's
/// line where possible, and shows the end of the prompt once the session is
/// over.
pub fn lay_out(state: &SessionState, viewport: Viewport) -> (d: Display)
    requires
        state.wf(),
    ensures
        d@ == laid_out(state@, viewport),
{
    proof {
        state.lemma_wf();
    }
    let ghost v = state@;
    let columns: usize = if viewport.columns < 1 { 1 } else { viewport.columns };
    let rows: usize = if viewport.rows < 1 { 1 } else { viewport.rows };
    let mut lines: Vec<Vec<Cell>> = Vec::new();
    lines.push(Vec::new());
    let mut column: usize = 0;
    let mut caret: Option<Caret> = None;
    let word_count = state.word_count();
    let mut word: usize = 0;
    proof {
        assert(lines_view(lines@) =~= seq![Seq::<Cell>::empty()]);
    }
    while word < word_count
        invariant
            state.wf(),
            v == state@,
            view_wf(v),
            word_count == v.word_count,
            word <= word_count,
            columns == at_least_one(viewport.columns),
            lines@.len() >= 1,
            column <= (if columns > 3 { columns } else { 3 }),
            flow_words(v, columns as nat, word as int) == (Flow {
                lines: lines_view(lines@),
                column: column as nat,
                caret,
            }),
        decreases word_count - word,
    {
        let (cells, caret_index) = word_cells(state, word);
        let width = word_width(cells.as_slice());
        let ghost start = Flow { lines: lines_view(lines@), column: column as nat, caret };
        proof {
            if cells_width(cells@) > usize::MAX {
                assert(columns <= usize::MAX);
            }
        }
        if must_break(column, width, columns) {
            lines.push(Vec::new());
            column = 0;
            proof {
                assert(lines_view(lines@) =~= start.lines.push(seq![]));
            }
        }
        let ghost placed = Flow { lines: lines_view(lines@), column: column as nat, caret };
        assert(placed == (if breaks(start.column, cells_width(cells@), columns as nat) {
            new_line(start)
        } else {
            start
        }));
        let ghost caret_spec = caret_cell_of(v, word as int);
        let mut i: usize = 0;
        while i < cells.len()
            invariant
                lines@.len() >= 1,
                i <= cells@.len(),
                columns >= 1,
                column <= (if columns > 3 { columns } else { 3 }),
                caret_spec == match caret_index {
                    Some(k) => Some(k as int),
                    None => None::<int>,
                },
                place_cells(placed, cells@, caret_spec, columns as nat, i as int) == (Flow {
                    lines: lines_view(lines@),
                    column: column as nat,
                    caret,
                }),
            decreases cells@.len() - i,
        {
            let cell = cells[i];
            let cell_width = cell.width();
            let ghost before = Flow { lines: lines_view(lines@), column: column as nat, caret };
            if must_break(column, cell_width, columns) {
                lines.push(Vec::new());
                column = 0;
                proof {
                    assert(lines_view(lines@) =~= before.lines.push(seq![]));
                }
            }
            let last = lines.len() - 1;
            if caret_index == Some(i) {
                caret = Some(Caret { line: last, column });
            }
            let ghost mid = lines@;
            lines[last].push(cell);
            proof {
                assert(lines_view(lines@) =~= lines_view(mid).update(
                    last as int,
                    lines_view(mid)[last as int].push(cell),
                ));
            }
            column = column + cell_width;
            i += 1;
        }
        word += 1;
    }
    proof {
        lemma_flow_caret_in_lines(v, columns as nat, word_count as int);
    }
    let total = lines.len();
    let first = if total <= rows {
        0
    } else {
        let anchor = match caret {
            Some(c) => c.line,
            None => total - 1,
        };
        let above = if anchor >= 1 { anchor - 1 } else { 0 };
        let bottom = if anchor >= rows { anchor + 1 - rows } else { 0 };
        let start = if above > bottom { above } else { bottom };
        if start < total - rows { start } else { total - rows }
    };
    let mut visible = lines.split_off(first);
    visible.truncate(rows);
    let shown_caret = match caret {
        Some(c) => Some(Caret { line: c.line - first, column: c.column }),
        None => None,
    };
    let d = Display { lines: visible, first_line: first, total_lines: total, caret: shown_caret };
    proof {
        let f = flow_words(v, columns as nat, word_count as int);
        let end: int = if first + rows < total { first + rows } else { total as int };
        assert(lines_view(visible@) =~= f.lines.subrange(first as int, end as int));
    }
    d
}

/// The caret of a flow, once placed, lies on one of its lines, and a flow
/// always has a line.
proof fn lemma_flow_caret_in_lines(v: SessionView, columns: nat, k: int)
    ensures
        flow_words(v, columns, k).lines.len() >= 1,
        flow_words(v, columns, k).caret matches Some(c) ==> c.line < flow_words(v, columns, k).lines.len(),
    decreases k,
{
    if k > 0 {
        lemma_flow_caret_in_lines(v, columns, k - 1);
        let f = flow_words(v, columns, k - 1);
        let cells = word_cells_of(v, k - 1);
        let g = if breaks(f.column, cells_width(cells), columns) {
            new_line(f)
        } else {
            f
        };
        lemma_place_cells_caret(g, cells, caret_cell_of(v, k - 1), columns, cells.len() as int);
    }
}

/// Placing cells keeps a placed caret on a line, and never removes one.
proof fn lemma_place_cells_caret(f: Flow, cells: Seq<Cell>, caret: Option<int>, columns: nat, k: int)
    requires
        f.lines.len() >= 1,
        f.caret matches Some(c) ==> c.line < f.lines.len(),
    ensures
        place_cells(f, cells, caret, columns, k).lines.len() >= f.lines.len(),
        place_cells(f, cells, caret, columns, k).caret matches Some(c) ==> c.line < place_cells(
            f,
            cells,
            caret,
            columns,
            k,
        ).lines.len(),
    decreases k,
{
    if k > 0 {
        lemma_place_cells_caret(f, cells, caret, columns, k - 1);
    }
}


// --- What every layout keeps ----------------------------------------------------

/// A line fits the viewport's width, or holds a single cell wider than it.
pub open spec fn line_fits(line: Seq<Cell>, columns: nat) -> bool {
    cells_width(line) <= columns || line.len() <= 1
}

/// A flow whose lines all fit, whose column is where its last line ends,
/// and whose caret, once placed, lies on one of its lines.
pub open spec fn flow_ok(f: Flow, columns: nat) -> bool {
    &&& f.lines.len() >= 1
    &&& f.column == cells_width(f.lines.last())
    &&& forall|i: int| 0 <= i < f.lines.len() ==> line_fits(#[trigger] f.lines[i], columns)
    &&& f.caret matches Some(c) ==> c.line < f.lines.len()
}

/// Every cell is at least one column wide, so cells take at least as many
/// columns as there are cells.
proof fn lemma_cells_width_at_least_len(cells: Seq<Cell>)
    ensures
        cells_width(cells) >= cells.len(),
    decreases cells.len(),
{
    if cells.len() > 0 {
        lemma_cells_width_at_least_len(cells.drop_last());
    }
}

proof fn lemma_place_cell_ok(f: Flow, cell: Cell, at_caret: bool, columns: nat)
    requires
        flow_ok(f, columns),
    ensures
        flow_ok(place_cell(f, cell, at_caret, columns), columns),
        place_cell(f, cell, at_caret, columns).lines.len() >= f.lines.len(),
        !at_caret ==> place_cell(f, cell, at_caret, columns).caret == f.caret,
        at_caret ==> place_cell(f, cell, at_caret, columns).caret is Some,
{
    let g = if breaks(f.column, cell_width(cell), columns) {
        new_line(f)
    } else {
        f
    };
    let last = g.lines.len() - 1;
    let line = g.lines[last].push(cell);
    assert(line.drop_last() =~= g.lines[last]);
    lemma_cells_width_at_least_len(g.lines[last]);
    let h = place_cell(f, cell, at_caret, columns);
    assert forall|i: int| 0 <= i < h.lines.len() implies line_fits(#[trigger] h.lines[i], columns) by {
        if i != last {
            assert(h.lines[i] == g.lines[i]);
            if i < f.lines.len() {
                assert(g.lines[i] == f.lines[i]);
            }
        }
    }
}

proof fn lemma_place_cells_ok(f: Flow, cells: Seq<Cell>, caret: Option<int>, columns: nat, k: int)
    requires
        flow_ok(f, columns),
    ensures
        flow_ok(place_cells(f, cells, caret, columns, k), columns),
        f.caret is Some ==> place_cells(f, cells, caret, columns, k).caret is Some,
        (caret matches Some(c) && 0 <= c < k) ==> place_cells(f, cells, caret, columns, k).caret is Some,
        (caret is None && f.caret is None) ==> place_cells(f, cells, caret, columns, k).caret is None,
    decreases k,
{
    if k > 0 {
        lemma_place_cells_ok(f, cells, caret, columns, k - 1);
        lemma_place_cell_ok(
            place_cells(f, cells, caret, columns, k - 1),
            cells[k - 1],
            caret == Some(k - 1),
            columns,
        );
    }
}

proof fn lemma_new_line_ok(f: Flow, columns: nat)
    requires
        flow_ok(f, columns),
    ensures
        flow_ok(new_line(f), columns),
{
    let g = new_line(f);
    assert forall|i: int| 0 <= i < g.lines.len() implies line_fits(#[trigger] g.lines[i], columns) by {
        if i < f.lines.len() {
            assert(g.lines[i] == f.lines[i]);
        }
    }
}

/// The flow of a session's words keeps every line within the width, and
/// its caret is placed exactly when the session is not over.
proof fn lemma_flow_words_ok(v: SessionView, columns: nat, k: int)
    requires
        view_wf(v),
        k <= v.word_count,
    ensures
        flow_ok(flow_words(v, columns, k), columns),
        v.outcome is Some ==> flow_words(v, columns, k).caret is None,
        (v.outcome is None && v.current_word < k) ==> flow_words(v, columns, k).caret is Some,
    decreases k,
{
    if k <= 0 {
        let f = flow_words(v, columns, k);
        assert(f.lines.last() =~= Seq::<Cell>::empty());
        assert forall|i: int| 0 <= i < f.lines.len() implies line_fits(#[trigger] f.lines[i], columns) by {
            assert(f.lines[i] == Seq::<Cell>::empty());
        }
    } else {
        lemma_flow_words_ok(v, columns, k - 1);
        let f = flow_words(v, columns, k - 1);
        let cells = word_cells_of(v, k - 1);
        let g = if breaks(f.column, cells_width(cells), columns) {
            new_line(f)
        } else {
            f
        };
        lemma_new_line_ok(f, columns);
        let caret = caret_cell_of(v, k - 1);
        if caret is Some {
            assert(caret->0 == v.typed[k - 1].len());
            assert(caret->0 < cells.len());
        }
        lemma_place_cells_ok(g, cells, caret, columns, cells.len() as int);
    }
}

/// Every laid-out line fits the viewport's width, unless it holds a single
/// cell wider than the viewport; at least one line and at most the
/// viewport's rows are shown, and they lie within the whole wrapped prompt.
pub proof fn lemma_layout_fits_viewport(v: SessionView, viewport: Viewport)
    requires
        view_wf(v),
    ensures
        ({
            let d = laid_out(v, viewport);
            &&& forall|i: int|
                0 <= i < d.lines.len() ==> line_fits(#[trigger] d.lines[i], at_least_one(viewport.columns))
            &&& 1 <= d.lines.len() <= at_least_one(viewport.rows)
            &&& d.first_line + d.lines.len() <= d.total_lines
        }),
{
    let columns = at_least_one(viewport.columns);
    let f = flow_words(v, columns, v.word_count as int);
    lemma_flow_words_ok(v, columns, v.word_count as int);
    let d = laid_out(v, viewport);
    assert forall|i: int| 0 <= i < d.lines.len() implies line_fits(#[trigger] d.lines[i], columns) by {
        assert(d.lines[i] == f.lines[d.first_line + i]);
    }
}

/// The caret is shown exactly while the session is not over, and then on
/// one of the shown lines.
pub proof fn lemma_layout_shows_caret(v: SessionView, viewport: Viewport)
    requires
        view_wf(v),
    ensures
        ({
            let d = laid_out(v, viewport);
            &&& d.caret is Some <==> v.outcome is None
            &&& d.caret matches Some(c) ==> c.line < d.lines.len()
        }),
{
    let columns = at_least_one(viewport.columns);
    lemma_flow_words_ok(v, columns, v.word_count as int);
}

} // verus!
