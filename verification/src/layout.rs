//! Layouts: the named physical key arrangements a profile can be bound to,
//! and where each key of a layout sits under the hands.
//!
//! Positions are kept in whole units: a key's column in quarters of a key
//! width, its row in rows, so that distances compare exactly.

use vstd::prelude::*;

use crate::text::str_equal;

verus! {

/// The hand a key is struck with.
#[derive(Debug, Clone, Copy, PartialEq, Eq, Structural, Hash)]
pub enum Hand {
    Left,
    Right,
}

/// The finger a key is struck with in touch typing.
#[derive(Debug, Clone, Copy, PartialEq, Eq, Structural, Hash)]
pub enum Finger {
    Pinky,
    Ring,
    Middle,
    Index,
    Thumb,
}

/// Where a key sits and which finger strikes it.
#[derive(Debug, Clone, Copy, PartialEq, Eq, Structural)]
pub struct KeyPosition {
    /// `None` for the space bar, which either thumb strikes.
    pub hand: Option<Hand>,
    pub finger: Finger,
    /// Rows from the top letter row down; the space bar is row 3.
    pub row: u8,
    /// The key's centre, in quarters of a key width from the `a` key; the
    /// rows are staggered, so a column leans right going down.
    pub x_quarters: i32,
}

/// A known layout. Variants carry the layout's usual written name.
#[derive(Debug, Clone, Copy, PartialEq, Eq, Structural)]
pub enum Layout {
    /// The layout a profile has unless another is chosen.
    #[allow(non_camel_case_types)]
    QWERTY,
}

/// The letter rows of QWERTY, top to bottom, each from the left.
pub open spec fn qwerty_rows() -> Seq<Seq<char>> {
    seq![
        seq!['q', 'w', 'e', 'r', 't', 'y', 'u', 'i', 'o', 'p'],
        seq!['a', 's', 'd', 'f', 'g', 'h', 'j', 'k', 'l'],
        seq!['z', 'x', 'c', 'v', 'b', 'n', 'm'],
    ]
}

/// The first index at or after `from` where `s` holds `c`.
pub open spec fn first_index(s: Seq<char>, c: char, from: int) -> Option<int>
    decreases s.len() - from,
{
    if from < 0 || from >= s.len() {
        None
    } else if s[from] == c {
        Some(from)
    } else {
        first_index(s, c, from + 1)
    }
}

/// The finger for a letter column: pinky, ring and middle on the outer
/// columns, the index finger on the two inner columns of each hand.
pub open spec fn column_finger(col: int) -> Finger {
    if col == 0 || col == 9 {
        Finger::Pinky
    } else if col == 1 || col == 8 {
        Finger::Ring
    } else if col == 2 || col == 7 {
        Finger::Middle
    } else {
        Finger::Index
    }
}

/// The hand for a letter column: the first five columns are the left's.
pub open spec fn column_hand(col: int) -> Hand {
    if col < 5 {
        Hand::Left
    } else {
        Hand::Right
    }
}

/// How far a letter row is shifted, in quarter keys: the top row a quarter
/// key left of the home row, the bottom row half a key right of it.
pub open spec fn row_offset_quarters(row: int) -> int {
    if row == 0 {
        -1
    } else if row == 1 {
        0
    } else {
        2
    }
}

/// The key at a letter row and column.
pub open spec fn letter_key(row: int, col: int) -> KeyPosition {
    KeyPosition {
        hand: Some(column_hand(col)),
        finger: column_finger(col),
        row: row as u8,
        x_quarters: (row_offset_quarters(row) + 4 * col) as i32,
    }
}

/// The space bar: struck by a thumb, centred between the hands.
pub open spec fn space_key() -> KeyPosition {
    KeyPosition { hand: None, finger: Finger::Thumb, row: 3, x_quarters: 18 }
}

/// The key for `c` among the letter rows from `row` down.
pub open spec fn key_in_rows(c: char, row: int) -> Option<KeyPosition>
    decreases 3 - row,
{
    if row < 0 || row >= 3 {
        None
    } else {
        match first_index(qwerty_rows()[row], c, 0) {
            Some(col) => Some(letter_key(row, col)),
            None => key_in_rows(c, row + 1),
        }
    }
}

/// The QWERTY key that types `c`, if any.
pub open spec fn qwerty_key(c: char) -> Option<KeyPosition> {
    if c == ' ' {
        Some(space_key())
    } else {
        key_in_rows(c, 0)
    }
}

/// The name a layout is stored and shown under.
pub open spec fn layout_name(layout: Layout) -> Seq<char> {
    match layout {
        Layout::QWERTY => "qwerty"@,
    }
}

/// The layout stored under a name, if this build knows it.
pub open spec fn layout_named(name: Seq<char>) -> Option<Layout> {
    if name == layout_name(qwerty()) {
        Some(qwerty())
    } else {
        None
    }
}

/// Every layout reads back from its stored name.
pub proof fn lemma_layout_names_round_trip(layout: Layout)
    ensures
        layout_named(layout_name(layout)) == Some(layout),
{
}

/// The key of a layout that types `c`, if any.
pub open spec fn layout_key(layout: Layout, c: char) -> Option<KeyPosition> {
    match layout {
        Layout::QWERTY => qwerty_key(c),
    }
}

/// The layout QWERTY.
pub open spec fn qwerty() -> Layout {
    Layout::QWERTY
}

/// The squared distance between two key centres, in sixteenths of a
/// squared key width: columns are counted in quarter keys and a row is a
/// key apart.
pub open spec fn squared_distance(a: KeyPosition, b: KeyPosition) -> int {
    let dx = a.x_quarters - b.x_quarters;
    let dy = a.row - b.row;
    dx * dx + 16 * (dy * dy)
}

/// Exactly the lowercase letters and the space have a key.
pub proof fn lemma_qwerty_keys_are_letters_and_space(c: char)
    ensures
        qwerty_key(c) is Some <==> (c == ' ' || ('a' <= c && c <= 'z')),
{
    reveal_with_fuel(first_index, 11);
    reveal_with_fuel(key_in_rows, 4);
}

/// Each letter of QWERTY is found at its own row and column: the key for
/// the character at a row and column is the letter key there.
proof fn lemma_letter_found(row: int, col: int)
    requires
        0 <= row < 3,
        0 <= col < qwerty_rows()[row].len(),
    ensures
        qwerty_key(qwerty_rows()[row][col]) == Some(letter_key(row, col)),
{
    reveal_with_fuel(first_index, 11);
    reveal_with_fuel(key_in_rows, 4);
    let rows = qwerty_rows();
    assert(rows[0] =~= seq!['q', 'w', 'e', 'r', 't', 'y', 'u', 'i', 'o', 'p']);
    assert(rows[1] =~= seq!['a', 's', 'd', 'f', 'g', 'h', 'j', 'k', 'l']);
    assert(rows[2] =~= seq!['z', 'x', 'c', 'v', 'b', 'n', 'm']);
}

/// The fingers of QWERTY's letter keys mirror between the hands: in every
/// letter row, the keys in column `col` and column `9 - col` are struck by
/// the same finger of opposite hands; the outer columns (0 and 9) by the
/// pinky, the four middle columns (3 to 6) by the index fingers. A key's
/// finger and hand depend only on its column, not its row.
pub proof fn lemma_qwerty_fingers_mirror(row: int, col: int, other_row: int)
    requires
        0 <= row < 3,
        0 <= col < qwerty_rows()[row].len(),
        0 <= other_row < 3,
    ensures
        layout_key(qwerty(), qwerty_rows()[row][col]) matches Some(k) && {
            &&& k.row == row
            &&& k.hand == Some(if col < 5 { Hand::Left } else { Hand::Right })
            &&& (col == 0 || col == 9) ==> k.finger == Finger::Pinky
            &&& (3 <= col <= 6) ==> k.finger == Finger::Index
            &&& (0 <= 9 - col < qwerty_rows()[row].len()) ==> (layout_key(qwerty(), qwerty_rows()[row][9 - col])
                matches Some(m) && m.finger == k.finger && m.row == k.row && m.hand != k.hand)
            &&& (col < qwerty_rows()[other_row].len()) ==> (layout_key(qwerty(), qwerty_rows()[other_row][col])
                matches Some(m) && m.finger == k.finger && m.hand == k.hand)
        },
{
    lemma_letter_found(row, col);
    if 0 <= 9 - col < qwerty_rows()[row].len() {
        lemma_letter_found(row, 9 - col);
    }
    if col < qwerty_rows()[other_row].len() {
        lemma_letter_found(other_row, col);
    }
}

/// The letter rows, as characters.
fn qwerty_rows_chars() -> (r: Vec<Vec<char>>)
    ensures
        r@.len() == 3,
        forall|i: int| 0 <= i < 3 ==> (#[trigger] r@[i])@ == qwerty_rows()[i],
{
    let top = vec!['q', 'w', 'e', 'r', 't', 'y', 'u', 'i', 'o', 'p'];
    let home = vec!['a', 's', 'd', 'f', 'g', 'h', 'j', 'k', 'l'];
    let bottom = vec!['z', 'x', 'c', 'v', 'b', 'n', 'm'];
    assert(top@ =~= qwerty_rows()[0]);
    assert(home@ =~= qwerty_rows()[1]);
    assert(bottom@ =~= qwerty_rows()[2]);
    vec![top, home, bottom]
}

/// The first index where `s` holds `c`.
fn find_char(s: &[char], c: char) -> (r: Option<usize>)
    ensures
        match r {
            Some(i) => first_index(s@, c, 0) == Some(i as int) && i < s@.len(),
            None => first_index(s@, c, 0) is None,
        },
{
    let mut i: usize = 0;
    while i < s.len()
        invariant
            i <= s@.len(),
            first_index(s@, c, 0) == first_index(s@, c, i as int),
        decreases s@.len() - i,
    {
        if s[i] == c {
            return Some(i);
        }
        i += 1;
    }
    None
}

impl KeyPosition {
    /// The squared distance to another key's centre, in sixteenths of a
    /// squared key width; its square root is the distance in key widths.
    pub fn squared_distance_sixteenths(&self, other: &KeyPosition) -> (r: u64)
        ensures
            r == squared_distance(*self, *other),
    {
        let dx: i64 = self.x_quarters as i64 - other.x_quarters as i64;
        let dy: i64 = self.row as i64 - other.row as i64;
        let ax: u64 = if dx < 0 { (0 - dx) as u64 } else { dx as u64 };
        let ay: u64 = if dy < 0 { (0 - dy) as u64 } else { dy as u64 };
        assert(ax <= 0xffff_ffff);
        assert(ay <= 255);
        assert(ax * ax <= 0xffff_ffff * 0xffff_ffff) by (nonlinear_arith)
            requires
                ax <= 0xffff_ffff,
        ;
        assert(ay * ay <= 255 * 255) by (nonlinear_arith)
            requires
                ay <= 255,
        ;
        assert(ax * ax == dx * dx && ay * ay == dy * dy) by (nonlinear_arith)
            requires
                ax == dx || ax == -dx,
                ay == dy || ay == -dy,
        ;
        ax * ax + 16 * (ay * ay)
    }
}

impl Layout {
    /// Every layout known, in the order they are listed to the user.
    pub fn all() -> (r: Vec<Layout>)
        ensures
            r@ == seq![qwerty()],
    {
        vec![Layout::QWERTY]
    }

    /// The layout with the given name, if there is one; names match exactly.
    pub fn by_name(name: &str) -> (r: Option<Layout>)
        ensures
            r == layout_named(name@),
    {
        if str_equal(name, "qwerty") {
            Some(Layout::QWERTY)
        } else {
            None
        }
    }

    /// The name the user sets and sees, and the form a profile stores.
    pub fn name(self) -> (r: &'static str)
        ensures
            r@ == layout_name(self),
    {
        match self {
            Layout::QWERTY => "qwerty",
        }
    }

    /// The key that types `c`, if the layout has one.
    pub fn key(self, c: char) -> (r: Option<KeyPosition>)
        ensures
            r == layout_key(self, c),
    {
        if c == ' ' {
            return Some(KeyPosition { hand: None, finger: Finger::Thumb, row: 3, x_quarters: 18 });
        }
        let rows = qwerty_rows_chars();
        let mut row: usize = 0;
        while row < 3
            invariant
                row <= 3,
                c != ' ',
                self == Layout::QWERTY,
                rows@.len() == 3,
                forall|i: int| 0 <= i < 3 ==> (#[trigger] rows@[i])@ == qwerty_rows()[i],
                key_in_rows(c, 0) == key_in_rows(c, row as int),
            decreases 3 - row,
        {
            let letters = rows[row].as_slice();
            assert(letters@ == qwerty_rows()[row as int]);
            assert(letters@.len() <= 10);
            match find_char(letters, c) {
                Some(col) => {
                    let finger = if col == 0 || col == 9 {
                        Finger::Pinky
                    } else if col == 1 || col == 8 {
                        Finger::Ring
                    } else if col == 2 || col == 7 {
                        Finger::Middle
                    } else {
                        Finger::Index
                    };
                    let hand = if col < 5 { Hand::Left } else { Hand::Right };
                    let offset: i32 = if row == 0 { -1 } else if row == 1 { 0 } else { 2 };
                    assert(col < 10);
                    return Some(
                        KeyPosition {
                            hand: Some(hand),
                            finger,
                            row: row as u8,
                            x_quarters: offset + 4 * (col as i32),
                        },
                    );
                },
                None => {},
            }
            row += 1;
        }
        None
    }
}

impl Default for Layout {
    fn default() -> (r: Layout)
        ensures
            r == qwerty(),
    {
        Layout::QWERTY
    }
}

} // verus!
