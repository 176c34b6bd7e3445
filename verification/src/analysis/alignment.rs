//! Aligns a word's first attempt to its target and says which slot each
//! error belongs to.
//!
//! The alignment is Damerau-Levenshtein with adjacent transpositions
//! (optimal string alignment). Where several alignments need the fewest
//! operations, the one whose errors fall latest in the word wins, comparing
//! the error slots from the last backward; alignments still tied share
//! their errors equally.

use vstd::prelude::*;

use super::{edit_slot, Edit};

verus! {

// --- The distance ---------------------------------------------------------------

/// Whether the typed and target characters before `i` and `j` differ.
pub open spec fn substitution_cost(typed: Seq<char>, target: Seq<char>, i: int, j: int) -> nat {
    if typed[i - 1] != target[j - 1] {
        1
    } else {
        0
    }
}

/// Whether the two typed characters before `i` are the two target
/// characters before `j` in the other order.
pub open spec fn can_transpose(typed: Seq<char>, target: Seq<char>, i: int, j: int) -> bool {
    &&& i >= 2
    &&& j >= 2
    &&& typed[i - 1] == target[j - 2]
    &&& typed[i - 2] == target[j - 1]
    &&& typed[i - 1] != typed[i - 2]
}

/// The fewest operations (substitutions, omissions, insertions, adjacent
/// transpositions) that turn the first `i` typed characters into the first
/// `j` target characters, without editing a transposed pair again.
pub open spec fn osa(typed: Seq<char>, target: Seq<char>, i: nat, j: nat) -> nat
    decreases i + j,
{
    if i == 0 {
        j
    } else if j == 0 {
        i
    } else {
        let diagonal = osa(typed, target, (i - 1) as nat, (j - 1) as nat) + substitution_cost(
            typed,
            target,
            i as int,
            j as int,
        );
        let omission = osa(typed, target, i, (j - 1) as nat) + 1;
        let insertion = osa(typed, target, (i - 1) as nat, j) + 1;
        let best = if diagonal <= omission && diagonal <= insertion {
            diagonal
        } else if omission <= insertion {
            omission
        } else {
            insertion
        };
        if can_transpose(typed, target, i as int, j as int) && osa(
            typed,
            target,
            (i - 2) as nat,
            (j - 2) as nat,
        ) + 1 < best {
            osa(typed, target, (i - 2) as nat, (j - 2) as nat) + 1
        } else {
            best
        }
    }
}

/// The distance never exceeds the longer of the two prefixes.
pub proof fn lemma_osa_bounded(typed: Seq<char>, target: Seq<char>, i: nat, j: nat)
    ensures
        osa(typed, target, i, j) <= (if i > j { i } else { j }),
    decreases i + j,
{
    if i > 0 && j > 0 {
        lemma_osa_bounded(typed, target, (i - 1) as nat, (j - 1) as nat);
    }
}

/// Whether two typed characters before `i` are the target's two before `j`
/// swapped.
fn transposable(typed: &[char], target: &[char], i: usize, j: usize) -> (r: bool)
    requires
        i <= typed@.len(),
        j <= target@.len(),
    ensures
        r == can_transpose(typed@, target@, i as int, j as int),
{
    i >= 2 && j >= 2 && typed[i - 1] == target[j - 2] && typed[i - 2] == target[j - 1] && typed[i - 1]
        != typed[i - 2]
}

/// The distance table of a typed word against its target.
pub struct Table {
    /// `distance[i][j]`: operations to turn the first `i` typed characters
    /// into the first `j` target characters.
    pub distance: Vec<Vec<usize>>,
}

/// The table holds the distance of every pair of prefixes.
pub open spec fn table_correct(t: Seq<Vec<usize>>, typed: Seq<char>, target: Seq<char>) -> bool {
    &&& t.len() == typed.len() + 1
    &&& forall|i: int| 0 <= i < t.len() ==> (#[trigger] t[i])@.len() == target.len() + 1
    &&& forall|i: int, j: int|
        0 <= i < t.len() && 0 <= j <= target.len() ==> (#[trigger] t[i]@[j]) == osa(
            typed,
            target,
            i as nat,
            j as nat,
        )
}

impl Table {
    /// The distance table of `typed` against `target`.
    pub fn new(typed: &[char], target: &[char]) -> (t: Table)
        requires
            typed@.len() < usize::MAX,
            target@.len() < usize::MAX,
        ensures
            table_correct(t.distance@, typed@, target@),
    {
        let m = typed.len();
        let n = target.len();
        let mut d: Vec<Vec<usize>> = Vec::new();
        let mut i: usize = 0;
        while i <= m
            invariant
                m == typed@.len(),
                n == target@.len(),
                m < usize::MAX,
                n < usize::MAX,
                i <= m + 1,
                d@.len() == i,
                forall|r: int| 0 <= r < i ==> (#[trigger] d@[r])@.len() == n + 1,
                forall|r: int, c: int|
                    0 <= r < i && 0 <= c <= n ==> (#[trigger] d@[r]@[c]) == osa(typed@, target@, r as nat, c as nat),
            decreases m + 1 - i,
        {
            let mut row: Vec<usize> = Vec::new();
            let mut j: usize = 0;
            while j <= n
                invariant
                    m == typed@.len(),
                    n == target@.len(),
                    m < usize::MAX,
                n < usize::MAX,
                    i <= m,
                    j <= n + 1,
                    d@.len() == i,
                    forall|r: int| 0 <= r < i ==> (#[trigger] d@[r])@.len() == n + 1,
                    forall|r: int, c: int|
                        0 <= r < i && 0 <= c <= n ==> (#[trigger] d@[r]@[c]) == osa(
                            typed@,
                            target@,
                            r as nat,
                            c as nat,
                        ),
                    row@.len() == j,
                    forall|c: int| 0 <= c < j ==> (#[trigger] row@[c]) == osa(typed@, target@, i as nat, c as nat),
                decreases n + 1 - j,
            {
                let value = if i == 0 {
                    j
                } else if j == 0 {
                    i
                } else {
                    proof {
                        lemma_osa_bounded(typed@, target@, (i - 1) as nat, (j - 1) as nat);
                        lemma_osa_bounded(typed@, target@, i as nat, (j - 1) as nat);
                        lemma_osa_bounded(typed@, target@, (i - 1) as nat, j as nat);
                        if i >= 2 && j >= 2 {
                            lemma_osa_bounded(typed@, target@, (i - 2) as nat, (j - 2) as nat);
                        }
                    }
                    let diagonal = d[i - 1][j - 1] + if typed[i - 1] != target[j - 1] { 1 } else { 0 };
                    let omission = row[j - 1] + 1;
                    let insertion = d[i - 1][j] + 1;
                    let best = if diagonal <= omission && diagonal <= insertion {
                        diagonal
                    } else if omission <= insertion {
                        omission
                    } else {
                        insertion
                    };
                    if transposable(typed, target, i, j) && d[i - 2][j - 2] + 1 < best {
                        d[i - 2][j - 2] + 1
                    } else {
                        best
                    }
                };
                row.push(value);
                j += 1;
            }
            d.push(row);
            i += 1;
        }
        Table { distance: d }
    }
}

// --- Optimal moves --------------------------------------------------------------

/// One step of an alignment back toward the origin: the edit it records
/// (none for a match) and the cell it comes from.
pub type Move = (Option<Edit>, (usize, usize));

/// The character at an index.
pub open spec fn char_at(s: Seq<char>, k: int) -> char {
    s[k]
}

/// The match or substitution into a cell, if it keeps the distance optimal.
pub open spec fn diagonal_move(typed: Seq<char>, target: Seq<char>, i: nat, j: nat) -> Seq<Move> {
    if i > 0 && j > 0 && osa(typed, target, (i - 1) as nat, (j - 1) as nat) + substitution_cost(
        typed,
        target,
        i as int,
        j as int,
    ) == osa(typed, target, i, j) {
        seq![
            (
                if typed[i - 1] != target[j - 1] {
                    Some(Edit::Substitution { slot: (j - 1) as usize, actual: char_at(typed, i - 1) })
                } else {
                    None
                },
                ((i - 1) as usize, (j - 1) as usize),
            ),
        ]
    } else {
        seq![]
    }
}

/// The omission into a cell, if it keeps the distance optimal.
pub open spec fn omission_move(typed: Seq<char>, target: Seq<char>, i: nat, j: nat) -> Seq<Move> {
    if j > 0 && osa(typed, target, i, (j - 1) as nat) + 1 == osa(typed, target, i, j) {
        seq![(Some(Edit::Omission { slot: (j - 1) as usize }), (i as usize, (j - 1) as usize))]
    } else {
        seq![]
    }
}

/// The insertion into a cell, if it keeps the distance optimal.
pub open spec fn insertion_move(typed: Seq<char>, target: Seq<char>, i: nat, j: nat) -> Seq<Move> {
    if i > 0 && osa(typed, target, (i - 1) as nat, j) + 1 == osa(typed, target, i, j) {
        seq![(Some(Edit::Insertion { slot: j as usize, actual: char_at(typed, i - 1) }), ((i - 1) as usize, j as usize))]
    } else {
        seq![]
    }
}

/// The transposition into a cell, if it keeps the distance optimal.
pub open spec fn transposition_move(typed: Seq<char>, target: Seq<char>, i: nat, j: nat) -> Seq<Move> {
    if can_transpose(typed, target, i as int, j as int) && osa(typed, target, (i - 2) as nat, (j - 2) as nat) + 1
        == osa(typed, target, i, j) {
        seq![(Some(Edit::Transposition { slot: (j - 1) as usize }), ((i - 2) as usize, (j - 2) as usize))]
    } else {
        seq![]
    }
}

/// The moves out of a cell that lie on some optimal alignment: a match or
/// substitution, an omission, an insertion, and a transposition, in that
/// order, each where it keeps the distance optimal.
pub open spec fn moves_at(typed: Seq<char>, target: Seq<char>, i: nat, j: nat) -> Seq<Move> {
    diagonal_move(typed, target, i, j) + omission_move(typed, target, i, j) + insertion_move(typed, target, i, j)
        + transposition_move(typed, target, i, j)
}

/// Every move steps back toward the origin, at most four leave a cell, and
/// every cell but the origin has one.
pub proof fn lemma_moves_at(typed: Seq<char>, target: Seq<char>, i: nat, j: nat)
    ensures
        moves_at(typed, target, i, j).len() <= 4,
        (i > 0 || j > 0) ==> moves_at(typed, target, i, j).len() > 0,
        forall|k: int|
            0 <= k < moves_at(typed, target, i, j).len() ==> {
                let from = (#[trigger] moves_at(typed, target, i, j)[k]).1;
                &&& from.0 <= i
                &&& from.1 <= j
                &&& from.0 + from.1 < i + j
            },
{
    let a = diagonal_move(typed, target, i, j);
    let b = omission_move(typed, target, i, j);
    let c = insertion_move(typed, target, i, j);
    let d = transposition_move(typed, target, i, j);
    assert(a.len() <= 1 && b.len() <= 1 && c.len() <= 1 && d.len() <= 1);
    if i > 0 || j > 0 {
        if a.len() + b.len() + c.len() + d.len() == 0 {
            assert(false);
        }
    }
    let all = moves_at(typed, target, i, j);
    assert forall|k: int| 0 <= k < all.len() implies {
        let from = (#[trigger] all[k]).1;
        &&& from.0 <= i
        &&& from.1 <= j
        &&& from.0 + from.1 < i + j
    } by {
        if k < a.len() {
            assert(all[k] == a[k]);
        } else if k < a.len() + b.len() {
            assert(all[k] == b[k - a.len()]);
        } else if k < a.len() + b.len() + c.len() {
            assert(all[k] == c[k - a.len() - b.len()]);
        } else {
            assert(all[k] == d[k - a.len() - b.len() - c.len()]);
        }
    }
}

/// The moves out of a cell, read from the table.
fn optimal_moves(table: &Table, typed: &[char], target: &[char], i: usize, j: usize) -> (r: Vec<Move>)
    requires
        table_correct(table.distance@, typed@, target@),
        typed@.len() < usize::MAX,
        target@.len() < usize::MAX,
        i <= typed@.len(),
        j <= target@.len(),
    ensures
        r@ == moves_at(typed@, target@, i as nat, j as nat),
{
    let d = &table.distance;
    let here = d[i][j];
    let mut moves: Vec<Move> = Vec::new();
    if i > 0 && j > 0 {
        let differs = typed[i - 1] != target[j - 1];
        proof {
            lemma_osa_bounded(typed@, target@, (i - 1) as nat, (j - 1) as nat);
        }
        if d[i - 1][j - 1] + if differs { 1 } else { 0 } == here {
            let edit = if differs {
                Some(Edit::Substitution { slot: j - 1, actual: typed[i - 1] })
            } else {
                None
            };
            moves.push((edit, (i - 1, j - 1)));
        }
    }
    if j > 0 {
        proof {
            lemma_osa_bounded(typed@, target@, i as nat, (j - 1) as nat);
        }
        if d[i][j - 1] + 1 == here {
            moves.push((Some(Edit::Omission { slot: j - 1 }), (i, j - 1)));
        }
    }
    if i > 0 {
        proof {
            lemma_osa_bounded(typed@, target@, (i - 1) as nat, j as nat);
        }
        if d[i - 1][j] + 1 == here {
            moves.push((Some(Edit::Insertion { slot: j, actual: typed[i - 1] }), (i - 1, j)));
        }
    }
    if transposable(typed, target, i, j) {
        proof {
            lemma_osa_bounded(typed@, target@, (i - 2) as nat, (j - 2) as nat);
        }
        if d[i - 2][j - 2] + 1 == here {
            moves.push((Some(Edit::Transposition { slot: j - 1 }), (i - 2, j - 2)));
        }
    }
    assert(moves@ =~= moves_at(typed@, target@, i as nat, j as nat));
    moves
}

// --- The preferred alignments ----------------------------------------------------

/// The optimal alignments from one cell back to the origin, together with
/// the key they were chosen by: their error slots, latest first.
pub struct BestView {
    pub key: Seq<usize>,
    pub alignments: Seq<Seq<Edit>>,
}

/// The edit a move records, as a sequence of none or one.
pub open spec fn edit_seq(edit: Option<Edit>) -> Seq<Edit> {
    match edit {
        Some(e) => seq![e],
        None => seq![],
    }
}

/// The slot a move adds to the key, if it records an edit.
pub open spec fn key_prefix(edit: Option<Edit>) -> Seq<usize> {
    match edit {
        Some(e) => seq![edit_slot(e)],
        None => seq![],
    }
}

/// An alignment continued by a move's edit.
pub open spec fn extended(alignment: Seq<Edit>, edit: Option<Edit>) -> Seq<Edit> {
    alignment + edit_seq(edit)
}

/// Every alignment continued by a move's edit.
pub open spec fn extend_all(alignments: Seq<Seq<Edit>>, edit: Option<Edit>) -> Seq<Seq<Edit>> {
    Seq::new(alignments.len(), |k: int| extended(alignments[k], edit))
}

/// The alignments through a move: the best ones from the cell it comes
/// from, continued by its edit.
pub open spec fn candidate(tail: BestView, edit: Option<Edit>) -> BestView {
    BestView { key: key_prefix(edit) + tail.key, alignments: extend_all(tail.alignments, edit) }
}

/// Whether one key comes after another in lexicographic order, a proper
/// prefix coming first.
pub open spec fn key_greater(a: Seq<usize>, b: Seq<usize>) -> bool
    decreases a.len(),
{
    if a.len() == 0 {
        false
    } else if b.len() == 0 {
        true
    } else if a[0] != b[0] {
        a[0] > b[0]
    } else {
        key_greater(a.drop_first(), b.drop_first())
    }
}

/// The best so far after considering one more move: an equal key shares,
/// a greater key wins.
pub open spec fn merge_candidate(current: Option<BestView>, cand: BestView) -> Option<BestView> {
    match current {
        Some(c) => if c.key == cand.key {
            Some(BestView { key: c.key, alignments: c.alignments + cand.alignments })
        } else if key_greater(c.key, cand.key) {
            Some(c)
        } else {
            Some(cand)
        },
        None => Some(cand),
    }
}

/// The preferred optimal alignments from cell `(i, j)` back to the origin.
pub open spec fn best_at(typed: Seq<char>, target: Seq<char>, i: nat, j: nat) -> BestView
    decreases i + j, 5int,
{
    if i == 0 && j == 0 {
        BestView { key: seq![], alignments: seq![seq![]] }
    } else {
        proof {
            lemma_moves_at(typed, target, i, j);
        }
        match fold_moves(typed, target, i, j, moves_at(typed, target, i, j).len() as int) {
            Some(b) => b,
            None => BestView { key: seq![], alignments: seq![] },
        }
    }
}

/// The best over the first `k` moves out of cell `(i, j)`.
pub open spec fn fold_moves(typed: Seq<char>, target: Seq<char>, i: nat, j: nat, k: int) -> Option<BestView>
    decreases i + j, k,
{
    if k <= 0 || k > moves_at(typed, target, i, j).len() {
        None
    } else {
        proof {
            lemma_moves_at(typed, target, i, j);
        }
        let mv = moves_at(typed, target, i, j)[k - 1];
        merge_candidate(
            fold_moves(typed, target, i, j, k - 1),
            candidate(best_at(typed, target, mv.1.0 as nat, mv.1.1 as nat), mv.0),
        )
    }
}

/// The best alignments of one cell.
pub struct Best {
    pub key: Vec<usize>,
    pub alignments: Vec<Vec<Edit>>,
}

/// The alignments as sequences of edits.
pub open spec fn alignments_view(a: Seq<Vec<Edit>>) -> Seq<Seq<Edit>> {
    Seq::new(a.len(), |k: int| a[k]@)
}

impl View for Best {
    type V = BestView;

    open spec fn view(&self) -> BestView {
        BestView { key: self.key@, alignments: alignments_view(self.alignments@) }
    }
}

/// A copy of some edits, continued by a move's edit.
fn extend_alignment(alignment: &[Edit], edit: Option<Edit>) -> (r: Vec<Edit>)
    ensures
        r@ == extended(alignment@, edit),
{
    let mut out: Vec<Edit> = Vec::new();
    let mut k: usize = 0;
    while k < alignment.len()
        invariant
            k <= alignment@.len(),
            out@ == alignment@.take(k as int),
        decreases alignment@.len() - k,
    {
        out.push(alignment[k]);
        proof {
            assert(alignment@.take(k + 1) == alignment@.take(k as int).push(alignment@[k as int]));
        }
        k += 1;
    }
    match edit {
        Some(e) => out.push(e),
        None => {},
    }
    assert(out@ =~= extended(alignment@, edit));
    out
}

/// The alignments through a move, as a new value.
fn make_candidate(tail: &Best, edit: Option<Edit>) -> (r: Best)
    ensures
        r@ == candidate(tail@, edit),
{
    let mut key: Vec<usize> = Vec::new();
    match edit {
        Some(e) => key.push(e.slot()),
        None => {},
    }
    let ghost prefix = key@;
    let mut k: usize = 0;
    while k < tail.key.len()
        invariant
            k <= tail.key@.len(),
            key@ == prefix + tail.key@.take(k as int),
        decreases tail.key@.len() - k,
    {
        key.push(tail.key[k]);
        proof {
            assert(tail.key@.take(k + 1) == tail.key@.take(k as int).push(tail.key@[k as int]));
        }
        k += 1;
    }
    let mut alignments: Vec<Vec<Edit>> = Vec::new();
    let mut a: usize = 0;
    while a < tail.alignments.len()
        invariant
            a <= tail.alignments@.len(),
            alignments@.len() == a,
            forall|x: int| 0 <= x < a ==> (#[trigger] alignments@[x])@ == extended(tail.alignments@[x]@, edit),
        decreases tail.alignments@.len() - a,
    {
        alignments.push(extend_alignment(tail.alignments[a].as_slice(), edit));
        a += 1;
    }
    let r = Best { key, alignments };
    proof {
        assert(tail.key@.take(tail.key@.len() as int) =~= tail.key@);
        assert(r@.key =~= candidate(tail@, edit).key);
        assert(r@.alignments =~= candidate(tail@, edit).alignments);
    }
    r
}

/// Whether one key comes after another.
fn keys_greater(a: &[usize], b: &[usize]) -> (r: bool)
    ensures
        r == key_greater(a@, b@),
{
    let mut k: usize = 0;
    assert(a@.skip(0) =~= a@);
    assert(b@.skip(0) =~= b@);
    while k < a.len() && k < b.len()
        invariant
            k <= a@.len(),
            k <= b@.len(),
            key_greater(a@, b@) == key_greater(a@.skip(k as int), b@.skip(k as int)),
        decreases a@.len() - k,
    {
        assert(a@.skip(k as int)[0] == a@[k as int]);
        assert(b@.skip(k as int)[0] == b@[k as int]);
        if a[k] != b[k] {
            return a[k] > b[k];
        }
        proof {
            assert(a@.skip(k as int).drop_first() =~= a@.skip(k + 1));
            assert(b@.skip(k as int).drop_first() =~= b@.skip(k + 1));
        }
        k += 1;
    }
    k < a.len()
}

/// Whether two keys are equal.
fn keys_equal(a: &[usize], b: &[usize]) -> (r: bool)
    ensures
        r == (a@ == b@),
{
    if a.len() != b.len() {
        return false;
    }
    let mut k: usize = 0;
    while k < a.len()
        invariant
            a@.len() == b@.len(),
            k <= a@.len(),
            forall|x: int| 0 <= x < k ==> a@[x] == b@[x],
        decreases a@.len() - k,
    {
        if a[k] != b[k] {
            return false;
        }
        k += 1;
    }
    assert(a@ =~= b@);
    true
}

/// The best so far after one more candidate.
fn merge_best(current: Option<Best>, cand: Best) -> (r: Option<Best>)
    ensures
        match r {
            Some(b) => merge_candidate(
                match current {
                    Some(c) => Some(c@),
                    None => None,
                },
                cand@,
            ) == Some(b@),
            None => false,
        },
{
    match current {
        Some(c) => {
            if keys_equal(c.key.as_slice(), cand.key.as_slice()) {
                let mut alignments = c.alignments;
                let mut extra = cand.alignments;
                let ghost first = alignments@;
                let ghost second = extra@;
                alignments.append(&mut extra);
                proof {
                    assert(alignments_view(alignments@) =~= alignments_view(first) + alignments_view(second));
                }
                Some(Best { key: c.key, alignments })
            } else if keys_greater(c.key.as_slice(), cand.key.as_slice()) {
                Some(c)
            } else {
                Some(cand)
            }
        },
        None => Some(cand),
    }
}

/// The preferred alignments of an earlier cell: from a finished row, or
/// from the current row so far.
fn earlier_cell<'a>(
    typed: &[char],
    target: &[char],
    rows: &'a Vec<Vec<Best>>,
    row: &'a Vec<Best>,
    i: usize,
    j: usize,
    from: (usize, usize),
) -> (r: &'a Best)
    requires
        from.0 <= i,
        from.1 <= j,
        from.0 + from.1 < i + j,
        j <= target@.len(),
        rows@.len() == i,
        row@.len() == j,
        forall|r: int| 0 <= r < i ==> (#[trigger] rows@[r])@.len() == target@.len() + 1,
        forall|r: int, c: int|
            0 <= r < i && 0 <= c <= target@.len() ==> (#[trigger] rows@[r]@[c])@ == best_at(
                typed@,
                target@,
                r as nat,
                c as nat,
            ),
        forall|c: int| 0 <= c < j ==> (#[trigger] row@[c])@ == best_at(typed@, target@, i as nat, c as nat),
    ensures
        r@ == best_at(typed@, target@, from.0 as nat, from.1 as nat),
{
    if from.0 == i {
        &row[from.1]
    } else {
        &rows[from.0][from.1]
    }
}

/// The best after one more move, given the best over the moves before it.
proof fn lemma_fold_moves_step(typed: Seq<char>, target: Seq<char>, i: nat, j: nat, k: int)
    requires
        0 <= k < moves_at(typed, target, i, j).len(),
    ensures
        fold_moves(typed, target, i, j, k + 1) == merge_candidate(
            fold_moves(typed, target, i, j, k),
            candidate(
                best_at(
                    typed,
                    target,
                    moves_at(typed, target, i, j)[k].1.0 as nat,
                    moves_at(typed, target, i, j)[k].1.1 as nat,
                ),
                moves_at(typed, target, i, j)[k].0,
            ),
        ),
{
}

/// The preferred alignments of cell `(i, j)`, given those of every earlier
/// cell: the finished rows and the current row so far.
fn best_of_moves(
    table: &Table,
    typed: &[char],
    target: &[char],
    rows: &Vec<Vec<Best>>,
    row: &Vec<Best>,
    i: usize,
    j: usize,
) -> (r: Best)
    requires
        table_correct(table.distance@, typed@, target@),
        typed@.len() < usize::MAX,
        target@.len() < usize::MAX,
        i <= typed@.len(),
        j <= target@.len(),
        i > 0 || j > 0,
        rows@.len() == i,
        row@.len() == j,
        forall|r: int| 0 <= r < i ==> (#[trigger] rows@[r])@.len() == target@.len() + 1,
            forall|r: int, c: int| 0 <= r < i && 0 <= c <= target@.len() ==> (#[trigger] rows@[r]@[c])@ == best_at(typed@, target@, r as nat, c as nat),
        forall|c: int| 0 <= c < j ==> (#[trigger] row@[c])@ == best_at(typed@, target@, i as nat, c as nat),
    ensures
        r@ == best_at(typed@, target@, i as nat, j as nat),
{
    let moves = optimal_moves(table, typed, target, i, j);
    proof {
        lemma_moves_at(typed@, target@, i as nat, j as nat);
    }
    let mut best: Option<Best> = None;
    let mut k: usize = 0;
    while k < moves.len()
        invariant
            moves@ == moves_at(typed@, target@, i as nat, j as nat),
            k <= moves@.len(),
            moves@.len() <= 4,
            moves@.len() > 0,
            i <= typed@.len(),
            j <= target@.len(),
            rows@.len() == i,
            row@.len() == j,
            forall|r: int| 0 <= r < i ==> (#[trigger] rows@[r])@.len() == target@.len() + 1,
            forall|r: int, c: int| 0 <= r < i && 0 <= c <= target@.len() ==> (#[trigger] rows@[r]@[c])@ == best_at(typed@, target@, r as nat, c as nat),
            forall|c: int| 0 <= c < j ==> (#[trigger] row@[c])@ == best_at(typed@, target@, i as nat, c as nat),
            forall|x: int|
                0 <= x < moves@.len() ==> {
                    let from = (#[trigger] moves@[x]).1;
                    &&& from.0 <= i
                    &&& from.1 <= j
                    &&& from.0 + from.1 < i + j
                },
            k == 0 ==> best is None,
            k > 0 ==> (best matches Some(b) && fold_moves(typed@, target@, i as nat, j as nat, k as int) == Some(b@)),
        decreases moves@.len() - k,
    {
        let (edit, from) = moves[k];
        let tail = earlier_cell(typed, target, rows, row, i, j, from);
        proof {
            lemma_fold_moves_step(typed@, target@, i as nat, j as nat, k as int);
        }
        let cand = make_candidate(tail, edit);
        best = merge_best(best, cand);
        k += 1;
    }
    match best {
        Some(b) => b,
        None => Best { key: Vec::new(), alignments: Vec::new() },
    }
}

/// The preferred optimal alignments of a typed word against its target.
pub fn best_alignments(typed: &[char], target: &[char]) -> (r: Best)
    requires
        typed@.len() < usize::MAX,
        target@.len() < usize::MAX,
    ensures
        r@ == best_at(typed@, target@, typed@.len(), target@.len()),
{
    let table = Table::new(typed, target);
    let m = typed.len();
    let n = target.len();
    let mut rows: Vec<Vec<Best>> = Vec::new();
    let mut i: usize = 0;
    while i <= m
        invariant
            table_correct(table.distance@, typed@, target@),
            m == typed@.len(),
            n == target@.len(),
            m < usize::MAX,
            n < usize::MAX,
            i <= m + 1,
            rows@.len() == i,
            forall|r: int| 0 <= r < i ==> (#[trigger] rows@[r])@.len() == n + 1,
            forall|r: int, c: int| 0 <= r < i && 0 <= c <= n ==> (#[trigger] rows@[r]@[c])@ == best_at(typed@, target@, r as nat, c as nat),
        decreases m + 1 - i,
    {
        let mut row: Vec<Best> = Vec::new();
        let mut j: usize = 0;
        while j <= n
            invariant
                table_correct(table.distance@, typed@, target@),
                m == typed@.len(),
                n == target@.len(),
                m < usize::MAX,
                n < usize::MAX,
                i <= m,
                j <= n + 1,
                rows@.len() == i,
                row@.len() == j,
                forall|r: int| 0 <= r < i ==> (#[trigger] rows@[r])@.len() == n + 1,
            forall|r: int, c: int| 0 <= r < i && 0 <= c <= n ==> (#[trigger] rows@[r]@[c])@ == best_at(typed@, target@, r as nat, c as nat),
                forall|c: int| 0 <= c < j ==> (#[trigger] row@[c])@ == best_at(typed@, target@, i as nat, c as nat),
            decreases n + 1 - j,
        {
            let cell = if i == 0 && j == 0 {
                let mut alignments: Vec<Vec<Edit>> = Vec::new();
                alignments.push(Vec::new());
                let b = Best { key: Vec::new(), alignments };
                assert(b@.alignments =~= seq![Seq::<Edit>::empty()]);
                assert(b@.key =~= Seq::<usize>::empty());
                b
            } else {
                best_of_moves(&table, typed, target, &rows, &row, i, j)
            };
            row.push(cell);
            j += 1;
        }
        rows.push(row);
        i += 1;
    }
    let mut last_row = rows.pop().unwrap();
    let r = last_row.pop().unwrap();
    r
}

// --- Attribution ------------------------------------------------------------------

/// The first index from `from` on whose edit is `e`.
pub open spec fn find_edit(merged: Seq<(Edit, usize)>, e: Edit, from: int) -> Option<int>
    decreases merged.len() - from,
{
    if from < 0 || from >= merged.len() {
        None
    } else if merged[from].0 == e {
        Some(from)
    } else {
        find_edit(merged, e, from + 1)
    }
}

/// One more occurrence of an edit, counted on its first entry or a new one.
pub open spec fn count_edit(merged: Seq<(Edit, usize)>, e: Edit) -> Seq<(Edit, usize)> {
    match find_edit(merged, e, 0) {
        Some(k) => merged.update(
            k,
            (e, if merged[k].1 < usize::MAX { (merged[k].1 + 1) as usize } else { usize::MAX }),
        ),
        None => merged.push((e, 1usize)),
    }
}

/// The counts after the first `n` edits of an alignment.
pub open spec fn count_alignment(merged: Seq<(Edit, usize)>, alignment: Seq<Edit>, n: int) -> Seq<(Edit, usize)>
    decreases n,
{
    if n <= 0 {
        merged
    } else {
        count_edit(count_alignment(merged, alignment, n - 1), alignment[n - 1])
    }
}

/// How often each edit occurs over the first `n` alignments, in the order
/// edits were first met.
pub open spec fn count_alignments(alignments: Seq<Seq<Edit>>, n: int) -> Seq<(Edit, usize)>
    decreases n,
{
    if n <= 0 {
        seq![]
    } else {
        count_alignment(count_alignments(alignments, n - 1), alignments[n - 1], alignments[n - 1].len() as int)
    }
}

/// The first index from `from` on whose edit lies after `slot`, or the
/// length: where an edit at `slot` goes after every one not after it.
pub open spec fn slot_insertion_point(sorted: Seq<(Edit, usize)>, slot: usize, from: int) -> int
    decreases sorted.len() - from,
{
    if from < 0 || from >= sorted.len() {
        sorted.len() as int
    } else if edit_slot(sorted[from].0) > slot {
        from
    } else {
        slot_insertion_point(sorted, slot, from + 1)
    }
}

/// The first `n` entries ordered by slot, entries at the same slot kept in
/// their order.
pub open spec fn sort_by_slot(s: Seq<(Edit, usize)>, n: int) -> Seq<(Edit, usize)>
    decreases n,
{
    if n <= 0 {
        seq![]
    } else {
        let t = sort_by_slot(s, n - 1);
        t.insert(slot_insertion_point(t, edit_slot(s[n - 1].0), 0), s[n - 1])
    }
}

/// The errors in `typed` against `target`, each with the number of
/// preferred alignments it occurs in (an edit occurring twice in one
/// alignment counted twice), ordered by slot.
pub open spec fn attributed_edits(typed: Seq<char>, target: Seq<char>) -> Seq<(Edit, usize)> {
    let best = best_at(typed, target, typed.len(), target.len());
    let merged = count_alignments(best.alignments, best.alignments.len() as int);
    sort_by_slot(merged, merged.len() as int)
}

/// One more occurrence of an edit.
fn count_one(merged: &mut Vec<(Edit, usize)>, e: Edit)
    ensures
        final(merged)@ == count_edit(old(merged)@, e),
{
    let mut k: usize = 0;
    while k < merged.len()
        invariant
            k <= merged@.len(),
            merged@ == old(merged)@,
            find_edit(merged@, e, 0) == find_edit(merged@, e, k as int),
        decreases merged@.len() - k,
    {
        if merged[k].0 == e {
            let count = merged[k].1;
            let next = if count < usize::MAX { count + 1 } else { usize::MAX };
            merged.set(k, (e, next));
            return;
        }
        k += 1;
    }
    merged.push((e, 1));
}

/// Stable insertion by slot.
fn insert_by_slot(sorted: &mut Vec<(Edit, usize)>, x: (Edit, usize))
    ensures
        final(sorted)@ == old(sorted)@.insert(slot_insertion_point(old(sorted)@, edit_slot(x.0), 0), x),
{
    let slot = x.0.slot();
    let mut at: usize = 0;
    while at < sorted.len()
        invariant
            at <= sorted@.len(),
            sorted@ == old(sorted)@,
            slot_insertion_point(sorted@, slot, 0) == slot_insertion_point(sorted@, slot, at as int),
        ensures
            at <= sorted@.len(),
            sorted@ == old(sorted)@,
            slot_insertion_point(sorted@, slot, 0) == at,
        decreases sorted@.len() - at,
    {
        if sorted[at].0.slot() > slot {
            break;
        }
        at += 1;
    }
    sorted.insert(at, x);
}

/// The errors in `typed` against `target`, each with the number of the
/// preferred alignments it occurs in, ordered by slot, together with the
/// number of preferred alignments: an error's share of the blame is its
/// count over that number.
pub fn align(typed: &[char], target: &[char]) -> (r: (Vec<(Edit, usize)>, usize))
    requires
        typed@.len() < usize::MAX,
        target@.len() < usize::MAX,
    ensures
        r.0@ == attributed_edits(typed@, target@),
        r.1 == best_at(typed@, target@, typed@.len(), target@.len()).alignments.len(),
{
    let best = best_alignments(typed, target);
    let ghost alignments = best@.alignments;
    let mut merged: Vec<(Edit, usize)> = Vec::new();
    let mut a: usize = 0;
    while a < best.alignments.len()
        invariant
            alignments == best@.alignments,
            a <= alignments.len(),
            merged@ == count_alignments(alignments, a as int),
        decreases alignments.len() - a,
    {
        let alignment = &best.alignments[a];
        assert(alignment@ == alignments[a as int]);
        let mut k: usize = 0;
        let ghost before = merged@;
        while k < alignment.len()
            invariant
                k <= alignment@.len(),
                merged@ == count_alignment(before, alignment@, k as int),
            decreases alignment@.len() - k,
        {
            count_one(&mut merged, alignment[k]);
            k += 1;
        }
        a += 1;
    }
    let mut sorted: Vec<(Edit, usize)> = Vec::new();
    let mut k: usize = 0;
    while k < merged.len()
        invariant
            k <= merged@.len(),
            sorted@ == sort_by_slot(merged@, k as int),
        decreases merged@.len() - k,
    {
        insert_by_slot(&mut sorted, merged[k]);
        k += 1;
    }
    (sorted, best.alignments.len())
}


// --- An attempt typed exactly -----------------------------------------------------

/// A prefix of a text is no distance from itself.
proof fn lemma_osa_same(t: Seq<char>, i: nat)
    requires
        i <= t.len(),
    ensures
        osa(t, t, i, i) == 0,
    decreases i,
{
    if i > 0 {
        lemma_osa_same(t, (i - 1) as nat);
    }
}

/// Along the diagonal of a text against itself, the only optimal move is
/// the match back to the previous cell.
proof fn lemma_moves_same(t: Seq<char>, i: nat)
    requires
        0 < i <= t.len(),
        t.len() < usize::MAX,
    ensures
        moves_at(t, t, i, i) == seq![(None::<Edit>, ((i - 1) as usize, (i - 1) as usize))],
{
    lemma_osa_same(t, i);
    lemma_osa_same(t, (i - 1) as nat);
    assert(diagonal_move(t, t, i, i) == seq![(None::<Edit>, ((i - 1) as usize, (i - 1) as usize))]);
    assert(omission_move(t, t, i, i) == Seq::<Move>::empty());
    assert(insertion_move(t, t, i, i) == Seq::<Move>::empty());
    assert(transposition_move(t, t, i, i) == Seq::<Move>::empty());
    assert(moves_at(t, t, i, i) =~= seq![(None::<Edit>, ((i - 1) as usize, (i - 1) as usize))]);
}

/// A prefix of a text aligned with itself has one preferred alignment,
/// with no edit in it.
proof fn lemma_best_same(t: Seq<char>, i: nat)
    requires
        i <= t.len(),
        t.len() < usize::MAX,
    ensures
        best_at(t, t, i, i) == (BestView { key: seq![], alignments: seq![Seq::<Edit>::empty()] }),
    decreases i,
{
    if i > 0 {
        lemma_best_same(t, (i - 1) as nat);
        lemma_moves_same(t, i);
        let tail = best_at(t, t, (i - 1) as nat, (i - 1) as nat);
        let c = candidate(tail, None);
        assert(c.key =~= Seq::<usize>::empty());
        assert(c.alignments =~= seq![Seq::<Edit>::empty()]);
        let mv = moves_at(t, t, i, i)[0];
        assert(mv.1.0 as nat == i - 1 && mv.1.1 as nat == i - 1);
        assert(fold_moves(t, t, i, i, 0) is None);
        assert(fold_moves(t, t, i, i, 1) == Some(c));
    }
}

/// A first attempt typed exactly as its target is no distance from it and
/// has one preferred alignment, in which no error is attributed.
pub proof fn lemma_exact_attempt_has_no_errors(t: Seq<char>)
    requires
        t.len() < usize::MAX,
    ensures
        osa(t, t, t.len(), t.len()) == 0,
        best_at(t, t, t.len(), t.len()).alignments.len() == 1,
        attributed_edits(t, t) == Seq::<(Edit, usize)>::empty(),
{
    lemma_osa_same(t, t.len());
    lemma_best_same(t, t.len());
    let best = best_at(t, t, t.len(), t.len());
    assert(count_alignments(best.alignments, 0) == Seq::<(Edit, usize)>::empty());
    assert(count_alignments(best.alignments, 1) == Seq::<(Edit, usize)>::empty());
}

} // verus!
