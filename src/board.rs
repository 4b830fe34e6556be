use vstd::prelude::*;
use crate::board_iter::{board_iter, lemma_neighbors, neighbors};
use crate::square::{Contents, Square, SquareState};

verus! {

/// A cell that still hides its contents from the player.
pub open spec fn is_covered(sq: Square) -> bool {
    sq.state is Unguessed || sq.state is Flagged
}

/// The number of covered cells in `b`.
pub open spec fn covered(b: Seq<Square>) -> nat
    decreases b.len(),
{
    if b.len() == 0 {
        0
    } else {
        covered(b.drop_last()) + if is_covered(b.last()) { 1nat } else { 0nat }
    }
}

/// Changing one cell changes the number of covered cells by what that cell contributes.
pub(crate) proof fn lemma_covered_update(b: Seq<Square>, k: int, v: Square)
    requires
        0 <= k < b.len(),
    ensures
        covered(b.update(k, v)) + (if is_covered(b[k]) { 1int } else { 0int }) == covered(b) + (if is_covered(
            v,
        ) { 1int } else { 0int }),
    decreases b.len(),
{
    let c = b.update(k, v);
    if k < b.len() - 1 {
        lemma_covered_update(b.drop_last(), k, v);
        assert(c.drop_last() =~= b.drop_last().update(k, v));
    } else {
        assert(c.drop_last() =~= b.drop_last());
    }
}

/// The number of cells in `cells` that hold a mine, on a board of row-major `b` with rows of `width`.
pub open spec fn mines_among(b: Seq<Square>, width: int, cells: Seq<(int, int)>) -> nat
    decreases cells.len(),
{
    if cells.len() == 0 {
        0
    } else {
        mines_among(b, width, cells.drop_last()) + if b[cells.last().0 * width
            + cells.last().1].contents.is_mine() {
            1nat
        } else {
            0nat
        }
    }
}

/// What flagging does to a cell's state.
pub open spec fn toggled(s: SquareState) -> SquareState {
    match s {
        SquareState::Unguessed => SquareState::Flagged,
        SquareState::Flagged => SquareState::Unguessed,
        other => other,
    }
}

/// Two boards of one size with mines in the same places.
pub open spec fn mines_match(b1: Seq<Square>, b2: Seq<Square>) -> bool {
    &&& b1.len() == b2.len()
    &&& forall|k: int| 0 <= k < b1.len() ==> (#[trigger] b1[k]).contents.is_mine() == b2[k].contents.is_mine()
}

/// Two boards of one size with mines in the same places and the same counts
/// on the other cells.
pub open spec fn same_layout(b1: Seq<Square>, b2: Seq<Square>) -> bool {
    &&& mines_match(b1, b2)
    &&& forall|k: int|
        0 <= k < b1.len() && !(#[trigger] b2[k]).contents.is_mine() ==> b2[k].contents == b1[k].contents
}

/// Boards with mines in the same places count the same mines in any list of cells.
pub(crate) proof fn lemma_mines_among_same(b1: Seq<Square>, b2: Seq<Square>, width: int, cells: Seq<(int, int)>)
    requires
        mines_match(b1, b2),
        forall|t: int| 0 <= t < cells.len() ==> 0 <= #[trigger] cells[t].0 * width + cells[t].1 < b1.len(),
    ensures
        mines_among(b1, width, cells) == mines_among(b2, width, cells),
    decreases cells.len(),
{
    if cells.len() > 0 {
        let c = cells.drop_last();
        assert forall|t: int| 0 <= t < c.len() implies 0 <= #[trigger] c[t].0 * width + c[t].1 < b1.len() by {
            assert(c[t] == cells[t]);
        }
        lemma_mines_among_same(b1, b2, width, c);
        assert(cells.last() == cells[cells.len() - 1]);
    }
}

/// Every neighbor of an in-bounds cell lies at an index inside the board.
pub(crate) proof fn lemma_neighbor_indices(x: int, y: int, height: int, width: int)
    requires
        0 <= x < height,
        0 <= y < width,
    ensures
        forall|t: int|
            0 <= t < neighbors(x, y, height, width).len() ==> 0 <= #[trigger] neighbors(x, y, height, width)[t].0
                * width + neighbors(x, y, height, width)[t].1 < height * width,
{
    let nb = neighbors(x, y, height, width);
    lemma_neighbors(x, y, height, width);
    assert forall|t: int| 0 <= t < nb.len() implies 0 <= #[trigger] nb[t].0 * width + nb[t].1 < height * width by {
        assert(nb.contains(nb[t]));
        lemma_index(height, width, nb[t].0, nb[t].1);
    }
}



/// What the sweep after a loss makes of a cell's state: covered mines are shown,
/// flags on cells without a mine are marked wrong.
pub open spec fn swept_state(c: Contents, s: SquareState) -> SquareState {
    if c is Mine && s is Unguessed {
        SquareState::Guessed
    } else if !(c is Mine) && s is Flagged {
        SquareState::BadFlagged
    } else {
        s
    }
}

/// The number of cells in `cells` that carry a flag.
pub open spec fn flagged_among(b: Seq<Square>, width: int, cells: Seq<(int, int)>) -> nat
    decreases cells.len(),
{
    if cells.len() == 0 {
        0
    } else {
        flagged_among(b, width, cells.drop_last()) + if b[cells.last().0 * width
            + cells.last().1].state is Flagged {
            1nat
        } else {
            0nat
        }
    }
}

/// Appends the neighbors of `(x, y)` to `work`, in row-major order.
pub(crate) fn push_neighbors(work: &mut Vec<(usize, usize)>, x: usize, y: usize, height: usize, width: usize)
    requires
        x < height,
        y < width,
    ensures
        final(work)@.len() == old(work)@.len() + neighbors(x as int, y as int, height as int, width as int).len(),
        final(work)@.subrange(0, old(work)@.len() as int) == old(work)@,
        forall|t: int|
            old(work)@.len() <= t < final(work)@.len() ==> ((#[trigger] final(work)@[t]).0 as int,
            final(work)@[t].1 as int) == neighbors(x as int, y as int, height as int, width as int)[t
                - old(work)@.len()],
{
    let ghost nb = neighbors(x as int, y as int, height as int, width as int);
    let ghost n0 = work@.len();
    let mut it = board_iter(x, y, height, width);
    let ghost mut seen: Seq<(int, int)> = Seq::empty();
    loop
        invariant
            it.wf(),
            seen + it.rest() == nb,
            work@.len() == n0 + seen.len(),
            work@.subrange(0, n0 as int) == old(work)@,
            n0 == old(work)@.len(),
            forall|t: int|
                n0 <= t < work@.len() ==> ((#[trigger] work@[t]).0 as int, work@[t].1 as int) == seen[t - n0],
        ensures
            work@.len() == n0 + nb.len(),
            work@.subrange(0, n0 as int) == old(work)@,
            forall|t: int|
                n0 <= t < work@.len() ==> ((#[trigger] work@[t]).0 as int, work@[t].1 as int) == nb[t - n0],
        decreases it.rest().len(),
    {
        let ghost before = it.rest();
        match it.next() {
            Some(p) => {
                proof {
                    assert((seen + before)[seen.len() as int] == before[0]);
                    seen = seen.push((p.0 as int, p.1 as int));
                    assert(seen + it.rest() =~= nb);
                }
                work.push(p);
                assert(work@.subrange(0, n0 as int) =~= old(work)@);
            },
            None => {
                assert(seen =~= nb);
                break;
            },
        }
    }
}

/// Two cells with columns below `width` share an index only if they are the same cell.
pub(crate) proof fn lemma_index_inj(width: int, i: int, j: int, i2: int, j2: int)
    requires
        0 <= j < width,
        0 <= j2 < width,
        i * width + j == i2 * width + j2,
    ensures
        i == i2 && j == j2,
{
    assert((i - i2) * width == j2 - j) by (nonlinear_arith)
        requires
            i * width + j == i2 * width + j2,
    ;
    if i > i2 {
        assert((i - i2) * width >= width) by (nonlinear_arith)
            requires
                i - i2 >= 1,
                width > 0,
        ;
    } else if i < i2 {
        assert((i2 - i) * width >= width) by (nonlinear_arith)
            requires
                i2 - i >= 1,
                width > 0,
        ;
        assert((i - i2) * width == -((i2 - i) * width)) by (nonlinear_arith);
    }
}

/// A list of cells counts at most one mine per cell.
pub(crate) proof fn lemma_mines_among_bound(b: Seq<Square>, width: int, cells: Seq<(int, int)>)
    ensures
        mines_among(b, width, cells) <= cells.len(),
    decreases cells.len(),
{
    if cells.len() > 0 {
        lemma_mines_among_bound(b, width, cells.drop_last());
    }
}

/// On a board without mines every list of cells counts none.
pub(crate) proof fn lemma_mines_among_none(b: Seq<Square>, width: int, cells: Seq<(int, int)>)
    requires
        forall|k: int| 0 <= k < b.len() ==> !(#[trigger] b[k]).contents.is_mine(),
        forall|t: int| 0 <= t < cells.len() ==> 0 <= #[trigger] cells[t].0 * width + cells[t].1 < b.len(),
    ensures
        mines_among(b, width, cells) == 0,
    decreases cells.len(),
{
    if cells.len() > 0 {
        let c = cells.drop_last();
        assert forall|t: int| 0 <= t < c.len() implies 0 <= #[trigger] c[t].0 * width + c[t].1 < b.len() by {
            assert(c[t] == cells[t]);
        }
        lemma_mines_among_none(b, width, c);
        assert(cells.last() == cells[cells.len() - 1]);
    }
}

/// Laying one mine at `p` adds one to the count of every list of distinct
/// cells that holds `p`, and nothing to the others.
pub(crate) proof fn lemma_mines_among_add(b1: Seq<Square>, b2: Seq<Square>, width: int, cells: Seq<(int, int)>, p: (int, int))
    requires
        b1.len() == b2.len(),
        0 <= p.1 < width,
        0 <= p.0 * width + p.1 < b1.len(),
        !b1[p.0 * width + p.1].contents.is_mine(),
        b2[p.0 * width + p.1].contents.is_mine(),
        forall|k: int|
            0 <= k < b1.len() && k != p.0 * width + p.1 ==> (#[trigger] b1[k]).contents.is_mine()
                == b2[k].contents.is_mine(),
        cells.no_duplicates(),
        forall|t: int|
            0 <= t < cells.len() ==> 0 <= #[trigger] cells[t].0 * width + cells[t].1 < b1.len() && 0 <= cells[t].1 < width,
    ensures
        mines_among(b2, width, cells) == mines_among(b1, width, cells) + if cells.contains(p) { 1int } else { 0int },
    decreases cells.len(),
{
    if cells.len() > 0 {
        let c = cells.drop_last();
        let q = cells.last();
        assert(q == cells[cells.len() - 1]);
        assert forall|t: int| 0 <= t < c.len() implies 0 <= #[trigger] c[t].0 * width + c[t].1 < b1.len() && 0 <= c[t].1 < width by {
            assert(c[t] == cells[t]);
        }
        assert forall|s: int, t: int| 0 <= s < c.len() && 0 <= t < c.len() && s != t implies c[s] != c[t] by {
            assert(c[s] == cells[s] && c[t] == cells[t]);
        }
        lemma_mines_among_add(b1, b2, width, c, p);
        if q == p {
            if c.contains(p) {
                let u = choose|u: int| 0 <= u < c.len() && c[u] == p;
                assert(cells[u] == cells[cells.len() - 1]);
            }
        } else {
            if q.0 * width + q.1 == p.0 * width + p.1 {
                lemma_index_inj(width, q.0, q.1, p.0, p.1);
            }
            assert(cells.contains(p) == c.contains(p)) by {
                if cells.contains(p) {
                    let u = choose|u: int| 0 <= u < cells.len() && cells[u] == p;
                    assert(c[u] == p);
                }
                if c.contains(p) {
                    let u = choose|u: int| 0 <= u < c.len() && c[u] == p;
                    assert(cells[u] == p);
                }
            }
        }
    }
}

/// Cell `k` of a board with rows of `width` lies outside the 3x3 box around `(x, y)`.
pub open spec fn outside_box(width: int, k: int, x: int, y: int) -> bool {
    !(x - 1 <= k / width <= x + 1 && y - 1 <= k % width <= y + 1)
}

/// Boards whose cells have the same states have as many covered cells.
pub(crate) proof fn lemma_covered_same(b1: Seq<Square>, b2: Seq<Square>)
    requires
        b1.len() == b2.len(),
        forall|k: int| 0 <= k < b1.len() ==> (#[trigger] b1[k]).state == b2[k].state,
    ensures
        covered(b1) == covered(b2),
    decreases b1.len(),
{
    if b1.len() > 0 {
        lemma_covered_same(b1.drop_last(), b2.drop_last());
    }
}

/// The number of cells of `b` that hold a mine.
pub open spec fn mine_count(b: Seq<Square>) -> nat
    decreases b.len(),
{
    if b.len() == 0 {
        0
    } else {
        mine_count(b.drop_last()) + if b.last().contents.is_mine() { 1nat } else { 0nat }
    }
}

/// A board without mines counts none.
pub(crate) proof fn lemma_mine_count_none(b: Seq<Square>)
    requires
        forall|k: int| 0 <= k < b.len() ==> !(#[trigger] b[k]).contents.is_mine(),
    ensures
        mine_count(b) == 0,
    decreases b.len(),
{
    if b.len() > 0 {
        let c = b.drop_last();
        assert forall|k: int| 0 <= k < c.len() implies !(#[trigger] c[k]).contents.is_mine() by {
            assert(c[k] == b[k]);
        }
        lemma_mine_count_none(c);
    }
}

/// Boards with mines in the same places count the same number of mines; one
/// more mine at `c` counts one more.
pub(crate) proof fn lemma_mine_count_change(b1: Seq<Square>, b2: Seq<Square>, c: int)
    requires
        b1.len() == b2.len(),
        forall|k: int|
            0 <= k < b1.len() && k != c ==> (#[trigger] b1[k]).contents.is_mine() == b2[k].contents.is_mine(),
    ensures
        !(0 <= c < b1.len()) ==> mine_count(b2) == mine_count(b1),
        0 <= c < b1.len() && !b1[c].contents.is_mine() && b2[c].contents.is_mine() ==> mine_count(b2)
            == mine_count(b1) + 1,
    decreases b1.len(),
{
    if b1.len() > 0 {
        let n = b1.len() - 1;
        assert forall|k: int| 0 <= k < n && k != c implies (#[trigger] b1.drop_last()[k]).contents.is_mine()
            == b2.drop_last()[k].contents.is_mine() by {
            assert(b1.drop_last()[k] == b1[k] && b2.drop_last()[k] == b2[k]);
        }
        lemma_mine_count_change(b1.drop_last(), b2.drop_last(), c);
        if c != n {
            assert(b1.last().contents.is_mine() == b2.last().contents.is_mine());
        }
    }
}

/// No board has more covered cells than cells.
pub(crate) proof fn lemma_covered_bound(b: Seq<Square>)
    ensures
        covered(b) <= b.len(),
    decreases b.len(),
{
    if b.len() > 0 {
        lemma_covered_bound(b.drop_last());
    }
}

/// Cell `(i, j)` of a board with rows of `width` lies inside the board.
pub(crate) proof fn lemma_index(height: int, width: int, i: int, j: int)
    requires
        0 <= i < height,
        0 <= j < width,
    ensures
        0 <= i * width + j < height * width,
{
    assert(0 <= i * width) by (nonlinear_arith)
        requires
            0 <= i,
            0 < width,
    ;
    assert(i * width + j < height * width) by (nonlinear_arith)
        requires
            0 <= i < height,
            0 <= j < width,
    ;
}

/// A list of cells that counts no mine holds none.
pub(crate) proof fn lemma_mines_among_zero(b: Seq<Square>, width: int, cells: Seq<(int, int)>)
    requires
        mines_among(b, width, cells) == 0,
    ensures
        forall|t: int| 0 <= t < cells.len() ==> !b[#[trigger] cells[t].0 * width + cells[t].1].contents.is_mine(),
    decreases cells.len(),
{
    if cells.len() > 0 {
        let c = cells.drop_last();
        lemma_mines_among_zero(b, width, c);
        assert forall|t: int| 0 <= t < cells.len() implies !b[#[trigger] cells[t].0 * width + cells[t].1].contents.is_mine() by {
            if t < c.len() {
                assert(c[t] == cells[t]);
            }
        }
    }
}

/// A cell without a mine that the player has uncovered.
pub open spec fn is_found(sq: Square) -> bool {
    sq.state is Guessed && !sq.contents.is_mine()
}

/// The number of uncovered cells without a mine in `b`.
pub open spec fn found(b: Seq<Square>) -> nat
    decreases b.len(),
{
    if b.len() == 0 {
        0
    } else {
        found(b.drop_last()) + if is_found(b.last()) { 1nat } else { 0nat }
    }
}

/// Changing one cell changes the number of found cells by what that cell contributes.
pub(crate) proof fn lemma_found_update(b: Seq<Square>, k: int, v: Square)
    requires
        0 <= k < b.len(),
    ensures
        found(b.update(k, v)) + (if is_found(b[k]) { 1int } else { 0int }) == found(b) + (if is_found(v) {
            1int
        } else {
            0int
        }),
    decreases b.len(),
{
    let c = b.update(k, v);
    if k < b.len() - 1 {
        lemma_found_update(b.drop_last(), k, v);
        assert(c.drop_last() =~= b.drop_last().update(k, v));
    } else {
        assert(c.drop_last() =~= b.drop_last());
    }
}

/// Boards whose cells are found in the same places count as many found cells.
pub(crate) proof fn lemma_found_same(b1: Seq<Square>, b2: Seq<Square>)
    requires
        b1.len() == b2.len(),
        forall|k: int| 0 <= k < b1.len() ==> is_found(#[trigger] b1[k]) == is_found(b2[k]),
    ensures
        found(b1) == found(b2),
    decreases b1.len(),
{
    if b1.len() > 0 {
        let c1 = b1.drop_last();
        let c2 = b2.drop_last();
        assert forall|k: int| 0 <= k < c1.len() implies is_found(#[trigger] c1[k]) == is_found(c2[k]) by {
            assert(c1[k] == b1[k] && c2[k] == b2[k]);
        }
        lemma_found_same(c1, c2);
        assert(b1.last() == b1[b1.len() - 1]);
    }
}

/// Found cells and mines never outnumber the cells; when they fill the board,
/// every cell without a mine has been found.
pub(crate) proof fn lemma_found_full(b: Seq<Square>)
    ensures
        found(b) + mine_count(b) <= b.len(),
        found(b) + mine_count(b) == b.len() ==> forall|k: int|
            0 <= k < b.len() && !(#[trigger] b[k]).contents.is_mine() ==> b[k].state is Guessed,
    decreases b.len(),
{
    if b.len() > 0 {
        let c = b.drop_last();
        lemma_found_full(c);
        if found(b) + mine_count(b) == b.len() {
            assert forall|k: int| 0 <= k < b.len() && !(#[trigger] b[k]).contents.is_mine() implies b[k].state is Guessed by {
                if k < c.len() {
                    assert(c[k] == b[k]);
                }
            }
        }
    }
}

/// A board where nothing has been found counts no found cell.
pub(crate) proof fn lemma_found_none(b: Seq<Square>)
    requires
        forall|k: int| 0 <= k < b.len() ==> !is_found(#[trigger] b[k]),
    ensures
        found(b) == 0,
    decreases b.len(),
{
    if b.len() > 0 {
        let c = b.drop_last();
        assert forall|k: int| 0 <= k < c.len() implies !is_found(#[trigger] c[k]) by {
            assert(c[k] == b[k]);
        }
        lemma_found_none(c);
    }
}

} // verus!
