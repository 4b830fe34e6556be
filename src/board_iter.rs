use vstd::prelude::*;

verus! {

/// The first row (or column) of the 3x3 window around `v`, clipped at zero.
pub open spec fn window_lo(v: int) -> int {
    if v == 0 { 0 } else { v - 1 }
}

/// One past the last row (or column) of the 3x3 window around `v`, clipped at `bound`.
pub open spec fn window_hi(v: int, bound: int) -> int {
    if v + 2 < bound { v + 2 } else { bound }
}

/// The cells of the window of rows `..hi_x` and columns `lo_y..hi_y`, in
/// row-major order, from `(cx, cy)` on, leaving out the center `(x, y)`.
pub open spec fn scan(x: int, y: int, lo_y: int, hi_x: int, hi_y: int, cx: int, cy: int) -> Seq<(int, int)>
    decreases hi_x - cx, hi_y - cy,
{
    if cx >= hi_x {
        Seq::empty()
    } else if cy >= hi_y {
        scan(x, y, lo_y, hi_x, hi_y, cx + 1, lo_y)
    } else if cx == x && cy == y {
        scan(x, y, lo_y, hi_x, hi_y, cx, cy + 1)
    } else {
        seq![(cx, cy)] + scan(x, y, lo_y, hi_x, hi_y, cx, cy + 1)
    }
}

/// The neighbors of `(x, y)` on a `height` by `width` board, in row-major order.
pub open spec fn neighbors(x: int, y: int, height: int, width: int) -> Seq<(int, int)> {
    scan(x, y, window_lo(y), window_hi(x, height), window_hi(y, width), window_lo(x), window_lo(y))
}

/// `(i, j)` lies on the board and at Chebyshev distance one from `(x, y)`.
pub open spec fn is_neighbor(x: int, y: int, height: int, width: int, i: int, j: int) -> bool {
    &&& 0 <= i < height
    &&& 0 <= j < width
    &&& x - 1 <= i <= x + 1
    &&& y - 1 <= j <= y + 1
    &&& (i, j) != (x, y)
}

/// `a` comes no later than `b` in row-major order.
pub open spec fn lex_le(a: (int, int), b: (int, int)) -> bool {
    a.0 < b.0 || (a.0 == b.0 && a.1 <= b.1)
}

proof fn lemma_scan(x: int, y: int, lo_y: int, hi_x: int, hi_y: int, cx: int, cy: int)
    requires
        lo_y <= cy <= hi_y,
        hi_y - lo_y <= 3,
    ensures
        forall|p: (int, int)|
            #[trigger] scan(x, y, lo_y, hi_x, hi_y, cx, cy).contains(p) <==> (lex_le((cx, cy), p) && p.0 < hi_x
                && lo_y <= p.1 < hi_y && p != (x, y)),
        scan(x, y, lo_y, hi_x, hi_y, cx, cy).no_duplicates(),
        cx < hi_x ==> scan(x, y, lo_y, hi_x, hi_y, cx, cy).len() <= 3 * (hi_x - cx - 1) + (hi_y - cy),
    decreases hi_x - cx, hi_y - cy,
{
    let s = scan(x, y, lo_y, hi_x, hi_y, cx, cy);
    if cx >= hi_x {
    } else if cy >= hi_y {
        lemma_scan(x, y, lo_y, hi_x, hi_y, cx + 1, lo_y);
        let t = scan(x, y, lo_y, hi_x, hi_y, cx + 1, lo_y);
        assert(s == t);
        if cx + 1 >= hi_x {
            assert(t.len() == 0);
        }
        assert forall|p: (int, int)| s.contains(p) <==> (lex_le((cx, cy), p) && p.0 < hi_x
            && lo_y <= p.1 < hi_y && p != (x, y)) by {
            assert(s.contains(p) <==> t.contains(p));
        }
    } else if cx == x && cy == y {
        lemma_scan(x, y, lo_y, hi_x, hi_y, cx, cy + 1);
        let t = scan(x, y, lo_y, hi_x, hi_y, cx, cy + 1);
        assert(s == t);
        assert forall|p: (int, int)| s.contains(p) <==> (lex_le((cx, cy), p) && p.0 < hi_x
            && lo_y <= p.1 < hi_y && p != (x, y)) by {
            assert(s.contains(p) <==> t.contains(p));
        }
    } else {
        lemma_scan(x, y, lo_y, hi_x, hi_y, cx, cy + 1);
        let t = scan(x, y, lo_y, hi_x, hi_y, cx, cy + 1);
        assert(s == seq![(cx, cy)] + t);
        assert(s[0] == (cx, cy));
        assert(s.len() == t.len() + 1);
        assert forall|p: (int, int)| s.contains(p) implies (lex_le((cx, cy), p) && p.0 < hi_x
            && lo_y <= p.1 < hi_y && p != (x, y)) by {
            let k = choose|k: int| 0 <= k < s.len() && s[k] == p;
            if k > 0 {
                assert(t[k - 1] == p);
                assert(t.contains(p));
                assert(lex_le((cx, cy + 1), p));
                assert(p.0 < hi_x);
                assert(lo_y <= p.1 < hi_y);
                assert(p != (x, y));
                assert(lex_le((cx, cy), p));
            } else {
                assert(p == (cx, cy));
                assert(lex_le((cx, cy), p));
                assert(p != (x, y));
            }
        }
        assert forall|p: (int, int)| (lex_le((cx, cy), p) && p.0 < hi_x && lo_y <= p.1 < hi_y && p != (
        x, y)) implies s.contains(p) by {
            if p == (cx, cy) {
                assert(s[0] == p);
            } else {
                assert(lex_le((cx, cy + 1), p));
                assert(t.contains(p));
                let k = choose|k: int| 0 <= k < t.len() && t[k] == p;
                assert(s[k + 1] == p);
            }
        }
        assert forall|i: int, j: int| 0 <= i < s.len() && 0 <= j < s.len() && i != j implies s[i] != s[j] by {
            if i > 0 && j > 0 {
                assert(s[i] == t[i - 1] && s[j] == t[j - 1]);
            } else if i == 0 {
                assert(s[j] == t[j - 1]);
                assert(t.contains(s[j]));
            } else {
                assert(s[i] == t[i - 1]);
                assert(t.contains(s[i]));
            }
        }
    }
}

/// The cells at Chebyshev distance one from `(x, y)` that lie on the board.
pub open spec fn neighbor_set(x: int, y: int, height: int, width: int) -> Set<(int, int)> {
    Set::new(|p: (int, int)| is_neighbor(x, y, height, width, p.0, p.1))
}

/// The neighbor sequence holds exactly the in-bounds cells at Chebyshev
/// distance one, each once, never the center, and at most nine of them.
pub proof fn lemma_neighbors(x: int, y: int, height: int, width: int)
    requires
        0 <= x < height,
        0 <= y < width,
    ensures
        forall|p: (int, int)|
            #[trigger] neighbors(x, y, height, width).contains(p) <==> is_neighbor(x, y, height, width, p.0, p.1),
        !neighbors(x, y, height, width).contains((x, y)),
        neighbors(x, y, height, width).no_duplicates(),
        neighbors(x, y, height, width).len() == neighbor_set(x, y, height, width).len(),
        neighbors(x, y, height, width).len() <= 9,
{
    let s = neighbors(x, y, height, width);
    lemma_scan(x, y, window_lo(y), window_hi(x, height), window_hi(y, width), window_lo(x), window_lo(y));
    s.unique_seq_to_set();
    assert(s.to_set() =~= neighbor_set(x, y, height, width));
}

/// Walks the neighbors of a cell in row-major order.
pub struct BoardIter {
    x: usize,
    y: usize,
    min_y: usize,
    max_x: usize,
    max_y: usize,
    cur_x: usize,
    cur_y: usize,
}

impl BoardIter {
    /// The cursor lies inside the clipped window, off the center, or one row past it.
    pub closed spec fn wf(self) -> bool {
        &&& self.min_y <= self.y < self.max_y
        &&& self.x < self.max_x
        &&& self.max_y - self.min_y <= 3
        &&& self.min_y <= self.cur_y < self.max_y
        &&& self.cur_x <= self.max_x
        &&& (self.cur_x, self.cur_y) != (self.x, self.y)
    }

    /// The neighbors that are still to come.
    pub closed spec fn rest(self) -> Seq<(int, int)> {
        scan(
            self.x as int,
            self.y as int,
            self.min_y as int,
            self.max_x as int,
            self.max_y as int,
            self.cur_x as int,
            self.cur_y as int,
        )
    }

    fn advance(&mut self)
        requires
            old(self).min_y <= old(self).cur_y < old(self).max_y,
            old(self).cur_x < old(self).max_x,
            old(self).min_y <= old(self).y < old(self).max_y,
            old(self).x < old(self).max_x,
            old(self).max_y - old(self).min_y <= 3,
        ensures
            final(self).wf(),
            (final(self).x, final(self).y, final(self).min_y, final(self).max_x, final(self).max_y) == (
            old(self).x, old(self).y, old(self).min_y, old(self).max_x, old(self).max_y),
            final(self).rest() == scan(
                old(self).x as int,
                old(self).y as int,
                old(self).min_y as int,
                old(self).max_x as int,
                old(self).max_y as int,
                old(self).cur_x as int,
                old(self).cur_y as int + 1,
            ),
    {
        let ghost s0 = scan(
            self.x as int,
            self.y as int,
            self.min_y as int,
            self.max_x as int,
            self.max_y as int,
            self.cur_x as int,
            self.cur_y as int + 1,
        );
        self.cur_y = self.cur_y + 1;
        if self.cur_y >= self.max_y {
            self.cur_y = self.min_y;
            self.cur_x = self.cur_x + 1;
        }
        assert(self.rest() == s0);
        if self.cur_x == self.x && self.cur_y == self.y {
            let ghost s1 = scan(
                self.x as int,
                self.y as int,
                self.min_y as int,
                self.max_x as int,
                self.max_y as int,
                self.cur_x as int,
                self.cur_y as int + 1,
            );
            assert(s0 == s1);
            self.cur_y = self.cur_y + 1;
            if self.cur_y >= self.max_y {
                self.cur_y = self.min_y;
                self.cur_x = self.cur_x + 1;
            }
            assert(self.rest() == s1);
        }
    }

    /// Hands out the next neighbor, or `None` once all have been handed out.
    pub fn next(&mut self) -> (r: Option<(usize, usize)>)
        requires
            old(self).wf(),
        ensures
            final(self).wf(),
            old(self).rest().len() == 0 ==> r is None && final(self).rest() == old(self).rest(),
            old(self).rest().len() > 0 ==> r is Some && ((r->0).0 as int, (r->0).1 as int) == old(self).rest()[0]
                && final(self).rest() == old(self).rest().drop_first(),
    {
        if self.cur_x == self.max_x {
            None
        } else {
            let res = (self.cur_x, self.cur_y);
            self.advance();
            assert(old(self).rest() == seq![(res.0 as int, res.1 as int)] + self.rest());
            assert(old(self).rest().drop_first() =~= self.rest());
            Some(res)
        }
    }
}

/// An iterator over the neighbors of `(x, y)` on a `height` by `width` board.
pub fn board_iter(x: usize, y: usize, height: usize, width: usize) -> (r: BoardIter)
    requires
        x < height,
        y < width,
    ensures
        r.wf(),
        r.rest() == neighbors(x as int, y as int, height as int, width as int),
{
    let min_x: usize = if x == 0 { 0 } else { x - 1 };
    let min_y: usize = if y == 0 { 0 } else { y - 1 };
    let max_x: usize = if x + 1 < height { x + 2 } else { height };
    let max_y: usize = if y + 1 < width { y + 2 } else { width };
    let mut it = BoardIter {
        x: x,
        y: y,
        min_y: min_y,
        max_x: max_x,
        max_y: max_y,
        cur_x: min_x,
        cur_y: min_y,
    };
    if min_x == x && min_y == y {
        it.advance();
    }
    it
}

} // verus!
