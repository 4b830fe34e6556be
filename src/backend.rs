use vstd::prelude::*;
use crate::board_iter::{board_iter, lemma_neighbors, neighbors, is_neighbor};
use crate::board::{
    covered, flagged_among, lemma_covered_bound, lemma_covered_same, lemma_covered_update, lemma_index,
    lemma_index_inj, lemma_mine_count_change, lemma_mine_count_none, lemma_mines_among_add,
    lemma_mines_among_bound, lemma_mines_among_none, lemma_mines_among_same, lemma_neighbor_indices,
    lemma_mines_among_zero, mine_count, found, is_found, lemma_found_update, lemma_found_same, lemma_found_full, lemma_found_none, mines_among, mines_match, outside_box, push_neighbors, same_layout, swept_state, toggled,
    is_covered,
};
use crate::square::{Contents, Square, SquareState};

verus! {

/// Where the game stands.
#[derive(Clone, Copy, Debug, PartialEq, Eq, Structural)]
pub enum GameState {
    Won,
    Lost,
    InProg,
}

/// What a player may see of a cell.
#[derive(Clone, Copy, Debug, PartialEq, Eq, Structural)]
pub enum PubSquareContents {
    Mine,
    Unguessed,
    Flagged,
    BadFlagged,
    Empty(u8),
}

/// The part of a cell that a player may see.
pub open spec fn public_view(sq: Square) -> PubSquareContents {
    match sq.state {
        SquareState::Unguessed => PubSquareContents::Unguessed,
        SquareState::Flagged => PubSquareContents::Flagged,
        SquareState::BadFlagged => PubSquareContents::BadFlagged,
        SquareState::Guessed => match sq.contents {
            Contents::Mine => PubSquareContents::Mine,
            Contents::LosingMine => PubSquareContents::Mine,
            Contents::Empty(n) => PubSquareContents::Empty(n),
        },
    }
}

/// A minesweeper game on a board of `height` rows and `width` columns.
#[derive(Debug)]
pub struct Game {
    board: Vec<Square>,
    height: usize,
    width: usize,
    mines: usize,
    num_guessed: usize,
    generated: bool,
    state: GameState,
}

impl Game {
    /// The cells, row by row.
    pub closed spec fn squares(self) -> Seq<Square> {
        self.board@
    }

    /// The number of rows.
    pub closed spec fn height(self) -> int {
        self.height as int
    }

    /// The number of columns.
    pub closed spec fn width(self) -> int {
        self.width as int
    }

    /// The number of mines to lay.
    pub closed spec fn mines(self) -> int {
        self.mines as int
    }

    /// The number of cells without a mine that the player has uncovered.
    pub closed spec fn num_guessed(self) -> int {
        self.num_guessed as int
    }

    /// Whether the mines have been laid.
    pub closed spec fn generated(self) -> bool {
        self.generated
    }

    /// Where the game stands.
    pub closed spec fn game_state(self) -> GameState {
        self.state
    }

    /// Where cell `(i, j)` stands in `squares()`.
    pub open spec fn index(self, i: int, j: int) -> int {
        i * self.width() + j
    }

    /// Cell `(i, j)`.
    pub open spec fn cell(self, i: int, j: int) -> Square {
        self.squares()[self.index(i, j)]
    }

    /// `(i, j)` lies on the board.
    pub open spec fn in_bounds(self, i: int, j: int) -> bool {
        0 <= i < self.height() && 0 <= j < self.width()
    }

    /// The number of mines among the neighbors of `(i, j)`.
    pub open spec fn neighbor_mines(self, i: int, j: int) -> nat {
        mines_among(self.squares(), self.width(), neighbors(i, j, self.height(), self.width()))
    }

    /// Every cell that holds no mine records how many of its neighbors do.
    pub open spec fn counts_consistent(self) -> bool {
        forall|i: int, j: int|
            self.in_bounds(i, j) && !(#[trigger] self.cell(i, j)).contents.is_mine()
                ==> self.cell(i, j).contents == Contents::Empty(self.neighbor_mines(i, j) as u8)
    }

    /// The board has its size; before the mines are laid every cell is covered
    /// and counts zero, after it every count is right; the cells found and the
    /// cells still covered fit on the board; while the game goes on no mine is
    /// uncovered.
    pub closed spec fn wf(self) -> bool {
        &&& 0 < self.height
        &&& 0 < self.width
        &&& self.height * self.width <= usize::MAX
        &&& self.board@.len() == self.height * self.width
        &&& self.mines < self.board@.len()
        &&& self.num_guessed + covered(self.board@) <= self.board@.len()
        &&& self.num_guessed == found(self.board@)
        &&& !(self.state is Lost) ==> (self.state is Won <==> self.num_guessed + self.mines == self.board@.len())
        &&& self.generated ==> mine_count(self.board@) == self.mines
        &&& !self.generated ==> {
            &&& self.state == GameState::InProg
            &&& forall|k: int| 0 <= k < self.board@.len()
                ==> (#[trigger] self.board@[k]).contents == Contents::Empty(0) && is_covered(self.board@[k])
        }
        &&& self.generated ==> self.counts_consistent()
        &&& self.state is InProg ==> forall|k: int|
            0 <= k < self.board@.len() ==> !((#[trigger] self.board@[k]).contents is LosingMine)
                && !(self.board@[k].state is Guessed && self.board@[k].contents.is_mine())
    }

    /// A board of `height` by `width` covered cells, with `num_mines` mines to
    /// be laid at the first guess.
    pub fn new(height: usize, width: usize, num_mines: usize) -> (g: Game)
        requires
            0 < height,
            0 < width,
            height * width <= usize::MAX,
            num_mines < height * width,
        ensures
            g.wf(),
            g.height() == height,
            g.width() == width,
            g.mines() == num_mines,
            g.num_guessed() == 0,
            !g.generated(),
            g.game_state() == GameState::InProg,
            g.squares().len() == height * width,
            forall|k: int|
                0 <= k < height * width ==> #[trigger] g.squares()[k] == (Square {
                    contents: Contents::Empty(0),
                    state: SquareState::Unguessed,
                }),
    {
        let n: usize = height * width;
        let mut b: Vec<Square> = Vec::new();
        let mut k: usize = 0;
        while k < n
            invariant
                k <= n,
                b@.len() == k,
                forall|t: int|
                    0 <= t < k ==> #[trigger] b@[t] == (Square {
                        contents: Contents::Empty(0),
                        state: SquareState::Unguessed,
                    }),
            decreases n - k,
        {
            b.push(Square { contents: Contents::Empty(0), state: SquareState::Unguessed });
            k = k + 1;
        }
        proof {
            lemma_covered_bound(b@);
            lemma_found_none(b@);
        }
        Game {
            board: b,
            height: height,
            width: width,
            mines: num_mines,
            num_guessed: 0,
            generated: false,
            state: GameState::InProg,
        }
    }

    proof fn lemma_consistent_kept(g1: Game, g2: Game)
        requires
            g1.height == g2.height,
            g1.width == g2.width,
            g1.board@.len() == g1.height * g1.width,
            g1.counts_consistent(),
            mines_match(g1.board@, g2.board@),
            forall|k: int|
                0 <= k < g2.board@.len() && !(#[trigger] g2.board@[k]).contents.is_mine() ==> g2.board@[k].contents
                    == g1.board@[k].contents,
        ensures
            g2.counts_consistent(),
    {
        assert forall|i: int, j: int|
            g2.in_bounds(i, j) && !(#[trigger] g2.cell(i, j)).contents.is_mine() implies g2.cell(i, j).contents
                == Contents::Empty(g2.neighbor_mines(i, j) as u8) by {
            lemma_index(g1.height as int, g1.width as int, i, j);
            lemma_neighbor_indices(i, j, g1.height as int, g1.width as int);
            lemma_mines_among_same(
                g1.board@,
                g2.board@,
                g1.width as int,
                neighbors(i, j, g1.height as int, g1.width as int),
            );
            assert(g1.cell(i, j).contents.is_mine() == g2.cell(i, j).contents.is_mine());
        }
    }

    /// Every neighbor of a cell that counts no mine around it is free of mines.
    proof fn lemma_zero_safe_neighbors(self, i: int, j: int)
        requires
            self.wf(),
            self.generated,
            self.in_bounds(i, j),
            self.cell(i, j).contents == Contents::Empty(0),
        ensures
            forall|a: int, b: int|
                is_neighbor(i, j, self.height as int, self.width as int, a, b) ==> !(#[trigger] self.cell(
                    a,
                    b,
                )).contents.is_mine(),
    {
        let h = self.height as int;
        let w = self.width as int;
        let nb = neighbors(i, j, h, w);
        lemma_neighbors(i, j, h, w);
        lemma_mines_among_bound(self.board@, w, nb);
        assert(self.neighbor_mines(i, j) == 0);
        lemma_mines_among_zero(self.board@, w, nb);
        assert forall|a: int, b: int| is_neighbor(i, j, h, w, a, b) implies !(#[trigger] self.cell(a, b)).contents.is_mine() by {
            assert(nb.contains((a, b)));
            let t = choose|t: int| 0 <= t < nb.len() && nb[t] == (a, b);
            assert(nb[t].0 * w + nb[t].1 == a * w + b);
        }
    }

    /// What the player sees of cell `(x, y)`.
    pub fn get(&self, x: usize, y: usize) -> (r: PubSquareContents)
        requires
            self.wf(),
            self.in_bounds(x as int, y as int),
        ensures
            r == public_view(self.cell(x as int, y as int)),
    {
        proof {
            lemma_index(self.height as int, self.width as int, x as int, y as int);
        }
        let sq = self.board[x * self.width + y];
        match sq.state {
            SquareState::Unguessed => PubSquareContents::Unguessed,
            SquareState::Flagged => PubSquareContents::Flagged,
            SquareState::BadFlagged => PubSquareContents::BadFlagged,
            SquareState::Guessed => match sq.contents {
                Contents::Mine => PubSquareContents::Mine,
                Contents::LosingMine => PubSquareContents::Mine,
                Contents::Empty(i) => PubSquareContents::Empty(i),
            },
        }
    }

    /// Puts a flag on a covered cell, or takes it off again; other cells are left alone.
    pub fn toggle_flag(&mut self, x: usize, y: usize)
        requires
            old(self).wf(),
            old(self).in_bounds(x as int, y as int),
        ensures
            final(self).wf(),
            final(self).height() == old(self).height(),
            final(self).width() == old(self).width(),
            final(self).mines() == old(self).mines(),
            final(self).num_guessed() == old(self).num_guessed(),
            final(self).generated() == old(self).generated(),
            final(self).game_state() == old(self).game_state(),
            final(self).squares() == old(self).squares().update(
                old(self).index(x as int, y as int),
                Square {
                    contents: old(self).cell(x as int, y as int).contents,
                    state: toggled(old(self).cell(x as int, y as int).state),
                },
            ),
    {
        proof {
            lemma_index(self.height as int, self.width as int, x as int, y as int);
        }
        let k = x * self.width + y;
        let sq = self.board[k];
        let st = match sq.state {
            SquareState::Unguessed => SquareState::Flagged,
            SquareState::Flagged => SquareState::Unguessed,
            SquareState::BadFlagged => SquareState::BadFlagged,
            SquareState::Guessed => SquareState::Guessed,
        };
        let ghost g0 = *self;
        self.board.set(k, Square { contents: sq.contents, state: st });
        proof {
            lemma_covered_update(g0.board@, k as int, self.board@[k as int]);
            lemma_found_update(g0.board@, k as int, self.board@[k as int]);
            lemma_mine_count_change(g0.board@, self.board@, -1);
            if g0.generated {
                Self::lemma_consistent_kept(g0, *self);
            }
        }
    }

    /// Uncovers the covered, unflagged cell `(x, y)`. A mine loses the game
    /// and shows the board; anything else counts as one more cell found and
    /// may win it. Returns whether the cell has no mine around it.
    fn reveal_one(&mut self, x: usize, y: usize) -> (zero: bool)
        requires
            old(self).wf(),
            old(self).generated,
            old(self).state is InProg,
            old(self).in_bounds(x as int, y as int),
            old(self).cell(x as int, y as int).state is Unguessed,
        ensures
            final(self).wf(),
            final(self).generated,
            final(self).height == old(self).height,
            final(self).width == old(self).width,
            final(self).mines == old(self).mines,
            same_layout(old(self).board@, final(self).board@),
            covered(final(self).board@) < covered(old(self).board@),
            final(self).board@[old(self).index(x as int, y as int)].state is Guessed,
            forall|t: int|
                0 <= t < old(self).board@.len() ==> {
                    &&& (#[trigger] old(self).board@[t]).state is Guessed ==> final(self).board@[t].state is Guessed
                    &&& old(self).board@[t].state is Flagged ==> final(self).board@[t].state is Flagged
                        || final(self).state is Lost
                    &&& old(self).board@[t].state is Unguessed ==> final(self).board@[t].state is Unguessed
                        || final(self).board@[t].state is Guessed || !(final(self).state is InProg)
                },
            ({
                let k = old(self).index(x as int, y as int);
                let c = old(self).board@[k].contents;
                if c is Mine {
                    &&& final(self).state == GameState::Lost
                    &&& final(self).num_guessed == old(self).num_guessed
                    &&& !zero
                    &&& final(self).board@[k] == (Square { contents: Contents::LosingMine, state: SquareState::Guessed })
                    &&& forall|t: int|
                        0 <= t < final(self).board@.len() && t != k ==> #[trigger] final(self).board@[t] == (Square {
                            contents: old(self).board@[t].contents,
                            state: swept_state(old(self).board@[t].contents, old(self).board@[t].state),
                        })
                } else {
                    &&& final(self).num_guessed == old(self).num_guessed + 1
                    &&& final(self).board@ == old(self).board@.update(
                        k,
                        Square { contents: c, state: SquareState::Guessed },
                    )
                    &&& zero == (c == Contents::Empty(0))
                    &&& final(self).state == if final(self).num_guessed + final(self).mines
                        == final(self).board@.len() {
                        GameState::Won
                    } else {
                        GameState::InProg
                    }
                }
            }),
    {
        proof {
            lemma_index(self.height as int, self.width as int, x as int, y as int);
        }
        let ghost g0 = *self;
        let k = x * self.width + y;
        let c = self.board[k].contents;
        match c {
            Contents::Mine => {
                self.state = GameState::Lost;
                self.board.set(k, Square { contents: Contents::LosingMine, state: SquareState::Guessed });
                proof {
                    lemma_covered_update(g0.board@, k as int, self.board@[k as int]);
                    lemma_found_update(g0.board@, k as int, self.board@[k as int]);
                }
                let ghost mid = self.board@;
                let n = self.board.len();
                let mut t: usize = 0;
                while t < n
                    invariant
                        self.board@.len() == n,
                        n == mid.len(),
                        t <= n,
                        self.height == g0.height,
                        self.width == g0.width,
                        self.mines == g0.mines,
                        self.num_guessed == g0.num_guessed,
                        self.generated == g0.generated,
                        self.state == GameState::Lost,
                        g0.wf(),
                        g0.generated,
                        forall|u: int|
                            0 <= u < t ==> #[trigger] self.board@[u] == (Square {
                                contents: mid[u].contents,
                                state: swept_state(mid[u].contents, mid[u].state),
                            }),
                        forall|u: int| t <= u < n ==> #[trigger] self.board@[u] == mid[u],
                        covered(self.board@) <= covered(mid),
                        found(self.board@) == found(mid),
                        found(mid) == g0.num_guessed,
                    decreases n - t,
                {
                    let sq = self.board[t];
                    let ns = match sq.contents {
                        Contents::Mine => match sq.state {
                            SquareState::Unguessed => SquareState::Guessed,
                            other => other,
                        },
                        _ => match sq.state {
                            SquareState::Flagged => SquareState::BadFlagged,
                            other => other,
                        },
                    };
                    proof {
                        lemma_covered_update(self.board@, t as int, Square { contents: sq.contents, state: ns });
                        lemma_found_update(self.board@, t as int, Square { contents: sq.contents, state: ns });
                    }
                    self.board.set(t, Square { contents: sq.contents, state: ns });
                    t = t + 1;
                }
                proof {
                    assert forall|u: int| 0 <= u < n implies {
                        &&& (#[trigger] self.board@[u]).contents.is_mine() == g0.board@[u].contents.is_mine()
                        &&& !self.board@[u].contents.is_mine() ==> self.board@[u].contents == g0.board@[u].contents
                    } by {
                        assert(self.board@[u] == (Square {
                            contents: mid[u].contents,
                            state: swept_state(mid[u].contents, mid[u].state),
                        }));
                        if u != k {
                            assert(mid[u] == g0.board@[u]);
                        }
                    }
                    assert(covered(self.board@) < covered(g0.board@));
                    lemma_mine_count_change(g0.board@, self.board@, -1);
                    Self::lemma_consistent_kept(g0, *self);
                }
                false
            },
            _ => {
                self.board.set(k, Square { contents: c, state: SquareState::Guessed });
                proof {
                    lemma_covered_update(g0.board@, k as int, self.board@[k as int]);
                    lemma_found_update(g0.board@, k as int, self.board@[k as int]);
                }
                self.num_guessed = self.num_guessed + 1;
                if self.num_guessed == self.board.len() - self.mines {
                    self.state = GameState::Won;
                }
                proof {
                    assert(!(g0.board@[k as int].contents is LosingMine));
                    assert forall|u: int| 0 <= u < self.board@.len() implies !((
                    #[trigger] self.board@[u]).contents is LosingMine) by {
                        assert(!(g0.board@[u].contents is LosingMine));
                    }
                    Self::lemma_consistent_kept(g0, *self);
                    lemma_mine_count_change(g0.board@, self.board@, -1);
                }
                match c {
                    Contents::Empty(n) => n == 0,
                    _ => false,
                }
            },
        }
    }

    /// Uncovers every covered, unflagged cell of `work`, and, from each one
    /// with no mine around it, its neighbors in turn, until the work runs out
    /// or the game ends.
    fn flood(&mut self, work: Vec<(usize, usize)>)
        requires
            old(self).wf(),
            old(self).generated,
            forall|t: int| 0 <= t < work@.len() ==> old(self).in_bounds(#[trigger] work@[t].0 as int, work@[t].1 as int),
            forall|t: int|
                0 <= t < work@.len() && (#[trigger] old(self).cell(work@[t].0 as int, work@[t].1 as int)).state is Unguessed
                    ==> !old(self).cell(work@[t].0 as int, work@[t].1 as int).contents.is_mine(),
        ensures
            final(self).wf(),
            final(self).generated,
            final(self).height == old(self).height,
            final(self).width == old(self).width,
            final(self).mines == old(self).mines,
            final(self).num_guessed >= old(self).num_guessed,
            same_layout(old(self).board@, final(self).board@),
            !(old(self).state is InProg) ==> *final(self) == *old(self),
            !(old(self).state is Lost) ==> !(final(self).state is Lost),
            forall|k: int|
                0 <= k < old(self).board@.len() ==> (#[trigger] final(self).board@[k]).contents == old(self).board@[k].contents
                    && (final(self).board@[k].state == old(self).board@[k].state || (old(self).board@[k].state is Unguessed
                    && final(self).board@[k].state is Guessed)),
            forall|t: int|
                0 <= t < work@.len() && (#[trigger] old(self).cell(work@[t].0 as int, work@[t].1 as int)).state is Unguessed
                    ==> final(self).cell(work@[t].0 as int, work@[t].1 as int).state is Guessed || !(final(self).state is InProg),
            final(self).state is InProg ==> forall|a: int, b: int|
                final(self).in_bounds(a, b) && #[trigger] final(self).newly_found(*old(self), a, b)
                    && final(self).cell(a, b).contents == Contents::Empty(0)
                    ==> final(self).spread_from(*old(self), Seq::empty(), a, b),
            forall|i: int, j: int|
                final(self).in_bounds(i, j) && #[trigger] final(self).newly_found(*old(self), i, j) ==> final(
                self).reached(*old(self), work@, i, j),
    {
        if self.state != GameState::InProg {
            return;
        }
        let ghost g0 = *self;
        let ghost w0 = work@;
        let mut work = work;
        while work.len() > 0 && self.state == GameState::InProg
            invariant
                self.wf(),
                self.generated,
                self.height == g0.height,
                self.width == g0.width,
                self.mines == g0.mines,
                self.num_guessed >= g0.num_guessed,
                g0.wf(),
                g0.state is InProg,
                !(self.state is Lost),
                same_layout(g0.board@, self.board@),
                self.board@.len() == g0.board@.len(),
                forall|k: int|
                    0 <= k < g0.board@.len() ==> (#[trigger] self.board@[k]).contents == g0.board@[k].contents && (
                    self.board@[k].state == g0.board@[k].state || (g0.board@[k].state is Unguessed
                        && self.board@[k].state is Guessed)),
                forall|t: int| 0 <= t < work@.len() ==> self.in_bounds(#[trigger] work@[t].0 as int, work@[t].1 as int),
                forall|t: int| 0 <= t < w0.len() ==> g0.in_bounds(#[trigger] w0[t].0 as int, w0[t].1 as int),
                forall|t: int|
                    0 <= t < work@.len() && (#[trigger] g0.cell(work@[t].0 as int, work@[t].1 as int)).state is Unguessed
                        ==> !g0.cell(work@[t].0 as int, work@[t].1 as int).contents.is_mine(),
                forall|t: int|
                    0 <= t < w0.len() && (#[trigger] g0.cell(w0[t].0 as int, w0[t].1 as int)).state is Unguessed
                        ==> self.cell(w0[t].0 as int, w0[t].1 as int).state is Guessed || !(self.state is InProg)
                        || work@.contains(w0[t]),
                self.state is InProg ==> forall|a: int, b: int|
                    self.in_bounds(a, b) && #[trigger] self.newly_found(g0, a, b) && self.cell(a, b).contents
                        == Contents::Empty(0) ==> self.spread_from(g0, work@, a, b),
                forall|t: int|
                    0 <= t < work@.len() ==> self.reached(g0, w0, (#[trigger] work@[t]).0 as int, work@[t].1 as int),
                forall|i: int, j: int|
                    self.in_bounds(i, j) && #[trigger] self.newly_found(g0, i, j) ==> self.reached(g0, w0, i, j),
            decreases covered(self.board@), work@.len(),
        {
            let ghost wprev = work@;
            let ghost gs = *self;
            let p = work.pop().unwrap();
            let i = p.0;
            let j = p.1;
            proof {
                lemma_index(self.height as int, self.width as int, i as int, j as int);
                assert(p == wprev[wprev.len() - 1]);
                assert forall|t: int| 0 <= t < work@.len() implies self.in_bounds(#[trigger] work@[t].0 as int, work@[t].1 as int) by {
                    assert(work@[t] == wprev[t]);
                }
            }
            let k = i * self.width + j;
            proof {
                assert forall|t: int| 0 <= t < work@.len() implies work@[t] == wprev[t] by {}
                assert(g0.cell(wprev[wprev.len() - 1].0 as int, wprev[wprev.len() - 1].1 as int) == g0.board@[k as int]);
                assert(self.board@[k as int].contents == g0.board@[k as int].contents);
            }
            if self.board[k].state == SquareState::Unguessed {
                proof {
                    assert(!self.board@[k as int].contents.is_mine());
                }
                let zero = self.reveal_one(i, j);
                if zero && self.state == GameState::InProg {
                    let ghost wmid = work@;
                    push_neighbors(&mut work, i, j, self.height, self.width);
                    proof {
                        self.lemma_zero_safe_neighbors(i as int, j as int);
                        let nb = neighbors(i as int, j as int, self.height as int, self.width as int);
                        lemma_neighbors(i as int, j as int, self.height as int, self.width as int);
                        assert forall|t: int| 0 <= t < work@.len() && (#[trigger] g0.cell(
                            work@[t].0 as int,
                            work@[t].1 as int,
                        )).state is Unguessed implies !g0.cell(work@[t].0 as int, work@[t].1 as int).contents.is_mine() by {
                            if t < wmid.len() {
                                assert(work@.subrange(0, wmid.len() as int)[t] == work@[t]);
                                assert(work@[t] == wprev[t]);
                            } else {
                                let q = nb[t - wmid.len()];
                                assert(nb.contains(q));
                                assert(!self.cell(q.0, q.1).contents.is_mine());
                                lemma_index(self.height as int, self.width as int, q.0, q.1);
                                assert(self.board@[q.0 * self.width + q.1].contents == g0.board@[q.0 * self.width
                                    + q.1].contents);
                            }
                        }
                        assert forall|t: int| 0 <= t < work@.len() implies self.in_bounds(#[trigger] work@[t].0 as int, work@[t].1 as int) by {
                            if t < wmid.len() {
                                assert(work@.subrange(0, wmid.len() as int)[t] == work@[t]);
                            } else {
                                assert(nb.contains(nb[t - wmid.len()]));
                            }
                        }
                        assert forall|q: (usize, usize)| wmid.contains(q) implies work@.contains(q) by {
                            let u = choose|u: int| 0 <= u < wmid.len() && wmid[u] == q;
                            assert(work@.subrange(0, wmid.len() as int)[u] == work@[u]);
                        }
                        assert forall|u: int| 0 <= u < wmid.len() implies work@[u] == wprev[u] by {
                            assert(work@.subrange(0, wmid.len() as int)[u] == work@[u]);
                        }
                        assert forall|u: int| wmid.len() <= u < work@.len() implies self.reached(
                            g0,
                            w0,
                            (#[trigger] work@[u]).0 as int,
                            work@[u].1 as int,
                        ) by {
                            let q = nb[u - wmid.len()];
                            assert(nb.contains(q));
                            assert(self.newly_found(g0, i as int, j as int));
                        }
                        assert forall|a: int, b: int|
                            is_neighbor(i as int, j as int, self.height(), self.width(), a, b) implies work@.contains(
                            (a as usize, b as usize)) by {
                            assert(nb.contains((a, b)));
                            let u = choose|u: int| 0 <= u < nb.len() && nb[u] == (a, b);
                            assert(((work@[wmid.len() + u]).0 as int, work@[wmid.len() + u].1 as int) == nb[u]);
                            assert(work@[wmid.len() + u] == (a as usize, b as usize));
                        }
                    }
                }
            }
            proof {
                assert forall|t: int|
                    0 <= t < w0.len() && (#[trigger] g0.cell(w0[t].0 as int, w0[t].1 as int)).state is Unguessed
                        implies self.cell(w0[t].0 as int, w0[t].1 as int).state is Guessed || !(self.state is InProg)
                        || work@.contains(w0[t]) by {
                    let q = w0[t];
                    lemma_index(self.height as int, self.width as int, q.0 as int, q.1 as int);
                    if q != p && wprev.contains(q) {
                        let u = choose|u: int| 0 <= u < wprev.len() && wprev[u] == q;
                        assert(u < wprev.len() - 1);
                        assert(wprev.subrange(0, wprev.len() - 1)[u] == q);
                        assert(work@.subrange(0, wprev.len() - 1)[u] == q);
                        assert(work@[u] == q);
                    }
                }
                assert forall|q: (usize, usize)| wprev.contains(q) && q != p implies work@.contains(q) by {
                    let u = choose|u: int| 0 <= u < wprev.len() && wprev[u] == q;
                    assert(u < wprev.len() - 1);
                    assert(wprev.subrange(0, wprev.len() - 1)[u] == q);
                    assert(work@.subrange(0, wprev.len() - 1)[u] == q);
                    assert(work@[u] == q);
                }
                assert forall|t: int| 0 <= t < work@.len() implies self.reached(
                    g0,
                    w0,
                    (#[trigger] work@[t]).0 as int,
                    work@[t].1 as int,
                ) by {
                    if t < wprev.len() - 1 {
                        assert(work@[t] == wprev[t]);
                        Self::lemma_reached_mono(gs, *self, g0, w0, wprev[t].0 as int, wprev[t].1 as int);
                    }
                }
                assert forall|a: int, b: int|
                    self.in_bounds(a, b) && #[trigger] self.newly_found(g0, a, b) implies self.reached(g0, w0, a, b) by {
                    lemma_index(self.height as int, self.width as int, a, b);
                    if gs.newly_found(g0, a, b) {
                        Self::lemma_reached_mono(gs, *self, g0, w0, a, b);
                    } else {
                        if a * self.width + b == k {
                            lemma_index_inj(self.width as int, a, b, i as int, j as int);
                        }
                        assert(gs.reached(g0, w0, wprev[wprev.len() - 1].0 as int, wprev[wprev.len() - 1].1 as int));
                        Self::lemma_reached_mono(gs, *self, g0, w0, a, b);
                    }
                }
                if self.state is InProg {
                    let h = self.height as int;
                    let w = self.width as int;
                    assert forall|a: int, b: int|
                        self.in_bounds(a, b) && #[trigger] self.newly_found(g0, a, b) && self.cell(a, b).contents
                            == Contents::Empty(0) implies self.spread_from(g0, work@, a, b) by {
                        lemma_index(h, w, a, b);
                        if a * w + b == k {
                            lemma_index_inj(w, a, b, i as int, j as int);
                        }
                        if !(a == i && b == j && gs.board@[k as int].state is Unguessed) {
                            assert(gs.cell(a, b) == self.cell(a, b));
                            assert(gs.newly_found(g0, a, b));
                            assert(gs.spread_from(g0, wprev, a, b));
                            assert forall|i2: int, j2: int|
                                is_neighbor(a, b, h, w, i2, j2) && (#[trigger] g0.cell(i2, j2)).state is Unguessed
                                    implies self.cell(i2, j2).state is Guessed || work@.contains((i2 as usize, j2 as usize)) by {
                                lemma_index(h, w, i2, j2);
                                let q = (i2 as usize, j2 as usize);
                                if !(gs.cell(i2, j2).state is Guessed) {
                                    assert(wprev.contains(q));
                                    if q == p {
                                        assert(gs.cell(i2, j2) == gs.board@[k as int]);
                                    }
                                }
                            }
                        }
                    }
                }
            }
        }
    }

    /// Uncovers the neighbors of `(x, y)`, flooding on from those with no mine around them.
    fn expand(&mut self, x: usize, y: usize)
        requires
            old(self).wf(),
            old(self).generated,
            old(self).in_bounds(x as int, y as int),
            forall|i: int, j: int|
                is_neighbor(x as int, y as int, old(self).height as int, old(self).width as int, i, j)
                    && (#[trigger] old(self).cell(i, j)).state is Unguessed ==> !old(self).cell(i, j).contents.is_mine(),
        ensures
            final(self).wf(),
            final(self).generated,
            final(self).height == old(self).height,
            final(self).width == old(self).width,
            final(self).mines == old(self).mines,
            final(self).num_guessed >= old(self).num_guessed,
            same_layout(old(self).board@, final(self).board@),
            !(old(self).state is InProg) ==> *final(self) == *old(self),
            !(old(self).state is Lost) ==> !(final(self).state is Lost),
            forall|k: int|
                0 <= k < old(self).board@.len() ==> (#[trigger] final(self).board@[k]).contents == old(self).board@[k].contents
                    && (final(self).board@[k].state == old(self).board@[k].state || (old(self).board@[k].state is Unguessed
                    && final(self).board@[k].state is Guessed)),
            forall|i: int, j: int|
                is_neighbor(x as int, y as int, old(self).height as int, old(self).width as int, i, j)
                    && (#[trigger] old(self).cell(i, j)).state is Unguessed
                    ==> final(self).cell(i, j).state is Guessed || !(final(self).state is InProg),
            final(self).state is InProg ==> forall|a: int, b: int|
                final(self).in_bounds(a, b) && #[trigger] final(self).newly_found(*old(self), a, b)
                    && final(self).cell(a, b).contents == Contents::Empty(0)
                    ==> final(self).spread_from(*old(self), Seq::empty(), a, b),
            forall|i: int, j: int|
                final(self).in_bounds(i, j) && #[trigger] final(self).newly_found(*old(self), i, j) ==> final(
                self).flood_reached(*old(self), x as int, y as int, i, j),
    {
        let mut work: Vec<(usize, usize)> = Vec::new();
        push_neighbors(&mut work, x, y, self.height, self.width);
        let ghost nb = neighbors(x as int, y as int, self.height as int, self.width as int);
        proof {
            lemma_neighbors(x as int, y as int, self.height as int, self.width as int);
            assert forall|t: int| 0 <= t < work@.len() implies self.in_bounds(#[trigger] work@[t].0 as int, work@[t].1 as int) by {
                assert(nb.contains(nb[t]));
                assert((work@[t].0 as int, work@[t].1 as int) == nb[t - 0]);
            }
        }
        let ghost w = work@;
        let ghost g0 = *self;
        proof {
            assert forall|t: int| 0 <= t < w.len() implies ((#[trigger] w[t]).0 as int, w[t].1 as int) == nb[t] by {
                assert((w[t].0 as int, w[t].1 as int) == nb[t - 0]);
            }
        }
        proof {
            assert forall|t: int| 0 <= t < w.len() && (#[trigger] g0.cell(w[t].0 as int, w[t].1 as int)).state is Unguessed
                implies !g0.cell(w[t].0 as int, w[t].1 as int).contents.is_mine() by {
                assert(nb.contains(nb[t]));
            }
        }
        self.flood(work);
        proof {
            assert forall|i: int, j: int|
                self.in_bounds(i, j) && #[trigger] self.newly_found(g0, i, j) implies self.flood_reached(
                g0,
                x as int,
                y as int,
                i,
                j,
            ) by {
                if exists|t: int| 0 <= t < w.len() && (#[trigger] w[t]).0 as int == i && w[t].1 as int == j {
                    let t = choose|t: int| 0 <= t < w.len() && (#[trigger] w[t]).0 as int == i && w[t].1 as int == j;
                    assert(nb.contains(nb[t]));
                }
            }
            assert forall|i: int, j: int|
                is_neighbor(x as int, y as int, g0.height as int, g0.width as int, i, j)
                    && (#[trigger] g0.cell(i, j)).state is Unguessed
                    implies self.cell(i, j).state is Guessed || !(self.state is InProg) by {
                assert(nb.contains((i, j)));
                let t = choose|t: int| 0 <= t < nb.len() && nb[t] == (i, j);
                assert((w[t].0 as int, w[t].1 as int) == nb[t - 0]);
            }
        }
    }

    /// Cell `(x, y)` shows a count equal to the number of flags around it.
    pub open spec fn is_finished(self, x: int, y: int) -> bool {
        match self.cell(x, y).contents {
            Contents::Empty(n) => n as int == flagged_among(
                self.squares(),
                self.width(),
                neighbors(x, y, self.height(), self.width()),
            ),
            _ => false,
        }
    }

    fn finished(&self, x: usize, y: usize) -> (r: bool)
        requires
            self.wf(),
            self.in_bounds(x as int, y as int),
        ensures
            r == self.is_finished(x as int, y as int),
    {
        proof {
            lemma_index(self.height as int, self.width as int, x as int, y as int);
        }
        match self.board[x * self.width + y].contents {
            Contents::Empty(n) => {
                let ghost nb = neighbors(x as int, y as int, self.height as int, self.width as int);
                proof {
                    lemma_neighbors(x as int, y as int, self.height as int, self.width as int);
                    lemma_neighbor_indices(x as int, y as int, self.height as int, self.width as int);
                }
                let mut num_flagged: usize = 0;
                let mut it = board_iter(x, y, self.height, self.width);
                let ghost mut seen: Seq<(int, int)> = Seq::empty();
                loop
                    invariant
                        it.wf(),
                        seen + it.rest() == nb,
                        nb.len() <= 9,
                        num_flagged == flagged_among(self.board@, self.width as int, seen),
                        num_flagged <= seen.len(),
                        self.wf(),
                        forall|t: int|
                            0 <= t < nb.len() ==> 0 <= #[trigger] nb[t].0 * self.width + nb[t].1
                                < self.height * self.width,
                    ensures
                        num_flagged == flagged_among(self.board@, self.width as int, nb),
                    decreases it.rest().len(),
                {
                    let ghost before = it.rest();
                    match it.next() {
                        Some(p) => {
                            proof {
                                assert((seen + before)[seen.len() as int] == before[0]);
                                assert(nb[seen.len() as int] == (p.0 as int, p.1 as int));
                                let s2 = seen.push((p.0 as int, p.1 as int));
                                assert(s2.drop_last() =~= seen);
                                seen = s2;
                                assert(seen + it.rest() =~= nb);
                            }
                            if self.board[p.0 * self.width + p.1].state == SquareState::Flagged {
                                num_flagged = num_flagged + 1;
                            }
                        },
                        None => {
                            assert(seen =~= nb);
                            break;
                        },
                    }
                }
                num_flagged == n as usize
            },
            _ => false,
        }
    }

    /// Cell `(i, j)` was not uncovered in `g0` and is in `self`.
    pub open spec fn newly_found(self, g0: Game, i: int, j: int) -> bool {
        !(g0.cell(i, j).state is Guessed) && self.cell(i, j).state is Guessed
    }

    /// Every neighbor of `(a, b)` that was covered and unflagged in `g0` is
    /// uncovered in `self`, or waits in `work`.
    pub open spec fn spread_from(self, g0: Game, work: Seq<(usize, usize)>, a: int, b: int) -> bool {
        forall|i: int, j: int|
            is_neighbor(a, b, self.height(), self.width(), i, j) && (#[trigger] g0.cell(i, j)).state is Unguessed
                ==> self.cell(i, j).state is Guessed || work.contains((i as usize, j as usize))
    }

    /// Cell `(i, j)` is one of `w0`, or a neighbor of a cell found since `g0`
    /// that counts no mine around it.
    pub open spec fn reached(self, g0: Game, w0: Seq<(usize, usize)>, i: int, j: int) -> bool {
        (exists|t: int| 0 <= t < w0.len() && (#[trigger] w0[t]).0 as int == i && w0[t].1 as int == j) || (exists|
            a: int,
            b: int,
        |
            self.in_bounds(a, b) && #[trigger] self.newly_found(g0, a, b) && self.cell(a, b).contents == Contents::Empty(
                0,
            ) && is_neighbor(a, b, self.height(), self.width(), i, j))
    }

/// Cell `(i, j)` neighbors `(x, y)`, or a cell found since `g0` that counts
    /// no mine around it.
    pub open spec fn flood_reached(self, g0: Game, x: int, y: int, i: int, j: int) -> bool {
        is_neighbor(x, y, self.height(), self.width(), i, j) || (exists|a: int, b: int|
            self.in_bounds(a, b) && #[trigger] self.newly_found(g0, a, b) && self.cell(a, b).contents == Contents::Empty(
                0,
            ) && is_neighbor(a, b, self.height(), self.width(), i, j))
    }

        proof fn lemma_reached_mono(s1: Game, s2: Game, g0: Game, w0: Seq<(usize, usize)>, i: int, j: int)
        requires
            s1.reached(g0, w0, i, j),
            s1.height == s2.height,
            s1.width == s2.width,
            s1.board@.len() == s1.height * s1.width,
            s2.board@.len() == s1.board@.len(),
            forall|k: int|
                0 <= k < s1.board@.len() ==> (#[trigger] s2.board@[k]).contents == s1.board@[k].contents && (
                s1.board@[k].state is Guessed ==> s2.board@[k].state is Guessed),
        ensures
            s2.reached(g0, w0, i, j),
    {
        if !(exists|t: int| 0 <= t < w0.len() && (#[trigger] w0[t]).0 as int == i && w0[t].1 as int == j) {
            let (a, b) = choose|a: int, b: int|
                s1.in_bounds(a, b) && #[trigger] s1.newly_found(g0, a, b) && s1.cell(a, b).contents == Contents::Empty(0)
                    && is_neighbor(a, b, s1.height(), s1.width(), i, j);
            lemma_index(s1.height as int, s1.width as int, a, b);
            assert(s2.newly_found(g0, a, b));
        }
    }

    /// Every covered, unflagged neighbor of `(x, y)` is free of mines.
    pub open spec fn neighbors_safe(self, x: int, y: int) -> bool {
        forall|i: int, j: int|
            is_neighbor(x, y, self.height(), self.width(), i, j) && (#[trigger] self.cell(i, j)).state is Unguessed
                ==> !self.cell(i, j).contents.is_mine()
    }

    /// Guessing `(x, y)` again would not uncover a mine around it: either the
    /// guess is no chord, or the flags around the cell are all in place.
    pub open spec fn chord_ok(self, x: int, y: int) -> bool {
        (self.game_state() is InProg && self.cell(x, y).state is Guessed && self.is_finished(x, y))
            ==> self.neighbors_safe(x, y)
    }

    /// Tells whether guessing `(x, y)` is safe from a chord onto a hidden mine.
    pub fn chord_safe(&self, x: usize, y: usize) -> (r: bool)
        requires
            self.wf(),
            self.in_bounds(x as int, y as int),
        ensures
            r == self.chord_ok(x as int, y as int),
    {
        proof {
            lemma_index(self.height as int, self.width as int, x as int, y as int);
        }
        if !(self.state == GameState::InProg && self.board[x * self.width + y].state == SquareState::Guessed
            && self.finished(x, y)) {
            return true;
        }
        let ghost h = self.height as int;
        let ghost w = self.width as int;
        let ghost nb = neighbors(x as int, y as int, h, w);
        proof {
            lemma_neighbors(x as int, y as int, h, w);
            lemma_neighbor_indices(x as int, y as int, h, w);
        }
        let mut ok = true;
        let mut it = board_iter(x, y, self.height, self.width);
        let ghost mut seen: Seq<(int, int)> = Seq::empty();
        loop
            invariant
                it.wf(),
                seen + it.rest() == nb,
                self.wf(),
                h == self.height,
                w == self.width,
                forall|t: int| 0 <= t < nb.len() ==> 0 <= #[trigger] nb[t].0 * w + nb[t].1 < h * w,
                ok == forall|t: int|
                    0 <= t < seen.len() && (#[trigger] self.cell(seen[t].0, seen[t].1)).state is Unguessed
                        ==> !self.cell(seen[t].0, seen[t].1).contents.is_mine(),
            ensures
                seen == nb,
                ok == forall|t: int|
                    0 <= t < nb.len() && (#[trigger] self.cell(nb[t].0, nb[t].1)).state is Unguessed
                        ==> !self.cell(nb[t].0, nb[t].1).contents.is_mine(),
            decreases it.rest().len(),
        {
            let ghost before = it.rest();
            match it.next() {
                Some(p) => {
                    let ghost q = (p.0 as int, p.1 as int);
                    proof {
                        assert((seen + before)[seen.len() as int] == before[0]);
                        assert(nb[seen.len() as int] == q);
                    }
                    let sq = self.board[p.0 * self.width + p.1];
                    let bad = sq.state == SquareState::Unguessed && match sq.contents {
                        Contents::Empty(_) => false,
                        _ => true,
                    };
                    let ghost old_ok = ok;
                    if bad {
                        ok = false;
                    }
                    proof {
                        let s2 = seen.push(q);
                        assert(s2 + it.rest() =~= seen + before);
                        assert(s2[seen.len() as int] == q);
                        assert forall|t: int| 0 <= t < seen.len() implies s2[t] == seen[t] by {}
                        assert(sq == self.cell(q.0, q.1));
                        assert(bad == (self.cell(q.0, q.1).state is Unguessed && self.cell(q.0, q.1).contents.is_mine()));
                        let f2 = forall|t: int|
                            0 <= t < s2.len() && (#[trigger] self.cell(s2[t].0, s2[t].1)).state is Unguessed
                                ==> !self.cell(s2[t].0, s2[t].1).contents.is_mine();
                        if bad {
                            assert(self.cell(s2[seen.len() as int].0, s2[seen.len() as int].1).state is Unguessed);
                            assert(!f2);
                        } else {
                            assert(f2 == old_ok) by {
                                if old_ok {
                                    assert forall|t: int|
                                        0 <= t < s2.len() && (#[trigger] self.cell(s2[t].0, s2[t].1)).state is Unguessed
                                            implies !self.cell(s2[t].0, s2[t].1).contents.is_mine() by {
                                        if t < seen.len() {
                                            assert(s2[t] == seen[t]);
                                        }
                                    }
                                }
                                if f2 {
                                    assert forall|t: int|
                                        0 <= t < seen.len() && (#[trigger] self.cell(seen[t].0, seen[t].1)).state is Unguessed
                                            implies !self.cell(seen[t].0, seen[t].1).contents.is_mine() by {
                                        assert(s2[t] == seen[t]);
                                    }
                                }
                            }
                        }
                        seen = s2;
                    }
                },
                None => {
                    assert(seen =~= nb);
                    break;
                },
            }
        }
        proof {
            assert(ok == self.neighbors_safe(x as int, y as int)) by {
                if ok {
                    assert forall|i: int, j: int|
                        is_neighbor(x as int, y as int, h, w, i, j) && (#[trigger] self.cell(i, j)).state is Unguessed
                            implies !self.cell(i, j).contents.is_mine() by {
                        assert(nb.contains((i, j)));
                        let t = choose|t: int| 0 <= t < nb.len() && nb[t] == (i, j);
                    }
                } else {
                    let t = choose|t: int|
                        0 <= t < nb.len() && (#[trigger] self.cell(nb[t].0, nb[t].1)).state is Unguessed
                            && self.cell(nb[t].0, nb[t].1).contents.is_mine();
                    assert(nb.contains(nb[t]));
                }
            }
        }
        ok
    }

    /// Lays a mine on the mine-free cell `(i, j)` and counts it in each of its neighbors.
    fn place_mine(&mut self, i: usize, j: usize)
        requires
            old(self).wf(),
            old(self).generated,
            old(self).in_bounds(i as int, j as int),
            !old(self).cell(i as int, j as int).contents.is_mine(),
            !(old(self).cell(i as int, j as int).state is Guessed),
            old(self).num_guessed + old(self).mines + 1 < old(self).board@.len(),
        ensures
            final(self).wf(),
            final(self).generated,
            final(self).height == old(self).height,
            final(self).width == old(self).width,
            final(self).mines == old(self).mines + 1,
            final(self).num_guessed == old(self).num_guessed,
            final(self).state == old(self).state,
            final(self).board@.len() == old(self).board@.len(),
            final(self).board@[old(self).index(i as int, j as int)].contents is Mine,
            forall|k: int|
                0 <= k < old(self).board@.len() ==> (#[trigger] final(self).board@[k]).state == old(
                self).board@[k].state,
            forall|k: int|
                0 <= k < old(self).board@.len() && k != old(self).index(i as int, j as int) ==> (
                #[trigger] final(self).board@[k]).contents.is_mine() == old(self).board@[k].contents.is_mine(),
    {
        let ghost g0 = *self;
        let ghost h = self.height as int;
        let ghost w = self.width as int;
        let ghost pi = (i as int, j as int);
        proof {
            lemma_index(h, w, i as int, j as int);
        }
        let k = i * self.width + j;
        self.mines = self.mines + 1;
        let st = self.board[k].state;
        self.board.set(k, Square { contents: Contents::Mine, state: st });
        proof {
            lemma_covered_update(g0.board@, k as int, self.board@[k as int]);
        }
        let ghost g1 = *self;
        let mut it = board_iter(i, j, self.height, self.width);
        let ghost nb = neighbors(i as int, j as int, h, w);
        proof {
            lemma_neighbors(i as int, j as int, h, w);
            lemma_neighbor_indices(i as int, j as int, h, w);
        }
        let ghost mut seen: Seq<(int, int)> = Seq::empty();
        proof {
            assert forall|a: int, b: int|
                0 <= a < h && 0 <= b < w && !(#[trigger] self.cell(a, b)).contents.is_mine()
                    implies self.cell(a, b).contents == Contents::Empty(
                    (g0.neighbor_mines(a, b) + if seen.contains((a, b)) { 1int } else { 0int }) as u8,
                ) by {
                lemma_index(h, w, a, b);
                if a * w + b == k {
                    lemma_index_inj(w, a, b, i as int, j as int);
                } else {
                    assert(self.board@[a * w + b] == g0.board@[a * w + b]);
                    assert(!g0.cell(a, b).contents.is_mine());
                }
            }
        }
        loop
            invariant
                it.wf(),
                seen + it.rest() == nb,
                nb.no_duplicates(),
                forall|q: (int, int)| #[trigger] nb.contains(q) <==> is_neighbor(i as int, j as int, h, w, q.0, q.1),
                forall|t: int| 0 <= t < nb.len() ==> 0 <= #[trigger] nb[t].0 * w + nb[t].1 < h * w,
                h == self.height,
                w == self.width,
                0 < h,
                0 < w,
                h * w <= usize::MAX,
                self.board@.len() == h * w,
                self.board@.len() == g1.board@.len(),
                g0.wf(),
                g0.generated,
                g1.height == g0.height && g1.width == g0.width,
                g1.board@ == g0.board@.update(k as int, Square { contents: Contents::Mine, state: st }),
                k == i * w + j,
                self.height == g0.height,
                self.width == g0.width,
                self.mines == g0.mines + 1,
                self.num_guessed == g0.num_guessed,
                self.state == g0.state,
                self.generated == g0.generated,
                forall|u: int| 0 <= u < self.board@.len() ==> (#[trigger] self.board@[u]).state == g0.board@[u].state,
                forall|u: int|
                    0 <= u < self.board@.len() ==> (#[trigger] self.board@[u]).contents.is_mine()
                        == g1.board@[u].contents.is_mine(),
                k < self.board@.len(),
                self.board@[k as int].contents is Mine,
                forall|u: int|
                    0 <= u < self.board@.len() && u != k ==> (#[trigger] self.board@[u]).contents
                        == g0.board@[u].contents || self.board@[u].contents is Empty,
                forall|a: int, b: int|
                    0 <= a < h && 0 <= b < w && !(#[trigger] self.cell(a, b)).contents.is_mine()
                        ==> self.cell(a, b).contents == Contents::Empty(
                        (g0.neighbor_mines(a, b) + if seen.contains((a, b)) { 1int } else { 0int }) as u8,
                    ),
            ensures
                seen == nb,
            decreases it.rest().len(),
        {
            let ghost before = it.rest();
            match it.next() {
                Some(p) => {
                    let ghost q = (p.0 as int, p.1 as int);
                    let ghost pre = *self;
                    proof {
                        assert((seen + before)[seen.len() as int] == before[0]);
                        assert(nb[seen.len() as int] == q);
                        assert(nb.contains(q));
                        lemma_index(h, w, q.0, q.1);
                        assert(!seen.contains(q)) by {
                            if seen.contains(q) {
                                let u = choose|u: int| 0 <= u < seen.len() && seen[u] == q;
                                assert(nb[u] == (seen + before)[u]);
                            }
                        }
                    }
                    let kq = p.0 * self.width + p.1;
                    let sq = self.board[kq];
                    match sq.contents {
                        Contents::Empty(n) => {
                            proof {
                                assert(self.cell(q.0, q.1) == sq);
                                lemma_neighbors(q.0, q.1, h, w);
                                lemma_mines_among_bound(g0.board@, w, neighbors(q.0, q.1, h, w));
                                assert(g0.neighbor_mines(q.0, q.1) <= 9);
                                assert(kq != k);
                            }
                            self.board.set(kq, Square { contents: Contents::Empty(n + 1), state: sq.state });
                        },
                        _ => {},
                    }
                    proof {
                        let s2 = seen.push(q);
                        assert(s2 + it.rest() =~= nb) by {
                            assert(it.rest() =~= before.drop_first());
                            assert(s2 + it.rest() =~= seen + before);
                        }
                        assert forall|a: int, b: int|
                            0 <= a < h && 0 <= b < w && !(#[trigger] self.cell(a, b)).contents.is_mine()
                                implies self.cell(a, b).contents == Contents::Empty(
                                (g0.neighbor_mines(a, b) + if s2.contains((a, b)) { 1int } else { 0int }) as u8,
                            ) by {
                            lemma_index(h, w, a, b);
                            if (a, b) == q {
                                assert(s2[seen.len() as int] == q);
                            } else {
                                if a * w + b == kq {
                                    lemma_index_inj(w, a, b, q.0, q.1);
                                }
                                assert(pre.cell(a, b) == self.cell(a, b));
                                assert(s2.contains((a, b)) == seen.contains((a, b))) by {
                                    if s2.contains((a, b)) {
                                        let u = choose|u: int| 0 <= u < s2.len() && s2[u] == (a, b);
                                        assert(seen[u] == (a, b));
                                    }
                                    if seen.contains((a, b)) {
                                        let u = choose|u: int| 0 <= u < seen.len() && seen[u] == (a, b);
                                        assert(s2[u] == (a, b));
                                    }
                                }
                            }
                        }
                        seen = s2;
                    }
                },
                None => {
                    assert(seen =~= nb);
                    break;
                },
            }
        }
        proof {
            assert forall|a: int, b: int|
                self.in_bounds(a, b) && !(#[trigger] self.cell(a, b)).contents.is_mine() implies self.cell(a, b).contents
                    == Contents::Empty(self.neighbor_mines(a, b) as u8) by {
                lemma_index(h, w, a, b);
                let nba = neighbors(a, b, h, w);
                lemma_neighbors(a, b, h, w);
                lemma_neighbor_indices(a, b, h, w);
                assert forall|t: int| 0 <= t < nba.len() implies 0 <= #[trigger] nba[t].0 * w + nba[t].1 < g0.board@.len()
                    && 0 <= nba[t].1 < w by {
                    assert(nba.contains(nba[t]));
                }
                lemma_mines_among_add(g0.board@, g1.board@, w, nba, pi);
                lemma_mines_among_same(g1.board@, self.board@, w, nba);
                assert(nba.contains(pi) == nb.contains((a, b)));
                if a * w + b == k {
                    lemma_index_inj(w, a, b, i as int, j as int);
                }
            }
            assert forall|u: int| 0 <= u < self.board@.len() && self.state is InProg implies !((
            #[trigger] self.board@[u]).contents is LosingMine) && !(self.board@[u].state is Guessed
                && self.board@[u].contents.is_mine()) by {
                assert(!(g0.board@[u].contents is LosingMine));
                assert(!(g0.board@[u].state is Guessed && g0.board@[u].contents.is_mine()));
            }
            lemma_covered_same(g0.board@, self.board@);
            assert forall|u: int| 0 <= u < self.board@.len() implies is_found(#[trigger] g0.board@[u]) == is_found(
                self.board@[u],
            ) by {
                if u == k {
                    assert(!(g0.board@[u].state is Guessed));
                }
            }
            lemma_found_same(g0.board@, self.board@);
            lemma_mine_count_change(g0.board@, self.board@, k as int);
        }
    }

    /// Lays the mines at random outside the 3x3 box around `(x, y)`, each on a
    /// cell of its own, until `mines` are laid or no cell is left for one;
    /// `mines` then holds the number actually laid.
    fn generate(&mut self, x: usize, y: usize)
        requires
            old(self).wf(),
            !old(self).generated,
            old(self).in_bounds(x as int, y as int),
        ensures
            final(self).wf(),
            final(self).generated,
            final(self).height == old(self).height,
            final(self).width == old(self).width,
            final(self).mines == mine_count(final(self).board@),
            final(self).num_guessed == old(self).num_guessed,
            final(self).state == old(self).state,
            final(self).board@.len() == old(self).board@.len(),
            forall|k: int|
                0 <= k < old(self).board@.len() ==> (#[trigger] final(self).board@[k]).state == old(
                self).board@[k].state,
            forall|k: int|
                0 <= k < old(self).board@.len() && (#[trigger] final(self).board@[k]).contents.is_mine()
                    ==> outside_box(old(self).width as int, k, x as int, y as int),
            mine_count(final(self).board@) <= old(self).mines,
            mine_count(final(self).board@) == old(self).mines || forall|k: int|
                0 <= k < old(self).board@.len() && outside_box(old(self).width as int, k, x as int, y as int)
                    ==> (#[trigger] final(self).board@[k]).contents.is_mine(),
    {
        let ghost g0 = *self;
        let ghost h = self.height as int;
        let ghost w = self.width as int;
        let target = self.mines;
        proof {
            lemma_found_none(self.board@);
            lemma_mine_count_none(self.board@);
        }
        self.generated = true;
        self.mines = 0;
        proof {
            assert forall|a: int, b: int|
                self.in_bounds(a, b) && !(#[trigger] self.cell(a, b)).contents.is_mine() implies self.cell(a, b).contents
                    == Contents::Empty(self.neighbor_mines(a, b) as u8) by {
                lemma_index(h, w, a, b);
                lemma_neighbor_indices(a, b, h, w);
                lemma_mines_among_none(self.board@, w, neighbors(a, b, h, w));
            }
        }
        let n = self.board.len();
        let width = self.width;
        let mut candidates: Vec<usize> = Vec::new();
        let mut k: usize = 0;
        while k < n
            invariant
                k <= n,
                n == self.board@.len(),
                width == self.width,
                0 < width,
                x < self.height,
                y < width,
                forall|t: int|
                    0 <= t < candidates@.len() ==> #[trigger] candidates@[t] < k && outside_box(
                        width as int,
                        candidates@[t] as int,
                        x as int,
                        y as int,
                    ),
                forall|s: int, t: int|
                    0 <= s < t < candidates@.len() ==> #[trigger] candidates@[s] < #[trigger] candidates@[t],
                forall|u: int|
                    0 <= u < k && outside_box(width as int, u, x as int, y as int) ==> #[trigger] candidates@.contains(
                        u as usize,
                    ),
            decreases n - k,
        {
            let i = k / width;
            let j = k % width;
            let ghost cprev = candidates@;
            if i + 1 < x || x + 1 < i || j + 1 < y || y + 1 < j {
                candidates.push(k);
            }
            proof {
                assert forall|u: int|
                    0 <= u < k + 1 && outside_box(width as int, u, x as int, y as int) implies #[trigger] candidates@.contains(
                        u as usize,
                    ) by {
                    if u < k {
                        assert(cprev.contains(u as usize));
                        let t = choose|t: int| 0 <= t < cprev.len() && cprev[t] == u as usize;
                        assert(candidates@[t] == cprev[t]);
                    } else {
                        assert(candidates@[candidates@.len() - 1] == k);
                    }
                }
            }
            k = k + 1;
        }
        proof {
            lemma_mine_count_none(self.board@);
        }
        let mut placed: usize = 0;
        while placed < target && candidates.len() > 0
            invariant
                self.wf(),
                self.generated,
                self.height == g0.height,
                self.width == g0.width,
                self.mines == placed,
                target == g0.mines,
                self.num_guessed == 0,
                g0.num_guessed == 0,
                self.state == g0.state,
                n == self.board@.len(),
                width == self.width,
                g0.wf(),
                !g0.generated,
                forall|u: int| 0 <= u < n ==> (#[trigger] self.board@[u]).state == g0.board@[u].state,
                forall|u: int|
                    0 <= u < n && (#[trigger] self.board@[u]).contents.is_mine() ==> outside_box(
                        width as int,
                        u,
                        x as int,
                        y as int,
                    ),
                forall|t: int|
                    0 <= t < candidates@.len() ==> #[trigger] candidates@[t] < n && outside_box(
                        width as int,
                        candidates@[t] as int,
                        x as int,
                        y as int,
                    ) && !self.board@[candidates@[t] as int].contents.is_mine(),
                forall|s: int, t: int|
                    0 <= s < candidates@.len() && 0 <= t < candidates@.len() && s != t
                        ==> #[trigger] candidates@[s] != #[trigger] candidates@[t],
                mine_count(self.board@) == placed,
                placed <= target,
                forall|u: int|
                    0 <= u < n && outside_box(width as int, u, x as int, y as int) ==> (#[trigger] self.board@[u]).contents.is_mine()
                        || candidates@.contains(u as usize),
            decreases candidates@.len(),
        {
            let r = random_index(candidates.len());
            let ghost cprev = candidates@;
            let c = candidates.swap_remove(r);
            let i = c / width;
            let j = c % width;
            proof {
                vstd::arithmetic::div_mod::lemma_fundamental_div_mod(c as int, width as int);
                assert(c == width * i + j);
                assert(width * i == i * width) by (nonlinear_arith);
                assert(i < self.height) by (nonlinear_arith)
                    requires
                        c == i * width + j,
                        c < self.height * width,
                        0 <= j,
                        0 < width,
                ;
                assert(!(g0.board@[c as int].state is Guessed));
            }
            let ghost pre = *self;
            self.place_mine(i, j);
            placed = placed + 1;
            proof {
                assert forall|t: int| 0 <= t < candidates@.len() implies #[trigger] candidates@[t] < n && outside_box(
                    width as int,
                    candidates@[t] as int,
                    x as int,
                    y as int,
                ) && !self.board@[candidates@[t] as int].contents.is_mine() by {
                    if t == r {
                        assert(candidates@[t] == cprev[cprev.len() - 1]);
                        assert(cprev.len() - 1 != r);
                    } else {
                        assert(candidates@[t] == cprev[t]);
                    }
                }
                assert forall|s: int, t: int|
                    0 <= s < candidates@.len() && 0 <= t < candidates@.len() && s != t
                        implies #[trigger] candidates@[s] != #[trigger] candidates@[t] by {
                    let s0 = if s == r { cprev.len() - 1 } else { s };
                    let t0 = if t == r { cprev.len() - 1 } else { t };
                    assert(candidates@[s] == cprev[s0]);
                    assert(candidates@[t] == cprev[t0]);
                }
                assert forall|u: int|
                    0 <= u < n && (#[trigger] self.board@[u]).contents.is_mine() implies outside_box(
                        width as int,
                        u,
                        x as int,
                        y as int,
                    ) by {
                    if u != c {
                        assert(pre.board@[u].contents.is_mine());
                    }
                }
                lemma_mine_count_change(pre.board@, self.board@, c as int);
                assert forall|u: int|
                    0 <= u < n && outside_box(width as int, u, x as int, y as int) implies (#[trigger] self.board@[u]).contents.is_mine()
                        || candidates@.contains(u as usize) by {
                    if u != c && !self.board@[u].contents.is_mine() {
                        assert(!pre.board@[u].contents.is_mine());
                        assert(cprev.contains(u as usize));
                        let t = choose|t: int| 0 <= t < cprev.len() && cprev[t] == u as usize;
                        assert(t != r);
                        if t == cprev.len() - 1 {
                            assert(candidates@[r as int] == u as usize);
                        } else {
                            assert(candidates@[t] == u as usize);
                        }
                    }
                }
            }
        }
    }

    #[verifier::rlimit(100)]
    #[verifier::spinoff_prover]
    fn guess_internal(&mut self, x: usize, y: usize, user_direct: bool) -> (r: GameState)
        requires
            old(self).wf(),
            old(self).in_bounds(x as int, y as int),
            user_direct ==> old(self).chord_ok(x as int, y as int),
        ensures
            guess_outcome(*old(self), *final(self), x as int, y as int, user_direct, r),
    {
        let ghost g0 = *self;
        if !self.generated {
            self.generate(x, y);
        }
        let ghost g1 = *self;
        if self.state == GameState::InProg {
            proof {
                lemma_index(self.height as int, self.width as int, x as int, y as int);
            }
            let k = x * self.width + y;
            match self.board[k].state {
                SquareState::Unguessed => {
                    let zero = self.reveal_one(x, y);
                    let ghost g2 = *self;
                    proof {
                        if zero {
                            g2.lemma_zero_safe_neighbors(x as int, y as int);
                        }
                    }
                    if zero && self.state == GameState::InProg {
                        self.expand(x, y);
                        proof {
                            assert forall|i: int, j: int|
                                self.in_bounds(i, j) && #[trigger] self.newly_found(g0, i, j) implies (i == x && j == y)
                                    || self.flood_reached(g0, x as int, y as int, i, j) by {
                                let h = g0.height as int;
                                let w = g0.width as int;
                                lemma_index(h, w, i, j);
                                if !(i == x && j == y) {
                                    if i * w + j == k {
                                        lemma_index_inj(w, i, j, x as int, y as int);
                                    }
                                    assert(g1.board@[i * w + j].state == g0.board@[i * w + j].state);
                                    assert(self.newly_found(g2, i, j));
                                    if !is_neighbor(x as int, y as int, h, w, i, j) {
                                        let (a, b) = choose|a: int, b: int|
                                            self.in_bounds(a, b) && #[trigger] self.newly_found(g2, a, b) && self.cell(a, b).contents
                                                == Contents::Empty(0) && is_neighbor(a, b, h, w, i, j);
                                        lemma_index(h, w, a, b);
                                        if a * w + b == k {
                                            lemma_index_inj(w, a, b, x as int, y as int);
                                        }
                                        assert(g1.board@[a * w + b].state == g0.board@[a * w + b].state);
                                        assert(self.newly_found(g0, a, b));
                                    }
                                }
                            }
                            assert forall|i: int, j: int|
                                is_neighbor(x as int, y as int, g0.height as int, g0.width as int, i, j)
                                    && (#[trigger] g0.cell(i, j)).state is Unguessed
                                    implies g2.cell(i, j).state is Unguessed by {
                                lemma_index(g0.height as int, g0.width as int, i, j);
                                if i * g0.width + j == k {
                                    lemma_index_inj(g0.width as int, i, j, x as int, y as int);
                                }
                                assert(g1.board@[i * g0.width + j].state == g0.board@[i * g0.width + j].state);
                            }
                        }
                    }
                    proof {
                        if !zero {
                            let h = g0.height as int;
                            let w = g0.width as int;
                            assert forall|a: int, b: int|
                                self.in_bounds(a, b) && #[trigger] self.newly_found(g0, a, b) && self.cell(a, b).contents
                                    == Contents::Empty(0) implies self.spread_from(g0, Seq::empty(), a, b) by {
                                lemma_index(h, w, a, b);
                                if a * w + b == k {
                                    lemma_index_inj(w, a, b, x as int, y as int);
                                } else {
                                    assert(g1.board@[a * w + b].state == g0.board@[a * w + b].state);
                                }
                            }
                        }
                        if zero {
                            assert forall|i: int, j: int|
                                is_neighbor(x as int, y as int, g0.height as int, g0.width as int, i, j)
                                    && (#[trigger] g0.cell(i, j)).state is Unguessed implies self.cell(i, j).state is Guessed by {
                                lemma_index(g0.height as int, g0.width as int, i, j);
                                if i * g0.width + j == k {
                                    lemma_index_inj(g0.width as int, i, j, x as int, y as int);
                                }
                                assert(g1.board@[i * g0.width + j].state == g0.board@[i * g0.width + j].state);
                                assert(!g2.cell(i, j).contents.is_mine());
                                if self.state is Won {
                                    lemma_found_full(self.board@);
                                    assert(!self.board@[i * g0.width + j].contents.is_mine());
                                }
                            }
                        }
                        if self.state is InProg {
                            let h = g0.height as int;
                            let w = g0.width as int;
                            assert forall|a: int, b: int|
                                self.in_bounds(a, b) && #[trigger] self.newly_found(g0, a, b) && self.cell(a, b).contents
                                    == Contents::Empty(0) implies self.spread_from(g0, Seq::empty(), a, b) by {
                                lemma_index(h, w, a, b);
                                if a == x && b == y {
                                } else {
                                    if a * w + b == k {
                                        lemma_index_inj(w, a, b, x as int, y as int);
                                    }
                                    assert(g1.board@[a * w + b].state == g0.board@[a * w + b].state);
                                    assert(g2.cell(a, b).state == g0.cell(a, b).state);
                                    assert(self.newly_found(g2, a, b));
                                    assert(self.spread_from(g2, Seq::empty(), a, b));
                                    assert forall|i: int, j: int|
                                        is_neighbor(a, b, h, w, i, j) && (#[trigger] g0.cell(i, j)).state is Unguessed
                                            implies self.cell(i, j).state is Guessed || Seq::<(usize, usize)>::empty().contains(
                                            (i as usize, j as usize)) by {
                                        lemma_index(h, w, i, j);
                                        if i * w + j == k {
                                            lemma_index_inj(w, i, j, x as int, y as int);
                                        } else {
                                            assert(g1.board@[i * w + j].state == g0.board@[i * w + j].state);
                                            assert(g2.cell(i, j).state is Unguessed);
                                        }
                                    }
                                }
                            }
                        }
                    }
                },
                SquareState::Guessed => {
                    if user_direct && self.finished(x, y) {
                        self.expand(x, y);
                        proof {
                            if self.state is Won {
                                lemma_found_full(self.board@);
                                assert forall|i: int, j: int|
                                    is_neighbor(x as int, y as int, g0.height as int, g0.width as int, i, j)
                                        && (#[trigger] g0.cell(i, j)).state is Unguessed implies self.cell(i, j).state is Guessed by {
                                    lemma_index(g0.height as int, g0.width as int, i, j);
                                    assert(!self.board@[i * g0.width + j].contents.is_mine());
                                }
                            }
                        }
                    }
                },
                _ => {},
            }
        }
        proof {
            if !g0.generated {
                assert(mines_match(g1.board@, self.board@));
                lemma_mine_count_change(g1.board@, self.board@, -1);
            }
            if !(self.state is Lost) {
                assert forall|i: int, j: int|
                    self.in_bounds(i, j) && #[trigger] self.newly_found(g0, i, j) implies (i == x && j == y)
                        || self.flood_reached(g0, x as int, y as int, i, j) by {
                    lemma_index(self.height as int, self.width as int, i, j);
                    if i * self.width + j == g0.index(x as int, y as int) {
                        lemma_index_inj(self.width as int, i, j, x as int, y as int);
                    }
                    assert(self.board@[i * self.width + j].state == g0.board@[i * self.width + j].state || (
                    g0.board@[i * self.width + j].state is Unguessed && self.board@[i * self.width + j].state is Guessed));
                }
            }
            if self.state is InProg {
                assert forall|a: int, b: int|
                    self.in_bounds(a, b) && #[trigger] self.newly_found(g0, a, b) && self.cell(a, b).contents
                        == Contents::Empty(0) implies self.spread_from(g0, Seq::empty(), a, b) by {
                    lemma_index(self.height as int, self.width as int, a, b);
                    assert(self.board@[a * self.width + b].state == g0.board@[a * self.width + b].state || (
                    g0.board@[a * self.width + b].state is Unguessed && self.board@[a * self.width + b].state is Guessed));
                }
            }
            if self.state is Won {
                lemma_found_full(self.board@);
                assert forall|a: int, b: int|
                    self.in_bounds(a, b) && #[trigger] self.newly_found(g0, a, b) && self.cell(a, b).contents
                        == Contents::Empty(0) implies self.spread_from(g0, Seq::empty(), a, b) by {
                    self.lemma_zero_safe_neighbors(a, b);
                    assert forall|i: int, j: int|
                        is_neighbor(a, b, self.height(), self.width(), i, j) && (#[trigger] g0.cell(i, j)).state is Unguessed
                            implies self.cell(i, j).state is Guessed || Seq::<(usize, usize)>::empty().contains((i as usize, j as usize)) by {
                        lemma_index(self.height as int, self.width as int, i, j);
                        assert(!self.board@[i * self.width + j].contents.is_mine());
                    }
                }
            }
        }
        self.state
    }

    /// Guesses cell `(x, y)`: lays the mines first if none are laid yet,
    /// then uncovers the cell, or, on a cell already uncovered whose count of
    /// flags around it is met, uncovers its neighbors. Such a chord onto a
    /// mine behind a misplaced flag is a caller's fault, ruled out by
    /// `chord_ok` (test it with `chord_safe`).
    pub fn guess(&mut self, x: usize, y: usize) -> (r: GameState)
        requires
            old(self).wf(),
            old(self).in_bounds(x as int, y as int),
            old(self).chord_ok(x as int, y as int),
        ensures
            guess_outcome(*old(self), *final(self), x as int, y as int, true, r),
    {
        self.guess_internal(x, y, true)
    }

    /// The number of rows.
    pub fn num_rows(&self) -> (r: usize)
        ensures
            r == self.height(),
    {
        self.height
    }

    /// The number of columns.
    pub fn num_cols(&self) -> (r: usize)
        ensures
            r == self.width(),
    {
        self.width
    }

    /// Where the game stands.
    pub fn state(&self) -> (r: GameState)
        ensures
            r == self.game_state(),
    {
        self.state
    }
}

/// Relies on rand's `Range::new(0, n)` and `IndependentSample::ind_sample`
/// on the thread-local generator: a uniformly drawn index below `n`.
#[verifier::external_body]
fn random_index(n: usize) -> (r: usize)
    requires
        0 < n,
    ensures
        r < n,
{
    rand::distributions::IndependentSample::ind_sample(
        &rand::distributions::Range::new(0, n),
        &mut rand::thread_rng(),
    )
}

/// What one guess at `(x, y)` makes of game `g0`, giving `g1` and returning
/// `r`; `chord` says whether the guess may uncover around a cell already
/// uncovered.
pub open spec fn guess_outcome(g0: Game, g1: Game, x: int, y: int, chord: bool, r: GameState) -> bool {
    let k = g0.index(x, y);
    &&& g1.wf()
    &&& g1.generated()
    &&& r == g1.game_state()
    &&& g1.height() == g0.height()
    &&& g1.width() == g0.width()
    &&& g1.squares().len() == g0.squares().len()
    &&& g1.num_guessed() >= g0.num_guessed()
    &&& g0.generated() ==> g1.mines() == g0.mines()
    &&& g0.generated() ==> forall|t: int|
        0 <= t < g1.squares().len() && t != k ==> (#[trigger] g1.squares()[t]).contents == g0.squares()[t].contents
    &&& g0.generated() ==> (g1.squares()[k].contents == g0.squares()[k].contents || (g0.squares()[k].contents is Mine
        && g1.squares()[k].contents is LosingMine && g1.game_state() is Lost))
    &&& !g0.generated() ==> {
        &&& g1.mines() == mine_count(g1.squares())
        &&& g1.mines() <= g0.mines()
        &&& (g1.mines() == g0.mines() || forall|t: int|
            0 <= t < g1.squares().len() && outside_box(g0.width(), t, x, y) ==> (#[trigger] g1.squares()[t]).contents.is_mine())
        &&& forall|t: int|
            0 <= t < g1.squares().len() && (#[trigger] g1.squares()[t]).contents.is_mine() ==> outside_box(
                g0.width(),
                t,
                x,
                y,
            )
    }
    &&& !(g0.game_state() is InProg) ==> g1 == g0
    &&& !(g1.game_state() is Lost) ==> forall|t: int|
        0 <= t < g1.squares().len() ==> (#[trigger] g1.squares()[t]).state == g0.squares()[t].state || (
        g0.squares()[t].state is Unguessed && g1.squares()[t].state is Guessed)
    &&& !(g1.game_state() is Lost) ==> forall|a: int, b: int|
        g1.in_bounds(a, b) && #[trigger] g1.newly_found(g0, a, b) && g1.cell(a, b).contents == Contents::Empty(0)
            ==> g1.spread_from(g0, Seq::empty(), a, b)
    &&& forall|i: int, j: int|
        g1.in_bounds(i, j) && #[trigger] g1.newly_found(g0, i, j) && !(g1.game_state() is Lost) ==> (i == x && j
            == y) || g1.flood_reached(g0, x, y, i, j)
    &&& g0.game_state() is InProg ==> match g0.cell(x, y).state {
        SquareState::Unguessed => {
            &&& g1.cell(x, y).state is Guessed
            &&& g1.cell(x, y).contents.is_mine() ==> {
                &&& g1.game_state() == GameState::Lost
                &&& g1.cell(x, y).contents == Contents::LosingMine
                &&& g1.num_guessed() == g0.num_guessed()
                &&& forall|t: int|
                    0 <= t < g1.squares().len() && t != k ==> (#[trigger] g1.squares()[t]).state
                        == swept_state(g1.squares()[t].contents, g0.squares()[t].state)
            }
            &&& !g1.cell(x, y).contents.is_mine() ==> {
                &&& !(g1.game_state() is Lost)
                &&& g1.num_guessed() >= g0.num_guessed() + 1
                &&& g1.cell(x, y).contents == Contents::Empty(0) ==> forall|i: int, j: int|
                    is_neighbor(x, y, g0.height(), g0.width(), i, j) && (#[trigger] g0.cell(i, j)).state is Unguessed
                        ==> g1.cell(i, j).state is Guessed
            }
        },
        SquareState::Guessed => {
            &&& (chord && g0.is_finished(x, y)) ==> {
                &&& !(g1.game_state() is Lost)
                &&& forall|i: int, j: int|
                    is_neighbor(x, y, g0.height(), g0.width(), i, j) && (#[trigger] g0.cell(i, j)).state is Unguessed
                        ==> g1.cell(i, j).state is Guessed
            }
            &&& !(chord && g0.is_finished(x, y)) ==> g1 == g0
        },
        _ => {
            &&& g1.game_state() == g0.game_state()
            &&& g1.num_guessed() == g0.num_guessed()
            &&& forall|t: int|
                0 <= t < g1.squares().len() ==> (#[trigger] g1.squares()[t]).state == g0.squares()[t].state
            &&& g0.generated() ==> g1 == g0
        },
    }
}

/// Once the mines are laid, every cell without a mine records exactly the
/// number of its neighbors that hold one.
pub proof fn lemma_counts_consistent(g: Game)
    requires
        g.wf(),
        g.generated(),
    ensures
        g.counts_consistent(),
{
}

/// What every game keeps true: the board has one cell per row and column;
/// the count of found cells is the number of uncovered cells without a mine;
/// a game not lost is won exactly when found cells and mines fill the board;
/// once laid, the mines on the board are as many as `mines()`; before that
/// every cell is covered and counts zero; and while the game goes on no mine
/// is uncovered or set off.
pub proof fn lemma_game_facts(g: Game)
    requires
        g.wf(),
    ensures
        0 < g.height(),
        0 < g.width(),
        g.squares().len() == g.height() * g.width(),
        g.mines() < g.squares().len(),
        g.num_guessed() == found(g.squares()),
        !(g.game_state() is Lost) ==> (g.game_state() is Won <==> g.num_guessed() + g.mines() == g.squares().len()),
        g.generated() ==> mine_count(g.squares()) == g.mines(),
        !g.generated() ==> g.game_state() is InProg && forall|k: int|
            0 <= k < g.squares().len() ==> (#[trigger] g.squares()[k]).contents == Contents::Empty(0) && is_covered(
                g.squares()[k],
            ),
        g.game_state() is InProg ==> forall|k: int|
            0 <= k < g.squares().len() ==> !((#[trigger] g.squares()[k]).contents is LosingMine) && !(
            g.squares()[k].state is Guessed && g.squares()[k].contents.is_mine()),
{
}

/// On a board of two rows and one column with its one mine laid, guessing
/// the cell without the mine, when nothing has been uncovered yet, wins.
pub proof fn lemma_two_cell_win(g0: Game, g1: Game, x: int, y: int, r: GameState)
    requires
        g0.wf(),
        g0.generated(),
        g0.game_state() is InProg,
        g0.height() == 2,
        g0.width() == 1,
        g0.mines() == 1,
        g0.num_guessed() == 0,
        g0.in_bounds(x, y),
        g0.cell(x, y).state is Unguessed,
        !g0.cell(x, y).contents.is_mine(),
        guess_outcome(g0, g1, x, y, true, r),
    ensures
        r == GameState::Won,
        g1.num_guessed() == 1,
{
    lemma_index(2, 1, x, y);
    lemma_found_full(g1.board@);
}

/// Flagging a covered cell twice leaves it as it was; flagging an uncovered
/// cell, or one marked as a wrong flag, changes nothing.
pub proof fn lemma_toggle_round_trip(s: SquareState)
    ensures
        s is Unguessed ==> toggled(s) is Flagged,
        s is Flagged ==> toggled(s) is Unguessed,
        s is Unguessed || s is Flagged ==> toggled(toggled(s)) == s,
        s is Guessed || s is BadFlagged ==> toggled(s) == s,
{
}

} // verus!
