//! The grid engine of a sliding-tile puzzle: a fixed 4x4 grid of
//! power-of-two tiles. A move slides every tile toward one edge,
//! merging adjacent equal tiles once each, and a spawn places a new
//! tile on a random empty square.

use vstd::prelude::*;

verus! {

/// Width (and height) of the square grid.
pub const BOARD_WIDTH: usize = 4;

/// The largest exponent a tile can carry; two tiles at this value do
/// not merge, so an exponent never overflows its byte.
pub const MAX_EXPONENT: u8 = 255;

/// The tiles of a line that hold a value, in order: gravity compaction.
pub open spec fn pack(line: Seq<Option<u8>>) -> Seq<u8>
    decreases line.len(),
{
    if line.len() == 0 {
        Seq::empty()
    } else {
        let rest = pack(line.drop_last());
        match line.last() {
            Some(x) => rest.push(x),
            None => rest,
        }
    }
}

/// One pairwise merge pass over a compacted line, scanning from the
/// front: two adjacent equal exponents become one tile of the next
/// exponent, and neither partner merges again in the same pass.
pub open spec fn merge(s: Seq<u8>) -> Seq<u8>
    decreases s.len(),
{
    if s.len() == 0 {
        Seq::empty()
    } else if s.len() >= 2 && s[0] == s[1] && s[0] < MAX_EXPONENT {
        seq![(s[0] + 1) as u8] + merge(s.skip(2))
    } else {
        seq![s[0]] + merge(s.skip(1))
    }
}

/// How many pairs the merge pass over `s` combines.
pub open spec fn merge_count(s: Seq<u8>) -> nat
    decreases s.len(),
{
    if s.len() == 0 {
        0
    } else if s.len() >= 2 && s[0] == s[1] && s[0] < MAX_EXPONENT {
        1 + merge_count(s.skip(2))
    } else {
        merge_count(s.skip(1))
    }
}

/// The exponents of `s` laid out from the leading edge of a line of
/// length `n`, padded with empty squares at the trailing end.
pub open spec fn pad(s: Seq<u8>, n: nat) -> Seq<Option<u8>> {
    Seq::new(n, |i: int| if i < s.len() { Some(s[i]) } else { None })
}

/// The result of one directional pass over a line, read from the
/// leading edge: compact, merge once pairwise, pad back to length.
pub open spec fn collapse_line(line: Seq<Option<u8>>) -> Seq<Option<u8>> {
    pad(merge(pack(line)), line.len())
}

/// A pass over the same line read from the trailing edge, as a move
/// toward the opposite side sees it.
pub open spec fn collapse_line_rev(line: Seq<Option<u8>>) -> Seq<Option<u8>> {
    collapse_line(line.reverse()).reverse()
}

/// The number of occupied squares in a line.
pub open spec fn count_line(line: Seq<Option<u8>>) -> nat {
    pack(line).len()
}

/// The grid a vector of rows stands for.
pub open spec fn grid_of(data: Seq<Vec<Option<u8>>>) -> Seq<Seq<Option<u8>>> {
    Seq::new(data.len(), |r: int| data[r]@)
}

/// A grid is a full square of side `BOARD_WIDTH`.
pub open spec fn wf_grid(g: Seq<Seq<Option<u8>>>) -> bool {
    &&& g.len() == BOARD_WIDTH
    &&& forall|r: int| 0 <= r < g.len() ==> (#[trigger] g[r]).len() == BOARD_WIDTH
}

/// Column `c` of a grid, read top to bottom.
pub open spec fn col(g: Seq<Seq<Option<u8>>>, c: int) -> Seq<Option<u8>> {
    Seq::new(g.len(), |r: int| g[r][c])
}

/// The number of occupied squares in the whole grid.
pub open spec fn count_grid(g: Seq<Seq<Option<u8>>>) -> nat
    decreases g.len(),
{
    if g.len() == 0 {
        0
    } else {
        count_grid(g.drop_last()) + count_line(g.last())
    }
}

/// Whether some square of the grid is empty.
pub open spec fn has_empty_spec(g: Seq<Seq<Option<u8>>>) -> bool {
    exists|r: int, c: int|
        0 <= r < g.len() && 0 <= c < g[r].len() && g[r][c] is None
}

/// `g1` is `g0` with exactly the empty square `(r, c)` filled by a
/// fresh tile of exponent 0 or 1, every other square unchanged.
pub open spec fn spawned(g0: Seq<Seq<Option<u8>>>, g1: Seq<Seq<Option<u8>>>, r: int, c: int) -> bool {
    &&& 0 <= r < g0.len()
    &&& 0 <= c < g0[r].len()
    &&& g0[r][c] is None
    &&& g1[r][c] == Some(0u8) || g1[r][c] == Some(1u8)
    &&& g1.len() == g0.len()
    &&& forall|i: int| 0 <= i < g0.len() ==> (#[trigger] g1[i]).len() == g0[i].len()
    &&& forall|i: int, j: int|
        0 <= i < g0.len() && 0 <= j < g0[i].len() && !(i == r && j == c)
            ==> #[trigger] g1[i][j] == g0[i][j]
}

/// One spawn: some empty square of `g0` was filled to give `g1`.
pub open spec fn spawn_step(g0: Seq<Seq<Option<u8>>>, g1: Seq<Seq<Option<u8>>>) -> bool {
    exists|r: int, c: int| spawned(g0, g1, r, c)
}

/// The grid with every square empty.
pub open spec fn empty_grid() -> Seq<Seq<Option<u8>>> {
    Seq::new(BOARD_WIDTH as nat, |r: int| Seq::new(BOARD_WIDTH as nat, |c: int| None::<u8>))
}

/// Whether two squares hold the same thing.
fn tile_eq(a: Option<u8>, b: Option<u8>) -> (r: bool)
    ensures
        r == (a == b),
{
    match (a, b) {
        (None, None) => true,
        (Some(x), Some(y)) => x == y,
        _ => false,
    }
}

/// Whether two lines hold the same tiles.
fn line_eq(a: &Vec<Option<u8>>, b: &Vec<Option<u8>>) -> (r: bool)
    ensures
        r == (a@ == b@),
{
    if a.len() != b.len() {
        return false;
    }
    let mut i: usize = 0;
    while i < a.len()
        invariant
            a@.len() == b@.len(),
            i <= a@.len(),
            forall|t: int| 0 <= t < i ==> a@[t] == b@[t],
        decreases a@.len() - i,
    {
        if !tile_eq(a[i], b[i]) {
            assert(a@[i as int] != b@[i as int]);
            return false;
        }
        i += 1;
    }
    proof {
        assert(a@ =~= b@);
    }
    true
}

/// One directional pass over a line: compact the tiles toward the
/// front, merge adjacent equal pairs once each, pad with empties.
fn collapse_vec(line: &Vec<Option<u8>>) -> (res: Vec<Option<u8>>)
    ensures
        res@ == collapse_line(line@),
        res@.len() == line@.len(),
{
    // gravity: keep the occupied squares, in order
    let mut packed: Vec<u8> = Vec::new();
    let mut i: usize = 0;
    while i < line.len()
        invariant
            i <= line@.len(),
            packed@.len() <= i,
            packed@ == pack(line@.take(i as int)),
        decreases line@.len() - i,
    {
        proof {
            assert(line@.take(i + 1).drop_last() =~= line@.take(i as int));
            assert(line@.take(i + 1).last() == line@[i as int]);
        }
        match line[i] {
            Some(x) => packed.push(x),
            None => {},
        }
        i += 1;
    }
    proof {
        assert(line@.take(line@.len() as int) =~= line@);
    }

    // one pairwise merge pass, front to back
    let mut merged: Vec<u8> = Vec::new();
    let mut j: usize = 0;
    proof {
        assert(packed@.skip(0) =~= packed@);
        assert(Seq::<u8>::empty() + merge(packed@) =~= merge(packed@));
    }
    while j < packed.len()
        invariant
            j <= packed@.len(),
            merged@.len() <= j,
            merge(packed@) == merged@ + merge(packed@.skip(j as int)),
        decreases packed@.len() - j,
    {
        let ghost pre = merged@;
        let ghost s = packed@.skip(j as int);
        let a = packed[j];
        if j + 1 < packed.len() && packed[j + 1] == a && a < MAX_EXPONENT {
            merged.push(a + 1);
            proof {
                assert(s[0] == a && s[1] == packed@[j + 1]);
                assert(s.skip(2) =~= packed@.skip(j + 2));
                assert(merge(s) == seq![(a + 1) as u8] + merge(packed@.skip(j + 2)));
                assert(merged@ =~= pre + seq![(a + 1) as u8]);
                assert(merged@ + merge(packed@.skip(j + 2))
                    =~= pre + (seq![(a + 1) as u8] + merge(packed@.skip(j + 2))));
            }
            j += 2;
        } else {
            merged.push(a);
            proof {
                assert(s[0] == a);
                assert(s.skip(1) =~= packed@.skip(j + 1));
                assert(merge(s) == seq![a] + merge(packed@.skip(j + 1)));
                assert(merged@ =~= pre + seq![a]);
                assert(merged@ + merge(packed@.skip(j + 1))
                    =~= pre + (seq![a] + merge(packed@.skip(j + 1))));
            }
            j += 1;
        }
    }
    proof {
        assert(packed@.skip(packed@.len() as int) =~= Seq::<u8>::empty());
        assert(merged@ + merge(packed@.skip(packed@.len() as int)) =~= merged@);
        assert(merged@ == merge(pack(line@)));
    }

    // pad back to the line's length with empty squares at the tail
    let mut res: Vec<Option<u8>> = Vec::new();
    let mut k: usize = 0;
    while k < line.len()
        invariant
            k <= line@.len(),
            res@.len() == k,
            merged@.len() <= line@.len(),
            forall|t: int|
                0 <= t < k ==> #[trigger] res@[t] == (if t < merged@.len() {
                    Some(merged@[t])
                } else {
                    None::<u8>
                }),
        decreases line@.len() - k,
    {
        if k < merged.len() {
            let v = merged[k];
            res.push(Some(v));
        } else {
            res.push(None);
        }
        k += 1;
    }
    proof {
        assert(res@ =~= pad(merge(pack(line@)), line@.len()));
    }
    res
}

/// A line in the opposite reading order.
fn reverse_vec(line: &Vec<Option<u8>>) -> (res: Vec<Option<u8>>)
    ensures
        res@ == line@.reverse(),
{
    let mut res: Vec<Option<u8>> = Vec::new();
    let mut i: usize = line.len();
    while i > 0
        invariant
            i <= line@.len(),
            res@.len() == line@.len() - i,
            forall|t: int| 0 <= t < res@.len() ==> #[trigger] res@[t] == line@[line@.len() - 1 - t],
        decreases i,
    {
        i -= 1;
        res.push(line[i]);
    }
    proof {
        assert(res@ =~= line@.reverse());
    }
    res
}

/// A pass toward the trailing edge: reverse, collapse, reverse back.
fn collapse_vec_rev(line: &Vec<Option<u8>>) -> (res: Vec<Option<u8>>)
    ensures
        res@ == collapse_line_rev(line@),
        res@.len() == line@.len(),
{
    let rev = reverse_vec(line);
    let coll = collapse_vec(&rev);
    let res = reverse_vec(&coll);
    proof {
        assert(res@.len() == line@.len());
    }
    res
}

/// Whether two grids of rows hold the same tiles.
fn grid_eq(a: &Vec<Vec<Option<u8>>>, b: &Vec<Vec<Option<u8>>>) -> (r: bool)
    ensures
        r == (grid_of(a@) == grid_of(b@)),
{
    if a.len() != b.len() {
        proof {
            assert(grid_of(a@).len() != grid_of(b@).len());
        }
        return false;
    }
    let mut i: usize = 0;
    while i < a.len()
        invariant
            a@.len() == b@.len(),
            i <= a@.len(),
            forall|t: int| 0 <= t < i ==> #[trigger] a@[t]@ == b@[t]@,
        decreases a@.len() - i,
    {
        if !line_eq(&a[i], &b[i]) {
            proof {
                assert(grid_of(a@)[i as int] != grid_of(b@)[i as int]);
            }
            return false;
        }
        i += 1;
    }
    proof {
        assert(grid_of(a@) =~= grid_of(b@));
    }
    true
}

/// Relies on rand::random: one draw from the thread-local generator,
/// seeded from system entropy; nothing is promised of the value.
#[verifier::external_body]
fn random_u32() -> u32 {
    rand::random::<u32>()
}

/// The tile matrix: a square grid of optional exponents.
#[derive(Clone)]
pub struct Board {
    data: Vec<Vec<Option<u8>>>,
}

impl View for Board {
    type V = Seq<Seq<Option<u8>>>;

    closed spec fn view(&self) -> Seq<Seq<Option<u8>>> {
        grid_of(self.data@)
    }
}

impl Board {
    /// The grid is a full `BOARD_WIDTH` square.
    pub open spec fn wf(&self) -> bool {
        wf_grid(self@)
    }

    /// Column `c` of the grid as a line, top to bottom.
    fn col_vec(&self, c: usize) -> (res: Vec<Option<u8>>)
        requires
            self.wf(),
            c < BOARD_WIDTH,
        ensures
            res@ == col(self@, c as int),
    {
        let mut res: Vec<Option<u8>> = Vec::new();
        let mut r: usize = 0;
        while r < BOARD_WIDTH
            invariant
                self.wf(),
                c < BOARD_WIDTH,
                r <= BOARD_WIDTH,
                res@.len() == r,
                forall|t: int| 0 <= t < r ==> #[trigger] res@[t] == self@[t][c as int],
            decreases BOARD_WIDTH - r,
        {
            proof {
                assert(self@[r as int] == self.data@[r as int]@);
                assert(self@[r as int].len() == BOARD_WIDTH);
            }
            res.push(self.data[r][c]);
            r += 1;
        }
        proof {
            assert(res@ =~= col(self@, c as int));
        }
        res
    }

    /// Slides every row toward the left edge, merging once pairwise.
    /// Reports whether any square changed.
    pub fn left(&mut self) -> (changed: bool)
        requires
            old(self).wf(),
        ensures
            final(self).wf(),
            forall|r: int|
                0 <= r < BOARD_WIDTH ==> #[trigger] final(self)@[r] == collapse_line(old(self)@[r]),
            changed == (final(self)@ != old(self)@),
    {
        let ghost g0 = self@;
        let mut changed = false;
        let mut r: usize = 0;
        while r < BOARD_WIDTH
            invariant
                wf_grid(g0),
                self@.len() == g0.len(),
                r <= BOARD_WIDTH,
                forall|t: int| 0 <= t < r ==> #[trigger] self@[t] == collapse_line(g0[t]),
                forall|t: int| r <= t < BOARD_WIDTH ==> #[trigger] self@[t] == g0[t],
                changed == (exists|t: int| 0 <= t < r && #[trigger] self@[t] != g0[t]),
            decreases BOARD_WIDTH - r,
        {
            proof {
                assert(self@[r as int] == self.data@[r as int]@);
                assert(self@[r as int] == g0[r as int]);
            }
            let ghost prev = self@;
            let new_row = collapse_vec(&self.data[r]);
            if !line_eq(&self.data[r], &new_row) {
                self.data.set(r, new_row);
                changed = true;
                proof {
                    assert(self@.len() == prev.len());
                    assert(self@[r as int] == new_row@);
                    assert(forall|t: int| 0 <= t < prev.len() && t != r ==> #[trigger] self@[t] == prev[t]);
                    assert(self@[r as int] != g0[r as int]);
                }
            } else {
                proof {
                    assert(self@[r as int] == collapse_line(g0[r as int]));
                }
            }
            r += 1;
        }
        proof {
            if !changed {
                assert(self@ =~= g0);
            }
        }
        changed
    }

    /// Slides every row toward the right edge, merging once pairwise.
    /// Reports whether any square changed.
    pub fn right(&mut self) -> (changed: bool)
        requires
            old(self).wf(),
        ensures
            final(self).wf(),
            forall|r: int|
                0 <= r < BOARD_WIDTH ==> #[trigger] final(self)@[r] == collapse_line_rev(old(self)@[r]),
            changed == (final(self)@ != old(self)@),
    {
        let ghost g0 = self@;
        let mut changed = false;
        let mut r: usize = 0;
        while r < BOARD_WIDTH
            invariant
                wf_grid(g0),
                self@.len() == g0.len(),
                r <= BOARD_WIDTH,
                forall|t: int| 0 <= t < r ==> #[trigger] self@[t] == collapse_line_rev(g0[t]),
                forall|t: int| r <= t < BOARD_WIDTH ==> #[trigger] self@[t] == g0[t],
                changed == (exists|t: int| 0 <= t < r && #[trigger] self@[t] != g0[t]),
            decreases BOARD_WIDTH - r,
        {
            proof {
                assert(self@[r as int] == self.data@[r as int]@);
                assert(self@[r as int] == g0[r as int]);
            }
            let ghost prev = self@;
            let new_row = collapse_vec_rev(&self.data[r]);
            if !line_eq(&self.data[r], &new_row) {
                self.data.set(r, new_row);
                changed = true;
                proof {
                    assert(self@.len() == prev.len());
                    assert(self@[r as int] == new_row@);
                    assert(forall|t: int| 0 <= t < prev.len() && t != r ==> #[trigger] self@[t] == prev[t]);
                    assert(self@[r as int] != g0[r as int]);
                }
            } else {
                proof {
                    assert(self@[r as int] == collapse_line_rev(g0[r as int]));
                }
            }
            r += 1;
        }
        proof {
            if !changed {
                assert(self@ =~= g0);
            }
        }
        changed
    }

    /// Applies one directional pass to every column, toward the top
    /// edge or, with `rev`, toward the bottom edge.
    fn collapse_cols(&mut self, rev: bool) -> (changed: bool)
        requires
            old(self).wf(),
        ensures
            final(self).wf(),
            forall|c: int|
                0 <= c < BOARD_WIDTH ==> #[trigger] col(final(self)@, c) == (if rev {
                    collapse_line_rev(col(old(self)@, c))
                } else {
                    collapse_line(col(old(self)@, c))
                }),
            changed == (final(self)@ != old(self)@),
    {
        let ghost g0 = self@;
        let mut new_cols: Vec<Vec<Option<u8>>> = Vec::new();
        let mut c: usize = 0;
        while c < BOARD_WIDTH
            invariant
                self.wf(),
                self@ == g0,
                c <= BOARD_WIDTH,
                new_cols@.len() == c,
                forall|t: int|
                    0 <= t < c ==> #[trigger] new_cols@[t]@ == (if rev {
                        collapse_line_rev(col(g0, t))
                    } else {
                        collapse_line(col(g0, t))
                    }),
                forall|t: int| 0 <= t < c ==> #[trigger] new_cols@[t]@.len() == BOARD_WIDTH,
            decreases BOARD_WIDTH - c,
        {
            let colv = self.col_vec(c);
            let newc = if rev {
                collapse_vec_rev(&colv)
            } else {
                collapse_vec(&colv)
            };
            new_cols.push(newc);
            c += 1;
        }
        let mut new_data: Vec<Vec<Option<u8>>> = Vec::new();
        let mut r: usize = 0;
        while r < BOARD_WIDTH
            invariant
                self.wf(),
                self@ == g0,
                new_cols@.len() == BOARD_WIDTH,
                forall|t: int|
                    0 <= t < BOARD_WIDTH ==> #[trigger] new_cols@[t]@ == (if rev {
                        collapse_line_rev(col(g0, t))
                    } else {
                        collapse_line(col(g0, t))
                    }),
                forall|t: int| 0 <= t < BOARD_WIDTH ==> #[trigger] new_cols@[t]@.len() == BOARD_WIDTH,
                r <= BOARD_WIDTH,
                new_data@.len() == r,
                forall|t: int| 0 <= t < r ==> (#[trigger] new_data@[t]@).len() == BOARD_WIDTH,
                forall|t: int, u: int|
                    0 <= t < r && 0 <= u < BOARD_WIDTH
                        ==> #[trigger] new_data@[t]@[u] == new_cols@[u]@[t],
            decreases BOARD_WIDTH - r,
        {
            let mut row: Vec<Option<u8>> = Vec::new();
            let mut cc: usize = 0;
            while cc < BOARD_WIDTH
                invariant
                    new_cols@.len() == BOARD_WIDTH,
                    forall|t: int| 0 <= t < BOARD_WIDTH ==> #[trigger] new_cols@[t]@.len() == BOARD_WIDTH,
                    r < BOARD_WIDTH,
                    cc <= BOARD_WIDTH,
                    row@.len() == cc,
                    forall|u: int| 0 <= u < cc ==> #[trigger] row@[u] == new_cols@[u]@[r as int],
                decreases BOARD_WIDTH - cc,
            {
                row.push(new_cols[cc][r]);
                cc += 1;
            }
            new_data.push(row);
            r += 1;
        }
        let same = grid_eq(&self.data, &new_data);
        let ghost nd = new_data@;
        self.data = new_data;
        proof {
            assert(self@.len() == BOARD_WIDTH);
            assert forall|t: int| 0 <= t < BOARD_WIDTH implies (#[trigger] self@[t]).len()
                == BOARD_WIDTH by {
                assert(self@[t] == nd[t]@);
            };
            assert forall|ci: int| 0 <= ci < BOARD_WIDTH implies #[trigger] col(self@, ci) == (
            if rev {
                collapse_line_rev(col(g0, ci))
            } else {
                collapse_line(col(g0, ci))
            }) by {
                assert forall|t: int| 0 <= t < BOARD_WIDTH implies #[trigger] col(self@, ci)[t]
                    == new_cols@[ci]@[t] by {
                    assert(self@[t] == nd[t]@);
                };
                assert(col(self@, ci) =~= new_cols@[ci]@);
            };
        }
        !same
    }

    /// A fresh game: an empty grid with two tiles spawned onto it.
    pub fn new() -> (b: Board)
        ensures
            b.wf(),
            count_grid(b@) == 2,
            exists|g: Seq<Seq<Option<u8>>>|
                spawn_step(empty_grid(), g) && #[trigger] spawn_step(g, b@),
    {
        let mut data: Vec<Vec<Option<u8>>> = Vec::new();
        let mut r: usize = 0;
        while r < BOARD_WIDTH
            invariant
                r <= BOARD_WIDTH,
                data@.len() == r,
                forall|t: int| 0 <= t < r ==> (#[trigger] data@[t]@).len() == BOARD_WIDTH,
                forall|t: int, u: int|
                    0 <= t < r && 0 <= u < BOARD_WIDTH ==> (#[trigger] data@[t]@[u]) is None,
            decreases BOARD_WIDTH - r,
        {
            let mut row: Vec<Option<u8>> = Vec::new();
            let mut c: usize = 0;
            while c < BOARD_WIDTH
                invariant
                    c <= BOARD_WIDTH,
                    row@.len() == c,
                    forall|u: int| 0 <= u < c ==> (#[trigger] row@[u]) is None,
                decreases BOARD_WIDTH - c,
            {
                row.push(None);
                c += 1;
            }
            data.push(row);
            r += 1;
        }
        let mut b = Board { data };
        proof {
            assert forall|t: int| 0 <= t < BOARD_WIDTH implies (#[trigger] b@[t]).len()
                == BOARD_WIDTH by {
                assert(b@[t] == b.data@[t]@);
            };
            assert(b.wf());
            assert forall|t: int| 0 <= t < BOARD_WIDTH implies count_line(#[trigger] b@[t])
                == 0 by {
                assert(b@[t] == b.data@[t]@);
                crate::laws::lemma_count_line_all_none(b@[t]);
            };
            crate::laws::lemma_count_grid_zero(b@);
            assert(b@[0][0] is None);
            assert forall|t: int| 0 <= t < BOARD_WIDTH implies #[trigger] b@[t] == empty_grid()[t] by {
                assert(b@[t] == b.data@[t]@);
                assert(b@[t] =~= empty_grid()[t]);
            };
            assert(b@ =~= empty_grid());
        }
        let ghost ge = b@;
        b.add();
        proof {
            let (r1, c1) = choose|r1: int, c1: int| spawned(ge, b@, r1, c1);
            crate::laws::lemma_spawn_count(ge, b@, r1, c1);
            if r1 == 0 && c1 == 0 {
                assert(b@[0][1] == ge[0][1]);
                assert(b@[0][1] is None);
            } else {
                assert(b@[0][0] == ge[0][0]);
                assert(b@[0][0] is None);
            }
            assert(has_empty_spec(b@));
        }
        let ghost g1 = b@;
        b.add();
        proof {
            let (r2, c2) = choose|r2: int, c2: int| spawned(g1, b@, r2, c2);
            crate::laws::lemma_spawn_count(g1, b@, r2, c2);
            assert(spawn_step(empty_grid(), g1) && spawn_step(g1, b@));
        }
        b
    }

    /// The tile at row `r`, column `c`: its exponent, or nothing for
    /// an empty square.
    pub fn get(&self, r: usize, c: usize) -> (t: Option<u8>)
        requires
            self.wf(),
            r < BOARD_WIDTH,
            c < BOARD_WIDTH,
        ensures
            t == self@[r as int][c as int],
    {
        proof {
            assert(self@[r as int] == self.data@[r as int]@);
            assert(self@[r as int].len() == BOARD_WIDTH);
        }
        self.data[r][c]
    }

    /// A board holding exactly the given rows, or nothing when the
    /// rows are not a full `BOARD_WIDTH` square.
    pub fn from_rows(rows: Vec<Vec<Option<u8>>>) -> (b: Option<Board>)
        ensures
            (b is Some) == wf_grid(grid_of(rows@)),
            b matches Some(bd) ==> bd.wf() && bd@ == grid_of(rows@),
    {
        if rows.len() != BOARD_WIDTH {
            return None;
        }
        let mut r: usize = 0;
        while r < BOARD_WIDTH
            invariant
                rows@.len() == BOARD_WIDTH,
                r <= BOARD_WIDTH,
                forall|t: int| 0 <= t < r ==> (#[trigger] rows@[t]@).len() == BOARD_WIDTH,
            decreases BOARD_WIDTH - r,
        {
            if rows[r].len() != BOARD_WIDTH {
                proof {
                    assert(grid_of(rows@)[r as int].len() != BOARD_WIDTH);
                }
                return None;
            }
            r += 1;
        }
        proof {
            assert forall|t: int| 0 <= t < BOARD_WIDTH implies (#[trigger] grid_of(rows@)[t]).len()
                == BOARD_WIDTH by {
                assert(grid_of(rows@)[t] == rows@[t]@);
            };
        }
        Some(Board { data: rows })
    }

    /// Whether some square of the grid is empty.
    pub fn contains_empty(&self) -> (b: bool)
        requires
            self.wf(),
        ensures
            b == has_empty_spec(self@),
    {
        let mut r: usize = 0;
        while r < BOARD_WIDTH
            invariant
                self.wf(),
                r <= BOARD_WIDTH,
                forall|i: int, j: int|
                    0 <= i < r && 0 <= j < BOARD_WIDTH ==> !((#[trigger] self@[i][j]) is None),
            decreases BOARD_WIDTH - r,
        {
            let mut c: usize = 0;
            while c < BOARD_WIDTH
                invariant
                    self.wf(),
                    r < BOARD_WIDTH,
                    c <= BOARD_WIDTH,
                    forall|j: int| 0 <= j < c ==> !((#[trigger] self@[r as int][j]) is None),
                decreases BOARD_WIDTH - c,
            {
                proof {
                    assert(self@[r as int] == self.data@[r as int]@);
                    assert(self@[r as int].len() == BOARD_WIDTH);
                }
                if self.data[r][c].is_none() {
                    proof {
                        assert(self@[r as int][c as int] is None);
                    }
                    return true;
                }
                c += 1;
            }
            r += 1;
        }
        false
    }

    /// Places a tile of exponent 0 or 1 on a randomly chosen empty
    /// square; reports `false` and changes nothing when the grid is
    /// full.
    pub fn add(&mut self) -> (b: bool)
        requires
            old(self).wf(),
        ensures
            final(self).wf(),
            b == has_empty_spec(old(self)@),
            !b ==> final(self)@ == old(self)@,
            b ==> spawn_step(old(self)@, final(self)@),
    {
        let ghost g0 = self@;
        let mut empties: Vec<(usize, usize)> = Vec::new();
        let mut r: usize = 0;
        while r < BOARD_WIDTH
            invariant
                self.wf(),
                self@ == g0,
                r <= BOARD_WIDTH,
                forall|k: int|
                    0 <= k < empties@.len() ==> (#[trigger] empties@[k]).0 < BOARD_WIDTH
                        && empties@[k].1 < BOARD_WIDTH
                        && g0[empties@[k].0 as int][empties@[k].1 as int] is None,
                empties@.len() == 0 ==> (forall|i: int, j: int|
                    0 <= i < r && 0 <= j < BOARD_WIDTH ==> !((#[trigger] g0[i][j]) is None)),
            decreases BOARD_WIDTH - r,
        {
            let mut c: usize = 0;
            while c < BOARD_WIDTH
                invariant
                    self.wf(),
                    self@ == g0,
                    r < BOARD_WIDTH,
                    c <= BOARD_WIDTH,
                    forall|k: int|
                        0 <= k < empties@.len() ==> (#[trigger] empties@[k]).0 < BOARD_WIDTH
                            && empties@[k].1 < BOARD_WIDTH
                            && g0[empties@[k].0 as int][empties@[k].1 as int] is None,
                    empties@.len() == 0 ==> (forall|i: int, j: int|
                        0 <= i < r && 0 <= j < BOARD_WIDTH ==> !((#[trigger] g0[i][j]) is None)),
                    empties@.len() == 0 ==> (forall|j: int|
                        0 <= j < c ==> !((#[trigger] g0[r as int][j]) is None)),
                decreases BOARD_WIDTH - c,
            {
                proof {
                    assert(self@[r as int] == self.data@[r as int]@);
                    assert(self@[r as int].len() == BOARD_WIDTH);
                }
                if self.data[r][c].is_none() {
                    empties.push((r, c));
                }
                c += 1;
            }
            r += 1;
        }
        if empties.len() == 0 {
            proof {
                assert forall|i: int, j: int|
                    0 <= i < g0.len() && 0 <= j < g0[i].len() implies !((#[trigger] g0[i][j])
                    is None) by {};
                assert(!has_empty_spec(g0));
            }
            return false;
        }
        let t = random_u32() as usize;
        let idx = t % empties.len();
        let pick = empties[idx];
        let rr = pick.0;
        let cc = pick.1;
        let draw = random_u32();
        let e: u8 = if draw % 2 == 0 {
            0
        } else {
            1
        };
        let mut newrow: Vec<Option<u8>> = Vec::new();
        let mut j: usize = 0;
        while j < BOARD_WIDTH
            invariant
                self.wf(),
                self@ == g0,
                rr < BOARD_WIDTH,
                cc < BOARD_WIDTH,
                j <= BOARD_WIDTH,
                newrow@.len() == j,
                e == 0 || e == 1,
                forall|u: int| 0 <= u < j && u != cc ==> #[trigger] newrow@[u] == g0[rr as int][u],
                cc < j ==> newrow@[cc as int] == Some(e),
            decreases BOARD_WIDTH - j,
        {
            if j == cc {
                newrow.push(Some(e));
            } else {
                proof {
                    assert(self@[rr as int] == self.data@[rr as int]@);
                    assert(self@[rr as int].len() == BOARD_WIDTH);
                }
                newrow.push(self.data[rr][j]);
            }
            j += 1;
        }
        let ghost prev = self@;
        self.data.set(rr, newrow);
        proof {
            assert(self@.len() == prev.len());
            assert(self@[rr as int] == newrow@);
            assert(forall|u: int|
                0 <= u < prev.len() && u != rr ==> #[trigger] self@[u] == prev[u]);
            assert(g0[rr as int][cc as int] is None);
            assert(has_empty_spec(g0));
            assert(spawned(g0, self@, rr as int, cc as int));
        }
        true
    }

    /// Slides every column toward the top edge, merging once pairwise.
    /// Reports whether any square changed.
    pub fn up(&mut self) -> (changed: bool)
        requires
            old(self).wf(),
        ensures
            final(self).wf(),
            forall|c: int|
                0 <= c < BOARD_WIDTH ==> #[trigger] col(final(self)@, c) == collapse_line(
                    col(old(self)@, c),
                ),
            changed == (final(self)@ != old(self)@),
    {
        self.collapse_cols(false)
    }

    /// Slides every column toward the bottom edge, merging once
    /// pairwise. Reports whether any square changed.
    pub fn down(&mut self) -> (changed: bool)
        requires
            old(self).wf(),
        ensures
            final(self).wf(),
            forall|c: int|
                0 <= c < BOARD_WIDTH ==> #[trigger] col(final(self)@, c) == collapse_line_rev(
                    col(old(self)@, c),
                ),
            changed == (final(self)@ != old(self)@),
    {
        self.collapse_cols(true)
    }
}

} // verus!
