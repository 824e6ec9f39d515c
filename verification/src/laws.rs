//! Proved laws of the grid engine: conservation of tiles under moves
//! and spawns, idempotence of a settled pass, and compaction toward
//! the leading edge.

use vstd::prelude::*;

use crate::board::collapse_line;
use crate::board::collapse_line_rev;
use crate::board::col;
use crate::board::count_grid;
use crate::board::count_line;
use crate::board::merge;
use crate::board::merge_count;
use crate::board::pack;
use crate::board::pad;
use crate::board::spawned;
use crate::board::wf_grid;
use crate::board::BOARD_WIDTH;
use crate::board::MAX_EXPONENT;

verus! {

/// No two adjacent exponents of `s` could merge.
pub open spec fn mergeable_free(s: Seq<u8>) -> bool {
    forall|i: int| 0 <= i && i + 1 < s.len() ==> !(#[trigger] s[i] == s[i + 1] && s[i] < MAX_EXPONENT)
}

/// The tiles of a line sit at its front: no empty square precedes an
/// occupied one.
pub open spec fn packed_front(line: Seq<Option<u8>>) -> bool {
    forall|i: int, j: int| 0 <= i < j < line.len() && line[i] is None ==> line[j] is None
}

/// A line of empty squares holds no tiles.
pub proof fn lemma_count_line_all_none(l: Seq<Option<u8>>)
    requires
        forall|i: int| 0 <= i < l.len() ==> (#[trigger] l[i]) is None,
    ensures
        count_line(l) == 0,
    decreases l.len(),
{
    if l.len() > 0 {
        lemma_count_line_all_none(l.drop_last());
    }
}

/// A grid of empty lines holds no tiles.
pub proof fn lemma_count_grid_zero(g: Seq<Seq<Option<u8>>>)
    requires
        forall|i: int| 0 <= i < g.len() ==> count_line(#[trigger] g[i]) == 0,
    ensures
        count_grid(g) == 0,
    decreases g.len(),
{
    if g.len() > 0 {
        lemma_count_grid_zero(g.drop_last());
    }
}

/// Appending one square adds its occupancy to the line's count.
pub proof fn lemma_count_line_push(l: Seq<Option<u8>>, v: Option<u8>)
    ensures
        count_line(l.push(v)) == count_line(l) + (if v is Some {
            1int
        } else {
            0int
        }),
{
    assert(l.push(v).drop_last() =~= l);
    assert(l.push(v).last() == v);
}

/// Filling one empty square raises the line's count by one.
pub proof fn lemma_count_line_update(l0: Seq<Option<u8>>, l1: Seq<Option<u8>>, c: int)
    requires
        l0.len() == l1.len(),
        0 <= c < l0.len(),
        forall|j: int| 0 <= j < l0.len() && j != c ==> #[trigger] l1[j] == l0[j],
        l0[c] is None,
        l1[c] is Some,
    ensures
        count_line(l1) == count_line(l0) + 1,
    decreases l0.len(),
{
    if c == l0.len() - 1 {
        assert(l1.drop_last() =~= l0.drop_last());
    } else {
        lemma_count_line_update(l0.drop_last(), l1.drop_last(), c);
        assert(l1.last() == l0.last());
    }
}

/// Changing one row changes the grid's count by that row's difference.
pub proof fn lemma_count_grid_update(g0: Seq<Seq<Option<u8>>>, g1: Seq<Seq<Option<u8>>>, r: int)
    requires
        g0.len() == g1.len(),
        0 <= r < g0.len(),
        forall|i: int| 0 <= i < g0.len() && i != r ==> #[trigger] g1[i] == g0[i],
    ensures
        count_grid(g1) + count_line(g0[r]) == count_grid(g0) + count_line(g1[r]),
    decreases g0.len(),
{
    if r == g0.len() - 1 {
        assert(g1.drop_last() =~= g0.drop_last());
    } else {
        lemma_count_grid_update(g0.drop_last(), g1.drop_last(), r);
        assert(g1.last() == g0.last());
    }
}

/// Spawn legality, counted: a spawn fills exactly one square, so the
/// number of occupied squares grows by exactly one.
pub proof fn lemma_spawn_count(g0: Seq<Seq<Option<u8>>>, g1: Seq<Seq<Option<u8>>>, r: int, c: int)
    requires
        spawned(g0, g1, r, c),
    ensures
        count_grid(g1) == count_grid(g0) + 1,
{
    assert forall|i: int| 0 <= i < g0.len() && i != r implies #[trigger] g1[i] == g0[i] by {
        assert(g1[i] =~= g0[i]);
    };
    lemma_count_line_update(g0[r], g1[r], c);
    lemma_count_grid_update(g0, g1, r);
}

/// A compacted line is no longer than the line it came from.
pub proof fn lemma_pack_len(l: Seq<Option<u8>>)
    ensures
        pack(l).len() <= l.len(),
    decreases l.len(),
{
    if l.len() > 0 {
        lemma_pack_len(l.drop_last());
    }
}

/// The merge pass shortens a line by exactly the number of merged
/// pairs: each pair turns two tiles into one.
pub proof fn lemma_merge_len(s: Seq<u8>)
    ensures
        merge(s).len() + merge_count(s) == s.len(),
    decreases s.len(),
{
    if s.len() == 0 {
    } else if s.len() >= 2 && s[0] == s[1] && s[0] < MAX_EXPONENT {
        lemma_merge_len(s.skip(2));
    } else {
        lemma_merge_len(s.skip(1));
    }
}

/// Reading back the occupied prefix of a padded line recovers the
/// exponents that were laid out.
pub proof fn lemma_pack_pad(s: Seq<u8>, n: nat)
    requires
        s.len() <= n,
    ensures
        pack(pad(s, n)) == s,
    decreases n,
{
    if n == 0 {
        assert(pack(pad(s, n)) =~= s);
    } else if s.len() < n {
        assert(pad(s, n).drop_last() =~= pad(s, (n - 1) as nat));
        assert(pad(s, n).last() is None);
        lemma_pack_pad(s, (n - 1) as nat);
    } else {
        assert(pad(s, n).drop_last() =~= pad(s.drop_last(), (n - 1) as nat));
        assert(pad(s, n).last() == Some(s.last()));
        lemma_pack_pad(s.drop_last(), (n - 1) as nat);
        assert(pack(pad(s, n)) == pack(pad(s.drop_last(), (n - 1) as nat)).push(s.last()));
        assert(s.drop_last().push(s.last()) =~= s);
    }
}

/// Conservation in one line: a pass removes exactly one tile per
/// merged pair, and so never increases the count.
pub proof fn lemma_collapse_line_count(line: Seq<Option<u8>>)
    ensures
        count_line(collapse_line(line)) + merge_count(pack(line)) == count_line(line),
        count_line(collapse_line(line)) <= count_line(line),
{
    lemma_pack_len(line);
    lemma_merge_len(pack(line));
    lemma_pack_pad(merge(pack(line)), line.len());
}

/// Putting one square in front adds its occupancy to the line's count.
pub proof fn lemma_count_line_cons(x: Option<u8>, m: Seq<Option<u8>>)
    ensures
        count_line(seq![x] + m) == count_line(m) + (if x is Some {
            1int
        } else {
            0int
        }),
    decreases m.len(),
{
    if m.len() == 0 {
        reveal_with_fuel(pack, 2);
        assert((seq![x] + m) =~= seq![x]);
        assert(seq![x].drop_last() =~= Seq::<Option<u8>>::empty());
        assert(pack(seq![x]) == (match x {
            Some(v) => pack(seq![x].drop_last()).push(v),
            None => pack(seq![x].drop_last()),
        }));
        assert(pack(Seq::<Option<u8>>::empty()).len() == 0);
    } else {
        let l = seq![x] + m;
        assert(l.drop_last() =~= seq![x] + m.drop_last());
        assert(l.last() == m.last());
        lemma_count_line_cons(x, m.drop_last());
        assert(pack(l) == (match l.last() {
            Some(v) => pack(l.drop_last()).push(v),
            None => pack(l.drop_last()),
        }));
        assert(pack(m) == (match m.last() {
            Some(v) => pack(m.drop_last()).push(v),
            None => pack(m.drop_last()),
        }));
    }
}

/// Reversing a line does not change how many tiles it holds.
pub proof fn lemma_count_line_reverse(l: Seq<Option<u8>>)
    ensures
        count_line(l.reverse()) == count_line(l),
    decreases l.len(),
{
    if l.len() > 0 {
        assert(l.reverse() =~= seq![l.last()] + l.drop_last().reverse());
        lemma_count_line_cons(l.last(), l.drop_last().reverse());
        lemma_count_line_reverse(l.drop_last());
    }
}

/// Conservation in one line, for a pass toward the trailing edge.
pub proof fn lemma_collapse_line_rev_count(line: Seq<Option<u8>>)
    ensures
        count_line(collapse_line_rev(line)) + merge_count(pack(line.reverse())) == count_line(
            line,
        ),
        count_line(collapse_line_rev(line)) <= count_line(line),
{
    lemma_collapse_line_count(line.reverse());
    lemma_count_line_reverse(line);
    lemma_count_line_reverse(collapse_line(line.reverse()));
}

/// Conservation for a whole row move (P2 at the grid): sliding every
/// row never increases the number of occupied squares.
pub proof fn lemma_rows_move_count(g0: Seq<Seq<Option<u8>>>, g1: Seq<Seq<Option<u8>>>, rev: bool)
    requires
        g0.len() == g1.len(),
        forall|r: int|
            0 <= r < g0.len() ==> #[trigger] g1[r] == (if rev {
                collapse_line_rev(g0[r])
            } else {
                collapse_line(g0[r])
            }),
    ensures
        count_grid(g1) <= count_grid(g0),
    decreases g0.len(),
{
    if g0.len() > 0 {
        lemma_rows_move_count(g0.drop_last(), g1.drop_last(), rev);
        if rev {
            lemma_collapse_line_rev_count(g0.last());
        } else {
            lemma_collapse_line_count(g0.last());
        }
    }
}

/// The grid read as columns: column `c` becomes row `c`.
pub open spec fn transpose(g: Seq<Seq<Option<u8>>>, w: nat) -> Seq<Seq<Option<u8>>> {
    Seq::new(w, |c: int| col(g, c))
}

/// Pushing one square onto every row adds one line's worth of tiles.
pub proof fn lemma_count_grid_push_each(
    t0: Seq<Seq<Option<u8>>>,
    t1: Seq<Seq<Option<u8>>>,
    x: Seq<Option<u8>>,
)
    requires
        t0.len() == t1.len(),
        x.len() == t0.len(),
        forall|c: int| 0 <= c < t0.len() ==> #[trigger] t1[c] == t0[c].push(x[c]),
    ensures
        count_grid(t1) == count_grid(t0) + count_line(x),
    decreases t0.len(),
{
    if t0.len() > 0 {
        lemma_count_grid_push_each(t0.drop_last(), t1.drop_last(), x.drop_last());
        assert(t1.last() == t0.last().push(x.last()));
        lemma_count_line_push(t0.last(), x.last());
    }
}

/// Tiles counted by column come to the same number as counted by row.
pub proof fn lemma_count_transpose(g: Seq<Seq<Option<u8>>>, w: nat)
    requires
        forall|r: int| 0 <= r < g.len() ==> (#[trigger] g[r]).len() == w,
    ensures
        count_grid(transpose(g, w)) == count_grid(g),
    decreases g.len(),
{
    if g.len() == 0 {
        assert forall|c: int| 0 <= c < w implies count_line(#[trigger] transpose(g, w)[c])
            == 0 by {
            assert(col(g, c) =~= Seq::<Option<u8>>::empty());
        };
        lemma_count_grid_zero(transpose(g, w));
    } else {
        let gp = g.drop_last();
        lemma_count_transpose(gp, w);
        assert forall|c: int| 0 <= c < w implies #[trigger] transpose(g, w)[c] == transpose(
            gp,
            w,
        )[c].push(g.last()[c]) by {
            assert(col(g, c) =~= col(gp, c).push(g.last()[c]));
        };
        lemma_count_grid_push_each(transpose(gp, w), transpose(g, w), g.last());
    }
}

/// Conservation for a whole column move (P2 at the grid): sliding
/// every column never increases the number of occupied squares.
pub proof fn lemma_cols_move_count(g0: Seq<Seq<Option<u8>>>, g1: Seq<Seq<Option<u8>>>, rev: bool)
    requires
        wf_grid(g0),
        wf_grid(g1),
        forall|c: int|
            0 <= c < BOARD_WIDTH ==> #[trigger] col(g1, c) == (if rev {
                collapse_line_rev(col(g0, c))
            } else {
                collapse_line(col(g0, c))
            }),
    ensures
        count_grid(g1) <= count_grid(g0),
{
    lemma_count_transpose(g0, BOARD_WIDTH as nat);
    lemma_count_transpose(g1, BOARD_WIDTH as nat);
    assert forall|c: int| 0 <= c < BOARD_WIDTH implies #[trigger] transpose(
        g1,
        BOARD_WIDTH as nat,
    )[c] == (if rev {
        collapse_line_rev(transpose(g0, BOARD_WIDTH as nat)[c])
    } else {
        collapse_line(transpose(g0, BOARD_WIDTH as nat)[c])
    }) by {};
    lemma_rows_move_count(transpose(g0, BOARD_WIDTH as nat), transpose(g1, BOARD_WIDTH as nat), rev);
}

/// A line with no mergeable adjacent pair passes through the merge
/// unchanged.
pub proof fn lemma_merge_stable(s: Seq<u8>)
    requires
        mergeable_free(s),
    ensures
        merge(s) == s,
    decreases s.len(),
{
    if s.len() == 0 {
        assert(merge(s) =~= s);
    } else {
        assert(!(s.len() >= 2 && s[0] == s[1] && s[0] < MAX_EXPONENT));
        assert forall|i: int| 0 <= i && i + 1 < s.skip(1).len() implies !(#[trigger] s.skip(1)[i]
            == s.skip(1)[i + 1] && s.skip(1)[i] < MAX_EXPONENT) by {
            assert(s.skip(1)[i] == s[i + 1]);
            assert(s.skip(1)[i + 1] == s[i + 2]);
        };
        lemma_merge_stable(s.skip(1));
        assert(merge(s) =~= s);
    }
}

/// Compaction idempotence (P1): a pass whose merge left no adjacent
/// equal pair is a fixed point, so repeating the same move changes
/// nothing. Inputs whose first pass leaves such a pair, as exponents
/// `[1, 1, 2, _]` do, are excluded: there a second pass merges again.
pub proof fn lemma_collapse_line_idempotent(line: Seq<Option<u8>>)
    requires
        mergeable_free(merge(pack(line))),
    ensures
        collapse_line(collapse_line(line)) == collapse_line(line),
{
    let m = merge(pack(line));
    lemma_pack_len(line);
    lemma_merge_len(pack(line));
    lemma_pack_pad(m, line.len());
    lemma_merge_stable(m);
}

/// Compaction idempotence for a whole move: the rows a move produces
/// collapse to themselves once no adjacent equal pair remains, so the
/// second identical move reports no change.
pub proof fn lemma_move_idempotent(g0: Seq<Seq<Option<u8>>>, g1: Seq<Seq<Option<u8>>>)
    requires
        g0.len() == g1.len(),
        forall|r: int| 0 <= r < g0.len() ==> #[trigger] g1[r] == collapse_line(g0[r]),
        forall|r: int| 0 <= r < g0.len() ==> mergeable_free(merge(pack(#[trigger] g0[r]))),
    ensures
        forall|r: int| 0 <= r < g1.len() ==> #[trigger] collapse_line(g1[r]) == g1[r],
{
    assert forall|r: int| 0 <= r < g1.len() implies #[trigger] collapse_line(g1[r]) == g1[r] by {
        lemma_collapse_line_idempotent(g0[r]);
    };
}

/// Compaction invariant, per direction: after a pass, the tiles of a
/// line sit against its leading edge with no gap among them.
pub proof fn lemma_collapse_line_packed(line: Seq<Option<u8>>)
    ensures
        packed_front(collapse_line(line)),
{
}

/// The tiles of a line sit at its back: no occupied square precedes
/// an empty one.
pub open spec fn packed_back(line: Seq<Option<u8>>) -> bool {
    forall|i: int, j: int| 0 <= i < j < line.len() && line[j] is None ==> line[i] is None
}

/// Compaction distributes over putting one square in front.
proof fn lemma_pack_cons(x: Option<u8>, m: Seq<Option<u8>>)
    ensures
        pack(seq![x] + m) == (match x {
            Some(v) => seq![v] + pack(m),
            None => pack(m),
        }),
    decreases m.len(),
{
    if m.len() == 0 {
        reveal_with_fuel(pack, 2);
        assert((seq![x] + m) =~= seq![x]);
        assert(seq![x].drop_last() =~= Seq::<Option<u8>>::empty());
        assert(pack(seq![x]) == (match x {
            Some(v) => pack(seq![x].drop_last()).push(v),
            None => pack(seq![x].drop_last()),
        }));
        match x {
            Some(v) => {
                assert(pack(Seq::<Option<u8>>::empty()).push(v) =~= seq![v] + pack(m));
            },
            None => {},
        }
    } else {
        let l = seq![x] + m;
        assert(l.drop_last() =~= seq![x] + m.drop_last());
        assert(l.last() == m.last());
        lemma_pack_cons(x, m.drop_last());
        assert(pack(l) == (match l.last() {
            Some(v) => pack(l.drop_last()).push(v),
            None => pack(l.drop_last()),
        }));
        assert(pack(m) == (match m.last() {
            Some(v) => pack(m.drop_last()).push(v),
            None => pack(m.drop_last()),
        }));
        match x {
            Some(v) => {
                match m.last() {
                    Some(w) => {
                        assert((seq![v] + pack(m.drop_last())).push(w) =~= seq![v] + pack(
                            m.drop_last(),
                        ).push(w));
                    },
                    None => {},
                }
            },
            None => {},
        }
    }
}

/// Compacting a reversed line reverses the compaction.
pub proof fn lemma_pack_reverse(l: Seq<Option<u8>>)
    ensures
        pack(l.reverse()) == pack(l).reverse(),
    decreases l.len(),
{
    if l.len() == 0 {
        assert(l.reverse() =~= l);
        assert(pack(l).reverse() =~= pack(l));
    } else {
        assert(l.reverse() =~= seq![l.last()] + l.drop_last().reverse());
        lemma_pack_cons(l.last(), l.drop_last().reverse());
        lemma_pack_reverse(l.drop_last());
        match l.last() {
            Some(v) => {
                assert(pack(l) == pack(l.drop_last()).push(v));
                assert(pack(l.drop_last()).push(v).reverse() =~= seq![v] + pack(
                    l.drop_last(),
                ).reverse());
            },
            None => {},
        }
    }
}

/// A line packed toward its front is exactly its compaction laid out
/// from the leading edge.
pub proof fn lemma_packed_front_form(l: Seq<Option<u8>>)
    requires
        packed_front(l),
    ensures
        l == pad(pack(l), l.len()),
    decreases l.len(),
{
    lemma_pack_len(l);
    if l.len() == 0 {
        assert(l =~= pad(pack(l), l.len()));
    } else {
        let dl = l.drop_last();
        let n = l.len() as int;
        lemma_pack_len(dl);
        assert forall|i: int, j: int|
            0 <= i < j < dl.len() && (#[trigger] dl[i]) is None implies (#[trigger] dl[j])
            is None by {
            assert(dl[i] == l[i] && dl[j] == l[j]);
        };
        lemma_packed_front_form(dl);
        assert(forall|i: int| 0 <= i < n - 1 ==> #[trigger] dl[i] == pad(pack(dl), dl.len())[i]);
        match l.last() {
            Some(v) => {
                // a tile at the end means no gap anywhere before it
                assert forall|i: int| 0 <= i < n implies (#[trigger] l[i]) is Some by {
                    if l[i] is None && i < n - 1 {
                        assert(l[n - 1] is None);
                    }
                };
                if pack(dl).len() < dl.len() {
                    let k = pack(dl).len() as int;
                    assert(dl[k] == pad(pack(dl), dl.len())[k]);
                    assert(l[k] is Some);
                    assert(false);
                }
                assert(pack(l) == pack(dl).push(v));
                assert forall|i: int| 0 <= i < n implies #[trigger] l[i] == pad(
                    pack(l),
                    l.len(),
                )[i] by {
                    if i < n - 1 {
                        assert(pack(l)[i] == pack(dl)[i]);
                        assert(l[i] == dl[i]);
                    } else {
                        assert(pack(l)[i] == v);
                    }
                };
                assert(l =~= pad(pack(l), l.len()));
            },
            None => {
                assert(pack(l) == pack(dl));
                assert forall|i: int| 0 <= i < n implies #[trigger] l[i] == pad(
                    pack(l),
                    l.len(),
                )[i] by {
                    if i < n - 1 {
                        assert(l[i] == dl[i]);
                    } else {
                        assert(pack(l).len() <= n - 1);
                    }
                };
                assert(l =~= pad(pack(l), l.len()));
            },
        }
    }
}

/// Reversal keeps a line free of mergeable pairs.
pub proof fn lemma_mergeable_free_reverse(s: Seq<u8>)
    requires
        mergeable_free(s),
    ensures
        mergeable_free(s.reverse()),
{
    assert forall|i: int| 0 <= i && i + 1 < s.reverse().len() implies !(#[trigger] s.reverse()[i]
        == s.reverse()[i + 1] && s.reverse()[i] < MAX_EXPONENT) by {
        let n = s.len() as int;
        assert(s.reverse()[i] == s[n - 1 - i]);
        assert(s.reverse()[i + 1] == s[n - 2 - i]);
        assert(!(s[n - 2 - i] == s[n - 1 - i] && s[n - 2 - i] < MAX_EXPONENT));
    };
}

/// Directional symmetry (P8's exact core): a pass toward one edge and
/// then back toward the other restores any line already packed
/// against the second edge that holds no mergeable pair. A line not
/// so packed cannot be restored: both passes leave it compacted.
pub proof fn lemma_there_and_back_restores(line: Seq<Option<u8>>)
    requires
        packed_back(line),
        mergeable_free(pack(line)),
    ensures
        collapse_line_rev(collapse_line(line)) == line,
{
    let n = line.len();
    let p = pack(line);
    lemma_pack_len(line);
    lemma_merge_stable(p);
    let l1 = collapse_line(line);
    lemma_pack_pad(p, n);
    lemma_pack_reverse(l1);
    lemma_mergeable_free_reverse(p);
    lemma_merge_stable(p.reverse());
    assert(collapse_line(l1.reverse()) == pad(p.reverse(), n));
    assert(packed_front(line.reverse())) by {
        assert forall|i: int, j: int|
            0 <= i < j < line.reverse().len() && line.reverse()[i] is None implies line.reverse()[j]
            is None by {
            let m = line.len() as int;
            assert(line.reverse()[i] == line[m - 1 - i]);
            assert(line.reverse()[j] == line[m - 1 - j]);
        };
    };
    lemma_pack_reverse(line);
    lemma_packed_front_form(line.reverse());
    assert(collapse_line(l1.reverse()) == line.reverse());
    assert(line.reverse().reverse() =~= line);
}

} // verus!
