//! The wave-function-collapse engine: a square board of cells, the
//! minimum-entropy selection of the next cell to fix, weighted random
//! collapse, and constraint propagation with contradiction detection.

use vstd::prelude::*;
use crate::tileset::Tileset;
use crate::model::{
    catalog_compatible, catalog_wf, fits, frame_wf, options_from, spec_neighbour, spec_opposite, sum_u32,
    sum_weights,
    tile_wf, Frame, Tile, WfcError,
};

verus! {

/// Tile `t`, imagined at cell `(r, c)` of board `w`, is compatible with
/// the current candidate set of every neighbour the cell has.
pub open spec fn frame_fits_neighbours(w: WFC, t: Tile, r: int, c: int) -> bool {
    forall|d: int|
        0 <= d < 4 ==> ((#[trigger] spec_neighbour(w.spec_size(), r, c, d)) matches Some(p)
            ==> fits(t, d, w.board_at(p.0, p.1).options@))
}

/// The first `n` candidates of cell `(r, c)`, restricted to the tiles
/// compatible with every neighbour's current candidate set.
pub open spec fn pruned_prefix(w: WFC, r: int, c: int, n: int) -> Seq<Tile>
    decreases n,
{
    if n <= 0 {
        Seq::empty()
    } else {
        let rest = pruned_prefix(w, r, c, n - 1);
        let t = w.board_at(r, c).options@[n - 1];
        if frame_fits_neighbours(w, t, r, c) {
            rest.push(t)
        } else {
            rest
        }
    }
}

/// What pruning leaves of cell `(r, c)`: its candidates restricted to the
/// tiles compatible with every neighbour's current candidate set.
pub open spec fn spec_pruned(w: WFC, r: int, c: int) -> Seq<Tile> {
    pruned_prefix(w, r, c, w.board_at(r, c).options@.len() as int)
}

/// Every tile the pruning keeps is one of the cell's candidates and is
/// compatible with all neighbours; no more tiles are kept than looked at.
pub proof fn lemma_pruned_prefix_props(w: WFC, r: int, c: int, n: int)
    requires
        0 <= n <= w.board_at(r, c).options@.len(),
    ensures
        pruned_prefix(w, r, c, n).len() <= n,
        forall|k: int|
            0 <= k < pruned_prefix(w, r, c, n).len() ==> w.board_at(r, c).options@.contains(
                #[trigger] pruned_prefix(w, r, c, n)[k],
            ) && frame_fits_neighbours(w, pruned_prefix(w, r, c, n)[k], r, c),
    decreases n,
{
    if 0 < n {
        lemma_pruned_prefix_props(w, r, c, n - 1);
    }
}

/// Pruning can only lower the total candidate weight.
pub proof fn lemma_pruned_prefix_sum(w: WFC, r: int, c: int, n: int)
    requires
        0 <= n <= w.board_at(r, c).options@.len(),
    ensures
        sum_weights(pruned_prefix(w, r, c, n)) <= sum_weights(w.board_at(r, c).options@.take(n)),
    decreases n,
{
    if 0 < n {
        lemma_pruned_prefix_sum(w, r, c, n - 1);
        crate::model::lemma_sum_weights_take_step(w.board_at(r, c).options@, n - 1);
        if frame_fits_neighbours(w, w.board_at(r, c).options@[n - 1], r, c) {
            crate::model::lemma_sum_weights_push(
                pruned_prefix(w, r, c, n - 1),
                w.board_at(r, c).options@[n - 1],
            );
        }
    }
}

/// When every candidate is compatible with every neighbour, pruning keeps
/// the candidate list unchanged.
pub proof fn lemma_pruned_prefix_all(w: WFC, r: int, c: int, n: int)
    requires
        0 <= n <= w.board_at(r, c).options@.len(),
        forall|j: int|
            0 <= j < n ==> frame_fits_neighbours(w, #[trigger] w.board_at(r, c).options@[j], r, c),
    ensures
        pruned_prefix(w, r, c, n) == w.board_at(r, c).options@.take(n),
    decreases n,
{
    if n <= 0 {
        assert(pruned_prefix(w, r, c, n) =~= w.board_at(r, c).options@.take(n));
    } else {
        lemma_pruned_prefix_all(w, r, c, n - 1);
        assert(w.board_at(r, c).options@.take(n - 1).push(w.board_at(r, c).options@[n - 1]) =~= w.board_at(
            r,
            c,
        ).options@.take(n));
    }
}

/// Two boards that hold the same candidates at `(r, c)` and judge each of
/// those candidates alike prune the cell to the same sequence.
pub proof fn lemma_pruned_prefix_same(w1: WFC, w2: WFC, r: int, c: int, n: int)
    requires
        0 <= n <= w1.board_at(r, c).options@.len(),
        w1.board_at(r, c).options@ == w2.board_at(r, c).options@,
        forall|j: int|
            0 <= j < n ==> (frame_fits_neighbours(w1, #[trigger] w1.board_at(r, c).options@[j], r, c)
                <==> frame_fits_neighbours(w2, w1.board_at(r, c).options@[j], r, c)),
    ensures
        pruned_prefix(w1, r, c, n) == pruned_prefix(w2, r, c, n),
    decreases n,
{
    if 0 < n {
        lemma_pruned_prefix_same(w1, w2, r, c, n - 1);
    }
}

/// Cell `(r, c)` is an uncollapsed immediate neighbour of `coord` in one
/// of the first `n` directions.
pub open spec fn is_open_neighbour_upto(w: WFC, coord: (usize, usize), r: int, c: int, n: int) -> bool {
    exists|d: int|
        0 <= d < n && #[trigger] spec_neighbour(w.spec_size(), coord.0 as int, coord.1 as int, d)
            == Some((r, c)) && !w.board_at(r, c).collapsed
}

/// Cell `(r, c)` is an uncollapsed immediate neighbour of `coord`: the
/// only cells one propagation step may change.
pub open spec fn is_open_neighbour(w: WFC, coord: (usize, usize), r: int, c: int) -> bool {
    is_open_neighbour_upto(w, coord, r, c, 4)
}

/// Distinct directions lead to distinct neighbouring cells, and never
/// back to the cell itself.
pub proof fn lemma_neighbours_distinct(size: int, r: int, c: int)
    ensures
        forall|d1: int, d2: int|
            0 <= d1 < 4 && 0 <= d2 < 4 && d1 != d2 && #[trigger] spec_neighbour(size, r, c, d1)
                is Some && #[trigger] spec_neighbour(size, r, c, d2) is Some ==> spec_neighbour(
                size,
                r,
                c,
                d1,
            ) != spec_neighbour(size, r, c, d2),
        forall|d: int|
            0 <= d < 4 ==> #[trigger] spec_neighbour(size, r, c, d) != Some((r, c)),
{
}

/// A neighbour of a neighbour of `(r, c)` is either `(r, c)` itself or a
/// cell at distance two, which is no neighbour of `(r, c)`.
pub proof fn lemma_neighbour_of_neighbour(size: int, r: int, c: int, d1: int, d2: int, p: (int, int), q: (int, int))
    requires
        0 <= d1 < 4,
        0 <= d2 < 4,
        spec_neighbour(size, r, c, d1) == Some(p),
        spec_neighbour(size, p.0, p.1, d2) == Some(q),
    ensures
        q == (r, c) || (forall|d3: int|
            0 <= d3 < 4 ==> #[trigger] spec_neighbour(size, r, c, d3) != Some(q)),
{
}

/// A cell whose own candidates and whose neighbours' candidates agree in
/// two board states is pruned to the same sequence in both.
pub proof fn lemma_pruned_same_board(w0: WFC, w1: WFC, r1: int, c1: int)
    requires
        w0.spec_size() == w1.spec_size(),
        w1.board_at(r1, c1) == w0.board_at(r1, c1),
        forall|d2: int|
            0 <= d2 < 4 ==> ((#[trigger] spec_neighbour(w0.spec_size(), r1, c1, d2)) matches Some(q)
                ==> w1.board_at(q.0, q.1) == w0.board_at(q.0, q.1)),
    ensures
        spec_pruned(w1, r1, c1) == spec_pruned(w0, r1, c1),
        forall|t: Tile|
            #[trigger] frame_fits_neighbours(w1, t, r1, c1) == frame_fits_neighbours(w0, t, r1, c1),
{
    assert forall|t: Tile|
        #[trigger] frame_fits_neighbours(w1, t, r1, c1) == frame_fits_neighbours(
        w0,
        t,
        r1,
        c1,
    ) by {
        assert forall|d: int| 0 <= d < 4 implies ((#[trigger] spec_neighbour(
            w1.spec_size(),
            r1,
            c1,
            d,
        )) matches Some(p) ==> fits(t, d, w1.board_at(p.0, p.1).options@) == fits(
            t,
            d,
            w0.board_at(p.0, p.1).options@,
        )) by {
            if spec_neighbour(w1.spec_size(), r1, c1, d) is Some {
                let p = spec_neighbour(w1.spec_size(), r1, c1, d)->Some_0;
                assert(w1.board_at(p.0, p.1) == w0.board_at(p.0, p.1));
            }
        }
    }
    lemma_pruned_prefix_same(w1, w0, r1, c1, w1.board_at(r1, c1).options@.len() as int);
}

/// After one propagation pass has rewritten some uncollapsed neighbours
/// of `coord` to their pruned candidate sets and left every other cell
/// alone, no cell has gained candidates, lost a candidate it did not
/// have, or been un-collapsed.
pub proof fn lemma_step_shrink(w0: WFC, w1: WFC, coord: (usize, usize), n: int)
    requires
        w0.wf(),
        coord.0 < w0.spec_size(),
        coord.1 < w0.spec_size(),
        w1.spec_size() == w0.spec_size(),
        0 <= n <= 4,
        forall|dd: int|
            0 <= dd < n ==> ((#[trigger] spec_neighbour(
                w0.spec_size(),
                coord.0 as int,
                coord.1 as int,
                dd,
            )) matches Some(p) ==> (!w0.board_at(p.0, p.1).collapsed ==> w1.board_at(
                p.0,
                p.1,
            ).options@ == spec_pruned(w0, p.0, p.1))),
        forall|r: int, c: int|
            0 <= r < w0.spec_size() && 0 <= c < w0.spec_size() && !is_open_neighbour_upto(
                w0,
                coord,
                r,
                c,
                n,
            ) ==> #[trigger] w1.board_at(r, c) == w0.board_at(r, c),
    ensures
        forall|r: int, c: int|
            0 <= r < w0.spec_size() && 0 <= c < w0.spec_size() ==> (#[trigger] w1.board_at(
                r,
                c,
            )).options@.len() <= w0.board_at(r, c).options@.len(),
        forall|r: int, c: int, k: int|
            0 <= r < w0.spec_size() && 0 <= c < w0.spec_size() && 0 <= k < w1.board_at(
                r,
                c,
            ).options@.len() ==> w0.board_at(r, c).options@.contains(
                #[trigger] w1.board_at(r, c).options@[k],
            ),
        forall|r: int, c: int|
            0 <= r < w0.spec_size() && 0 <= c < w0.spec_size() && w0.board_at(r, c).collapsed ==> (
            #[trigger] w1.board_at(r, c)).collapsed,
{
    assert forall|r: int, c: int|
        0 <= r < w0.spec_size() && 0 <= c < w0.spec_size() implies (#[trigger] w1.board_at(
        r,
        c,
    )).options@.len() <= w0.board_at(r, c).options@.len() && (forall|k: int|
        0 <= k < w1.board_at(r, c).options@.len() ==> w0.board_at(r, c).options@.contains(
            #[trigger] w1.board_at(r, c).options@[k],
        )) && (w0.board_at(r, c).collapsed ==> w1.board_at(r, c).collapsed) by {
        if is_open_neighbour_upto(w0, coord, r, c, n) {
            let dd = choose|dd: int|
                0 <= dd < n && #[trigger] spec_neighbour(
                    w0.spec_size(),
                    coord.0 as int,
                    coord.1 as int,
                    dd,
                ) == Some((r, c)) && !w0.board_at(r, c).collapsed;
            assert(w1.board_at(r, c).options@ == spec_pruned(w0, r, c));
            lemma_pruned_prefix_props(w0, r, c, w0.board_at(r, c).options@.len() as int);
        }
    }
}

/// How many of the first `n` cells of row `r` are still uncollapsed.
pub open spec fn count_row_upto(w: WFC, r: int, n: int) -> nat
    decreases n,
{
    if n <= 0 {
        0
    } else {
        count_row_upto(w, r, n - 1) + if w.board_at(r, n - 1).collapsed {
            0nat
        } else {
            1nat
        }
    }
}

/// How many cells of the first `m` rows are still uncollapsed.
pub open spec fn count_upto(w: WFC, m: int) -> nat
    decreases m,
{
    if m <= 0 {
        0
    } else {
        count_upto(w, m - 1) + count_row_upto(w, m - 1, w.spec_size())
    }
}

/// How many cells of the whole board are still uncollapsed: the measure
/// that every step of the solve loop lowers.
pub open spec fn count_open(w: WFC) -> nat {
    count_upto(w, w.spec_size())
}

proof fn lemma_count_row_mono(w1: WFC, w2: WFC, r: int, n: int)
    requires
        forall|c: int|
            0 <= c < n ==> ((#[trigger] w1.board_at(r, c)).collapsed ==> w2.board_at(r, c).collapsed),
    ensures
        count_row_upto(w2, r, n) <= count_row_upto(w1, r, n),
    decreases n,
{
    if 0 < n {
        lemma_count_row_mono(w1, w2, r, n - 1);
    }
}

/// Collapsing never goes backward, so the number of uncollapsed cells
/// never grows.
pub proof fn lemma_count_mono(w1: WFC, w2: WFC)
    requires
        w2.spec_size() == w1.spec_size(),
        forall|r: int, c: int|
            0 <= r < w1.spec_size() && 0 <= c < w1.spec_size() ==> ((#[trigger] w1.board_at(
                r,
                c,
            )).collapsed ==> w2.board_at(r, c).collapsed),
    ensures
        count_open(w2) <= count_open(w1),
{
    lemma_count_upto_mono(w1, w2, w1.spec_size());
}

proof fn lemma_count_upto_mono(w1: WFC, w2: WFC, m: int)
    requires
        w2.spec_size() == w1.spec_size(),
        m <= w1.spec_size(),
        forall|r: int, c: int|
            0 <= r < w1.spec_size() && 0 <= c < w1.spec_size() ==> ((#[trigger] w1.board_at(
                r,
                c,
            )).collapsed ==> w2.board_at(r, c).collapsed),
    ensures
        count_upto(w2, m) <= count_upto(w1, m),
    decreases m,
{
    if 0 < m {
        lemma_count_upto_mono(w1, w2, m - 1);
        lemma_count_row_mono(w1, w2, m - 1, w1.spec_size());
    }
}

proof fn lemma_count_row_flip(w1: WFC, w2: WFC, r: int, n: int, c0: int)
    requires
        forall|c: int|
            0 <= c < n ==> ((#[trigger] w1.board_at(r, c)).collapsed ==> w2.board_at(r, c).collapsed),
        0 <= c0 < n,
        !w1.board_at(r, c0).collapsed,
        w2.board_at(r, c0).collapsed,
    ensures
        count_row_upto(w2, r, n) < count_row_upto(w1, r, n),
    decreases n,
{
    if c0 == n - 1 {
        lemma_count_row_mono(w1, w2, r, n - 1);
    } else {
        lemma_count_row_flip(w1, w2, r, n - 1, c0);
    }
}

/// Collapsing one more cell strictly lowers the number of uncollapsed
/// cells.
pub proof fn lemma_count_flip(w1: WFC, w2: WFC, r0: int, c0: int)
    requires
        w2.spec_size() == w1.spec_size(),
        forall|r: int, c: int|
            0 <= r < w1.spec_size() && 0 <= c < w1.spec_size() ==> ((#[trigger] w1.board_at(
                r,
                c,
            )).collapsed ==> w2.board_at(r, c).collapsed),
        0 <= r0 < w1.spec_size(),
        0 <= c0 < w1.spec_size(),
        !w1.board_at(r0, c0).collapsed,
        w2.board_at(r0, c0).collapsed,
    ensures
        count_open(w2) < count_open(w1),
{
    lemma_count_upto_flip(w1, w2, w1.spec_size(), r0, c0);
}

proof fn lemma_count_upto_flip(w1: WFC, w2: WFC, m: int, r0: int, c0: int)
    requires
        w2.spec_size() == w1.spec_size(),
        m <= w1.spec_size(),
        forall|r: int, c: int|
            0 <= r < w1.spec_size() && 0 <= c < w1.spec_size() ==> ((#[trigger] w1.board_at(
                r,
                c,
            )).collapsed ==> w2.board_at(r, c).collapsed),
        0 <= r0 < m,
        0 <= c0 < w1.spec_size(),
        !w1.board_at(r0, c0).collapsed,
        w2.board_at(r0, c0).collapsed,
    ensures
        count_upto(w2, m) < count_upto(w1, m),
    decreases m,
{
    if r0 == m - 1 {
        lemma_count_upto_mono(w1, w2, m - 1);
        lemma_count_row_flip(w1, w2, m - 1, w1.spec_size(), c0);
    } else {
        lemma_count_upto_flip(w1, w2, m - 1, r0, c0);
        lemma_count_row_mono(w1, w2, m - 1, w1.spec_size());
    }
}

/// Copy a list of tiles element by element.
fn copy_tiles(v: &Vec<Tile>) -> (r: Vec<Tile>)
    ensures
        r@ == v@,
{
    let mut r: Vec<Tile> = Vec::new();
    let mut i: usize = 0;
    while i < v.len()
        invariant
            i <= v@.len(),
            r@ =~= v@.take(i as int),
        decreases v@.len() - i,
    {
        r.push(v[i]);
        proof {
            assert(r@ =~= v@.take(i + 1));
        }
        i += 1;
    }
    proof {
        assert(v@.take(v@.len() as int) =~= v@);
    }
    r
}

/// Decide whether a catalog is acceptable input for a solve: non-empty,
/// every weight positive, and the total weight within the sampler's
/// machine limit.
pub fn check_catalog(tiles: &Vec<Tile>) -> (b: bool)
    ensures
        b == catalog_wf(tiles@),
{
    if tiles.len() == 0 {
        return false;
    }
    let mut sum: u64 = 0;
    let mut i: usize = 0;
    while i < tiles.len()
        invariant
            i <= tiles@.len(),
            forall|k: int| 0 <= k < i ==> tile_wf(#[trigger] tiles@[k]),
            sum == sum_weights(tiles@.take(i as int)),
            sum <= u32::MAX,
        decreases tiles@.len() - i,
    {
        let w = tiles[i].weight;
        if w == 0 {
            return false;
        }
        proof {
            crate::model::lemma_sum_weights_take_step(tiles@, i as int);
        }
        let s2 = sum + w as u64;
        if s2 > u32::MAX as u64 {
            proof {
                crate::model::lemma_sum_weights_prefix(tiles@, i + 1);
            }
            return false;
        }
        sum = s2;
        i += 1;
    }
    proof {
        assert(tiles@.take(tiles@.len() as int) =~= tiles@);
    }
    true
}

/// The solver: the immutable tile catalog, the board it collapses, the
/// board's side length, a flag that becomes true exactly when no cell
/// remains uncollapsed, and the random source of the solve.
pub struct WFC {
    tiles: Vec<Tile>,
    board: Vec<Vec<Frame>>,
    size: usize,
    pub done: bool,
    rng: rand::rngs::StdRng,
}

impl WFC {
    /// The tile catalog of this solver.
    pub closed spec fn spec_tiles(&self) -> Seq<Tile> {
        self.tiles@
    }

    /// The side length of the square board.
    pub closed spec fn spec_size(&self) -> int {
        self.size as int
    }

    /// The cell at row `r`, column `c`.
    pub closed spec fn board_at(&self, r: int, c: int) -> Frame {
        self.board@[r]@[c]
    }

    /// The completion flag.
    pub closed spec fn spec_done(&self) -> bool {
        self.done
    }

    /// The solver's invariant: a well-formed catalog, a square board of
    /// well-formed cells, and the completion flag only raised once every
    /// cell is collapsed.
    pub closed spec fn wf(&self) -> bool {
        &&& catalog_wf(self.tiles@)
        &&& self.board@.len() == self.size
        &&& forall|r: int| 0 <= r < self.size ==> (#[trigger] self.board@[r])@.len() == self.size
        &&& forall|r: int, c: int|
            0 <= r < self.size && 0 <= c < self.size ==> frame_wf(
                #[trigger] self.board@[r]@[c],
                self.tiles@,
                r,
                c,
            )
        &&& (self.done ==> forall|r: int, c: int|
            0 <= r < self.size && 0 <= c < self.size ==> (#[trigger] self.board@[r]@[c]).collapsed)
    }

    /// Map a direction index to its opposite: north <-> south,
    /// west <-> east. Direction indices outside the four cardinal values
    /// are an internal invariant violation, excluded by precondition.
    pub fn get_opposite_direction(&self, direction: usize) -> (r: usize)
        requires
            direction < 4,
        ensures
            r == spec_opposite(direction as int),
            r < 4,
    {
        match direction {
            0 => 1,
            1 => 0,
            2 => 3,
            _ => 2,
        }
    }

    /// The four neighbour coordinates of `coord`, in direction order
    /// north, south, west, east; an entry is `None` when `coord` lies on
    /// that edge of the board.
    pub fn get_tiles_neighbours(&self, coord: (usize, usize)) -> (r: Vec<Option<(usize, usize)>>)
        requires
            self.wf(),
            coord.0 < self.spec_size(),
            coord.1 < self.spec_size(),
        ensures
            r@.len() == 4,
            forall|d: int|
                0 <= d < 4 ==> #[trigger] r@[d] == match spec_neighbour(
                    self.spec_size(),
                    coord.0 as int,
                    coord.1 as int,
                    d,
                ) {
                    Some(p) => Some((p.0 as usize, p.1 as usize)),
                    None => None::<(usize, usize)>,
                },
    {
        let mut neighbours: Vec<Option<(usize, usize)>> = Vec::new();
        if coord.0 == 0 {
            neighbours.push(None);
        } else {
            neighbours.push(Some((coord.0 - 1, coord.1)));
        }
        if coord.0 == self.size - 1 {
            neighbours.push(None);
        } else {
            neighbours.push(Some((coord.0 + 1, coord.1)));
        }
        if coord.1 == 0 {
            neighbours.push(None);
        } else {
            neighbours.push(Some((coord.0, coord.1 - 1)));
        }
        if coord.1 == self.size - 1 {
            neighbours.push(None);
        } else {
            neighbours.push(Some((coord.0, coord.1 + 1)));
        }
        neighbours
    }

    /// Is tile `t`, imagined at `coord`, compatible with the current
    /// candidate set of each of the neighbours listed in `nbs`?
    fn keeps_tile(&self, t: &Tile, coord: (usize, usize), nbs: &Vec<Option<(usize, usize)>>) -> (b:
        bool)
        requires
            self.wf(),
            coord.0 < self.spec_size(),
            coord.1 < self.spec_size(),
            nbs@.len() == 4,
            forall|d: int|
                0 <= d < 4 ==> #[trigger] nbs@[d] == match spec_neighbour(
                    self.spec_size(),
                    coord.0 as int,
                    coord.1 as int,
                    d,
                ) {
                    Some(p) => Some((p.0 as usize, p.1 as usize)),
                    None => None::<(usize, usize)>,
                },
        ensures
            b == frame_fits_neighbours(*self, *t, coord.0 as int, coord.1 as int),
    {
        let mut d: usize = 0;
        let mut ok = true;
        while d < 4
            invariant
                self.wf(),
                coord.0 < self.spec_size(),
                coord.1 < self.spec_size(),
                nbs@.len() == 4,
                forall|dd: int|
                    0 <= dd < 4 ==> #[trigger] nbs@[dd] == match spec_neighbour(
                        self.spec_size(),
                        coord.0 as int,
                        coord.1 as int,
                        dd,
                    ) {
                        Some(p) => Some((p.0 as usize, p.1 as usize)),
                        None => None::<(usize, usize)>,
                    },
                d <= 4,
                ok == (forall|dd: int|
                    0 <= dd < d ==> ((#[trigger] spec_neighbour(
                        self.spec_size(),
                        coord.0 as int,
                        coord.1 as int,
                        dd,
                    )) matches Some(p) ==> fits(*t, dd, self.board_at(p.0, p.1).options@))),
            decreases 4 - d,
        {
            match nbs[d] {
                Some(nc) => {
                    let opp = self.get_opposite_direction(d);
                    if !tile_fits(t, d, opp, &self.board[nc.0][nc.1].options) {
                        ok = false;
                    }
                },
                None => {},
            }
            d += 1;
        }
        ok
    }

    /// Prune the candidate set of the cell at `frame_coord` against the
    /// candidate sets its neighbours currently expose: a candidate stays
    /// exactly when, toward each existing neighbour, it is compatible with
    /// at least one of that neighbour's candidates. A cell left with a
    /// single candidate is thereby collapsed; a cell that would be left
    /// with none is a contradiction, reported without changing the board.
    pub fn remove_tile_options(&mut self, frame_coord: (usize, usize)) -> (res: Result<
        (),
        WfcError,
    >)
        requires
            old(self).wf(),
            frame_coord.0 < old(self).spec_size(),
            frame_coord.1 < old(self).spec_size(),
        ensures
            final (self).wf(),
            final (self).spec_size() == old(self).spec_size(),
            final (self).spec_tiles() == old(self).spec_tiles(),
            final (self).spec_done() == old(self).spec_done(),
            forall|r: int, c: int|
                0 <= r < old(self).spec_size() && 0 <= c < old(self).spec_size() && !(r
                    == frame_coord.0 as int && c == frame_coord.1 as int)
                    ==> #[trigger] final (self).board_at(r, c) == old(self).board_at(r, c),
            res is Ok <==> 1 <= spec_pruned(
                *old(self),
                frame_coord.0 as int,
                frame_coord.1 as int,
            ).len(),
            res is Ok ==> final (self).board_at(frame_coord.0 as int, frame_coord.1 as int).options@
                == spec_pruned(*old(self), frame_coord.0 as int, frame_coord.1 as int),
            res is Ok ==> final (self).board_at(frame_coord.0 as int, frame_coord.1 as int).collapsed
                == (old(self).board_at(frame_coord.0 as int, frame_coord.1 as int).collapsed
                || spec_pruned(
                *old(self),
                frame_coord.0 as int,
                frame_coord.1 as int,
            ).len() == 1),
            res is Ok ==> final (self).board_at(frame_coord.0 as int, frame_coord.1 as int).coord
                == old(self).board_at(frame_coord.0 as int, frame_coord.1 as int).coord,
            res is Err ==> *final (self) == *old(self) && res == Err::<(), WfcError>(
                WfcError::Contradiction,
            ),
            catalog_compatible(old(self).spec_tiles()) ==> res is Ok,
            old(self).spec_size() == 1 ==> res is Ok,
    {
        let ghost w0 = *self;
        let r0 = frame_coord.0;
        let c0 = frame_coord.1;
        let nbs = self.get_tiles_neighbours(frame_coord);
        let n = self.board[r0][c0].options.len();
        let mut new_options: Vec<Tile> = Vec::new();
        let mut i: usize = 0;
        while i < n
            invariant
                *self == w0,
                w0 == *old(self),
                self.wf(),
                frame_coord.0 == r0,
                frame_coord.1 == c0,
                r0 < self.spec_size(),
                c0 < self.spec_size(),
                n == self.board_at(r0 as int, c0 as int).options@.len(),
                nbs@.len() == 4,
                forall|d: int|
                    0 <= d < 4 ==> #[trigger] nbs@[d] == match spec_neighbour(
                        self.spec_size(),
                        r0 as int,
                        c0 as int,
                        d,
                    ) {
                        Some(p) => Some((p.0 as usize, p.1 as usize)),
                        None => None::<(usize, usize)>,
                    },
                i <= n,
                new_options@ == pruned_prefix(w0, r0 as int, c0 as int, i as int),
            decreases n - i,
        {
            let t = self.board[r0][c0].options[i];
            let keep = self.keeps_tile(&t, frame_coord, &nbs);
            proof {
                let ii = i as int;
                assert(w0.board_at(r0 as int, c0 as int).options@[ii] == t);
                assert(pruned_prefix(w0, r0 as int, c0 as int, ii + 1)
                    == if frame_fits_neighbours(w0, t, r0 as int, c0 as int) {
                    pruned_prefix(w0, r0 as int, c0 as int, ii).push(t)
                } else {
                    pruned_prefix(w0, r0 as int, c0 as int, ii)
                });
            }
            if keep {
                new_options.push(t);
            }
            i += 1;
        }
        assert(new_options@ == spec_pruned(w0, r0 as int, c0 as int));
        proof {
            if catalog_compatible(w0.spec_tiles()) || w0.spec_size() == 1 {
                assert forall|j: int| 0 <= j < n implies frame_fits_neighbours(
                    w0,
                    #[trigger] w0.board_at(r0 as int, c0 as int).options@[j],
                    r0 as int,
                    c0 as int,
                ) by {
                    let t = w0.board_at(r0 as int, c0 as int).options@[j];
                    assert forall|d: int| 0 <= d < 4 implies ((#[trigger] spec_neighbour(
                        w0.spec_size(),
                        r0 as int,
                        c0 as int,
                        d,
                    )) matches Some(p) ==> fits(t, d, w0.board_at(p.0, p.1).options@)) by {
                        if spec_neighbour(w0.spec_size(), r0 as int, c0 as int, d) is Some {
                            let p = spec_neighbour(w0.spec_size(), r0 as int, c0 as int, d)->Some_0;
                            let nopts = w0.board_at(p.0, p.1).options@;
                            assert(w0.spec_size() != 1);  // a 1 x 1 board has no neighbours
                            let tiles = w0.spec_tiles();
                            assert(tiles.contains(t));
                            assert(tiles.contains(nopts[0]));
                            let j1 = choose|j1: int| 0 <= j1 < tiles.len() && tiles[j1] == t;
                            let k1 = choose|k1: int|
                                0 <= k1 < tiles.len() && tiles[k1] == nopts[0];
                            assert(tiles[j1].rules[d].border_type == tiles[k1].rules[spec_opposite(
                                d,
                            )].border_type);
                            assert(fits(t, d, nopts));
                        }
                    }
                }
                lemma_pruned_prefix_all(w0, r0 as int, c0 as int, n as int);
                assert(w0.board_at(r0 as int, c0 as int).options@.take(n as int) =~= w0.board_at(
                    r0 as int,
                    c0 as int,
                ).options@);
            }
        }
        if new_options.len() == 0 {
            return Err(WfcError::Contradiction);
        }
        proof {
            lemma_pruned_prefix_props(w0, r0 as int, c0 as int, n as int);
            lemma_pruned_prefix_sum(w0, r0 as int, c0 as int, n as int);
            assert(w0.board_at(r0 as int, c0 as int).options@.take(n as int) =~= w0.board_at(
                r0 as int,
                c0 as int,
            ).options@);
        }
        let make_collapsed = new_options.len() == 1;
        let fr = &mut self.board[r0][c0];
        fr.options = new_options;
        if make_collapsed {
            fr.collapsed = true;
        }
        Ok(())
    }

    /// Propagate the constraint of the just-collapsed cell at `coord`: each
    /// uncollapsed immediate neighbour is pruned against the candidate sets
    /// of all of its own neighbours (so the pruning reaches two hops from
    /// `coord`, and no further — deliberately local, not full
    /// arc-consistency). On success every candidate such a neighbour keeps
    /// is compatible with every cell around it, which is the local form of
    /// adjacency consistency; a neighbour pruned to a single candidate is
    /// collapsed as a side effect and is not cascaded from. Candidate sets
    /// never grow and collapsedness is never undone. A neighbour that would
    /// be left without candidates is a contradiction; with a universally
    /// compatible catalog, or on a board without neighbours, propagation
    /// always succeeds.
    pub fn propagate(&mut self, coord: (usize, usize)) -> (res: Result<(), WfcError>)
        requires
            old(self).wf(),
            coord.0 < old(self).spec_size(),
            coord.1 < old(self).spec_size(),
        ensures
            final (self).wf(),
            final (self).spec_size() == old(self).spec_size(),
            final (self).spec_tiles() == old(self).spec_tiles(),
            final (self).spec_done() == old(self).spec_done(),
            forall|r: int, c: int|
                0 <= r < old(self).spec_size() && 0 <= c < old(self).spec_size()
                    && !is_open_neighbour(*old(self), coord, r, c) ==> #[trigger] final (
                self).board_at(r, c) == old(self).board_at(r, c),
            forall|r: int, c: int|
                0 <= r < old(self).spec_size() && 0 <= c < old(self).spec_size() ==> (#[trigger] final (
                self).board_at(r, c)).options@.len() <= old(self).board_at(r, c).options@.len(),
            forall|r: int, c: int, k: int|
                0 <= r < old(self).spec_size() && 0 <= c < old(self).spec_size() && 0 <= k < final (
                self).board_at(r, c).options@.len() ==> old(self).board_at(r, c).options@.contains(
                    #[trigger] final (self).board_at(r, c).options@[k],
                ),
            forall|r: int, c: int|
                0 <= r < old(self).spec_size() && 0 <= c < old(self).spec_size() && old(
                    self,
                ).board_at(r, c).collapsed ==> (#[trigger] final (self).board_at(r, c)).collapsed,
            res is Ok ==> forall|d: int|
                0 <= d < 4 ==> ((#[trigger] spec_neighbour(
                    old(self).spec_size(),
                    coord.0 as int,
                    coord.1 as int,
                    d,
                )) matches Some(p) ==> (!old(self).board_at(p.0, p.1).collapsed ==> final (
                self).board_at(p.0, p.1).options@ == spec_pruned(*old(self), p.0, p.1) && final (
                self).board_at(p.0, p.1).collapsed == (spec_pruned(*old(self), p.0, p.1).len()
                    == 1) && final (self).board_at(p.0, p.1).coord == old(self).board_at(
                    p.0,
                    p.1,
                ).coord)),
            res is Ok <==> forall|d: int|
                0 <= d < 4 ==> ((#[trigger] spec_neighbour(
                    old(self).spec_size(),
                    coord.0 as int,
                    coord.1 as int,
                    d,
                )) matches Some(p) ==> (!old(self).board_at(p.0, p.1).collapsed ==> 1
                    <= spec_pruned(*old(self), p.0, p.1).len())),
            // local adjacency consistency: every candidate a pruned
            // neighbour keeps is compatible with every cell around it
            res is Ok ==> forall|d: int|
                0 <= d < 4 ==> ((#[trigger] spec_neighbour(
                    old(self).spec_size(),
                    coord.0 as int,
                    coord.1 as int,
                    d,
                )) matches Some(p) ==> (!old(self).board_at(p.0, p.1).collapsed ==> forall|k: int|
                    0 <= k < final (self).board_at(p.0, p.1).options@.len()
                        ==> frame_fits_neighbours(
                        *old(self),
                        #[trigger] final (self).board_at(p.0, p.1).options@[k],
                        p.0,
                        p.1,
                    ))),
            res is Err ==> res == Err::<(), WfcError>(WfcError::Contradiction),
            catalog_compatible(old(self).spec_tiles()) ==> res is Ok,
            old(self).spec_size() == 1 ==> res is Ok,
    {
        let ghost w0 = *self;
        let nbs = self.get_tiles_neighbours(coord);
        let mut d: usize = 0;
        while d < 4
            invariant
                w0 == *old(self),
                w0.wf(),
                self.wf(),
                coord.0 < w0.spec_size(),
                coord.1 < w0.spec_size(),
                self.spec_size() == w0.spec_size(),
                self.spec_tiles() == w0.spec_tiles(),
                self.spec_done() == w0.spec_done(),
                nbs@.len() == 4,
                forall|dd: int|
                    0 <= dd < 4 ==> #[trigger] nbs@[dd] == match spec_neighbour(
                        w0.spec_size(),
                        coord.0 as int,
                        coord.1 as int,
                        dd,
                    ) {
                        Some(p) => Some((p.0 as usize, p.1 as usize)),
                        None => None::<(usize, usize)>,
                    },
                d <= 4,
                forall|dd: int|
                    0 <= dd < d ==> ((#[trigger] spec_neighbour(
                        w0.spec_size(),
                        coord.0 as int,
                        coord.1 as int,
                        dd,
                    )) matches Some(p) ==> (!w0.board_at(p.0, p.1).collapsed ==> self.board_at(
                        p.0,
                        p.1,
                    ).options@ == spec_pruned(w0, p.0, p.1) && 1 <= spec_pruned(w0, p.0, p.1).len()
                        && self.board_at(p.0, p.1).collapsed == (spec_pruned(w0, p.0, p.1).len()
                        == 1) && self.board_at(p.0, p.1).coord == w0.board_at(p.0, p.1).coord)),
                forall|r: int, c: int|
                    0 <= r < w0.spec_size() && 0 <= c < w0.spec_size() && !is_open_neighbour_upto(
                        w0,
                        coord,
                        r,
                        c,
                        d as int,
                    ) ==> #[trigger] self.board_at(r, c) == w0.board_at(r, c),
            decreases 4 - d,
        {
            let nb = nbs[d];
            match nb {
                Some(nc) => {
                    proof {
                        lemma_neighbours_distinct(w0.spec_size(), coord.0 as int, coord.1 as int);
                        assert(spec_neighbour(w0.spec_size(), coord.0 as int, coord.1 as int, d as int)
                            == Some((nc.0 as int, nc.1 as int)));
                        assert(!is_open_neighbour_upto(w0, coord, nc.0 as int, nc.1 as int, d as int));
                        assert(self.board_at(nc.0 as int, nc.1 as int) == w0.board_at(
                            nc.0 as int,
                            nc.1 as int,
                        ));
                    }
                    if !self.board[nc.0][nc.1].collapsed {
                        let ghost w_pre = *self;
                        proof {
                            // every neighbour of `nc` is `coord` itself or lies two
                            // steps from `coord`; neither kind has been touched
                            assert forall|d2: int| 0 <= d2 < 4 implies ((#[trigger] spec_neighbour(
                                w0.spec_size(),
                                nc.0 as int,
                                nc.1 as int,
                                d2,
                            )) matches Some(q) ==> w_pre.board_at(q.0, q.1) == w0.board_at(
                                q.0,
                                q.1,
                            )) by {
                                if spec_neighbour(w0.spec_size(), nc.0 as int, nc.1 as int, d2)
                                    is Some {
                                    let q = spec_neighbour(
                                        w0.spec_size(),
                                        nc.0 as int,
                                        nc.1 as int,
                                        d2,
                                    )->Some_0;
                                    lemma_neighbour_of_neighbour(
                                        w0.spec_size(),
                                        coord.0 as int,
                                        coord.1 as int,
                                        d as int,
                                        d2,
                                        (nc.0 as int, nc.1 as int),
                                        q,
                                    );
                                    if q == (coord.0 as int, coord.1 as int) {
                                        assert(!is_open_neighbour_upto(w0, coord, q.0, q.1, d as int));
                                    } else {
                                        assert(!is_open_neighbour_upto(w0, coord, q.0, q.1, d as int));
                                    }
                                }
                            }
                            lemma_pruned_same_board(w0, w_pre, nc.0 as int, nc.1 as int);
                            assert(spec_pruned(w_pre, nc.0 as int, nc.1 as int) == spec_pruned(
                                w0,
                                nc.0 as int,
                                nc.1 as int,
                            ));
                        }
                        let step = self.remove_tile_options(nc);
                        match step {
                            Ok(()) => {
                                proof {
                                    lemma_pruned_prefix_props(
                                        w0,
                                        nc.0 as int,
                                        nc.1 as int,
                                        w0.board_at(nc.0 as int, nc.1 as int).options@.len() as int,
                                    );
                                }
                            },
                            Err(e) => {
                                proof {
                                    assert(spec_pruned(w0, nc.0 as int, nc.1 as int).len() == 0);
                                    lemma_step_shrink(w0, *self, coord, d as int);
                                }
                                return Err(e);
                            },
                        }
                    }
                },
                None => {},
            }
            d += 1;
        }
        proof {
            lemma_step_shrink(w0, *self, coord, 4);
            assert forall|d: int| 0 <= d < 4 implies ((#[trigger] spec_neighbour(
                w0.spec_size(),
                coord.0 as int,
                coord.1 as int,
                d,
            )) matches Some(p) ==> (!w0.board_at(p.0, p.1).collapsed ==> forall|k: int|
                0 <= k < self.board_at(p.0, p.1).options@.len() ==> frame_fits_neighbours(
                    w0,
                    #[trigger] self.board_at(p.0, p.1).options@[k],
                    p.0,
                    p.1,
                ))) by {
                if spec_neighbour(w0.spec_size(), coord.0 as int, coord.1 as int, d) is Some {
                    let p = spec_neighbour(w0.spec_size(), coord.0 as int, coord.1 as int, d)->Some_0;
                    if !w0.board_at(p.0, p.1).collapsed {
                        lemma_pruned_prefix_props(
                            w0,
                            p.0,
                            p.1,
                            w0.board_at(p.0, p.1).options@.len() as int,
                        );
                    }
                }
            }
        }
        Ok(())
    }

    /// Choose the next cell to fix: scan the whole board, gather every
    /// uncollapsed cell whose candidate count equals the minimum over all
    /// uncollapsed cells, and pick one of those uniformly at random — the
    /// random tie-break avoids positional bias. `None` exactly when every
    /// cell is already collapsed. Only the random source is advanced; the
    /// board is left untouched.
    pub fn get_lowest_entropy(&mut self) -> (res: Option<(usize, usize)>)
        requires
            old(self).wf(),
        ensures
            final (self).wf(),
            final (self).spec_size() == old(self).spec_size(),
            final (self).spec_tiles() == old(self).spec_tiles(),
            final (self).spec_done() == old(self).spec_done(),
            forall|r: int, c: int|
                0 <= r < old(self).spec_size() && 0 <= c < old(self).spec_size() ==> #[trigger] final (
                self).board_at(r, c) == old(self).board_at(r, c),
            match res {
                Some(rc) => {
                    &&& rc.0 < old(self).spec_size()
                    &&& rc.1 < old(self).spec_size()
                    &&& !old(self).board_at(rc.0 as int, rc.1 as int).collapsed
                    &&& forall|r: int, c: int|
                        0 <= r < old(self).spec_size() && 0 <= c < old(self).spec_size() && !old(
                            self,
                        ).board_at(r, c).collapsed ==> old(self).board_at(
                            rc.0 as int,
                            rc.1 as int,
                        ).options@.len() <= (#[trigger] old(self).board_at(r, c)).options@.len()
                },
                None => forall|r: int, c: int|
                    0 <= r < old(self).spec_size() && 0 <= c < old(self).spec_size() ==> (
                    #[trigger] old(self).board_at(r, c)).collapsed,
            },
    {
        let mut chosen: Vec<(usize, usize)> = Vec::new();
        let mut best: usize = usize::MAX;
        let mut i: usize = 0;
        while i < self.size
            invariant
                *self == *old(self),
                self.wf(),
                i <= self.spec_size(),
                forall|k: int|
                    0 <= k < chosen@.len() ==> {
                        let rc = #[trigger] chosen@[k];
                        &&& rc.0 < i
                        &&& rc.1 < self.spec_size()
                        &&& !self.board_at(rc.0 as int, rc.1 as int).collapsed
                        &&& self.board_at(rc.0 as int, rc.1 as int).options@.len() == best
                    },
                forall|r: int, c: int|
                    0 <= r < i && 0 <= c < self.spec_size() && !(#[trigger] self.board_at(
                        r,
                        c,
                    )).collapsed ==> best <= self.board_at(r, c).options@.len(),
                chosen@.len() == 0 ==> best == usize::MAX,
                chosen@.len() == 0 ==> forall|r: int, c: int|
                    0 <= r < i && 0 <= c < self.spec_size() ==> (#[trigger] self.board_at(
                        r,
                        c,
                    )).collapsed,
            decreases self.spec_size() - i,
        {
            let mut j: usize = 0;
            while j < self.size
                invariant
                    *self == *old(self),
                    self.wf(),
                    i < self.spec_size(),
                    j <= self.spec_size(),
                    forall|k: int|
                        0 <= k < chosen@.len() ==> {
                            let rc = #[trigger] chosen@[k];
                            &&& (rc.0 < i || (rc.0 == i && rc.1 < j))
                            &&& rc.0 < self.spec_size()
                            &&& rc.1 < self.spec_size()
                            &&& !self.board_at(rc.0 as int, rc.1 as int).collapsed
                            &&& self.board_at(rc.0 as int, rc.1 as int).options@.len() == best
                        },
                    forall|r: int, c: int|
                        0 <= r < self.spec_size() && 0 <= c < self.spec_size() && (r < i || (r == i
                            && c < j)) && !(#[trigger] self.board_at(r, c)).collapsed ==> best
                            <= self.board_at(r, c).options@.len(),
                    chosen@.len() == 0 ==> best == usize::MAX,
                    chosen@.len() == 0 ==> forall|r: int, c: int|
                        0 <= r < self.spec_size() && 0 <= c < self.spec_size() && (r < i || (r == i
                            && c < j)) ==> (#[trigger] self.board_at(r, c)).collapsed,
                decreases self.spec_size() - j,
            {
                if !self.board[i][j].collapsed {
                    let entropy = self.board[i][j].options.len();
                    if entropy < best {
                        chosen = Vec::new();
                        chosen.push((i, j));
                        best = entropy;
                    } else if entropy == best {
                        chosen.push((i, j));
                    }
                }
                j += 1;
            }
            i += 1;
        }
        if chosen.len() > 0 {
            let k = crate::randsrc::random_below(&mut self.rng, chosen.len());
            Some(chosen[k])
        } else {
            None
        }
    }

    /// Fix the next cell: select a minimum-entropy uncollapsed cell and
    /// collapse it to a single candidate chosen by weighted random
    /// sampling, returning its coordinate to drive propagation. When no
    /// uncollapsed cell remains, raise the completion flag, perform no
    /// collapse and return `None`.
    pub fn collapse(&mut self) -> (res: Option<(usize, usize)>)
        requires
            old(self).wf(),
        ensures
            final (self).wf(),
            final (self).spec_size() == old(self).spec_size(),
            final (self).spec_tiles() == old(self).spec_tiles(),
            match res {
                Some(rc) => {
                    &&& rc.0 < old(self).spec_size()
                    &&& rc.1 < old(self).spec_size()
                    &&& !old(self).board_at(rc.0 as int, rc.1 as int).collapsed
                    &&& forall|r: int, c: int|
                        0 <= r < old(self).spec_size() && 0 <= c < old(self).spec_size() && !old(
                            self,
                        ).board_at(r, c).collapsed ==> old(self).board_at(
                            rc.0 as int,
                            rc.1 as int,
                        ).options@.len() <= (#[trigger] old(self).board_at(r, c)).options@.len()
                    &&& final (self).board_at(rc.0 as int, rc.1 as int).collapsed
                    &&& final (self).board_at(rc.0 as int, rc.1 as int).options@.len() == 1
                    &&& old(self).board_at(rc.0 as int, rc.1 as int).options@.contains(
                        final (self).board_at(rc.0 as int, rc.1 as int).options@[0],
                    )
                    &&& final (self).board_at(rc.0 as int, rc.1 as int).coord == old(
                        self,
                    ).board_at(rc.0 as int, rc.1 as int).coord
                    &&& forall|r: int, c: int|
                        0 <= r < old(self).spec_size() && 0 <= c < old(self).spec_size() && !(r
                            == rc.0 as int && c == rc.1 as int) ==> #[trigger] final (
                        self).board_at(r, c) == old(self).board_at(r, c)
                    &&& final (self).spec_done() == old(self).spec_done()
                },
                None => {
                    &&& forall|r: int, c: int|
                        0 <= r < old(self).spec_size() && 0 <= c < old(self).spec_size() ==> (
                        #[trigger] old(self).board_at(r, c)).collapsed
                    &&& final (self).spec_done()
                    &&& forall|r: int, c: int|
                        0 <= r < old(self).spec_size() && 0 <= c < old(self).spec_size()
                            ==> #[trigger] final (self).board_at(r, c) == old(self).board_at(r, c)
                },
            },
    {
        match self.get_lowest_entropy() {
            Some(coord) => {
                let ghost w1 = *self;
                let n = self.board[coord.0][coord.1].options.len();
                let mut weights: Vec<u32> = Vec::new();
                let mut i: usize = 0;
                while i < n
                    invariant
                        *self == w1,
                        self.wf(),
                        coord.0 < self.spec_size(),
                        coord.1 < self.spec_size(),
                        n == self.board_at(coord.0 as int, coord.1 as int).options@.len(),
                        i <= n,
                        weights@.len() == i,
                        forall|k: int|
                            0 <= k < i ==> #[trigger] weights@[k] == self.board_at(
                                coord.0 as int,
                                coord.1 as int,
                            ).options@[k].weight,
                        sum_u32(weights@) == sum_weights(
                            self.board_at(coord.0 as int, coord.1 as int).options@.take(i as int),
                        ),
                    decreases n - i,
                {
                    let w = self.board[coord.0][coord.1].options[i].weight;
                    proof {
                        crate::model::lemma_sum_weights_take_step(
                            self.board_at(coord.0 as int, coord.1 as int).options@,
                            i as int,
                        );
                        crate::model::lemma_sum_u32_push(weights@, w);
                    }
                    weights.push(w);
                    i += 1;
                }
                proof {
                    let opts = self.board_at(coord.0 as int, coord.1 as int).options@;
                    assert(opts.take(n as int) =~= opts);
                    assert forall|k: int| 0 <= k < weights@.len() implies 1 <= weights@[k] by {
                        assert(self.spec_tiles().contains(opts[k]));
                        let j = choose|j: int|
                            0 <= j < self.spec_tiles().len() && self.spec_tiles()[j] == opts[k];
                        assert(tile_wf(self.spec_tiles()[j]));
                    }
                }
                let idx = crate::randsrc::weighted_index(&mut self.rng, &weights);
                let chosen_tile = self.board[coord.0][coord.1].options[idx];
                let mut single: Vec<Tile> = Vec::new();
                single.push(chosen_tile);
                proof {
                    assert(self.spec_tiles().contains(chosen_tile));
                    assert(sum_weights(single@) == chosen_tile.weight) by {
                        assert(single@.drop_last() =~= Seq::<Tile>::empty());
                        assert(sum_weights(Seq::<Tile>::empty()) == 0);
                        assert(single@.last() == chosen_tile);
                    }
                }
                let ghost idx_g = idx as int;
                let fr = &mut self.board[coord.0][coord.1];
                fr.collapse(single);
                proof {
                    let r0 = coord.0 as int;
                    let c0 = coord.1 as int;
                    let tiles = self.spec_tiles();
                    // the selected cell was uncollapsed, so the solve was not done
                    if old(self).spec_done() {
                        assert(old(self).board_at(r0, c0).collapsed);
                    }
                    assert(self.board_at(r0, c0).options@.len() == 1);
                    assert(self.board_at(r0, c0).options@[0] == chosen_tile);
                    assert(w1.board_at(r0, c0) == old(self).board_at(r0, c0));
                    assert(old(self).board_at(r0, c0).options@[idx_g] == chosen_tile);
                    assert(old(self).board_at(r0, c0).options@.contains(chosen_tile));
                    assert forall|r: int, c: int|
                        0 <= r < old(self).spec_size() && 0 <= c < old(self).spec_size() && !(r
                            == r0 && c == c0) implies #[trigger] self.board_at(r, c) == old(
                        self,
                    ).board_at(r, c) by {
                        assert(self.board_at(r, c) == w1.board_at(r, c));
                        assert(w1.board_at(r, c) == old(self).board_at(r, c));
                    }
                    assert forall|r: int, c: int|
                        0 <= r < self.spec_size() && 0 <= c < self.spec_size() implies frame_wf(
                        #[trigger] self.board_at(r, c),
                        tiles,
                        r,
                        c,
                    ) by {
                        if r == r0 && c == c0 {
                            assert(options_from(self.board_at(r, c).options@, tiles)) by {
                                assert(tiles.contains(chosen_tile));
                            }
                            assert(sum_weights(self.board_at(r, c).options@)
                                == chosen_tile.weight);
                        } else {
                            assert(w1.board_at(r, c) == self.board_at(r, c));
                            assert(frame_wf(w1.board_at(r, c), tiles, r, c));
                        }
                    }
                }
                Some(coord)
            },
            None => {
                let ghost w2 = *self;
                self.done = true;
                proof {
                    assert forall|r: int, c: int|
                        0 <= r < old(self).spec_size() && 0 <= c
                            < old(self).spec_size() implies #[trigger] self.board_at(r, c) == old(
                        self,
                    ).board_at(r, c) by {
                        assert(self.board_at(r, c) == w2.board_at(r, c));
                        assert(w2.board_at(r, c) == old(self).board_at(r, c));
                    }
                    assert forall|r: int, c: int|
                        0 <= r < self.size && 0 <= c < self.size implies (#[trigger] self.board@[r]@[c]).collapsed by {
                        assert(self.board_at(r, c) == old(self).board_at(r, c));
                        assert(old(self).board_at(r, c).collapsed);
                    }
                }
                None
            },
        }
    }

    /// Build the initial board: every cell uncollapsed, with the whole
    /// catalog as its candidate set.
    fn build(tileset: Tileset, size: usize, rng: rand::rngs::StdRng) -> (w: WFC)
        requires
            catalog_wf(tileset.tiles@),
        ensures
            w.wf(),
            w.spec_tiles() == tileset.tiles@,
            w.spec_size() == size,
            !w.spec_done(),
            forall|r: int, c: int|
                0 <= r < size && 0 <= c < size ==> !(#[trigger] w.board_at(r, c)).collapsed
                    && w.board_at(r, c).options@ == tileset.tiles@,
    {
        let mut board: Vec<Vec<Frame>> = Vec::new();
        let mut x: usize = 0;
        while x < size
            invariant
                catalog_wf(tileset.tiles@),
                x <= size,
                board@.len() == x,
                forall|r: int| 0 <= r < x ==> (#[trigger] board@[r])@.len() == size,
                forall|r: int, c: int|
                    0 <= r < x && 0 <= c < size ==> {
                        let f = #[trigger] board@[r]@[c];
                        &&& f.coord.0 == r
                        &&& f.coord.1 == c
                        &&& !f.collapsed
                        &&& f.options@ == tileset.tiles@
                    },
            decreases size - x,
        {
            let mut row: Vec<Frame> = Vec::new();
            let mut y: usize = 0;
            while y < size
                invariant
                    catalog_wf(tileset.tiles@),
                    x < size,
                    y <= size,
                    row@.len() == y,
                    forall|c: int|
                        0 <= c < y ==> {
                            let f = #[trigger] row@[c];
                            &&& f.coord.0 == x
                            &&& f.coord.1 == c
                            &&& !f.collapsed
                            &&& f.options@ == tileset.tiles@
                        },
                decreases size - y,
            {
                let options = copy_tiles(&tileset.tiles);
                row.push(Frame { coord: (x, y), collapsed: false, options });
                y += 1;
            }
            board.push(row);
            x += 1;
        }
        let w = WFC { tiles: tileset.tiles, board, size, done: false, rng };
        proof {
            assert forall|r: int, c: int|
                0 <= r < size && 0 <= c < size implies frame_wf(
                #[trigger] w.board@[r]@[c],
                w.tiles@,
                r,
                c,
            ) by {
                assert(w.board@[r]@[c].options@ == w.tiles@);
                assert forall|k: int|
                    0 <= k < w.tiles@.len() implies w.tiles@.contains(#[trigger] w.tiles@[k]) by {
                    assert(0 <= k < w.tiles@.len() && w.tiles@[k] == w.tiles@[k]);
                }
            }
        }
        w
    }

    /// Construct a solver for a `size` x `size` board whose every cell
    /// starts with the full catalog as its candidate set; the solve will
    /// draw its randomness from fresh entropy. Construction fails exactly
    /// when the catalog is invalid input: empty, holding a tile of
    /// non-positive weight, or of total weight beyond the sampler's
    /// machine limit.
    pub fn new(tileset: Tileset, size: usize) -> (res: Result<WFC, WfcError>)
        ensures
            res is Ok <==> catalog_wf(tileset.tiles@),
            res matches Err(e) ==> e == WfcError::InvalidTileDefinition,
            res matches Ok(w) ==> w.wf() && w.spec_tiles() == tileset.tiles@ && w.spec_size()
                == size && !w.spec_done() && (forall|r: int, c: int|
                0 <= r < size && 0 <= c < size ==> !(#[trigger] w.board_at(r, c)).collapsed
                    && w.board_at(r, c).options@ == tileset.tiles@),
    {
        if !check_catalog(&tileset.tiles) {
            return Err(WfcError::InvalidTileDefinition);
        }
        let rng = crate::randsrc::rng_from_entropy();
        Ok(Self::build(tileset, size, rng))
    }

    /// Construct a solver as `new` does, but drawing its randomness from
    /// the given seed, so that two solves built from the same catalog,
    /// size and seed make identical random choices.
    pub fn new_seeded(tileset: Tileset, size: usize, seed: u64) -> (res: Result<WFC, WfcError>)
        ensures
            res is Ok <==> catalog_wf(tileset.tiles@),
            res matches Err(e) ==> e == WfcError::InvalidTileDefinition,
            res matches Ok(w) ==> w.wf() && w.spec_tiles() == tileset.tiles@ && w.spec_size()
                == size && !w.spec_done() && (forall|r: int, c: int|
                0 <= r < size && 0 <= c < size ==> !(#[trigger] w.board_at(r, c)).collapsed
                    && w.board_at(r, c).options@ == tileset.tiles@),
    {
        if !check_catalog(&tileset.tiles) {
            return Err(WfcError::InvalidTileDefinition);
        }
        let rng = crate::randsrc::rng_from_seed(seed);
        Ok(Self::build(tileset, size, rng))
    }

    /// Run the solve loop to completion: while cells remain uncollapsed,
    /// select and collapse a minimum-entropy cell and propagate its
    /// constraint. On success every cell of the returned board is
    /// collapsed with exactly one candidate left, drawn from the catalog,
    /// and no cell ever gained candidates along the way. The only failure
    /// is a contradiction met by propagation; a universally compatible
    /// catalog, or a board of side length at most one, always resolves.
    pub fn resolve(&mut self) -> (res: Result<Vec<Vec<Frame>>, WfcError>)
        requires
            old(self).wf(),
        ensures
            final (self).wf(),
            final (self).spec_size() == old(self).spec_size(),
            final (self).spec_tiles() == old(self).spec_tiles(),
            forall|r: int, c: int|
                0 <= r < old(self).spec_size() && 0 <= c < old(self).spec_size() ==> (
                #[trigger] final (self).board_at(r, c)).options@.len() <= old(self).board_at(
                    r,
                    c,
                ).options@.len(),
            res matches Ok(b) ==> final (self).spec_done() && b@.len() == old(self).spec_size() && (
            forall|r: int|
                0 <= r < old(self).spec_size() ==> (#[trigger] b@[r])@.len() == old(
                    self,
                ).spec_size()) && (forall|r: int, c: int|
                0 <= r < old(self).spec_size() && 0 <= c < old(self).spec_size() ==> {
                    let f = #[trigger] b@[r]@[c];
                    &&& f.collapsed
                    &&& f.options@.len() == 1
                    &&& old(self).spec_tiles().contains(f.options@[0])
                    &&& f.coord.0 == r
                    &&& f.coord.1 == c
                    &&& f.options@ == final (self).board_at(r, c).options@
                    &&& f.collapsed == final (self).board_at(r, c).collapsed
                }),
            res matches Err(e) ==> e == WfcError::Contradiction,
            catalog_compatible(old(self).spec_tiles()) ==> res is Ok,
            old(self).spec_size() <= 1 ==> res is Ok,
    {
        while !self.done
            invariant
                self.wf(),
                self.spec_size() == old(self).spec_size(),
                self.spec_tiles() == old(self).spec_tiles(),
                forall|r: int, c: int|
                    0 <= r < old(self).spec_size() && 0 <= c < old(self).spec_size() ==> (
                    #[trigger] self.board_at(r, c)).options@.len() <= old(self).board_at(
                        r,
                        c,
                    ).options@.len(),
            decreases count_open(*self) + (if self.spec_done() {
                0int
            } else {
                1int
            }),
        {
            let ghost w_a = *self;
            let step = self.collapse();
            let ghost w_b = *self;
            match step {
                Some(coord) => {
                    proof {
                        assert forall|r: int, c: int|
                            0 <= r < w_a.spec_size() && 0 <= c < w_a.spec_size() implies ((
                        #[trigger] w_a.board_at(r, c)).collapsed ==> w_b.board_at(
                            r,
                            c,
                        ).collapsed) by {
                            if !(r == coord.0 as int && c == coord.1 as int) {
                                assert(w_b.board_at(r, c) == w_a.board_at(r, c));
                            }
                        }
                        lemma_count_flip(w_a, w_b, coord.0 as int, coord.1 as int);
                    }
                    let pr = self.propagate(coord);
                    proof {
                        lemma_count_mono(w_b, *self);
                        assert forall|r: int, c: int|
                            0 <= r < old(self).spec_size() && 0 <= c
                                < old(self).spec_size() implies (#[trigger] self.board_at(
                            r,
                            c,
                        )).options@.len() <= old(self).board_at(r, c).options@.len() by {
                            assert(self.board_at(r, c).options@.len() <= w_b.board_at(
                                r,
                                c,
                            ).options@.len());
                            if r == coord.0 as int && c == coord.1 as int {
                                assert(w_b.board_at(r, c).options@.len() == 1);
                                assert(1 <= w_a.board_at(r, c).options@.len());
                            } else {
                                assert(w_b.board_at(r, c) == w_a.board_at(r, c));
                            }
                            assert(w_a.board_at(r, c).options@.len() <= old(self).board_at(
                                r,
                                c,
                            ).options@.len());
                        }
                    }
                    match pr {
                        Ok(()) => {},
                        Err(e) => {
                            return Err(e);
                        },
                    }
                },
                None => {
                    proof {
                        assert forall|r: int, c: int|
                            0 <= r < w_a.spec_size() && 0 <= c < w_a.spec_size() implies ((
                        #[trigger] w_a.board_at(r, c)).collapsed ==> w_b.board_at(r, c).collapsed)
                            && ((#[trigger] w_b.board_at(r, c)).collapsed ==> w_a.board_at(
                            r,
                            c,
                        ).collapsed) by {
                            assert(w_b.board_at(r, c) == w_a.board_at(r, c));
                        }
                        lemma_count_mono(w_a, w_b);
                        lemma_count_mono(w_b, w_a);
                    }
                },
            }
        }
        let mut out: Vec<Vec<Frame>> = Vec::new();
        let mut r: usize = 0;
        while r < self.size
            invariant
                self.wf(),
                self.spec_done(),
                r <= self.spec_size(),
                out@.len() == r,
                forall|i: int| 0 <= i < r ==> (#[trigger] out@[i])@.len() == self.spec_size(),
                forall|i: int, j: int|
                    0 <= i < r && 0 <= j < self.spec_size() ==> {
                        let f = #[trigger] out@[i]@[j];
                        &&& f.coord == self.board_at(i, j).coord
                        &&& f.collapsed == self.board_at(i, j).collapsed
                        &&& f.options@ == self.board_at(i, j).options@
                    },
            decreases self.spec_size() - r,
        {
            let mut orow: Vec<Frame> = Vec::new();
            let mut c: usize = 0;
            while c < self.size
                invariant
                    self.wf(),
                    r < self.spec_size(),
                    c <= self.spec_size(),
                    orow@.len() == c,
                    forall|j: int|
                        0 <= j < c ==> {
                            let f = #[trigger] orow@[j];
                            &&& f.coord == self.board_at(r as int, j).coord
                            &&& f.collapsed == self.board_at(r as int, j).collapsed
                            &&& f.options@ == self.board_at(r as int, j).options@
                        },
                decreases self.spec_size() - c,
            {
                let fr = &self.board[r][c];
                let opts = copy_tiles(&fr.options);
                orow.push(Frame { coord: fr.coord, collapsed: fr.collapsed, options: opts });
                c += 1;
            }
            out.push(orow);
            r += 1;
        }
        proof {
            assert forall|i: int, j: int|
                0 <= i < old(self).spec_size() && 0 <= j < old(self).spec_size() implies {
                let f = #[trigger] out@[i]@[j];
                &&& f.collapsed
                &&& f.options@.len() == 1
                &&& old(self).spec_tiles().contains(f.options@[0])
                &&& f.coord.0 == i
                &&& f.coord.1 == j
                &&& f.options@ == self.board_at(i, j).options@
                &&& f.collapsed == self.board_at(i, j).collapsed
            } by {
                assert(self.board@[i]@[j].collapsed);
                assert(frame_wf(self.board_at(i, j), self.spec_tiles(), i, j));
            }
        }
        Ok(out)
    }
}

/// Does tile `t`, facing direction `d`, match at least one of the
/// candidates `nopts` of the neighbour in that direction?
fn tile_fits(t: &Tile, d: usize, opp: usize, nopts: &Vec<Tile>) -> (b: bool)
    requires
        d < 4,
        opp == spec_opposite(d as int),
    ensures
        b == fits(*t, d as int, nopts@),
{
    let mut k: usize = 0;
    let mut found = false;
    while k < nopts.len()
        invariant
            d < 4,
            opp == spec_opposite(d as int),
            k <= nopts@.len(),
            found == (exists|m: int|
                0 <= m < k && (#[trigger] nopts@[m]).rules[spec_opposite(d as int)].border_type
                    == t.rules[d as int].border_type),
        decreases nopts@.len() - k,
    {
        if nopts[k].rules[opp].border_type == t.rules[d].border_type {
            found = true;
        }
        k += 1;
    }
    found
}

} // verus!

