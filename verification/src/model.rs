//! The data model of the wave-function-collapse solver: tiles with their
//! directional adjacency rules, and the cells ("frames") of the board.

use vstd::prelude::*;

verus! {

/// The four cardinal directions are indexed 0 = north, 1 = south,
/// 2 = west, 3 = east; `spec_opposite` is the fixed involution
/// north <-> south, west <-> east.
pub open spec fn spec_opposite(d: int) -> int {
    if d == 0 {
        1
    } else if d == 1 {
        0
    } else if d == 2 {
        3
    } else {
        2
    }
}

/// The coordinate of the neighbouring cell of `(r, c)` in direction `d`
/// on a `size` x `size` board, or `None` when `(r, c)` lies on that edge.
pub open spec fn spec_neighbour(size: int, r: int, c: int, d: int) -> Option<(int, int)> {
    if d == 0 {
        if r == 0 {
            None
        } else {
            Some((r - 1, c))
        }
    } else if d == 1 {
        if r == size - 1 {
            None
        } else {
            Some((r + 1, c))
        }
    } else if d == 2 {
        if c == 0 {
            None
        } else {
            Some((r, c - 1))
        }
    } else {
        if c == size - 1 {
            None
        } else {
            Some((r, c + 1))
        }
    }
}

/// One directional adjacency rule of a tile: the border label the tile
/// exposes toward `direction`. Two tiles may be adjacent across an edge
/// exactly when the labels they expose toward each other are equal.
#[derive(Clone, Copy, Debug, PartialEq, Eq, Structural)]
pub struct Rule {
    pub direction: usize,
    pub border_type: u32,
}

/// A candidate unit of content: a positive weight (its relative likelihood
/// when sampled), a caller-visible identifier and payload (never inspected
/// by the solver), and exactly one adjacency rule per cardinal direction.
#[derive(Clone, Copy, Debug)]
pub struct Tile {
    pub weight: u32,
    pub id: i32,
    pub value: u32,
    pub rules: [Rule; 4],
}

/// A tile is well formed when its weight is positive; a zero weight could
/// never be sampled and is invalid input.
pub open spec fn tile_wf(t: Tile) -> bool {
    1 <= t.weight
}

/// The sum of the weights of a sequence of tiles.
pub open spec fn sum_weights(s: Seq<Tile>) -> int
    decreases s.len(),
{
    if s.len() == 0 {
        0
    } else {
        sum_weights(s.drop_last()) + s.last().weight
    }
}

/// The sum of a sequence of weights already extracted from tiles.
pub open spec fn sum_u32(s: Seq<u32>) -> int
    decreases s.len(),
{
    if s.len() == 0 {
        0
    } else {
        sum_u32(s.drop_last()) + s.last()
    }
}

/// A catalog is well formed when it is non-empty, every tile's weight is
/// positive, and the total weight fits in a `u32` (the machine limit of
/// the weighted sampler).
pub open spec fn catalog_wf(tiles: Seq<Tile>) -> bool {
    &&& 1 <= tiles.len()
    &&& forall|k: int| 0 <= k < tiles.len() ==> tile_wf(#[trigger] tiles[k])
    &&& sum_weights(tiles) <= u32::MAX
}

/// Every border any tile exposes matches every border any tile exposes
/// back: with such a catalog no pruning can ever remove a candidate, so a
/// solve can never run into a contradiction.
pub open spec fn catalog_compatible(tiles: Seq<Tile>) -> bool {
    forall|j: int, k: int, d: int|
        #![trigger tiles[j].rules[d], tiles[k].rules[spec_opposite(d)]]
        0 <= j < tiles.len() && 0 <= k < tiles.len() && 0 <= d < 4 ==> tiles[j].rules[d].border_type
            == tiles[k].rules[spec_opposite(d)].border_type
}

/// Every element of `opts` is a tile of the catalog `tiles`.
pub open spec fn options_from(opts: Seq<Tile>, tiles: Seq<Tile>) -> bool {
    forall|k: int| 0 <= k < opts.len() ==> tiles.contains(#[trigger] opts[k])
}

/// Tile `t`, placed so that direction `d` points toward a neighbour whose
/// remaining candidates are `nopts`, is compatible with at least one of
/// those candidates: the border `t` exposes toward `d` equals the border
/// some candidate exposes back.
pub open spec fn fits(t: Tile, d: int, nopts: Seq<Tile>) -> bool {
    exists|k: int|
        0 <= k < nopts.len() && (#[trigger] nopts[k]).rules[spec_opposite(d)].border_type
            == t.rules[d].border_type
}

/// One cell of the board: its fixed position, whether it has been fixed to
/// a single tile, and its shrinking set of candidate tiles.
pub struct Frame {
    pub coord: (usize, usize),
    pub collapsed: bool,
    pub options: Vec<Tile>,
}

/// Well-formedness of a cell at position `(r, c)`: its coordinate is
/// consistent, its candidate set is non-empty, drawn from the catalog and
/// of bounded total weight, and a collapsed cell holds exactly one tile.
pub open spec fn frame_wf(f: Frame, tiles: Seq<Tile>, r: int, c: int) -> bool {
    &&& f.coord.0 == r
    &&& f.coord.1 == c
    &&& 1 <= f.options@.len()
    &&& options_from(f.options@, tiles)
    &&& sum_weights(f.options@) <= u32::MAX
    &&& (f.collapsed ==> f.options@.len() == 1)
}

impl Frame {
    /// Fix this cell to the given single-candidate set.
    pub fn collapse(&mut self, new_options: Vec<Tile>)
        requires
            new_options@.len() == 1,
        ensures
            final (self).options@ == new_options@,
            final (self).collapsed,
            final (self).coord == old(self).coord,
    {
        self.options = new_options;
        self.collapsed = true;
    }
}

/// The failures a solve can surface: invalid input detected at
/// construction, or a cell pruned to an empty candidate set mid-solve.
#[derive(Clone, Copy, Debug, PartialEq, Eq, Structural)]
pub enum WfcError {
    InvalidTileDefinition,
    Contradiction,
}

// ---------------------------------------------------------------------------
// Lemmas about summing candidate sequences.
// ---------------------------------------------------------------------------

/// Summing one more tile of a prefix.
pub proof fn lemma_sum_weights_take_step(s: Seq<Tile>, i: int)
    requires
        0 <= i < s.len(),
    ensures
        sum_weights(s.take(i + 1)) == sum_weights(s.take(i)) + s[i].weight,
{
    let a = s.take(i + 1);
    assert(a.drop_last() =~= s.take(i));
    assert(a.last() == s[i]);
}

/// Summing one more extracted weight.
pub proof fn lemma_sum_u32_push(s: Seq<u32>, x: u32)
    ensures
        sum_u32(s.push(x)) == sum_u32(s) + x,
{
    let a = s.push(x);
    assert(a.drop_last() =~= s);
    assert(a.last() == x);
}

/// A prefix never weighs more than the whole sequence, since weights are
/// unsigned.
pub proof fn lemma_sum_weights_prefix(s: Seq<Tile>, m: int)
    requires
        0 <= m <= s.len(),
    ensures
        sum_weights(s.take(m)) <= sum_weights(s),
    decreases s.len() - m,
{
    if m < s.len() {
        lemma_sum_weights_take_step(s, m);
        lemma_sum_weights_prefix(s, m + 1);
    } else {
        assert(s.take(m) =~= s);
    }
}

/// Appending a tile to a sequence adds its weight to the sum.
pub proof fn lemma_sum_weights_push(s: Seq<Tile>, t: Tile)
    ensures
        sum_weights(s.push(t)) == sum_weights(s) + t.weight,
{
    let a = s.push(t);
    assert(a.drop_last() =~= s);
    assert(a.last() == t);
}

} // verus!
