//! The per-cell update rule: a one-dimensional averaging of the gravity
//! field along an axis that turns with the frame number, with a fixed
//! boundary.
use crate::tile::{Tile, TileConstants};
use vstd::arithmetic::div_mod::lemma_fundamental_div_mod_converse;
use vstd::prelude::*;

verus! {

/// A cubic grid whose cell indices fit in 32 bits.
pub open spec fn valid_constants(c: TileConstants) -> bool {
    &&& c.width == c.height
    &&& c.height == c.depth
    &&& 1 <= c.width
    &&& c.width * c.width * c.width <= u32::MAX
}

/// Number of cells in the grid.
pub open spec fn cell_count(c: TileConstants) -> int {
    c.width * c.height * c.depth
}

/// Position of the cell `(x, y, z)` in the linear cell array.
pub open spec fn cell_index(c: TileConstants, x: int, y: int, z: int) -> int {
    x * c.width * c.height + y * c.height + z
}

/// Whether `(x, y, z)` is a cell of the grid.
pub open spec fn in_grid(c: TileConstants, x: int, y: int, z: int) -> bool {
    0 <= x < c.width && 0 <= y < c.height && 0 <= z < c.depth
}

/// Whether `(x, y, z)` lies on a face of the grid.
pub open spec fn on_boundary(c: TileConstants, x: int, y: int, z: int) -> bool {
    x == 0 || y == 0 || z == 0 || x == c.width - 1 || y == c.height - 1 || z == c.depth - 1
}

/// The axis along which a frame averages: 0 = x, 1 = y, 2 = z.
pub open spec fn axis_of(frame_number: u32) -> int {
    (frame_number % 3) as int
}

/// Division by two, rounding toward zero.
pub open spec fn half_toward_zero(s: int) -> int {
    if s >= 0 {
        s / 2
    } else {
        -((-s) / 2)
    }
}

/// The neighbour of `(x, y, z)` at offset `o` along `axis`, as a cell index.
pub open spec fn neighbor_index(c: TileConstants, x: int, y: int, z: int, axis: int, o: int) -> int {
    if axis == 0 {
        cell_index(c, x + o, y, z)
    } else if axis == 1 {
        cell_index(c, x, y + o, z)
    } else {
        cell_index(c, x, y, z + o)
    }
}

/// The new gravity of an interior cell: the truncated mean of its two
/// neighbours' gravity along the frame's axis.
pub open spec fn diffused(c: TileConstants, src: Seq<Tile>, x: int, y: int, z: int) -> i8 {
    let a = axis_of(c.frame_number);
    let lo = src[neighbor_index(c, x, y, z, a, -1)];
    let hi = src[neighbor_index(c, x, y, z, a, 1)];
    half_toward_zero(lo.gravity[a] + hi.gravity[a]) as i8
}

/// The value that the cell `(x, y, z)` takes after one frame.
pub open spec fn cell_rule(c: TileConstants, src: Seq<Tile>, x: int, y: int, z: int) -> Tile {
    let t = src[cell_index(c, x, y, z)];
    if on_boundary(c, x, y, z) {
        t
    } else {
        let v = diffused(c, src, x, y, z);
        Tile {
            terrian: t.terrian,
            temperature: t.temperature,
            pressure: t.pressure,
            gravity: [v, v, v],
            pad: t.pad,
        }
    }
}

/// The whole grid after one frame.
pub open spec fn step_spec(c: TileConstants, src: Seq<Tile>) -> Seq<Tile> {
    let w = c.width as int;
    Seq::new(
        cell_count(c) as nat,
        |i: int| cell_rule(c, src, i / (w * w), (i % (w * w)) / w, i % w),
    )
}

/// The cell index of an in-grid position is in range, and the position is
/// recovered from it.
pub proof fn lemma_cell_index(c: TileConstants, x: int, y: int, z: int)
    requires
        valid_constants(c),
        in_grid(c, x, y, z),
    ensures
        0 <= cell_index(c, x, y, z) < cell_count(c),
        ({
            let i = cell_index(c, x, y, z);
            let w = c.width as int;
            &&& i / (w * w) == x
            &&& (i % (w * w)) / w == y
            &&& i % w == z
        }),
{
    let w = c.width as int;
    let i = cell_index(c, x, y, z);
    assert(y * w + z < w * w) by (nonlinear_arith)
        requires
            0 <= y < w,
            0 <= z < w,
    ;
    assert(0 <= y * w + z) by (nonlinear_arith)
        requires
            0 <= y,
            0 <= z,
            0 <= w,
    ;
    assert(i == x * (w * w) + (y * w + z)) by (nonlinear_arith)
        requires
            i == x * w * w + y * w + z,
    ;
    assert(i == (x * w + y) * w + z) by (nonlinear_arith)
        requires
            i == x * w * w + y * w + z,
    ;
    assert(x * (w * w) + (y * w + z) < w * w * w) by (nonlinear_arith)
        requires
            0 <= x < w,
            y * w + z < w * w,
    ;
    assert(0 <= x * (w * w)) by (nonlinear_arith)
        requires
            0 <= x,
    ;
    lemma_fundamental_div_mod_converse(i, w * w, x, y * w + z);
    lemma_fundamental_div_mod_converse(y * w + z, w, y, z);
    lemma_fundamental_div_mod_converse(i, w, x * w + y, z);
}

/// Every in-range index is the cell index of an in-grid position.
pub proof fn lemma_index_coords(c: TileConstants, i: int)
    requires
        valid_constants(c),
        0 <= i < cell_count(c),
    ensures
        ({
            let w = c.width as int;
            &&& in_grid(c, i / (w * w), (i % (w * w)) / w, i % w)
            &&& cell_index(c, i / (w * w), (i % (w * w)) / w, i % w) == i
        }),
{
    let w = c.width as int;
    let x = i / (w * w);
    let r = i % (w * w);
    let y = r / w;
    let z = i % w;
    assert(0 < w * w) by (nonlinear_arith)
        requires
            0 < w,
    ;
    assert(i == (w * w) * x + r && 0 <= r < w * w) by {
        vstd::arithmetic::div_mod::lemma_fundamental_div_mod(i, w * w);
        vstd::arithmetic::div_mod::lemma_mod_bound(i, w * w);
    }
    assert(r == w * y + r % w && 0 <= r % w < w) by {
        vstd::arithmetic::div_mod::lemma_fundamental_div_mod(r, w);
        vstd::arithmetic::div_mod::lemma_mod_bound(r, w);
    }
    assert(r % w == z) by {
        vstd::arithmetic::div_mod::lemma_mod_mod(i, w, w);
        assert(w * w * x + r == i);
        assert(i % w == r % w) by {
            vstd::arithmetic::div_mod::lemma_mod_multiples_vanish(w * x, r, w);
            assert(w * (w * x) == w * w * x) by (nonlinear_arith);
        }
    }
    vstd::arithmetic::div_mod::lemma_div_pos_is_pos(i, w * w);
    vstd::arithmetic::div_mod::lemma_div_pos_is_pos(r, w);
    assert(x < w) by (nonlinear_arith)
        requires
            i == (w * w) * x + r,
            0 <= r,
            i < w * w * w,
            0 < w,
    ;
    assert(y < w) by (nonlinear_arith)
        requires
            r == w * y + r % w,
            0 <= r % w,
            r < w * w,
            0 < w,
    ;
    assert(cell_index(c, x, y, z) == i) by (nonlinear_arith)
        requires
            i == (w * w) * x + r,
            r == w * y + z,
            cell_index(c, x, y, z) == x * w * w + y * w + z,
    ;
}

fn index_of(c: &TileConstants, x: u32, y: u32, z: u32) -> (r: usize)
    requires
        valid_constants(*c),
        in_grid(*c, x as int, y as int, z as int),
    ensures
        r == cell_index(*c, x as int, y as int, z as int),
        r < cell_count(*c),
{
    proof {
        lemma_cell_index(*c, x as int, y as int, z as int);
        let w = c.width as int;
        assert(x * w <= x * w * w && x * w * w + y * w <= x * w * w + y * w + z && y * w <= x * w
            * w + y * w) by (nonlinear_arith)
            requires
                0 <= x,
                0 <= y,
                0 <= z,
                1 <= w,
        ;
    }
    (x * c.width * c.height + y * c.height + z) as usize
}

/// Division of a gravity sum by two, rounding toward zero.
fn half(s: i16) -> (r: i8)
    requires
        -256 <= s <= 254,
    ensures
        r == half_toward_zero(s as int),
{
    if s >= 0 {
        ((s as u16) / 2) as i8
    } else {
        let m = ((0i16 - s) as u16) / 2;
        (0i16 - (m as i16)) as i8
    }
}

/// The value that the cell `(x, y, z)` takes after one frame.
pub fn cell(c: &TileConstants, input: &[Tile], x: u32, y: u32, z: u32) -> (r: Tile)
    requires
        valid_constants(*c),
        in_grid(*c, x as int, y as int, z as int),
        input@.len() == cell_count(*c),
    ensures
        r == cell_rule(*c, input@, x as int, y as int, z as int),
{
    let index = index_of(c, x, y, z);
    let t = input[index];
    if x == 0 || y == 0 || z == 0 || x == c.width - 1 || y == c.height - 1 || z == c.depth - 1 {
        return t;
    }
    let axis = c.frame_number % 3;
    let (lo, hi) = if axis == 0 {
        (index_of(c, x - 1, y, z), index_of(c, x + 1, y, z))
    } else if axis == 1 {
        (index_of(c, x, y - 1, z), index_of(c, x, y + 1, z))
    } else {
        (index_of(c, x, y, z - 1), index_of(c, x, y, z + 1))
    };
    let a = axis as usize;
    let sum = input[lo].gravity[a] as i16 + input[hi].gravity[a] as i16;
    let v = half(sum);
    Tile {
        terrian: t.terrian,
        temperature: t.temperature,
        pressure: t.pressure,
        gravity: [v, v, v],
        pad: t.pad,
    }
}

/// One invocation of the update for the cell `id`: writes its new value to
/// `output`, reading only `input`.
pub fn tick(id: [u32; 3], c: &TileConstants, input: &[Tile], output: &mut Vec<Tile>)
    requires
        valid_constants(*c),
        in_grid(*c, id[0] as int, id[1] as int, id[2] as int),
        input@.len() == cell_count(*c),
        old(output)@.len() == cell_count(*c),
    ensures
        final(output)@ == old(output)@.update(
            cell_index(*c, id[0] as int, id[1] as int, id[2] as int),
            cell_rule(*c, input@, id[0] as int, id[1] as int, id[2] as int),
        ),
{
    let index = index_of(c, id[0], id[1], id[2]);
    let t = cell(c, input, id[0], id[1], id[2]);
    output.set(index, t);
}

/// A sampling kernel: rewrites the word at `id` with its own value.
pub fn sample(id: [u32; 3], tiles: &mut Vec<u32>)
    requires
        (id[0] as int) < old(tiles)@.len(),
    ensures
        final(tiles)@ == old(tiles)@,
{
    let index = id[0] as usize;
    let v = tiles[index];
    tiles.set(index, v);
    assert(tiles@ =~= old(tiles)@);
}

/// The whole grid after one frame.
pub fn step(c: &TileConstants, input: &[Tile]) -> (r: Vec<Tile>)
    requires
        valid_constants(*c),
        input@.len() == cell_count(*c),
    ensures
        r@ == step_spec(*c, input@),
{
    let ghost w = c.width as int;
    let ghost target = step_spec(*c, input@);
    let mut out: Vec<Tile> = Vec::new();
    let mut x: u32 = 0;
    while x < c.width
        invariant
            valid_constants(*c),
            input@.len() == cell_count(*c),
            w == c.width,
            target == step_spec(*c, input@),
            x <= w,
            out@.len() == x * w * w,
            forall|k: int| 0 <= k < out@.len() ==> #[trigger] out@[k] == target[k],
        decreases w - x,
    {
        let mut y: u32 = 0;
        while y < c.height
            invariant
                valid_constants(*c),
                input@.len() == cell_count(*c),
                w == c.width,
                target == step_spec(*c, input@),
                x < w,
                y <= w,
                out@.len() == x * w * w + y * w,
                forall|k: int| 0 <= k < out@.len() ==> #[trigger] out@[k] == target[k],
            decreases w - y,
        {
            let mut z: u32 = 0;
            while z < c.depth
                invariant
                    valid_constants(*c),
                    input@.len() == cell_count(*c),
                    w == c.width,
                    target == step_spec(*c, input@),
                    x < w,
                    y < w,
                    z <= w,
                    out@.len() == x * w * w + y * w + z,
                    forall|k: int| 0 <= k < out@.len() ==> #[trigger] out@[k] == target[k],
                decreases w - z,
            {
                proof {
                    lemma_cell_index(*c, x as int, y as int, z as int);
                }
                out.push(cell(c, input, x, y, z));
                z = z + 1;
            }
            proof {
                assert(x * w * w + y * w + w == x * w * w + (y + 1) * w) by (nonlinear_arith);
            }
            y = y + 1;
        }
        proof {
            assert(x * w * w + w * w == (x + 1) * w * w) by (nonlinear_arith);
        }
        x = x + 1;
    }
    assert(out@ =~= target);
    out
}

/// A frame leaves every cell on a face of the grid exactly as it was.
pub proof fn lemma_boundary_unchanged(c: TileConstants, src: Seq<Tile>, x: int, y: int, z: int)
    requires
        valid_constants(c),
        src.len() == cell_count(c),
        in_grid(c, x, y, z),
        on_boundary(c, x, y, z),
    ensures
        step_spec(c, src)[cell_index(c, x, y, z)] == src[cell_index(c, x, y, z)],
{
    lemma_cell_index(c, x, y, z);
}

/// Only the cell at `p` carries gravity.
pub open spec fn single_source(c: TileConstants, src: Seq<Tile>, p: int) -> bool {
    forall|i: int|
        0 <= i < src.len() && i != p ==> (#[trigger] src[i]).gravity[0] == 0 && src[i].gravity[1]
            == 0 && src[i].gravity[2] == 0
}

/// On a frame that averages along x, with gravity only at the interior cell
/// `(x, y, z)`: that cell's gravity becomes zero (it is fed by its
/// neighbours alone), and each interior neighbour along x takes half of the
/// source's x gravity, rounded toward zero, in every component.
pub proof fn lemma_single_source_diffusion(c: TileConstants, src: Seq<Tile>, x: int, y: int, z: int)
    requires
        valid_constants(c),
        src.len() == cell_count(c),
        axis_of(c.frame_number) == 0,
        in_grid(c, x, y, z),
        !on_boundary(c, x, y, z),
        single_source(c, src, cell_index(c, x, y, z)),
    ensures
        step_spec(c, src)[cell_index(c, x, y, z)].gravity@ == seq![0i8, 0i8, 0i8],
        !on_boundary(c, x - 1, y, z) ==> step_spec(c, src)[cell_index(c, x - 1, y, z)].gravity@
            == seq![
            half_toward_zero(src[cell_index(c, x, y, z)].gravity[0] as int) as i8,
            half_toward_zero(src[cell_index(c, x, y, z)].gravity[0] as int) as i8,
            half_toward_zero(src[cell_index(c, x, y, z)].gravity[0] as int) as i8,
        ],
        !on_boundary(c, x + 1, y, z) ==> step_spec(c, src)[cell_index(c, x + 1, y, z)].gravity@
            == seq![
            half_toward_zero(src[cell_index(c, x, y, z)].gravity[0] as int) as i8,
            half_toward_zero(src[cell_index(c, x, y, z)].gravity[0] as int) as i8,
            half_toward_zero(src[cell_index(c, x, y, z)].gravity[0] as int) as i8,
        ],
{
    let p = cell_index(c, x, y, z);
    let g = src[p].gravity[0] as int;
    lemma_cell_index(c, x, y, z);
    lemma_cell_index(c, x - 1, y, z);
    lemma_cell_index(c, x + 1, y, z);
    let v = half_toward_zero(g) as i8;
    // The source's own value.
    assert(step_spec(c, src)[p].gravity@ =~= seq![0i8, 0i8, 0i8]);
    if !on_boundary(c, x - 1, y, z) {
        lemma_cell_index(c, x - 2, y, z);
        let q = cell_index(c, x - 1, y, z);
        assert(cell_index(c, x - 2, y, z) != p);
        assert(neighbor_index(c, x - 1, y, z, 0, 1) == p);
        assert(step_spec(c, src)[q].gravity@ =~= seq![v, v, v]);
    }
    if !on_boundary(c, x + 1, y, z) {
        lemma_cell_index(c, x + 2, y, z);
        let q = cell_index(c, x + 1, y, z);
        assert(cell_index(c, x + 2, y, z) != p);
        assert(neighbor_index(c, x + 1, y, z, 0, -1) == p);
        assert(step_spec(c, src)[q].gravity@ =~= seq![v, v, v]);
    }
}

/// No cell carries gravity.
pub open spec fn zero_gravity(src: Seq<Tile>) -> bool {
    forall|i: int|
        0 <= i < src.len() ==> (#[trigger] src[i]).gravity[0] == 0 && src[i].gravity[1] == 0
            && src[i].gravity[2] == 0
}

/// A frame changes nothing in a grid without interior cells (side at most
/// two), nor in a grid without gravity.
pub proof fn lemma_step_identity(c: TileConstants, src: Seq<Tile>)
    requires
        valid_constants(c),
        src.len() == cell_count(c),
        c.width <= 2 || zero_gravity(src),
    ensures
        step_spec(c, src) == src,
{
    let w = c.width as int;
    let out = step_spec(c, src);
    assert forall|i: int| 0 <= i < src.len() implies #[trigger] out[i] == src[i] by {
        lemma_index_coords(c, i);
        let x = i / (w * w);
        let y = (i % (w * w)) / w;
        let z = i % w;
        if !on_boundary(c, x, y, z) {
            let t = src[i];
            let a = axis_of(c.frame_number);
            lemma_cell_index(c, x, y, z);
            if a == 0 {
                lemma_cell_index(c, x - 1, y, z);
                lemma_cell_index(c, x + 1, y, z);
            } else if a == 1 {
                lemma_cell_index(c, x, y - 1, z);
                lemma_cell_index(c, x, y + 1, z);
            } else {
                lemma_cell_index(c, x, y, z - 1);
                lemma_cell_index(c, x, y, z + 1);
            }
            assert(diffused(c, src, x, y, z) == 0);
            assert(out[i].gravity =~= t.gravity);
        }
    }
    assert(out =~= src);
}

} // verus!
