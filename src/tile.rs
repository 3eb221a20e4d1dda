//! The per-cell record, the per-dispatch parameter block, and their byte
//! layouts.
use vstd::prelude::*;

verus! {

/// Size in bytes of one encoded [`Tile`].
pub const TILE_SIZE: usize = 8;

/// What fills a cell.
#[derive(Clone, Copy, Debug, PartialEq, Eq, Structural)]
pub enum Terrian {
    Space,
    SwallowWater,
    DeepWater,
}

/// The byte that encodes a terrain value.
pub open spec fn terrian_bits(t: Terrian) -> u8 {
    match t {
        Terrian::Space => 0,
        Terrian::SwallowWater => 1,
        Terrian::DeepWater => 2,
    }
}

impl Terrian {
    /// Whether `bits` encodes a terrain value.
    pub fn is_valid_bit_pattern(bits: &u8) -> (r: bool)
        ensures
            r == (*bits <= 2),
    {
        match *bits {
            0 | 1 | 2 => true,
            _ => false,
        }
    }

    /// The terrain encoded by `bits`, if any.
    pub fn from_bits(bits: u8) -> (r: Option<Terrian>)
        ensures
            bits <= 2 <==> r.is_some(),
            r matches Some(t) ==> terrian_bits(t) == bits,
    {
        match bits {
            0 => Some(Terrian::Space),
            1 => Some(Terrian::SwallowWater),
            2 => Some(Terrian::DeepWater),
            _ => None,
        }
    }

    /// The byte that encodes this terrain.
    pub fn to_bits(&self) -> (r: u8)
        ensures
            r == terrian_bits(*self),
    {
        match self {
            Terrian::Space => 0,
            Terrian::SwallowWater => 1,
            Terrian::DeepWater => 2,
        }
    }
}

impl Default for Terrian {
    fn default() -> (r: Terrian)
        ensures
            r == Terrian::Space,
    {
        Terrian::Space
    }
}

/// One cell of the grid.
#[derive(Clone, Copy, Debug, Eq)]
pub struct Tile {
    pub terrian: Terrian,
    pub temperature: u8,
    pub pressure: u8,
    pub gravity: [i8; 3],
    pub pad: [u8; 2],
}

impl PartialEq for Tile {
    fn eq(&self, o: &Tile) -> (r: bool) {
        let r = self.terrian == o.terrian && self.temperature == o.temperature && self.pressure
            == o.pressure && self.gravity[0] == o.gravity[0] && self.gravity[1] == o.gravity[1]
            && self.gravity[2] == o.gravity[2] && self.pad[0] == o.pad[0] && self.pad[1]
            == o.pad[1];
        proof {
            if r {
                assert(self.gravity =~= o.gravity);
                assert(self.pad =~= o.pad);
            }
        }
        r
    }
}

impl vstd::std_specs::cmp::PartialEqSpecImpl for Tile {
    open spec fn obeys_eq_spec() -> bool {
        true
    }

    open spec fn eq_spec(&self, o: &Tile) -> bool {
        *self == *o
    }
}

/// The all-zero cell: empty space, no temperature, pressure or gravity.
pub open spec fn default_tile() -> Tile {
    Tile {
        terrian: Terrian::Space,
        temperature: 0,
        pressure: 0,
        gravity: [0i8, 0i8, 0i8],
        pad: [0u8, 0u8],
    }
}

impl Default for Tile {
    fn default() -> (r: Tile)
        ensures
            r == default_tile(),
    {
        Tile { terrian: Terrian::Space, temperature: 0, pressure: 0, gravity: [0, 0, 0], pad: [0, 0] }
    }
}

/// The eight bytes of a cell, in field order.
pub open spec fn tile_bytes(t: Tile) -> Seq<u8> {
    seq![
        terrian_bits(t.terrian),
        t.temperature,
        t.pressure,
        #[verifier::truncate]
        (t.gravity[0] as u8),
        #[verifier::truncate]
        (t.gravity[1] as u8),
        #[verifier::truncate]
        (t.gravity[2] as u8),
        t.pad[0],
        t.pad[1],
    ]
}

/// The bytes of a sequence of cells, laid out one after another.
pub open spec fn tiles_bytes(tiles: Seq<Tile>) -> Seq<u8> {
    Seq::new(
        tiles.len() * 8,
        |k: int| tile_bytes(tiles[k / 8])[k % 8],
    )
}

/// Every cell in `bytes` has a valid terrain byte.
pub open spec fn valid_tiles_bytes(bytes: Seq<u8>) -> bool {
    forall|i: int| 0 <= i < bytes.len() / 8 ==> #[trigger] bytes[8 * i] <= 2
}

/// Why a transfer between host and device failed.
#[derive(Clone, Copy, Debug, PartialEq, Eq, Structural)]
pub enum TransferError {
    /// The data does not hold the number of cells that the grid has.
    LengthMismatch { expected: usize, found: usize },
    /// The cell at `index` holds a terrain byte that names no terrain.
    InvalidTerrian { index: usize, bits: u8 },
}

impl Tile {
    /// The eight bytes of this cell.
    pub fn to_bytes(&self) -> (r: [u8; 8])
        ensures
            r@ == tile_bytes(*self),
    {
        let r = [
            self.terrian.to_bits(),
            self.temperature,
            self.pressure,
            #[verifier::truncate]
            (self.gravity[0] as u8),
            #[verifier::truncate]
            (self.gravity[1] as u8),
            #[verifier::truncate]
            (self.gravity[2] as u8),
            self.pad[0],
            self.pad[1],
        ];
        assert(r@ =~= tile_bytes(*self));
        r
    }
}

proof fn lemma_byte_round_trip(b: u8)
    ensures
        (#[verifier::truncate] ((#[verifier::truncate] (b as i8)) as u8)) == b,
{
    assert((#[verifier::truncate] ((#[verifier::truncate] (b as i8)) as u8)) == b) by (bit_vector);
}

impl Tile {
    /// The cell whose eight bytes start at `bytes[at]`, if its terrain byte
    /// is valid.
    pub fn from_bytes(bytes: &[u8], at: usize) -> (r: Option<Tile>)
        requires
            at + 8 <= bytes@.len(),
        ensures
            r.is_some() <==> bytes@[at as int] <= 2,
            r matches Some(t) ==> tile_bytes(t) == bytes@.subrange(at as int, at + 8),
    {
        match Terrian::from_bits(bytes[at]) {
            None => None,
            Some(terrian) => {
                let t = Tile {
                    terrian,
                    temperature: bytes[at + 1],
                    pressure: bytes[at + 2],
                    gravity: [
                        #[verifier::truncate]
                        (bytes[at + 3] as i8),
                        #[verifier::truncate]
                        (bytes[at + 4] as i8),
                        #[verifier::truncate]
                        (bytes[at + 5] as i8),
                    ],
                    pad: [bytes[at + 6], bytes[at + 7]],
                };
                proof {
                    lemma_byte_round_trip(bytes@[at + 3]);
                    lemma_byte_round_trip(bytes@[at + 4]);
                    lemma_byte_round_trip(bytes@[at + 5]);
                }
                assert(tile_bytes(t) =~= bytes@.subrange(at as int, at + 8));
                Some(t)
            },
        }
    }
}

/// The bytes of `tiles`, eight per cell.
pub fn encode_tiles(tiles: &[Tile]) -> (r: Vec<u8>)
    requires
        tiles@.len() * 8 <= usize::MAX,
    ensures
        r@ == tiles_bytes(tiles@),
{
    let mut out: Vec<u8> = Vec::with_capacity(tiles.len() * 8);
    let mut i: usize = 0;
    while i < tiles.len()
        invariant
            i <= tiles@.len(),
            tiles@.len() * 8 <= usize::MAX,
            out@ =~= tiles_bytes(tiles@.subrange(0, i as int)),
        decreases tiles@.len() - i,
    {
        let b = tiles[i].to_bytes();
        let mut f: usize = 0;
        while f < 8
            invariant
                f <= 8,
                i < tiles@.len(),
                b@ == tile_bytes(tiles@[i as int]),
                out@.len() == 8 * i + f,
                forall|k: int| 0 <= k < 8 * i ==> #[trigger] out@[k] == tiles_bytes(
                    tiles@.subrange(0, i as int),
                )[k],
                forall|k: int| 0 <= k < f ==> #[trigger] out@[8 * i + k] == b@[k],
            decreases 8 - f,
        {
            out.push(b[f]);
            f = f + 1;
        }
        let ghost next = tiles@.subrange(0, i + 1);
        assert forall|k: int| 0 <= k < 8 * (i + 1) implies #[trigger] out@[k] == tiles_bytes(next)[k] by {
            if k < 8 * i {
                assert(tiles_bytes(tiles@.subrange(0, i as int))[k] == tile_bytes(tiles@[k / 8])[k % 8]);
            } else {
                assert(out@[8 * i + (k - 8 * i)] == b@[k - 8 * i]);
                assert(k / 8 == i);
            }
        }
        i = i + 1;
    }
    assert(tiles@.subrange(0, tiles@.len() as int) =~= tiles@);
    out
}

/// Decodes `count` cells from `bytes`, refusing any cell whose terrain byte
/// names no terrain.
pub fn decode_tiles(bytes: &[u8], count: usize) -> (r: Result<Vec<Tile>, TransferError>)
    requires
        count * 8 <= usize::MAX,
    ensures
        r.is_ok() <==> bytes@.len() == count * 8 && valid_tiles_bytes(bytes@),
        r matches Ok(v) ==> v@.len() == count && tiles_bytes(v@) == bytes@,
        bytes@.len() != count * 8 <==> r matches Err(TransferError::LengthMismatch { .. }),
        r matches Err(TransferError::LengthMismatch { expected, found }) ==> expected == count * 8
            && found == bytes@.len(),
        r matches Err(TransferError::InvalidTerrian { index, bits }) ==> bytes@.len() == count * 8
            && index < count && bits == bytes@[8 * index] && bits > 2 && forall|j: int|
            0 <= j < index ==> #[trigger] bytes@[8 * j] <= 2,
{
    if bytes.len() != count * 8 {
        return Err(TransferError::LengthMismatch { expected: count * 8, found: bytes.len() });
    }
    let mut out: Vec<Tile> = Vec::with_capacity(count);
    let mut i: usize = 0;
    while i < count
        invariant
            i <= count,
            count * 8 <= usize::MAX,
            bytes@.len() == count * 8,
            out@.len() == i,
            forall|j: int| 0 <= j < i ==> #[trigger] bytes@[8 * j] <= 2,
            forall|j: int|
                0 <= j < i ==> tile_bytes(#[trigger] out@[j]) == bytes@.subrange(8 * j, 8 * j + 8),
        decreases count - i,
    {
        proof {
            assert(i * 8 + 8 <= count * 8) by (nonlinear_arith)
                requires
                    i < count,
            ;
        }
        match Tile::from_bytes(bytes, i * 8) {
            None => {
                assert(!valid_tiles_bytes(bytes@)) by {
                    assert(bytes@[8 * (i as int)] > 2);
                }
                return Err(TransferError::InvalidTerrian { index: i, bits: bytes[i * 8] });
            },
            Some(t) => {
                out.push(t);
            },
        }
        i = i + 1;
    }
    assert forall|k: int| 0 <= k < bytes@.len() implies #[trigger] tiles_bytes(out@)[k] == bytes@[k] by {
        let j = k / 8;
        assert(tile_bytes(out@[j]) == bytes@.subrange(8 * j, 8 * j + 8));
        assert(bytes@.subrange(8 * j, 8 * j + 8)[k % 8] == bytes@[k]);
    }
    assert(tiles_bytes(out@) =~= bytes@);
    assert(valid_tiles_bytes(bytes@)) by {
        assert forall|j: int| 0 <= j < bytes@.len() / 8 implies #[trigger] bytes@[8 * j] <= 2 by {
            assert(j < i);
        }
    }
    Ok(out)
}

/// The parameter block handed to the device with each dispatch.
#[derive(Clone, Copy, Debug, PartialEq, Eq, Structural)]
pub struct TileConstants {
    pub width: u32,
    pub height: u32,
    pub depth: u32,
    pub frame_number: u32,
}

/// The four little-endian bytes of `v`.
pub open spec fn le_bytes(v: u32) -> Seq<u8> {
    seq![
        (v % 256) as u8,
        ((v / 256) % 256) as u8,
        ((v / 65536) % 256) as u8,
        (v / 16777216) as u8,
    ]
}

/// The sixteen bytes of a parameter block: width, height, depth and frame
/// number, each little-endian.
pub open spec fn constants_bytes(c: TileConstants) -> Seq<u8> {
    le_bytes(c.width) + le_bytes(c.height) + le_bytes(c.depth) + le_bytes(c.frame_number)
}

fn push_le(out: &mut Vec<u8>, v: u32)
    ensures
        final(out)@ == old(out)@ + le_bytes(v),
{
    out.push((v % 256) as u8);
    out.push(((v / 256) % 256) as u8);
    out.push(((v / 65536) % 256) as u8);
    out.push((v / 16777216) as u8);
    assert(final(out)@ =~= old(out)@ + le_bytes(v));
}

impl TileConstants {
    /// The bytes of this block as the device reads them.
    pub fn to_bytes(&self) -> (r: Vec<u8>)
        ensures
            r@ == constants_bytes(*self),
    {
        let mut out: Vec<u8> = Vec::with_capacity(16);
        push_le(&mut out, self.width);
        push_le(&mut out, self.height);
        push_le(&mut out, self.depth);
        push_le(&mut out, self.frame_number);
        assert(out@ =~= constants_bytes(*self));
        out
    }
}

} // verus!
