//! A generalised Hilbert curve: a bijection between `D`-dimensional integer
//! coordinates, each below `2^level`, and a linear index of `level * D` bits.
use vstd::prelude::*;
use vstd::arithmetic::div_mod::lemma_div_denominator;
use vstd::arithmetic::power2::{lemma_pow2_adds, lemma_pow2_pos, pow2};
use vstd::bits::lemma_u64_shr_is_div;
use vstd::std_specs::bits::u64_trailing_zeros;

verus! {

// ---------------------------------------------------------------------------
// Mathematical model
// ---------------------------------------------------------------------------

/// The `n` lowest bits set (for `n < 64`).
pub open spec fn low_mask(n: u64) -> u64 {
    !(u64::MAX << n)
}

/// `v >> s`, taken as zero once every bit has been shifted out.
pub open spec fn shr(v: u64, s: nat) -> u64 {
    if s >= 64 {
        0
    } else {
        v >> (s as u64)
    }
}

/// Binary-reflected Gray code of `i`.
pub open spec fn gray(i: u64) -> u64 {
    i ^ (i >> 1u64)
}

/// The xor of `g >> j` for all `j < n`; with `n == D` this inverts `gray`
/// on `D`-bit values.
pub open spec fn gray_inv(g: u64, n: nat) -> u64
    decreases n,
{
    if n == 0 {
        0
    } else {
        gray_inv(g, (n - 1) as nat) ^ (g >> ((n - 1) as u64))
    }
}

/// Number of trailing one bits of `i`.
pub open spec fn trailing_ones(i: u64) -> u64 {
    u64_trailing_zeros(!i) as u64
}

/// The axis along which the sub-cube `i` leaves its parent.
pub open spec fn dmap_spec(i: u64, dim: u64) -> u64 {
    if i == 0 {
        0
    } else if i & 1 == 0 {
        (trailing_ones((i - 1) as u64) % dim) as u64
    } else {
        (trailing_ones(i) % dim) as u64
    }
}

/// The entry corner of the sub-cube `i`.
pub open spec fn emap_spec(i: u64) -> u64 {
    if i == 0 {
        0
    } else {
        gray((2 * ((i - 1) / 2)) as u64)
    }
}

/// Rotation of the `dim` low bits of `b` to the right by `k` (`k < dim`).
pub open spec fn rotr(b: u64, k: u64, dim: u64) -> u64 {
    (b >> k) ^ ((b << ((dim - k) as u64)) & low_mask(dim))
}

/// Rotation of the `dim` low bits of `b` to the left by `k` (`k < dim`).
pub open spec fn rotl(b: u64, k: u64, dim: u64) -> u64 {
    (low_mask(dim) & (b << k)) ^ (b >> ((dim - k) as u64))
}

/// Bit `i` of each of the first `n` coordinates, gathered into one word:
/// bit `j` of the result is bit `i` of `x[j]`.
pub open spec fn plane(x: Seq<u64>, i: u64, n: nat) -> u64
    decreases n,
{
    if n == 0 {
        0
    } else {
        plane(x, i, (n - 1) as nat) ^ (((x[n - 1] >> i) & 1u64) << ((n - 1) as u64))
    }
}

/// The rotation amount used at a level whose direction state is `d`.
pub open spec fn turn(d: u64, dim: u64) -> u64 {
    ((d + 1) % (dim as int)) as u64
}

/// Entry-point state after a level that produced the digit `w`.
pub open spec fn next_entry(e: u64, d: u64, w: u64, dim: u64) -> u64 {
    e ^ rotl(emap_spec(w), turn(d, dim), dim)
}

/// Direction state after a level that produced the digit `w`.
pub open spec fn next_dir(d: u64, w: u64, dim: u64) -> u64 {
    ((d + dmap_spec(w, dim) + 1) % (dim as int)) as u64
}

/// Index prefix, entry point and direction after encoding the `n` most
/// significant levels of `x`.
pub open spec fn encode_state(x: Seq<u64>, level: u64, n: nat, dim: u64) -> (
    u64,
    u64,
    u64,
)
    decreases n,
{
    if n == 0 {
        (0, 0, 0)
    } else {
        let (h, e, d) = encode_state(x, level, (n - 1) as nat, dim);
        let w = encode_digit(x, (level - n) as u64, e, d, dim);
        ((h << dim) | w, next_entry(e, d, w, dim), next_dir(d, w, dim))
    }
}

/// The digit that level `i` contributes to the index.
pub open spec fn encode_digit(x: Seq<u64>, i: u64, e: u64, d: u64, dim: u64) -> u64 {
    gray_inv(rotr(plane(x, i, dim as nat) ^ e, turn(d, dim), dim), dim as nat)
}

/// The digit of level `i` read from an index.
pub open spec fn digit(code: u64, i: u64, dim: u64) -> u64 {
    (code >> ((i * dim) as u64)) & low_mask(dim)
}

/// The coordinate bits that the digit `w` stands for.
pub open spec fn decode_plane(w: u64, e: u64, d: u64, dim: u64) -> u64 {
    rotl(gray(w), turn(d, dim), dim) ^ e
}

/// Coordinate prefixes, entry point and direction after decoding the `n`
/// most significant levels of `code`.
pub open spec fn decode_state(code: u64, level: u64, n: nat, dim: u64) -> (
    Seq<u64>,
    u64,
    u64,
)
    decreases n,
{
    if n == 0 {
        (Seq::new(dim as nat, |j: int| 0u64), 0, 0)
    } else {
        let (p, e, d) = decode_state(code, level, (n - 1) as nat, dim);
        let w = digit(code, (level - n) as u64, dim);
        let l = decode_plane(w, e, d, dim);
        (
            Seq::new(dim as nat, |j: int| (p[j] << 1u64) | ((l >> (j as u64)) & 1u64)),
            next_entry(e, d, w, dim),
            next_dir(d, w, dim),
        )
    }
}

/// The Hilbert index of the coordinates `x` at depth `level`.
pub open spec fn hilbert_index(x: Seq<u64>, level: u64, dim: u64) -> u64 {
    encode_state(x, level, level as nat, dim).0
}

/// The coordinates whose Hilbert index at depth `level` is `code`.
pub open spec fn hilbert_coords(code: u64, level: u64, dim: u64) -> Seq<u64> {
    decode_state(code, level, level as nat, dim).0
}

/// Dimensions and depths that fit a machine word.
pub open spec fn valid_shape(dim: u64, level: u64) -> bool {
    1 <= dim < 64 && level * dim <= 64
}

/// Every coordinate lies in `[0, 2^level)`.
pub open spec fn in_domain(x: Seq<u64>, level: u64) -> bool {
    forall|j: int| 0 <= j < x.len() ==> shr(#[trigger] x[j], level as nat) == 0
}

// ---------------------------------------------------------------------------
// Bit-level facts
// ---------------------------------------------------------------------------

proof fn lemma_rotations(b: u64, k: u64, dim: u64)
    requires
        dim < 64,
        k < dim,
        b <= low_mask(dim),
    ensures
        rotr(b, k, dim) <= low_mask(dim),
        rotl(b, k, dim) <= low_mask(dim),
        rotl(rotr(b, k, dim), k, dim) == b,
{
    let m = low_mask(dim);
    let r = rotr(b, k, dim);
    assert(m == !(u64::MAX << dim));
    assert(r == (b >> k) ^ ((b << ((dim - k) as u64)) & m));
    let s = (dim - k) as u64;
    assert(((b >> k) ^ ((b << s) & m)) <= m) by (bit_vector)
        requires
            m == !(u64::MAX << dim),
            dim < 64,
            b <= m,
    ;
    assert((m & (b << k)) ^ (b >> s) <= m) by (bit_vector)
        requires
            m == !(u64::MAX << dim),
            dim < 64,
            b <= m,
    ;
    assert((m & (r << k)) ^ (r >> s) == b) by (bit_vector)
        requires
            m == !(u64::MAX << dim),
            dim < 64,
            k < dim,
            s == dim - k,
            b <= m,
            r == (b >> k) ^ ((b << s) & m),
    ;
}

proof fn lemma_xor_bounded(a: u64, b: u64, m: u64, dim: u64)
    requires
        dim < 64,
        m == low_mask(dim),
        a <= m,
        b <= m,
    ensures
        a ^ b <= m,
        (a ^ b) ^ b == a,
{
    assert(a ^ b <= m && (a ^ b) ^ b == a) by (bit_vector)
        requires
            m == !(u64::MAX << dim),
            dim < 64,
            a <= m,
            b <= m,
    ;
}

proof fn lemma_gray_bounded(v: u64, dim: u64)
    requires
        dim < 64,
        v <= low_mask(dim),
    ensures
        gray(v) <= low_mask(dim),
{
    let m = low_mask(dim);
    assert(v ^ (v >> 1u64) <= m) by (bit_vector)
        requires
            m == !(u64::MAX << dim),
            dim < 64,
            v <= m,
    ;
}

proof fn lemma_gray_inv_bounded(g: u64, n: nat, dim: u64)
    requires
        dim < 64,
        g <= low_mask(dim),
    ensures
        gray_inv(g, n) <= low_mask(dim),
    decreases n,
{
    let m = low_mask(dim);
    if n == 0 {
        assert(0u64 <= m);
    } else {
        lemma_gray_inv_bounded(g, (n - 1) as nat, dim);
        let a = gray_inv(g, (n - 1) as nat);
        let s = (n - 1) as u64;
        assert(a ^ (g >> s) <= m) by (bit_vector)
            requires
                m == !(u64::MAX << dim),
                dim < 64,
                a <= m,
                g <= m,
        ;
    }
}

proof fn lemma_gray_of_gray_inv_prefix(g: u64, n: nat)
    requires
        n < 64,
    ensures
        gray(gray_inv(g, n)) == g ^ (g >> (n as u64)),
    decreases n,
{
    if n == 0 {
        assert(0u64 ^ (0u64 >> 1u64) == g ^ (g >> 0u64)) by (bit_vector);
    } else {
        lemma_gray_of_gray_inv_prefix(g, (n - 1) as nat);
        let a = gray_inv(g, (n - 1) as nat);
        let s = (n - 1) as u64;
        assert((a ^ (g >> s)) ^ ((a ^ (g >> s)) >> 1u64) == g ^ (g >> ((s + 1) as u64)))
            by (bit_vector)
            requires
                a ^ (a >> 1u64) == g ^ (g >> s),
                s < 63,
        ;
    }
}

/// On `dim`-bit values, `gray_inv` undoes `gray`.
proof fn lemma_gray_of_gray_inv(g: u64, dim: u64)
    requires
        dim < 64,
        g <= low_mask(dim),
    ensures
        gray(gray_inv(g, dim as nat)) == g,
{
    lemma_gray_of_gray_inv_prefix(g, dim as nat);
    let m = low_mask(dim);
    assert(g ^ (g >> dim) == g) by (bit_vector)
        requires
            m == !(u64::MAX << dim),
            dim < 64,
            g <= m,
    ;
}

proof fn lemma_emap_bounded(w: u64, dim: u64)
    requires
        dim < 64,
        w <= low_mask(dim),
    ensures
        emap_spec(w) <= low_mask(dim),
{
    if w != 0 {
        let v = (2 * ((w - 1) / 2)) as u64;
        assert(v <= w);
        lemma_gray_bounded(v, dim);
    }
}

/// Bit `j` of `plane(x, i, n)` is bit `i` of `x[j]`.
proof fn lemma_plane(x: Seq<u64>, i: u64, n: nat)
    requires
        n < 64,
        n <= x.len(),
    ensures
        plane(x, i, n) <= low_mask(n as u64),
        forall|j: u64| j < n ==> (plane(x, i, n) >> j) & 1u64 == (#[trigger] x[j as int] >> i) & 1u64,
    decreases n,
{
    let nn = n as u64;
    let a = plane(x, i, n);
    if n == 0 {
        assert(0u64 <= !(u64::MAX << 0u64)) by (bit_vector);
    } else {
        lemma_plane(x, i, (n - 1) as nat);
        let p = plane(x, i, (n - 1) as nat);
        let s = (n - 1) as u64;
        let y = x[s as int];
        let bit = (y >> i) & 1u64;
        assert(a == p ^ (bit << s));
        assert(a <= !(u64::MAX << nn) && (a >> s) & 1u64 == bit) by (bit_vector)
            requires
                a == p ^ (bit << s),
                p <= !(u64::MAX << s),
                bit == (y >> i) & 1u64,
                nn == s + 1,
                nn < 64,
        ;
        assert forall|j: u64| j < n implies (a >> j) & 1u64 == (#[trigger] x[j as int] >> i) & 1u64 by {
            if j < s {
                assert((a >> j) & 1u64 == (p >> j) & 1u64) by (bit_vector)
                    requires
                        a == p ^ (bit << s),
                        bit == (y >> i) & 1u64,
                        j < s,
                        s < 63,
                ;
            }
        }
    }
}

proof fn lemma_shr_shr(v: u64, a: u64, b: u64)
    requires
        a + b < 64,
    ensures
        (v >> a) >> b == v >> ((a + b) as u64),
{
    lemma_u64_shr_is_div(v, a);
    lemma_u64_shr_is_div(v >> a, b);
    lemma_u64_shr_is_div(v, (a + b) as u64);
    lemma_pow2_pos(a as nat);
    lemma_pow2_pos(b as nat);
    lemma_pow2_adds(a as nat, b as nat);
    lemma_div_denominator(v as int, pow2(a as nat) as int, pow2(b as nat) as int);
}

/// Appending one lower bit rebuilds the next longer prefix of `v`.
proof fn lemma_push_bit(v: u64, i: u64)
    requires
        i < 64,
    ensures
        (shr(v, i as nat + 1) << 1u64) | ((v >> i) & 1u64) == v >> i,
{
    if i == 63 {
        assert((0u64 << 1u64) | ((v >> 63u64) & 1u64) == v >> 63u64) by (bit_vector);
    } else {
        assert(((v >> ((i + 1) as u64)) << 1u64) | ((v >> i) & 1u64) == v >> i) by (bit_vector)
            requires
                i < 63,
        ;
    }
}

// ---------------------------------------------------------------------------
// Level-by-level facts
// ---------------------------------------------------------------------------

proof fn lemma_encode_bounds(x: Seq<u64>, level: u64, n: nat, dim: u64)
    requires
        1 <= dim < 64,
        x.len() == dim,
    ensures
        encode_state(x, level, n, dim).1 <= low_mask(dim),
        encode_state(x, level, n, dim).2 < dim,
        n > 0 ==> encode_digit(
            x,
            (level - n) as u64,
            encode_state(x, level, (n - 1) as nat, dim).1,
            encode_state(x, level, (n - 1) as nat, dim).2,
            dim,
        ) <= low_mask(dim),
    decreases n,
{
    let m = low_mask(dim);
    if n == 0 {
        assert(0u64 <= !(u64::MAX << dim)) by (bit_vector);
    } else {
        lemma_encode_bounds(x, level, (n - 1) as nat, dim);
        let (h, e, d) = encode_state(x, level, (n - 1) as nat, dim);
        let i = (level - n) as u64;
        let b = plane(x, i, dim as nat);
        lemma_plane(x, i, dim as nat);
        lemma_xor_bounded(b, e, m, dim);
        let k = turn(d, dim);
        lemma_rotations(b ^ e, k, dim);
        lemma_gray_inv_bounded(rotr(b ^ e, k, dim), dim as nat, dim);
        let w = encode_digit(x, i, e, d, dim);
        lemma_emap_bounded(w, dim);
        lemma_rotations(emap_spec(w), k, dim);
        lemma_xor_bounded(e, rotl(emap_spec(w), k, dim), m, dim);
    }
}

/// The index prefix after `n` levels has at most `n * dim` bits.
proof fn lemma_encode_width(x: Seq<u64>, level: u64, n: nat, dim: u64)
    requires
        valid_shape(dim, level),
        x.len() == dim,
        n < level,
    ensures
        encode_state(x, level, n, dim).0 >> ((n * dim) as u64) == 0,
    decreases n,
{
    let h = encode_state(x, level, n, dim).0;
    assert(n * dim + dim <= level * dim) by (nonlinear_arith)
        requires
            n < level,
    ;
    if n == 0 {
        assert(0u64 >> 0u64 == 0) by (bit_vector);
    } else {
        lemma_encode_width(x, level, (n - 1) as nat, dim);
        lemma_encode_bounds(x, level, n, dim);
        let (a, e, d) = encode_state(x, level, (n - 1) as nat, dim);
        let w = encode_digit(x, (level - n) as u64, e, d, dim);
        let s = ((n - 1) * dim) as u64;
        assert(n * dim == (n - 1) * dim + dim) by (nonlinear_arith);
        let m = low_mask(dim);
        assert(((a << dim) | w) >> ((s + dim) as u64) == 0) by (bit_vector)
            requires
                a >> s == 0,
                w <= m,
                m == !(u64::MAX << dim),
                s + dim < 64,
        ;
    }
}

/// Dropping the `level - n` lowest digits of the full index leaves the
/// prefix after `n` levels.
proof fn lemma_index_prefix(x: Seq<u64>, level: u64, n: nat, dim: u64)
    requires
        valid_shape(dim, level),
        x.len() == dim,
        1 <= n <= level,
    ensures
        hilbert_index(x, level, dim) >> (((level - n) * dim) as u64) == encode_state(x, level, n, dim).0,
    decreases level - n,
{
    let full = hilbert_index(x, level, dim);
    if n == level {
        assert(full >> 0u64 == full) by (bit_vector);
        assert(level - n == 0);
        assert((level - n) * dim == 0) by (nonlinear_arith)
            requires
                level - n == 0,
        ;
    } else {
        lemma_index_prefix(x, level, n + 1, dim);
        lemma_encode_width(x, level, n, dim);
        lemma_encode_bounds(x, level, n + 1, dim);
        let a = encode_state(x, level, n, dim).0;
        let (_, e, d) = encode_state(x, level, n, dim);
        let w = encode_digit(x, (level - (n + 1)) as u64, e, d, dim);
        assert((level - n) * dim == (level - (n + 1)) * dim + dim) by (nonlinear_arith);
        assert((level - n) * dim + dim <= level * dim) by (nonlinear_arith)
            requires
                1 <= n,
        ;
        assert(n * dim + dim <= level * dim) by (nonlinear_arith)
            requires
                n < level,
        ;
        let s1 = ((level - (n + 1)) * dim) as u64;
        let s = (n * dim) as u64;
        assert(n * dim + dim <= level * dim) by (nonlinear_arith)
            requires
                n < level,
        ;
        assert((level - (n + 1)) * dim + dim <= level * dim) by (nonlinear_arith)
            requires
                n + 1 <= level,
        ;
        let m = low_mask(dim);
        assert((level - n) * dim + dim <= level * dim) by (nonlinear_arith)
            requires
                1 <= n,
        ;
        lemma_shr_shr(full, s1, dim);
        assert(((a << dim) | w) >> dim == a) by (bit_vector)
            requires
                a >> s == 0,
                s + dim <= 64,
                w <= m,
                m == !(u64::MAX << dim),
                dim < 64,
        ;
        assert(encode_state(x, level, n + 1, dim).0 == (a << dim) | w);
        assert(full >> s1 == (a << dim) | w);
        assert(((level - n) * dim) as u64 == (s1 + dim) as u64);
        assert((full >> s1) >> dim == a);
        assert(full >> ((s1 + dim) as u64) == a);
    }
}

/// Decoding the first `n` digits of an index retraces the encoder's states
/// and recovers the top `n` bits of each coordinate.
proof fn lemma_decode_retraces(x: Seq<u64>, level: u64, n: nat, dim: u64)
    requires
        valid_shape(dim, level),
        x.len() == dim,
        in_domain(x, level),
        n <= level,
    ensures
        ({
            let (p, e, d) = decode_state(hilbert_index(x, level, dim), level, n, dim);
            &&& e == encode_state(x, level, n, dim).1
            &&& d == encode_state(x, level, n, dim).2
            &&& p.len() == dim
            &&& forall|j: int| 0 <= j < dim ==> #[trigger] p[j] == shr(x[j], (level - n) as nat)
        }),
    decreases n,
{
    let code = hilbert_index(x, level, dim);
    if n > 0 {
        let k0 = (n - 1) as nat;
        lemma_decode_retraces(x, level, k0, dim);
        lemma_encode_bounds(x, level, n, dim);
        lemma_encode_bounds(x, level, k0, dim);
        lemma_index_prefix(x, level, n, dim);
        let (p, e, d) = decode_state(code, level, k0, dim);
        let (h, _, _) = encode_state(x, level, k0, dim);
        let i = (level - n) as u64;
        let w = encode_digit(x, i, e, d, dim);
        let m = low_mask(dim);
        assert(level <= 64) by (nonlinear_arith)
            requires
                level * dim <= 64,
                1 <= dim,
        ;
        assert(i * dim + dim <= level * dim) by (nonlinear_arith)
            requires
                i < level,
        ;
        assert(i * dim == (level - n) * dim);
        assert(((h << dim) | w) & m == w) by (bit_vector)
            requires
                w <= m,
                m == !(u64::MAX << dim),
                dim < 64,
        ;
        assert(digit(code, i, dim) == w);
        let b = plane(x, i, dim as nat);
        let k = turn(d, dim);
        lemma_plane(x, i, dim as nat);
        lemma_xor_bounded(b, e, m, dim);
        lemma_rotations(b ^ e, k, dim);
        lemma_gray_of_gray_inv(rotr(b ^ e, k, dim), dim);
        let l = decode_plane(w, e, d, dim);
        assert(l == b);
        let (p2, _, _) = decode_state(code, level, n, dim);
        assert forall|j: int| 0 <= j < dim implies #[trigger] p2[j] == shr(x[j], (level - n) as nat) by {
            assert(p2[j] == (p[j] << 1u64) | ((l >> (j as u64)) & 1u64));
            assert((b >> (j as u64)) & 1u64 == (x[(j as u64) as int] >> i) & 1u64);
            lemma_push_bit(x[j], i);
        }
    } else {
        assert forall|j: int| 0 <= j < dim implies #[trigger] decode_state(code, level, 0, dim).0[j]
            == shr(x[j], (level - 0) as nat) by {
            assert(shr(x[j], level as nat) == 0);
        }
    }
}

/// Re-encoding the decoded coordinates of `code` retraces the decoder's
/// states and rebuilds the top `n` digits of `code`.
proof fn lemma_encode_retraces(code: u64, level: u64, n: nat, dim: u64)
    requires
        valid_shape(dim, level),
        shr(code, (level * dim) as nat) == 0,
        n <= level,
    ensures
        ({
            let (h, e, d) = encode_state(hilbert_coords(code, level, dim), level, n, dim);
            &&& h == shr(code, ((level - n) * dim) as nat)
            &&& e == decode_state(code, level, n, dim).1
            &&& d == decode_state(code, level, n, dim).2
        }),
    decreases n,
{
    let p = hilbert_coords(code, level, dim);
    assert(level <= 64) by (nonlinear_arith)
        requires
            level * dim <= 64,
            1 <= dim,
    ;
    if n > 0 {
        let i = (level - n) as u64;
        let m = low_mask(dim);
        lemma_encode_retraces(code, level, (n - 1) as nat, dim);
        lemma_decode_bits(code, level, level as nat, dim);
        let (h, e, d) = encode_state(p, level, (n - 1) as nat, dim);
        lemma_encode_bounds(p, level, (n - 1) as nat, dim);
        let w = digit(code, i, dim);
        let k = turn(d, dim);
        let l = decode_plane(w, e, d, dim);
        assert(l == level_plane(code, level, i as nat, dim));
        assert forall|j: u64| j < dim implies (#[trigger] p[j as int] >> i) & 1u64 == (l >> j) & 1u64 by {
            assert(i == (level - level + i) as u64);
            assert((p[j as int] >> i) & 1u64 == (level_plane(code, level, (level - level + i) as nat, dim) >> j) & 1u64);
        }
        lemma_plane_of_bits(p, i, l, dim as nat);
        let g = gray(w);
        assert(w <= m) by (bit_vector)
            requires
                w == (code >> ((i * dim) as u64)) & m,
        ;
        lemma_gray_bounded(w, dim);
        lemma_rotations(g, k, dim);
        let r = rotl(g, k, dim);
        assert((((r ^ e) & m) ^ e) == r) by (bit_vector)
            requires
                r <= m,
                e <= m,
                m == !(u64::MAX << dim),
                dim < 64,
        ;
        lemma_rotations_inverse(g, k, dim);
        lemma_gray_inv_of_gray(w, dim);
        assert(encode_digit(p, i, e, d, dim) == w);
        // The index prefix grows by the same digit.
        assert(i * dim + dim <= level * dim) by (nonlinear_arith)
            requires
                i < level,
        ;
        assert((level - (n - 1)) * dim == i * dim + dim) by (nonlinear_arith)
            requires
                i == level - n,
        ;
        let s0 = (i * dim) as u64;
        let y = code >> s0;
        if i * dim + dim < 64 {
            lemma_shr_shr(code, s0, dim);
            assert(((y >> dim) << dim) | (y & m) == y) by (bit_vector)
                requires
                    m == !(u64::MAX << dim),
                    dim < 64,
            ;
        } else {
            assert(y & m == y) by (bit_vector)
                requires
                    m == !(u64::MAX << dim),
                    dim < 64,
                    s0 + dim == 64,
                    y == code >> s0,
            ;
            assert((0u64 << dim) | y == y) by (bit_vector);
        }
    } else {
        assert((level - n) * dim == level * dim);
    }
}

// ---------------------------------------------------------------------------
// Laws
// ---------------------------------------------------------------------------

/// Decoding the Hilbert index of in-range coordinates gives the coordinates
/// back.
pub proof fn lemma_hilbert_round_trip(x: Seq<u64>, level: u64, dim: u64)
    requires
        valid_shape(dim, level),
        x.len() == dim,
        in_domain(x, level),
    ensures
        hilbert_coords(hilbert_index(x, level, dim), level, dim) == x,
{
    lemma_decode_retraces(x, level, level as nat, dim);
    let p = hilbert_coords(hilbert_index(x, level, dim), level, dim);
    assert forall|j: int| 0 <= j < dim implies #[trigger] p[j] == x[j] by {
        let v = x[j];
        assert(v >> 0u64 == v) by (bit_vector);
    }
    assert(p =~= x);
}

/// Distinct in-range coordinates have distinct Hilbert indices.
pub proof fn lemma_hilbert_injective(x: Seq<u64>, y: Seq<u64>, level: u64, dim: u64)
    requires
        valid_shape(dim, level),
        x.len() == dim,
        y.len() == dim,
        in_domain(x, level),
        in_domain(y, level),
        x != y,
    ensures
        hilbert_index(x, level, dim) != hilbert_index(y, level, dim),
{
    lemma_hilbert_round_trip(x, level, dim);
    lemma_hilbert_round_trip(y, level, dim);
}

proof fn lemma_digit_step(x: u64, s: u64, k: u64)
    requires
        s + k < 64,
        k + 1 < 64,
    ensures
        ((x >> s) & low_mask(k)) ^ (((x >> ((s + k) as u64)) & 1u64) << k) == (x >> s) & low_mask(
            (k + 1) as u64,
        ),
{
    lemma_shr_shr(x, s, k);
    let y = x >> s;
    let k1 = (k + 1) as u64;
    assert((y & !(u64::MAX << k)) ^ (((y >> k) & 1u64) << k) == y & !(u64::MAX << k1))
        by (bit_vector)
        requires
            k1 == k + 1,
            k1 < 64,
    ;
}

proof fn lemma_gray_inv_of_gray_prefix(w: u64, n: nat)
    requires
        n < 64,
    ensures
        gray_inv(gray(w), n) == w ^ (w >> (n as u64)),
    decreases n,
{
    if n == 0 {
        assert(0u64 == w ^ (w >> 0u64)) by (bit_vector);
    } else {
        lemma_gray_inv_of_gray_prefix(w, (n - 1) as nat);
        let s = (n - 1) as u64;
        let g = gray(w);
        assert((w ^ (w >> s)) ^ ((w ^ (w >> 1u64)) >> s) == w ^ (w >> ((s + 1) as u64)))
            by (bit_vector)
            requires
                s < 63,
        ;
    }
}

/// On `dim`-bit values, `gray` undoes `gray_inv`.
proof fn lemma_gray_inv_of_gray(w: u64, dim: u64)
    requires
        dim < 64,
        w <= low_mask(dim),
    ensures
        gray_inv(gray(w), dim as nat) == w,
{
    lemma_gray_inv_of_gray_prefix(w, dim as nat);
    let m = low_mask(dim);
    assert(w ^ (w >> dim) == w) by (bit_vector)
        requires
            m == !(u64::MAX << dim),
            dim < 64,
            w <= m,
    ;
}

proof fn lemma_rotations_inverse(b: u64, k: u64, dim: u64)
    requires
        dim < 64,
        k < dim,
        b <= low_mask(dim),
    ensures
        rotr(rotl(b, k, dim), k, dim) == b,
{
    let m = low_mask(dim);
    let s = (dim - k) as u64;
    let r = rotl(b, k, dim);
    assert(r == (m & (b << k)) ^ (b >> s));
    assert((r >> k) ^ ((r << s) & m) == b) by (bit_vector)
        requires
            m == !(u64::MAX << dim),
            dim < 64,
            k < dim,
            s == dim - k,
            b <= m,
            r == (m & (b << k)) ^ (b >> s),
    ;
}

/// A word whose bit `j` is bit `i` of `x[j]`, for every `j < n`, agrees with
/// `plane(x, i, n)` on its `n` low bits.
proof fn lemma_plane_of_bits(x: Seq<u64>, i: u64, l: u64, n: nat)
    requires
        n < 64,
        n <= x.len(),
        forall|j: u64| j < n ==> (#[trigger] x[j as int] >> i) & 1u64 == (l >> j) & 1u64,
    ensures
        plane(x, i, n) == l & low_mask(n as u64),
    decreases n,
{
    if n == 0 {
        assert(0u64 == l & !(u64::MAX << 0u64)) by (bit_vector);
    } else {
        let s = (n - 1) as u64;
        lemma_plane_of_bits(x, i, l, (n - 1) as nat);
        assert((x[s as int] >> i) & 1u64 == (l >> s) & 1u64);
        lemma_digit_step(l, 0, s);
        assert(l >> 0u64 == l) by (bit_vector);
    }
}

/// The coordinate bits that the digit of level `i` stands for, as the
/// decoder computes them.
pub open spec fn level_plane(code: u64, level: u64, i: nat, dim: u64) -> u64 {
    let (_, e, d) = decode_state(code, level, (level - i - 1) as nat, dim);
    decode_plane(digit(code, i as u64, dim), e, d, dim)
}

/// After `n` decoded levels, bit `t` of coordinate `j` is bit `j` of the
/// plane of level `level - n + t`.
proof fn lemma_decode_bits(code: u64, level: u64, n: nat, dim: u64)
    requires
        n <= level,
        level <= 64,
        1 <= dim < 64,
    ensures
        decode_state(code, level, n, dim).0.len() == dim,
        forall|t: u64, j: u64|
            t < n && j < dim ==> #[trigger] (decode_state(code, level, n, dim).0[j as int] >> t)
                & 1u64 == (level_plane(code, level, (level - n + t) as nat, dim) >> j) & 1u64,
    decreases n,
{
    if n > 0 {
        lemma_decode_bits(code, level, (n - 1) as nat, dim);
        let p = decode_state(code, level, (n - 1) as nat, dim).0;
        let q = decode_state(code, level, n, dim).0;
        let l = level_plane(code, level, (level - n) as nat, dim);
        assert forall|t: u64, j: u64| t < n && j < dim implies #[trigger] (q[j as int] >> t) & 1u64
            == (level_plane(code, level, (level - n + t) as nat, dim) >> j) & 1u64 by {
            let a = p[j as int];
            let b = (l >> j) & 1u64;
            assert(q[j as int] == (a << 1u64) | b);
            if t == 0 {
                assert(((a << 1u64) | b) >> 0u64 & 1u64 == b) by (bit_vector)
                    requires
                        b == (l >> j) & 1u64,
                ;
            } else {
                let t1 = (t - 1) as u64;
                assert(((a << 1u64) | b) >> t & 1u64 == (a >> t1) & 1u64) by (bit_vector)
                    requires
                        b == (l >> j) & 1u64,
                        t1 + 1 == t,
                        t < 64,
                ;
            }
        }
    }
}

// ---------------------------------------------------------------------------
// Executable functions
// ---------------------------------------------------------------------------

/// Mask of the `D` low bits: `2^D - 1` sub-cubes besides the first.
fn max<const D: usize>() -> (r: u64)
    requires
        D < 64,
    ensures
        r == low_mask(D as u64),
{
    !(u64::MAX << (D as u64))
}

fn gc(i: u64) -> (r: u64)
    ensures
        r == gray(i),
{
    i ^ (i >> 1u64)
}

/// Inverse Gray code on `D` bits.
fn gc_inv<const D: usize>(g: u64) -> (r: u64)
    requires
        1 <= D < 64,
    ensures
        r == gray_inv(g, D as nat),
{
    let mut acc = g;
    let mut j: u64 = 1;
    assert(0u64 ^ (g >> 0u64) == g) by (bit_vector);
    assert(gray_inv(g, 0) == 0u64);
    assert(gray_inv(g, 1) == 0u64 ^ (g >> 0u64));
    while j < D as u64
        invariant
            1 <= j <= D,
            D < 64,
            acc == gray_inv(g, j as nat),
        decreases D - j,
    {
        acc = acc ^ (g >> j);
        j = j + 1;
    }
    acc
}

fn g(i: u64) -> (r: u64)
    ensures
        r == trailing_ones(i),
{
    (!i).trailing_zeros() as u64
}

fn dmap<const D: usize>(i: u64) -> (r: u64)
    requires
        1 <= D < 64,
    ensures
        r == dmap_spec(i, D as u64),
        r < D,
{
    if i == 0 {
        0
    } else if i & 1 == 0 {
        g(i - 1) % (D as u64)
    } else {
        g(i) % (D as u64)
    }
}

fn emap(i: u64) -> (r: u64)
    ensures
        r == emap_spec(i),
{
    if i == 0 {
        0
    } else {
        gc(2 * ((i - 1) / 2))
    }
}

/// Rotates the `D` low bits of `b` right by `i` places.
fn rotate_right<const D: usize>(b: u64, i: u64) -> (r: u64)
    requires
        1 <= D < 64,
    ensures
        r == rotr(b, i % (D as u64), D as u64),
{
    let i = i % (D as u64);
    (b >> i) ^ ((b << (D as u64 - i)) & max::<D>())
}

/// Rotates the `D` low bits of `b` left by `i` places.
fn rotate_left<const D: usize>(b: u64, i: u64) -> (r: u64)
    requires
        1 <= D < 64,
    ensures
        r == rotl(b, i % (D as u64), D as u64),
{
    let i = i % (D as u64);
    (max::<D>() & (b << i)) ^ (b >> (D as u64 - i))
}

fn t<const D: usize>(b: u64, e: u64, d: u64) -> (r: u64)
    requires
        1 <= D < 64,
        d < D,
    ensures
        r == rotr(b ^ e, turn(d, D as u64), D as u64),
{
    rotate_right::<D>(b ^ e, d + 1)
}

fn t_inv<const D: usize>(b: u64, e: u64, d: u64) -> (r: u64)
    requires
        1 <= D < 64,
        d < D,
    ensures
        r == rotl(b, turn(d, D as u64), D as u64) ^ e,
{
    rotate_left::<D>(b, d + 1) ^ e
}

/// Gathers bit `i` of every coordinate into one `D`-bit word.
fn reduce<const D: usize>(p: &[u64; D], i: u64) -> (r: u64)
    requires
        D < 64,
        i < 64,
    ensures
        r == plane(p@, i, D as nat),
{
    let mut acc: u64 = 0;
    let mut k: usize = 0;
    while k < D
        invariant
            k <= D,
            D < 64,
            i < 64,
            p@.len() == D,
            acc == plane(p@, i, k as nat),
        decreases D - k,
    {
        acc = acc ^ (((p[k] >> i) & 1) << (k as u64));
        k = k + 1;
    }
    acc
}

/// The Hilbert index of the point `x` in a cube of side `2^level`.
pub fn to_hilbert<const D: usize>(x: [u64; D], level: usize) -> (r: u64)
    requires
        valid_shape(D as u64, level as u64),
    ensures
        r == hilbert_index(x@, level as u64, D as u64),
{
    let (mut h, mut e, mut d) = (0u64, 0u64, 0u64);
    let mut n: usize = 0;
    proof {
        assert(level <= 64) by (nonlinear_arith)
            requires
                level * D <= 64,
                1 <= D,
        ;
    }
    while n < level
        invariant
            valid_shape(D as u64, level as u64),
            level <= 64,
            n <= level,
            x@.len() == D,
            (h, e, d) == encode_state(x@, level as u64, n as nat, D as u64),
        decreases level - n,
    {
        proof {
            lemma_encode_bounds(x@, level as u64, n as nat, D as u64);
        }
        let i = (level - 1 - n) as u64;
        let l = t::<D>(reduce(&x, i), e, d);
        let w = gc_inv::<D>(l);
        e = e ^ rotate_left::<D>(emap(w), d + 1);
        d = (d + dmap::<D>(w) + 1) % (D as u64);
        h = (h << (D as u64)) | w;
        n = n + 1;
    }
    h
}

/// The point whose Hilbert index in a cube of side `2^level` is `x`.
pub fn from_hilbert<const D: usize>(x: u64, level: usize) -> (r: [u64; D])
    requires
        valid_shape(D as u64, level as u64),
    ensures
        r@ == hilbert_coords(x, level as u64, D as u64),
{
    let (mut e, mut d) = (0u64, 0u64);
    let mut p: [u64; D] = [0u64; D];
    let mut n: usize = 0;
    proof {
        assert(level <= 64) by (nonlinear_arith)
            requires
                level * D <= 64,
                1 <= D,
        ;
        assert(p@ =~= decode_state(x, level as u64, 0, D as u64).0);
    }
    while n < level
        invariant
            valid_shape(D as u64, level as u64),
            level <= 64,
            n <= level,
            p@.len() == D,
            d < D,
            (p@, e, d) == decode_state(x, level as u64, n as nat, D as u64),
        decreases level - n,
    {
        let i = (level - 1 - n) as u64;
        proof {
            assert(i * D + D <= level * D) by (nonlinear_arith)
                requires
                    i < level,
            ;
        }
        let shift = i * (D as u64);
        let mut w: u64 = 0;
        let mut k: u64 = 0;
        proof {
            let y = x >> shift;
            assert(y & !(u64::MAX << 0u64) == 0) by (bit_vector);
        }
        while k < D as u64
            invariant
                k <= D,
                D < 64,
                shift + D <= 64,
                w == (x >> shift) & low_mask(k),
            decreases D - k,
        {
            proof {
                lemma_digit_step(x, shift, k);
            }
            w = w ^ (((x >> (shift + k)) & 1) << k);
            k = k + 1;
        }
        assert(w == digit(x, i, D as u64));
        let l = t_inv::<D>(gc(w), e, d);
        let ghost pre = p@;
        let mut j: usize = 0;
        while j < D
            invariant
                j <= D,
                D < 64,
                p@.len() == D,
                pre.len() == D,
                forall|q: int| 0 <= q < j ==> #[trigger] p@[q] == (pre[q] << 1u64) | ((l >> (q as u64)) & 1u64),
                forall|q: int| j <= q < D ==> #[trigger] p@[q] == pre[q],
            decreases D - j,
        {
            p[j] = (p[j] << 1) | ((l >> (j as u64)) & 1);
            j = j + 1;
        }
        e = e ^ rotate_left::<D>(emap(w), d + 1);
        d = (d + dmap::<D>(w) + 1) % (D as u64);
        proof {
            let next = decode_state(x, level as u64, (n + 1) as nat, D as u64);
            assert(p@ =~= next.0);
        }
        n = n + 1;
    }
    p
}

/// Encoding the decoded coordinates of an index that fits in `level * dim`
/// bits gives the index back: with the round trip above, the two maps are
/// inverse bijections.
pub proof fn lemma_hilbert_index_of_coords(code: u64, level: u64, dim: u64)
    requires
        valid_shape(dim, level),
        shr(code, (level * dim) as nat) == 0,
    ensures
        hilbert_index(hilbert_coords(code, level, dim), level, dim) == code,
{
    lemma_encode_retraces(code, level, level as nat, dim);
    assert((level - level) * dim == 0) by (nonlinear_arith);
    assert(code >> 0u64 == code) by (bit_vector);
}

} // verus!
