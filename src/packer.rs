//! Packing a one-dimensional run of texels into the smallest square texture
//! of side `floor(sqrt(n)) + 1`.
use vstd::prelude::*;

verus! {

/// `r` is the integer square root of `n`: `r * r <= n < (r + 1) * (r + 1)`.
pub open spec fn is_floor_sqrt(r: int, n: int) -> bool {
    0 <= r && r * r <= n && n < (r + 1) * (r + 1)
}

/// The side of the square texture that holds `n` texels.
pub open spec fn side_for(n: int, side: int) -> bool {
    is_floor_sqrt(side - 1, n)
}

/// The texels of the packed texture: the input in order, then zero padding up
/// to `side * side` entries.
pub open spec fn padded(data: Seq<u32>, side: nat) -> Seq<u32> {
    data + Seq::new((side * side - data.len()) as nat, |i: int| 0u32)
}

/// The largest number of texels a texture of this library can hold a side for.
pub const MAX_TEXELS: usize = 0xFFFE_0000;

/// Integer square root, rounded down.
pub fn floor_sqrt(n: u64) -> (r: u64)
    requires
        n <= 0xFFFF_FFFF,
    ensures
        is_floor_sqrt(r as int, n as int),
        r < 0x1_0000,
{
    let mut r: u64 = 0;
    loop
        invariant
            n <= 0xFFFF_FFFF,
            r * r <= n,
            r < 0x1_0000,
        ensures
            is_floor_sqrt(r as int, n as int),
            r < 0x1_0000,
        decreases n - r * r,
    {
        proof {
            assert((r + 1) * (r + 1) <= 0x1_0000_0000) by (nonlinear_arith)
                requires r < 0x1_0000;
        }
        let next: u64 = r + 1;
        if next * next > n {
            break;
        }
        proof {
            assert(next * next > r * r) by (nonlinear_arith)
                requires next == r + 1;
            assert(next < 0x1_0000) by (nonlinear_arith)
                requires next * next <= n, n <= 0xFFFF_FFFF;
        }
        r = next;
    }
    r
}

/// A square texture of 32-bit texels, row-major.
pub struct PackedTexture {
    pub side: u32,
    pub texels: Vec<u32>,
}

/// Packs `data` into the smallest square of side `floor(sqrt(n)) + 1`,
/// padding with zero texels.
pub fn pack_square(data: &Vec<u32>) -> (t: PackedTexture)
    requires
        data@.len() <= MAX_TEXELS,
    ensures
        side_for(data@.len() as int, t.side as int),
        t.side * t.side >= data@.len(),
        t.texels@ == padded(data@, t.side as nat),
{
    let n = data.len();
    let side = floor_sqrt(n as u64) + 1;
    proof {
        assert(side <= 0xFFFF) by (nonlinear_arith)
            requires is_floor_sqrt(side - 1, n as int), n <= 0xFFFE_0000;
        assert(side * side <= 0xFFFE_0001) by (nonlinear_arith)
            requires side <= 0xFFFF;
    }
    let total: usize = (side * side) as usize;
    let mut texels: Vec<u32> = Vec::with_capacity(total);
    let mut i: usize = 0;
    while i < total
        invariant
            n == data@.len(),
            n <= total,
            total == side * side,
            i <= total,
            texels@.len() == i,
            forall|k: int| 0 <= k < i ==> texels@[k] == padded(data@, side as nat)[k],
        decreases total - i,
    {
        let v: u32 = if i < n { data[i] } else { 0 };
        texels.push(v);
        i = i + 1;
    }
    assert(texels@ =~= padded(data@, side as nat));
    PackedTexture { side: side as u32, texels }
}

} // verus!
