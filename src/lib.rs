use vstd::prelude::*;

pub mod bits;
pub mod compact_array;
pub mod elias_fano;
pub mod rank9;
pub mod select;

verus! {

/// Maps a uniformly drawn 64-bit value `x` into `[0, n)` by keeping the high
/// half of the 128-bit product `x * n`.
pub fn remap128(x: usize, n: usize) -> (r: usize)
    ensures
        r as int == (x as int * n as int) / 0x1_0000_0000_0000_0000,
        n > 0 ==> r < n,
{
    assert((x as int) * (n as int) <= 0xffff_ffff_ffff_ffffint * 0xffff_ffff_ffff_ffffint) by (nonlinear_arith)
        requires
            x <= 0xffff_ffff_ffff_ffffint,
            n <= 0xffff_ffff_ffff_ffffint,
    ;
    let p: u128 = (x as u128) * (n as u128);
    let r = (p >> 64u32) as usize;
    assert(p >> 64u32 == p / 0x1_0000_0000_0000_0000) by (bit_vector);
    assert(n == 0 || (x as int) * (n as int) < 0x1_0000_0000_0000_0000int * (n as int)) by (nonlinear_arith)
        requires
            x < 0x1_0000_0000_0000_0000int,
    ;
    r
}

/// The rank that one step of the skewed select workload queries, for a
/// vector whose first half holds `ones_first` set bits and whose second half
/// holds `ones_second`: an odd accumulator `u` sends the draw to the second
/// half, an even one to the first.
pub fn skewed_select_target(u: u64, draw: usize, ones_first: usize, ones_second: usize) -> (r: usize)
    requires
        ones_first + ones_second <= usize::MAX,
    ensures
        u % 2 == 1 ==> r == ones_first + (draw as int * ones_second as int) / 0x1_0000_0000_0000_0000,
        u % 2 == 0 ==> r == (draw as int * ones_first as int) / 0x1_0000_0000_0000_0000,
        (u % 2 == 1 && ones_second > 0) || (u % 2 == 0 && ones_first > 0) ==> r < ones_first
            + ones_second,
{
    assert(u & 1 == u % 2) by (bit_vector);
    if u & 1 != 0 {
        ones_first + remap128(draw, ones_second)
    } else {
        remap128(draw, ones_first)
    }
}

} // verus!
