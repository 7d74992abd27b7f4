use vstd::prelude::*;
use vstd::arithmetic::power2::pow2;

verus! {

/// Why a sprite sheet's dimensions were refused.
#[derive(Debug, Clone, Copy, PartialEq, Eq, Structural)]
pub enum SpriteSheetError {
    /// A sprite dimension is zero or does not divide the sheet's.
    InvalidSpriteSize,
    /// A sheet dimension is not a power of two.
    SheetNotPOT,
}

pub open spec fn is_power_of_two(n: u32) -> bool {
    exists|k: nat| k < 32 && n as nat == pow2(k)
}

/// Whether `n` is a power of two.
pub fn power_of_two(n: u32) -> (r: bool)
    ensures
        r == is_power_of_two(n),
{
    let mut p: u32 = 1;
    let ghost mut k: nat = 0;
    proof {
        vstd::arithmetic::power2::lemma2_to64();
    }
    while p < n
        invariant
            k < 32,
            p as nat == pow2(k),
            forall|j: nat| j < k ==> pow2(j) < n,
        decreases 32 - k,
    {
        if p >= 0x8000_0000 {
            proof {
                assert forall|j: nat| j < 32 implies pow2(j) != n by {
                    vstd::arithmetic::power2::lemma2_to64();
                    if j > k {
                        vstd::arithmetic::power2::lemma_pow2_strictly_increases(k, j);
                        if j < 31 {
                            vstd::arithmetic::power2::lemma_pow2_strictly_increases(j, 31);
                        }
                    }
                }
            }
            return false;
        }
        p = p * 2;
        proof {
            vstd::arithmetic::power2::lemma_pow2_adds(k, 1);
            vstd::arithmetic::power2::lemma2_to64();
            k = k + 1;
        }
    }
    proof {
        if p != n {
            assert forall|j: nat| j < 32 implies pow2(j) != n by {
                if j > k {
                    vstd::arithmetic::power2::lemma_pow2_strictly_increases(k, j);
                }
            }
        }
    }
    p == n
}

/// Checks the dimensions of a sprite sheet of `width` by `height` pixels cut into sprites of
/// `sprite_width` by `sprite_height`: both sheet dimensions must be powers of two, and both
/// sprite dimensions nonzero divisors of them.
pub fn check_sheet(width: u32, height: u32, sprite_width: u8, sprite_height: u8) -> (r: Result<
    (),
    SpriteSheetError,
>)
    ensures
        !(is_power_of_two(width) && is_power_of_two(height)) ==> r == Err::<(), SpriteSheetError>(
            SpriteSheetError::SheetNotPOT,
        ),
        is_power_of_two(width) && is_power_of_two(height) ==> r == if sprite_width > 0
            && sprite_height > 0 && width % (sprite_width as u32) == 0 && height % (
        sprite_height as u32) == 0 {
            Ok::<(), SpriteSheetError>(())
        } else {
            Err::<(), SpriteSheetError>(SpriteSheetError::InvalidSpriteSize)
        },
{
    if !power_of_two(width) || !power_of_two(height) {
        return Err(SpriteSheetError::SheetNotPOT);
    }
    if sprite_width == 0 || sprite_height == 0 {
        return Err(SpriteSheetError::InvalidSpriteSize);
    }
    if width % (sprite_width as u32) != 0 || height % (sprite_height as u32) != 0 {
        return Err(SpriteSheetError::InvalidSpriteSize);
    }
    Ok(())
}

/// Whether the sprite in column `vrow`, row `hrow` of a sheet of `width` by `height` pixels,
/// cut into sprites of `sprite_width` by `sprite_height`, starts inside the sheet.
pub fn sprite_in_bounds(
    width: u32,
    height: u32,
    sprite_width: u8,
    sprite_height: u8,
    vrow: u32,
    hrow: u32,
) -> (r: bool)
    ensures
        r == (vrow * sprite_width <= width && hrow * sprite_height <= height),
{
    assert(vrow * sprite_width <= 0xffff_ffff * 255) by (nonlinear_arith)
        requires
            vrow <= 0xffff_ffff,
            sprite_width <= 255,
    ;
    assert(hrow * sprite_height <= 0xffff_ffff * 255) by (nonlinear_arith)
        requires
            hrow <= 0xffff_ffff,
            sprite_height <= 255,
    ;
    let x = vrow as u64 * sprite_width as u64;
    let y = hrow as u64 * sprite_height as u64;
    x <= width as u64 && y <= height as u64
}

} // verus!
