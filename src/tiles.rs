use vstd::prelude::*;

verus! {

/// The part of a connecting tile's texture set that draws one quarter of the tile.
#[derive(Clone, Copy, Debug, PartialEq, Eq, Structural)]
pub enum Subtile {
    /// Borders on both sides: no neighbour of the same kind.
    All,
    /// Only the inner corner: both side neighbours match, the diagonal one does not.
    Corners,
    /// Only the horizontal neighbour matches.
    Horizontal,
    /// Only the vertical neighbour matches.
    Vertical,
    /// No border: both side neighbours and the diagonal one match.
    Unbordered,
}

/// The subtile for a quarter whose vertical, horizontal and diagonal neighbours do or do not
/// match the tile.
pub open spec fn spec_quarter(vertical: bool, horizontal: bool, diagonal: bool) -> Subtile {
    if vertical && horizontal && diagonal {
        Subtile::Unbordered
    } else if vertical && horizontal {
        Subtile::Corners
    } else if vertical {
        Subtile::Vertical
    } else if horizontal {
        Subtile::Horizontal
    } else {
        Subtile::All
    }
}

pub fn quarter(vertical: bool, horizontal: bool, diagonal: bool) -> (r: Subtile)
    ensures
        r == spec_quarter(vertical, horizontal, diagonal),
{
    if vertical {
        if horizontal {
            if diagonal {
                Subtile::Unbordered
            } else {
                Subtile::Corners
            }
        } else {
            Subtile::Vertical
        }
    } else if horizontal {
        Subtile::Horizontal
    } else {
        Subtile::All
    }
}

/// The subtiles of the four quarters of a connecting tile, top left, top right, bottom left,
/// bottom right, from its 3x3 neighbourhood (`n[dy + 1][dx + 1]` tells whether the tile at
/// offset `(dx, dy)` is of the same kind).
pub fn quarters(n: &[[bool; 3]; 3]) -> (r: [Subtile; 4])
    ensures
        r@[0] == spec_quarter(n@[0]@[1], n@[1]@[0], n@[0]@[0]),
        r@[1] == spec_quarter(n@[0]@[1], n@[1]@[2], n@[0]@[2]),
        r@[2] == spec_quarter(n@[2]@[1], n@[1]@[0], n@[2]@[0]),
        r@[3] == spec_quarter(n@[2]@[1], n@[1]@[2], n@[2]@[2]),
{
    [
        quarter(n[0][1], n[1][0], n[0][0]),
        quarter(n[0][1], n[1][2], n[0][2]),
        quarter(n[2][1], n[1][0], n[2][0]),
        quarter(n[2][1], n[1][2], n[2][2]),
    ]
}

} // verus!
