//! Where a coordinate beyond the border of a texture is taken from.

use vstd::prelude::*;

verus! {

/// What stands for a coordinate beyond the border.
#[derive(Debug, Copy, Clone, PartialEq, Eq, Structural)]
pub enum TextureWrapMode {
    NoWrap,
    Clamp,
    Repeat,
    Mirror,
}

/// The coordinate that stands for `coordinate` on an axis of `bound` cells.
/// A coordinate on the axis stands for itself. One beyond it has none to
/// stand for it, or the last of the axis, or the one it comes to when the
/// axis is walked over and over again, or the one it comes to when the axis
/// is walked forth and back.
pub open spec fn wrapped_coordinate(coordinate: int, bound: int, wrap_mode: TextureWrapMode) -> Option<
    int,
> {
    if coordinate < bound {
        Some(coordinate)
    } else {
        match wrap_mode {
            TextureWrapMode::NoWrap => None,
            TextureWrapMode::Clamp => Some(bound - 1),
            TextureWrapMode::Repeat => Some(coordinate % bound),
            TextureWrapMode::Mirror => if coordinate % (bound * 2) >= bound {
                Some(bound * 2 - coordinate % (bound * 2))
            } else {
                Some(coordinate % (bound * 2))
            },
        }
    }
}

/// The coordinate that stands for `coordinate` on an axis of `bound` cells,
/// if there is one.
pub fn get_wrapped_coordinate(coordinate: u32, bound: u32, wrap_mode: TextureWrapMode) -> (wrapped:
    Option<u32>)
    requires
        bound > 0,
        wrap_mode == TextureWrapMode::Mirror ==> bound * 2 <= u32::MAX,
    ensures
        match wrapped {
            Some(found) => wrapped_coordinate(coordinate as int, bound as int, wrap_mode) == Some(
                found as int,
            ),
            None => wrapped_coordinate(coordinate as int, bound as int, wrap_mode) is None,
        },
        wrapped matches Some(found) ==> found <= bound,
        wrap_mode != TextureWrapMode::Mirror ==> (wrapped matches Some(found) ==> found < bound),
{
    if coordinate < bound {
        return Some(coordinate);
    }
    match wrap_mode {
        TextureWrapMode::NoWrap => None,
        TextureWrapMode::Clamp => Some(bound - 1),
        TextureWrapMode::Repeat => Some(coordinate % bound),
        TextureWrapMode::Mirror => {
            let coordinate: u32 = coordinate % (bound * 2);
            if coordinate >= bound {
                Some((bound * 2) - coordinate)
            } else {
                Some(coordinate)
            }
        },
    }
}

} // verus!
