//! The scene-creation form and the rule on acceptable dimensions.
use vstd::prelude::*;

verus! {

/// The upper bound on pixels of a newly created scene.
pub const MAX_SCENE_PIXELS: u32 = 0x20_0000;

/// A request to create a scene.
pub struct SceneInfo {
    pub name: String,
    pub width: u32,
    pub height: u32,
}

/// A scene's dimensions are acceptable when both sides are positive and
/// the pixel count stays within the bound.
pub fn scene_dimensions_ok(width: u32, height: u32) -> (r: bool)
    ensures
        r <==> (1 <= width && 1 <= height && width * height <= MAX_SCENE_PIXELS),
{
    if width == 0 || height == 0 {
        proof {
            assert(!(1 <= width && 1 <= height));
        }
        return false;
    }
    let ok = match width.checked_mul(height) {
        Some(p) => p <= MAX_SCENE_PIXELS,
        None => {
            proof {
                assert(width * height > u32::MAX >= MAX_SCENE_PIXELS);
            }
            false
        },
    };
    ok
}

} // verus!
