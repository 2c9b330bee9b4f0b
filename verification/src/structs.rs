//! Data models of the photo and item records that the game stores as
//! nuan5json, for those records that hold no floating-point numbers.
use vstd::prelude::*;
use crate::ext_type::AdaptiveArray;

verus! {

/// The custom data of a magazine photo: nothing.
pub struct MagazinePhotoCustomData {}

/// The clock game of a clock-in photo.
pub struct ClockGamePlugin {
    pub tag: i64,
}

/// How a photo was edited.
pub struct EditPhotoHandler {
    pub edit_state: bool,
    pub has_sticker: bool,
    pub has_text: bool,
}

/// The photos pinned to the photo wall.
pub struct PhotoWallPlugin {
    pub photo_id: AdaptiveArray<i64>,
}

/// The portrait mode a photo was taken in.
pub struct PortraitModeHandler {
    pub portrait_mode: i64,
}

/// The puzzle game of a photo.
pub struct PuzzleGamePlugin {
    pub tag: i64,
}

/// The static scene information of a photo: nothing.
pub struct StaticInfos {}

/// The weapon held when a photo was taken.
pub struct WeaponSnapShot {
    pub weapon_id: i64,
    pub custom_state: String,
    pub slot_type: String,
}

/// A special-effect customisation of an item.
pub struct SpecialEffectCoreData {
    pub color_grid_id: i64,
    pub cover_diy_color: bool,
}

/// A pattern customisation of an item.
pub struct PatternCreationCoreData {
    pub replace_texture_id: i64,
    pub override_pattern_a: bool,
}

} // verus!
