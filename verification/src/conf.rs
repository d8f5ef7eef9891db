//! World-scale constants and the screen-size classification.

use vstd::prelude::*;

verus! {

/// Size of a single tile in world units (pixels).
pub const SQUARE_SIZE: i64 = 32;

/// Largest accepted map dimension (cells per axis); keeps every grid index,
/// cell id and squared world distance within the machine integer ranges that
/// the arithmetic below is proved against.
pub const MAX_DIM: usize = 32768;

/// Largest magnitude a world coordinate of a worker may take; positions are
/// clamped here when a tick is committed so that squared distances always fit
/// in an `i64`.
pub const POS_BOUND: i64 = 0x2000_0000;

/// Largest coordinate magnitude the distance and scaling helpers accept;
/// chosen so that a squared distance between two such points fits in 64 bits.
pub const COORD_LIMIT: i64 = 0x4000_0000;

/// Largest movement step (world units per tick) the kinematics accept.
pub const STEP_MAX: i64 = 0x100_0000;

/// Largest coordinate magnitude and side length a collision rectangle may
/// have while its edge and centre arithmetic stays exact.
pub const RECT_BOUND: i64 = 0x100_0000_0000;

/// Largest accepted worker speed, in world units per second.
pub const SPEED_MAX: i64 = 0x10_0000;

/// Largest accepted tick duration, in milliseconds.
pub const DT_MAX: i64 = 10_000;

/// The window size and frame-rate limit a player configures; persisting it
/// is the surrounding program's concern.
#[derive(Clone, Copy, PartialEq, Eq, Structural, Debug)]
pub struct Config {
    /// Desired window height.
    pub window_height: i32,
    /// Desired window width.
    pub window_width: i32,
    /// Desired fps limit.
    pub fps_limit: u16,
}

impl Config {
    /// The default configuration.
    pub fn new() -> (r: Config)
        ensures
            r == (Config { window_height: 1280, window_width: 1280, fps_limit: 60 }),
    {
        Config { window_height: 1280, window_width: 1280, fps_limit: 60 }
    }
}

/// The size class of the screen: 1280x720 for small, 1920x1080 for medium,
/// else larger.
#[derive(Clone, Copy, PartialEq, Eq, Structural, Debug)]
pub enum ScreenSize {
    Small,
    Medium,
    Large,
}

/// Classifies a screen by its pixel dimensions: [`ScreenSize::Small`] below
/// 1280x720, [`ScreenSize::Medium`] below 1920x1080, else
/// [`ScreenSize::Large`].
pub fn screen_size(width: u32, height: u32) -> (r: ScreenSize)
    ensures
        r == (if width < 1280 || height < 720 {
            ScreenSize::Small
        } else if width < 1920 || height < 1080 {
            ScreenSize::Medium
        } else {
            ScreenSize::Large
        }),
{
    if width < 1280 || height < 720 {
        return ScreenSize::Small;
    }
    if width < 1920 || height < 1080 {
        return ScreenSize::Medium;
    }
    ScreenSize::Large
}

} // verus!
