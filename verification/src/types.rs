//! Plain data types shared by the vision components.

use vstd::prelude::*;

verus! {

/// One color rule for mask construction: a target color, a per-channel bias,
/// and an enabled flag. Disabled rules are ignored.
#[derive(Debug, Clone)]
pub struct ColorRule {
    pub id: i64,
    pub target_hex: String,
    pub bias_hex: String,
    pub is_enabled: bool,
}

/// Bounding box of a connected component, in buffer space.
#[derive(Debug, Clone, Copy, PartialEq, Eq, Structural)]
pub struct Rect {
    pub left: i32,
    pub top: i32,
    pub width: u32,
    pub height: u32,
}

/// Geometry of a rectangular grid of cells.
#[derive(Debug, Clone, Copy, PartialEq, Eq, Structural)]
pub struct GridParams {
    pub x: i32,
    pub y: i32,
    pub w: i32,
    pub h: i32,
    pub col_gap: i32,
    pub row_gap: i32,
    pub col_count: i32,
    pub row_count: i32,
}

/// Filters that work on color images.
#[derive(Debug, Clone, Copy, PartialEq, Eq, Structural)]
pub enum ColorFilterType {
    Binarization,
    ColorPick,
    Posterize,
    Grayscale,
}

/// Filters that work on binary (black and white) images.
#[derive(Debug, Clone, Copy, PartialEq, Eq, Structural)]
pub enum BlackWhiteFilterType {
    Denoise,
    RemoveLines,
    Contours,
    ExtractBlobs,
    Deskew,
    RotateCorrect,
    Invert,
    DilateErode,
    Skeleton,
    FenceAdjust,
    ValidImage,
    KeepSize,
}

/// Geometric and smoothing filters shared by both image kinds.
#[derive(Debug, Clone, Copy, PartialEq, Eq, Structural)]
pub enum CommonFilterType {
    ScaleRatio,
    ScaleNorm,
    FixedRotate,
    ExtendCrop,
    FixedSmooth,
    MedianBlur,
}

/// Selector for one filter of the pipeline. Enumerated filters that are not
/// implemented are explicit no-ops.
#[derive(Debug, Clone, Copy, PartialEq, Eq, Structural)]
pub enum ImageFilter {
    Color(ColorFilterType),
    BlackWhite(BlackWhiteFilterType),
    Common(CommonFilterType),
    View,
}

/// Errors of the filter pipeline and the image codec boundary.
#[derive(Debug, Clone)]
pub enum VisionError {
    /// The input bytes could not be decoded as an image.
    LoadError(String),
    /// A filter failed; reserved, since the filters are total functions.
    ProcessError(String),
    /// The result could not be encoded as PNG.
    EncodeError(String),
}

/// Callback handed in by the embedding platform: receives clicks and log
/// lines. Implementations live outside this crate.
pub trait PlatformCallback: Send + Sync {
    fn dispatch_click(&self, x: i32, y: i32);

    fn log(&self, msg: String);
}

/// Log sink handed in by the embedding platform.
pub trait PlatformLogger: Send + Sync {
    fn log(&self, msg: String);
}

/// Accessibility service handed in by the embedding platform; dispatches
/// clicks when no root shell is available.
pub trait AccessibilityService: Send + Sync {
    fn dispatch_click(&self, x: i32, y: i32);
}

} // verus!
