use vstd::prelude::*;

verus! {

/// Number of the format that leaves the choice to the application.
pub const FORMAT_UNDEFINED: i32 = 0;

/// Number of the format with 8 bits each of blue, green, red and alpha.
pub const FORMAT_B8G8R8A8_UNORM: i32 = 44;

/// Number of the sRGB colour space.
pub const COLOR_SPACE_SRGB_NONLINEAR: i32 = 0;

/// Number of the present mode that shows an image as soon as it is ready.
pub const PRESENT_MODE_IMMEDIATE: i32 = 0;

/// Number of the present mode that keeps the newest image for the next
/// refresh.
pub const PRESENT_MODE_MAILBOX: i32 = 1;

/// Number of the present mode that queues the images.
pub const PRESENT_MODE_FIFO: i32 = 2;

/// A format that a surface offers, by the numbers of the format and of the
/// colour space.
#[derive(Copy, Clone, PartialEq, Eq, Structural, Debug)]
pub struct SurfaceFormat {
    pub format: i32,
    pub color_space: i32,
}

/// Width and height of an image, in pixels.
#[derive(Copy, Clone, PartialEq, Eq, Structural, Debug)]
pub struct Extent {
    pub width: u32,
    pub height: u32,
}

/// Whether a surface format is the one that the application likes best.
pub open spec fn is_preferred(f: SurfaceFormat) -> bool {
    f.format == FORMAT_B8G8R8A8_UNORM && f.color_space == COLOR_SPACE_SRGB_NONLINEAR
}

/// The format chosen among those from `from` on: the first preferred one,
/// or the very first format if none is preferred.
pub open spec fn chosen_format(formats: Seq<SurfaceFormat>, from: int) -> SurfaceFormat
    decreases formats.len() - from,
{
    if from < 0 || from >= formats.len() {
        formats[0]
    } else if is_preferred(formats[from]) {
        formats[from]
    } else {
        chosen_format(formats, from + 1)
    }
}

/// Chooses the format of the swapchain images: the preferred format if the
/// surface leaves the choice open or offers it, else the first format
/// that the surface offers.
pub fn choose_swapchain_format(formats: &[SurfaceFormat]) -> (r: SurfaceFormat)
    requires
        formats@.len() > 0,
    ensures
        r == if formats@.len() == 1 && formats@[0].format == FORMAT_UNDEFINED {
            (SurfaceFormat {
                format: FORMAT_B8G8R8A8_UNORM,
                color_space: COLOR_SPACE_SRGB_NONLINEAR,
            })
        } else {
            chosen_format(formats@, 0)
        },
{
    if formats.len() == 1 && formats[0].format == FORMAT_UNDEFINED {
        return SurfaceFormat {
            format: FORMAT_B8G8R8A8_UNORM,
            color_space: COLOR_SPACE_SRGB_NONLINEAR,
        };
    }
    let mut i: usize = 0;
    while i < formats.len()
        invariant
            i <= formats@.len(),
            chosen_format(formats@, 0) == chosen_format(formats@, i as int),
        decreases formats@.len() - i,
    {
        let f: SurfaceFormat = formats[i];
        if f.format == FORMAT_B8G8R8A8_UNORM && f.color_space == COLOR_SPACE_SRGB_NONLINEAR {
            return f;
        }
        i += 1;
    }
    formats[0]
}

/// Whether `mode` is among the first `n` present modes.
pub open spec fn offers(present_modes: Seq<i32>, mode: i32) -> bool {
    exists|i: int| 0 <= i < present_modes.len() && present_modes[i] == mode
}

/// Whether `mode` is among the present modes.
fn contains_mode(present_modes: &[i32], mode: i32) -> (r: bool)
    ensures
        r == offers(present_modes@, mode),
{
    let mut i: usize = 0;
    while i < present_modes.len()
        invariant
            i <= present_modes@.len(),
            forall|k: int| 0 <= k < i ==> present_modes@[k] != mode,
        decreases present_modes@.len() - i,
    {
        if present_modes[i] == mode {
            return true;
        }
        i += 1;
    }
    false
}

/// Chooses the present mode: mailbox if the surface offers it, else
/// queued, else immediate.
pub fn choose_swapchain_present_mode(present_modes: &[i32]) -> (r: i32)
    ensures
        r == if offers(present_modes@, PRESENT_MODE_MAILBOX) {
            PRESENT_MODE_MAILBOX
        } else if offers(present_modes@, PRESENT_MODE_FIFO) {
            PRESENT_MODE_FIFO
        } else {
            PRESENT_MODE_IMMEDIATE
        },
{
    if contains_mode(present_modes, PRESENT_MODE_MAILBOX) {
        PRESENT_MODE_MAILBOX
    } else if contains_mode(present_modes, PRESENT_MODE_FIFO) {
        PRESENT_MODE_FIFO
    } else {
        PRESENT_MODE_IMMEDIATE
    }
}

/// Chooses the number of swapchain images: one more than the surface
/// needs at least, but no more than it allows.
pub fn choose_image_count(min_image_count: u32, max_image_count: u32) -> (r: u32)
    requires
        min_image_count < u32::MAX,
    ensures
        r == if min_image_count + 1 < max_image_count {
            (min_image_count + 1) as u32
        } else {
            max_image_count
        },
{
    let wanted: u32 = min_image_count + 1;
    if wanted < max_image_count {
        wanted
    } else {
        max_image_count
    }
}

/// `value`, lowered to `max` if it is above it and then raised to `min`
/// if it is below it.
pub open spec fn clamped(value: u32, min: u32, max: u32) -> u32 {
    let lowered = if value < max {
        value
    } else {
        max
    };
    if lowered > min {
        lowered
    } else {
        min
    }
}

/// Chooses the size of the swapchain images: the current size of the
/// surface if it has one, else the preferred size brought into the range
/// that the surface allows.
pub fn choose_swapchain_extent(
    current_extent: Extent,
    min_image_extent: Extent,
    max_image_extent: Extent,
    preferred_swapchain_extent: Extent,
) -> (r: Extent)
    ensures
        r == if current_extent.width != u32::MAX {
            current_extent
        } else {
            (Extent {
                width: clamped(
                    preferred_swapchain_extent.width,
                    min_image_extent.width,
                    max_image_extent.width,
                ),
                height: clamped(
                    preferred_swapchain_extent.height,
                    min_image_extent.height,
                    max_image_extent.height,
                ),
            })
        },
{
    if current_extent.width != u32::MAX {
        return current_extent;
    }
    let width: u32 = clamp(
        preferred_swapchain_extent.width,
        min_image_extent.width,
        max_image_extent.width,
    );
    let height: u32 = clamp(
        preferred_swapchain_extent.height,
        min_image_extent.height,
        max_image_extent.height,
    );
    Extent { width, height }
}

/// Lowers `value` to `max` and then raises it to `min`.
fn clamp(value: u32, min: u32, max: u32) -> (r: u32)
    ensures
        r == clamped(value, min, max),
{
    let lowered: u32 = if value < max {
        value
    } else {
        max
    };
    if lowered > min {
        lowered
    } else {
        min
    }
}

} // verus!
