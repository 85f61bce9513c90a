//! What the user can set about how the session looks.

use vstd::prelude::*;

use super::color::{Color, CHANNEL_ONE};
use crate::geometry::max;

verus! {

/// The appearance of a session.
#[derive(Clone, Debug, PartialEq, Eq)]
pub struct Appearance {
    /// How wide the ring around a window is, in logical pixels.
    pub focus_ring_width: i32,
    /// The ring's color around the focused window.
    pub focus_ring_active_color: Color,
    /// The ring's color around every other window.
    pub focus_ring_inactive_color: Color,
    /// What is behind everything.
    pub background_color: Color,
    /// The radius of a window's corners, in logical pixels; square at zero.
    pub corner_radius: i32,
    /// Both dimensions of the fallback cursor's bitmap, in pixels.
    pub cursor_size: i32,
    /// What the fallback cursor is filled with.
    pub cursor_color: Color,
    /// The cursor theme to draw named shapes from, or `None` for the one that the environment
    /// names.
    pub cursor_theme: Option<String>,
    /// Whether clients are asked to leave their decorations to the compositor.
    pub prefer_no_csd: bool,
}

/// The size nearest to `size` that the fallback cursor may have.
pub open spec fn cursor_size_within_bounds(size: i32) -> i32 {
    if size < Appearance::MIN_CURSOR_SIZE {
        Appearance::MIN_CURSOR_SIZE
    } else if size > Appearance::MAX_CURSOR_SIZE {
        Appearance::MAX_CURSOR_SIZE
    } else {
        size
    }
}

/// The widest ring that stays on its own side of a gap of `gap` pixels.
pub open spec fn widest_ring(gap: i32) -> int {
    max(gap as int, 0) / 2
}

/// `appearance` with everything that a gap of `gap` pixels and the cursor's bitmap leave no room
/// for brought into bounds.
pub open spec fn within_bounds(appearance: Appearance, gap: i32) -> Appearance {
    Appearance {
        focus_ring_width: if appearance.focus_ring_width > widest_ring(gap) {
            widest_ring(gap) as i32
        } else {
            appearance.focus_ring_width
        },
        corner_radius: if appearance.corner_radius < 0 {
            0
        } else {
            appearance.corner_radius
        },
        cursor_size: cursor_size_within_bounds(appearance.cursor_size),
        ..appearance
    }
}

impl Default for Appearance {
    fn default() -> (appearance: Appearance)
        ensures
            appearance.focus_ring_width == 3,
            appearance.focus_ring_active_color == (Color { r: 10_710, g: 16_575, b: 24_990, a: CHANNEL_ONE }),
            appearance.focus_ring_inactive_color == (Color { r: 8_925, g: 8_925, b: 9_690, a: CHANNEL_ONE }),
            appearance.background_color == (Color { r: 2_040, g: 2_040, b: 2_550, a: CHANNEL_ONE }),
            appearance.corner_radius == 0,
            appearance.cursor_size == 16,
            appearance.cursor_color == (Color {
                r: CHANNEL_ONE,
                g: CHANNEL_ONE,
                b: CHANNEL_ONE,
                a: CHANNEL_ONE,
            }),
            appearance.cursor_theme is None,
            appearance.prefer_no_csd,
    {
        Appearance {
            focus_ring_width: 3,
            // A bright blue for the focused window: 0.42, 0.65 and 0.98.
            focus_ring_active_color: Color::new(10_710, 16_575, 24_990, CHANNEL_ONE),
            // A muted gray for the others: 0.35, 0.35 and 0.38.
            focus_ring_inactive_color: Color::new(8_925, 8_925, 9_690, CHANNEL_ONE),
            // Nearly black: 0.08, 0.08 and 0.1.
            background_color: Color::new(2_040, 2_040, 2_550, CHANNEL_ONE),
            corner_radius: 0,
            cursor_size: 16,
            cursor_color: Color::new(CHANNEL_ONE, CHANNEL_ONE, CHANNEL_ONE, CHANNEL_ONE),
            cursor_theme: None,
            prefer_no_csd: true,
        }
    }
}

impl Appearance {
    /// The smallest cursor: the smallest size at which the triangle has pixels to fill.
    pub const MIN_CURSOR_SIZE: i32 = 4;

    /// The largest cursor: a bitmap of 256 KiB, far from overflowing its length.
    pub const MAX_CURSOR_SIZE: i32 = 256;

    /// Brings a configured cursor size into bounds.
    pub fn clamp_cursor_size(size: i32) -> (clamped: i32)
        ensures
            clamped == cursor_size_within_bounds(size),
    {
        if size < Self::MIN_CURSOR_SIZE {
            Self::MIN_CURSOR_SIZE
        } else if size > Self::MAX_CURSOR_SIZE {
            Self::MAX_CURSOR_SIZE
        } else {
            size
        }
    }

    /// What every configured appearance goes through: a ring wider than half the layout's gap is
    /// narrowed to that, so that it cannot collide with the neighbour's; a negative corner radius
    /// becomes zero; and the cursor size is brought into bounds.
    pub fn clamped(self, gap: i32) -> (clamped: Appearance)
        ensures
            clamped == within_bounds(self, gap),
    {
        let widest: i32 = if gap > 0 {
            gap / 2
        } else {
            0
        };
        let mut clamped = self;
        if clamped.focus_ring_width > widest {
            clamped.focus_ring_width = widest;
        }
        if clamped.corner_radius < 0 {
            clamped.corner_radius = 0;
        }
        clamped.cursor_size = Self::clamp_cursor_size(clamped.cursor_size);
        clamped
    }
}

/// What is in bounds stays as it is: clamping again, at the same gap or at a wider one, changes
/// nothing.
pub proof fn clamping_is_settled(appearance: Appearance, gap: i32, wider: i32)
    requires
        gap <= wider,
    ensures
        within_bounds(within_bounds(appearance, gap), wider) == within_bounds(appearance, gap),
{
}

/// A wider gap never makes a ring narrower.
pub proof fn the_ring_grows_with_the_gap(appearance: Appearance, gap: i32, wider: i32)
    requires
        gap <= wider,
    ensures
        within_bounds(appearance, gap).focus_ring_width <= within_bounds(
            appearance,
            wider,
        ).focus_ring_width,
{
}

/// The rings of two neighbours fit in the gap between them without meeting.
pub proof fn two_rings_fit_in_the_gap(appearance: Appearance, gap: i32)
    ensures
        2 * within_bounds(appearance, gap).focus_ring_width <= max(gap as int, 0),
{
}

/// The bitmap of a clamped cursor, four bytes for each pixel of a square, has at most 256 KiB and
/// at least one pixel.
pub proof fn the_cursor_bitmap_is_small(size: i32)
    ensures
        0 < cursor_size_within_bounds(size) * cursor_size_within_bounds(size) * 4 <= 262_144,
{
    let clamped = cursor_size_within_bounds(size) as int;
    assert(0 < clamped * clamped * 4 <= 262_144) by (nonlinear_arith)
        requires
            4 <= clamped <= 256,
    ;
}

/// Clamping brings each bounded field to the nearest value in its bounds, and leaves every other
/// field alone: a ring to at most half the gap, a radius to at least zero, and the cursor to
/// between 4 and 256 pixels.
pub proof fn clamping_moves_a_field_to_its_nearest_bound(appearance: Appearance, gap: i32)
    ensures
        ({
            let after = within_bounds(appearance, gap);
            let before = appearance;
            let room = if gap > 0 {
                gap as int
            } else {
                0
            };
            &&& 2 * before.focus_ring_width <= room ==> after.focus_ring_width
                == before.focus_ring_width
            &&& 2 * before.focus_ring_width > room ==> 2 * after.focus_ring_width <= room < 2
                * after.focus_ring_width + 2
            &&& before.corner_radius >= 0 ==> after.corner_radius == before.corner_radius
            &&& before.corner_radius < 0 ==> after.corner_radius == 0
            &&& 4 <= before.cursor_size <= 256 ==> after.cursor_size == before.cursor_size
            &&& before.cursor_size < 4 ==> after.cursor_size == 4
            &&& before.cursor_size > 256 ==> after.cursor_size == 256
            &&& after.focus_ring_active_color == before.focus_ring_active_color
            &&& after.focus_ring_inactive_color == before.focus_ring_inactive_color
            &&& after.background_color == before.background_color
            &&& after.cursor_color == before.cursor_color
            &&& after.cursor_theme == before.cursor_theme
            &&& after.prefer_no_csd == before.prefer_no_csd
        }),
{
}

} // verus!
