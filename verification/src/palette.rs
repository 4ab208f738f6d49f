//! The heat ramp that colours the fire: black through red, orange and
//! yellow up to white-hot.

use vstd::prelude::*;

verus! {

/// Number of entries in the heat ramp (heat levels `0..=HEAT_MAX`).
pub const PALETTE_LEN: usize = 36;

/// An RGB colour.
pub type Rgb = (u8, u8, u8);

/// The colour of heat level `i` in the ramp.
///
/// Each band interpolates linearly between two anchor colours and rounds
/// towards zero:
/// - `1..12`: black to bright red, red `200 * i / 12`;
/// - `12..24`: bright red to orange-gold, with `t = (i - 12) / 12`,
///   red `200 + 55 t`, green `140 t`;
/// - `24..32`: orange-gold to bright yellow, with `t = (i - 24) / 8`,
///   green `140 + 90 t`, blue `50 t`;
/// - `32..36`: bright yellow to white-hot, with `t = (i - 32) / 3`,
///   green `230 + 25 t`, blue `50 + 190 t`.
///
/// Level 0 (and anything below) is black.
pub open spec fn heat_color(i: int) -> Rgb {
    if i <= 0 {
        (0, 0, 0)
    } else if i < 12 {
        (((200 * i) / 12) as u8, 0, 0)
    } else if i < 24 {
        (((2400 + 55 * (i - 12)) / 12) as u8, ((140 * (i - 12)) / 12) as u8, 0)
    } else if i < 32 {
        (255, ((1120 + 90 * (i - 24)) / 8) as u8, ((50 * (i - 24)) / 8) as u8)
    } else {
        (255, ((690 + 25 * (i - 32)) / 3) as u8, ((150 + 190 * (i - 32)) / 3) as u8)
    }
}

/// Sum of the three channels of a colour.
pub open spec fn intensity(c: Rgb) -> int {
    c.0 as int + c.1 as int + c.2 as int
}

/// Computes the ramp colour of one heat level.
fn ramp_entry(i: usize) -> (c: Rgb)
    requires
        1 <= i < PALETTE_LEN,
    ensures
        c == heat_color(i as int),
{
    let k: u32 = i as u32;
    if k < 12 {
        (((200 * k) / 12) as u8, 0, 0)
    } else if k < 24 {
        (((2400 + 55 * (k - 12)) / 12) as u8, ((140 * (k - 12)) / 12) as u8, 0)
    } else if k < 32 {
        (255, ((1120 + 90 * (k - 24)) / 8) as u8, ((50 * (k - 24)) / 8) as u8)
    } else {
        (255, ((690 + 25 * (k - 32)) / 3) as u8, ((150 + 190 * (k - 32)) / 3) as u8)
    }
}

/// Builds the fire heat ramp. Entry `i` is the colour of heat level `i`.
///
/// The ramp is specific to fire and does not depend on the accent colour;
/// the parameter is kept so that callers pass the current accent through.
pub fn get_palette(_accent: Rgb) -> (palette: [Rgb; 36])
    ensures
        forall|i: int| 0 <= i < 36 ==> #[trigger] palette[i] == heat_color(i),
{
    let mut palette: [Rgb; 36] = [(0u8, 0u8, 0u8); 36];
    palette[0] = (0, 0, 0);
    let mut i: usize = 1;
    while i < PALETTE_LEN
        invariant
            1 <= i <= PALETTE_LEN,
            forall|j: int| 0 <= j < i ==> #[trigger] palette[j] == heat_color(j),
        decreases PALETTE_LEN - i,
    {
        palette[i] = ramp_entry(i);
        i = i + 1;
    }
    palette
}

/// Neighbouring ramp entries never get darker in any channel.
proof fn lemma_heat_color_step(i: int)
    requires
        0 <= i < 35,
    ensures
        heat_color(i).0 <= heat_color(i + 1).0,
        heat_color(i).1 <= heat_color(i + 1).1,
        heat_color(i).2 <= heat_color(i + 1).2,
{
}

/// The heat ramp brightens monotonically: going up the ramp, none of the
/// red, green and blue channels ever decreases, so neither does the total
/// intensity.
pub proof fn lemma_heat_color_monotone(i: int, j: int)
    requires
        0 <= i <= j < 36,
    ensures
        heat_color(i).0 <= heat_color(j).0,
        heat_color(i).1 <= heat_color(j).1,
        heat_color(i).2 <= heat_color(j).2,
        intensity(heat_color(i)) <= intensity(heat_color(j)),
    decreases j - i,
{
    if i < j {
        lemma_heat_color_monotone(i, j - 1);
        lemma_heat_color_step(j - 1);
    }
}

/// The ramp starts at black and ends at white-hot `(255, 255, 240)`.
pub proof fn lemma_heat_color_ends()
    ensures
        heat_color(0) == (0u8, 0u8, 0u8),
        heat_color(35) == (255u8, 255u8, 240u8),
{
}

} // verus!
