//! Chart kinds and the default colors of pie slices.
use vstd::prelude::*;
use crate::Color;

verus! {

/// Supported chart types.
#[derive(Clone, Copy, PartialEq, Eq, Debug, Structural)]
pub enum ChartType {
    /// Vertical bar chart.
    Bar,
    /// Line plot connecting the data points.
    Line,
    /// Circular pie chart.
    Pie,
}

/// The default color of pie slice `i`: red `(100 + 50 i) mod 255`, green `(150 + 30 i) mod
/// 255`, blue `(200 - 40 i) mod 255`.
pub open spec fn pie_slice_color(i: nat) -> Color {
    Color::Rgb(((100 + 50 * i) % 255) as u8, ((150 + 30 * i) % 255) as u8, ((200 - 40 * i) % 255) as u8)
}

/// The default color of pie slice `i`. The blue part subtracts in unsigned arithmetic, so
/// it exists only for the first six slices.
pub fn pie_color(i: usize) -> (r: Color)
    requires
        40 * i <= 200,
    ensures
        r == pie_slice_color(i as nat),
{
    let red = (100 + i * 50) % 255;
    let green = (150 + i * 30) % 255;
    let blue = (200 - i * 40) % 255;
    Color::Rgb(red as u8, green as u8, blue as u8)
}

} // verus!
