use vstd::prelude::*;

verus! {

/// A colour whose channels are intensities in thousandths: `0` is none and
/// `1000` is full intensity.
#[derive(Clone, Copy, Debug, PartialEq, Eq, Structural)]
pub struct Rgb {
    pub r: u16,
    pub g: u16,
    pub b: u16,
}

impl Rgb {
    pub open spec fn wf(self) -> bool {
        self.r <= 1000 && self.g <= 1000 && self.b <= 1000
    }
}

pub open spec fn rgb(r: u16, g: u16, b: u16) -> Rgb {
    Rgb { r, g, b }
}

/// The colour tables a fractal can be shaded with.
#[derive(Clone, Copy, Debug, PartialEq, Eq, Structural)]
pub enum Palette {
    Green,
    UltraFractal,
}

/// The reference colours of each palette, in order.
pub open spec fn colors(palette: Palette) -> Seq<Rgb> {
    match palette {
        Palette::Green => seq![
            rgb(0, 25, 0),
            rgb(0, 100, 0),
            rgb(0, 125, 0),
            rgb(0, 325, 0),
            rgb(0, 500, 0),
            rgb(0, 725, 0),
            rgb(0, 925, 0),
            rgb(0, 1000, 0),
        ],
        Palette::UltraFractal => seq![
            rgb(0, 27, 392),
            rgb(124, 420, 796),
            rgb(929, 1000, 1000),
            rgb(1000, 666, 0),
            rgb(0, 8, 0),
        ],
    }
}

/// The colour at position `i` of the palette, which repeats without end.
pub fn pick(palette: Palette, i: usize) -> (c: Rgb)
    ensures
        c == colors(palette)[(i as int) % (colors(palette).len() as int)],
        c.wf(),
{
    let table: Vec<Rgb> = match palette {
        Palette::Green => vec![
            Rgb { r: 0, g: 25, b: 0 },
            Rgb { r: 0, g: 100, b: 0 },
            Rgb { r: 0, g: 125, b: 0 },
            Rgb { r: 0, g: 325, b: 0 },
            Rgb { r: 0, g: 500, b: 0 },
            Rgb { r: 0, g: 725, b: 0 },
            Rgb { r: 0, g: 925, b: 0 },
            Rgb { r: 0, g: 1000, b: 0 },
        ],
        Palette::UltraFractal => vec![
            Rgb { r: 0, g: 27, b: 392 },
            Rgb { r: 124, g: 420, b: 796 },
            Rgb { r: 929, g: 1000, b: 1000 },
            Rgb { r: 1000, g: 666, b: 0 },
            Rgb { r: 0, g: 8, b: 0 },
        ],
    };
    assert(table@ =~= colors(palette));
    table[i % table.len()]
}

} // verus!
