use julia::palette::{pick, Palette, Rgb};

#[test]
fn green_palette_starts_dark() {
    assert_eq!(pick(Palette::Green, 0), Rgb { r: 0, g: 25, b: 0 });
    assert_eq!(pick(Palette::Green, 7), Rgb { r: 0, g: 1000, b: 0 });
}

#[test]
fn green_palette_wraps_after_eight_colors() {
    assert_eq!(pick(Palette::Green, 8), pick(Palette::Green, 0));
    assert_eq!(pick(Palette::Green, 13), Rgb { r: 0, g: 725, b: 0 });
}

#[test]
fn ultra_fractal_palette_colors() {
    assert_eq!(pick(Palette::UltraFractal, 0), Rgb { r: 0, g: 27, b: 392 });
    assert_eq!(pick(Palette::UltraFractal, 2), Rgb { r: 929, g: 1000, b: 1000 });
    assert_eq!(pick(Palette::UltraFractal, 4), Rgb { r: 0, g: 8, b: 0 });
}

#[test]
fn ultra_fractal_palette_wraps_after_five_colors() {
    assert_eq!(pick(Palette::UltraFractal, 5), pick(Palette::UltraFractal, 0));
    assert_eq!(pick(Palette::UltraFractal, 8), Rgb { r: 1000, g: 666, b: 0 });
}

#[test]
fn pick_handles_the_largest_index() {
    assert_eq!(pick(Palette::Green, usize::MAX), pick(Palette::Green, usize::MAX % 8));
    assert_eq!(pick(Palette::UltraFractal, usize::MAX), pick(Palette::UltraFractal, usize::MAX % 5));
}
