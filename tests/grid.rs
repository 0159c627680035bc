use julia::bands::{bands, Band};
use julia::grid::{gradient, Color, Grid};

fn rgb(r: u8, g: u8, b: u8) -> Color {
    Color { r, g, b }
}

#[test]
fn gradient_of_an_immediate_escape_is_black() {
    assert_eq!(gradient(0, 250), rgb(0, 0, 0));
}

#[test]
fn gradient_of_a_point_in_the_set_is_full() {
    assert_eq!(gradient(250, 250), rgb(0, 255, 127));
}

#[test]
fn gradient_rounds_down() {
    assert_eq!(gradient(100, 250), rgb(0, 102, 51));
    assert_eq!(gradient(1, 3), rgb(0, 85, 42));
    assert_eq!(gradient(2, 3), rgb(0, 170, 85));
    assert_eq!(gradient(1, u32::MAX), rgb(0, 0, 0));
    assert_eq!(gradient(u32::MAX - 1, u32::MAX), rgb(0, 254, 127));
}

#[test]
fn gradient_saturates_past_the_cap() {
    assert_eq!(gradient(300, 250), rgb(0, 255, 127));
}

#[test]
fn new_grid_is_black() {
    let g = Grid::new(3, 2);
    assert_eq!(g.width(), 3);
    assert_eq!(g.height(), 2);
    assert_eq!(g.cells().len(), 6);
    for x in 0..3 {
        for y in 0..2 {
            assert_eq!(g.color_at(x, y), Color::black());
        }
    }
}

#[test]
fn empty_grid_has_no_cells() {
    let g = Grid::new(0, 5);
    assert_eq!(g.cells().len(), 0);
}

#[test]
fn set_vertex_color_changes_one_cell() {
    let mut g = Grid::new(3, 2);
    g.set_vertex_color(2, 1, rgb(1, 2, 3));
    for x in 0..3 {
        for y in 0..2 {
            let expected = if x == 2 && y == 1 { rgb(1, 2, 3) } else { Color::black() };
            assert_eq!(g.color_at(x, y), expected);
        }
    }
    // cells are stored column by column
    assert_eq!(g.cells()[2 * 2 + 1], rgb(1, 2, 3));
}

#[test]
fn write_band_shades_only_its_rows() {
    let mut g = Grid::new(2, 4);
    g.set_vertex_color(0, 0, rgb(9, 9, 9));
    let band = Band { y_start: 1, y_end: 3 };
    // row 1: x = 0, 1; row 2: x = 0, 1
    let counts = vec![0, 10, 5, 7];
    g.write_band(band, &counts, 10);
    assert_eq!(g.color_at(0, 0), rgb(9, 9, 9));
    assert_eq!(g.color_at(1, 0), Color::black());
    assert_eq!(g.color_at(0, 1), gradient(0, 10));
    assert_eq!(g.color_at(1, 1), gradient(10, 10));
    assert_eq!(g.color_at(0, 2), gradient(5, 10));
    assert_eq!(g.color_at(1, 2), gradient(7, 10));
    assert_eq!(g.color_at(0, 3), Color::black());
    assert_eq!(g.color_at(1, 3), Color::black());
}

#[test]
fn empty_band_changes_nothing() {
    let mut g = Grid::new(2, 2);
    g.write_band(Band { y_start: 1, y_end: 1 }, &vec![], 5);
    for x in 0..2 {
        for y in 0..2 {
            assert_eq!(g.color_at(x, y), Color::black());
        }
    }
}

#[test]
fn a_full_pass_in_any_order_repaints_every_cell() {
    let (w, h, n, max_it) = (5u32, 7u32, 3u32, 20u32);
    let count_at = |x: u32, y: u32| (x * 3 + y * 5) % (max_it + 1);
    let mut g = Grid::new(w, h);
    // a previous pass left its own colours everywhere
    for x in 0..w {
        for y in 0..h {
            g.set_vertex_color(x, y, rgb(200, 1, 1));
        }
    }
    let bs = bands(h, n);
    for band in bs.iter().rev() {
        let mut counts = Vec::new();
        for y in band.y_start..band.y_end {
            for x in 0..w {
                counts.push(count_at(x, y));
            }
        }
        g.write_band(*band, &counts, max_it);
    }
    for x in 0..w {
        for y in 0..h {
            assert_eq!(g.color_at(x, y), gradient(count_at(x, y), max_it));
        }
    }
}

#[test]
fn coords_of_inverts_the_column_layout() {
    let g = Grid::new(3, 4);
    assert_eq!(g.coords_of(0), (0, 0));
    assert_eq!(g.coords_of(3), (0, 3));
    assert_eq!(g.coords_of(4), (1, 0));
    assert_eq!(g.coords_of(11), (2, 3));
}
