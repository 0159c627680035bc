use julia::bands::{bands, Band};

fn covers_exactly(bs: &[Band], height: u32) {
    let total: u32 = bs.iter().map(|b| b.y_end - b.y_start).sum();
    assert_eq!(total, height);
    assert_eq!(bs[0].y_start, 0);
    assert_eq!(bs[bs.len() - 1].y_end, height);
    for w in bs.windows(2) {
        assert_eq!(w[0].y_end, w[1].y_start);
    }
    for y in 0..height {
        let owners = bs.iter().filter(|b| b.y_start <= y && y < b.y_end).count();
        assert_eq!(owners, 1);
    }
}

#[test]
fn equal_bands_when_height_divides() {
    let bs = bands(12, 4);
    assert_eq!(
        bs,
        vec![
            Band { y_start: 0, y_end: 3 },
            Band { y_start: 3, y_end: 6 },
            Band { y_start: 6, y_end: 9 },
            Band { y_start: 9, y_end: 12 },
        ]
    );
    covers_exactly(&bs, 12);
}

#[test]
fn last_band_takes_the_remainder() {
    let bs = bands(10, 3);
    assert_eq!(
        bs,
        vec![
            Band { y_start: 0, y_end: 3 },
            Band { y_start: 3, y_end: 6 },
            Band { y_start: 6, y_end: 10 },
        ]
    );
    covers_exactly(&bs, 10);
}

#[test]
fn more_workers_than_rows() {
    let bs = bands(2, 4);
    assert_eq!(bs.len(), 4);
    assert_eq!(bs[3], Band { y_start: 0, y_end: 2 });
    covers_exactly(&bs, 2);
}

#[test]
fn single_worker_takes_all_rows() {
    assert_eq!(bands(800, 1), vec![Band { y_start: 0, y_end: 800 }]);
}

#[test]
fn bands_cover_many_shapes() {
    for height in 1..40u32 {
        for n in 1..9u32 {
            covers_exactly(&bands(height, n), height);
        }
    }
}

#[test]
fn bands_of_the_largest_height() {
    let bs = bands(u32::MAX, 7);
    let total: u64 = bs.iter().map(|b| (b.y_end - b.y_start) as u64).sum();
    assert_eq!(total, u32::MAX as u64);
    assert_eq!(bs[0].y_start, 0);
    assert_eq!(bs[6], Band { y_start: 6 * (u32::MAX / 7), y_end: u32::MAX });
    for w in bs.windows(2) {
        assert_eq!(w[0].y_end, w[1].y_start);
    }
}
