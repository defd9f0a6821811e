use himawari_earth::compose::Rgb8Image;
use himawari_earth::ieee::NAN32;
use himawari_earth::pick::{
    after_answer, annotate, draw_marker, parse_choice, put, read_choice, shrink, AfterAnswer, MARKER,
};
use himawari_earth::track::{acquire, centroid, follow, seed, update, weight, Position, Sums};

fn black(width: u32, height: u32) -> Rgb8Image {
    Rgb8Image {
        width,
        height,
        data: vec![0; (3 * width * height) as usize],
    }
}

fn is_marked(image: &Rgb8Image, x: i64, y: i64) -> bool {
    let i = 3 * (y as usize * image.width as usize + x as usize);
    let pixel = [image.data[i], image.data[i + 1], image.data[i + 2]];
    assert!(pixel == MARKER || pixel == [0, 0, 0]);
    pixel == MARKER
}

#[test]
fn images_are_shrunk_by_averaging() {
    let mut image = black(5, 3);
    for (i, byte) in image.data.iter_mut().enumerate() {
        *byte = i as u8;
    }
    let small = shrink(&image, 2);
    assert_eq!((small.width, small.height), (2, 1));
    assert_eq!(small.data, vec![9, 10, 11, 15, 16, 17]);
    let same = shrink(&image, 1);
    assert_eq!(same.data, image.data);
    let none = shrink(&image, 4);
    assert_eq!((none.width, none.height, none.data.len()), (1, 0, 0));
}

#[test]
fn flat_images_keep_their_color() {
    let mut image = black(8, 8);
    image.data.fill(255);
    assert_eq!(shrink(&image, 4).data, vec![255; 12]);
}

#[test]
fn points_are_put_on_the_image_only() {
    let mut image = black(3, 2);
    for (x, y) in [(-1, 0), (0, -1), (3, 0), (0, 2), (i64::MIN, i64::MIN)] {
        put(&mut image, x, y);
    }
    assert_eq!(image.data, vec![0; 18]);
    put(&mut image, 2, 1);
    assert_eq!(image.data[15..], MARKER);
    assert_eq!(image.data[..15], [0; 15]);
    // Coordinates wrap at 32 bits.
    put(&mut image, 0x1_0000_0001, 0);
    assert_eq!(image.data[3..6], MARKER);
}

/// The points of a marker, drawn line by line.
fn marker_points(number: usize) -> Vec<(i64, i64)> {
    let mut points = Vec::new();
    for offset in -40..=40 {
        for thick in 0..3 {
            points.push((offset, thick - 40));
            points.push((offset, 40 - thick));
            points.push((thick - 40, offset));
            points.push((40 - thick, offset));
        }
    }
    for tick in 8..=20 {
        for thick in 0..2 {
            points.push((tick, thick));
            points.push((-tick, thick));
            points.push((thick, tick));
            points.push((thick, -tick));
        }
    }
    let glyphs = [
        ["###", "#.#", "#.#", "#.#", "###"],
        [".#.", "##.", ".#.", ".#.", "###"],
        ["###", "..#", "###", "#..", "###"],
        ["###", "..#", "###", "..#", "###"],
        ["#.#", "#.#", "###", "..#", "..#"],
        ["###", "#..", "###", "..#", "###"],
        ["###", "#..", "###", "#.#", "###"],
        ["###", "..#", ".#.", ".#.", ".#."],
        ["###", "#.#", "###", "#.#", "###"],
        ["###", "#.#", "###", "..#", "###"],
    ];
    for (k, digit) in number.to_string().bytes().enumerate() {
        for (row, cells) in glyphs[usize::from(digit - b'0')].iter().enumerate() {
            for (column, cell) in cells.bytes().enumerate() {
                if cell == b'#' {
                    for dy in 0..8 {
                        for dx in 0..8 {
                            points.push((
                                50 + 32 * k as i64 + 8 * column as i64 + dx,
                                -40 + 8 * row as i64 + dy,
                            ));
                        }
                    }
                }
            }
        }
    }
    points
}

#[test]
fn markers_are_drawn_point_for_point() {
    for (number, center) in [(7, (60, 60)), (1_234_567_890, (50, 45)), (36, (-20, 130))] {
        let mut image = black(420, 140);
        draw_marker(&mut image, center, number);
        let points = marker_points(number);
        for y in 0..140 {
            for x in 0..420 {
                let expected = points.contains(&(x - center.0, y - center.1));
                assert_eq!(is_marked(&image, x, y), expected, "{number} {x} {y}");
            }
        }
    }
}

#[test]
fn far_markers_leave_the_image_alone() {
    let mut image = black(10, 10);
    draw_marker(&mut image, (-1_000, 5), 1);
    draw_marker(&mut image, (5, 1_000_000), 2);
    assert_eq!(image.data, vec![0; 300]);
}

#[test]
fn candidates_are_numbered_on_the_preview() {
    let preview = black(1_000, 600);
    let image = annotate(&preview, &[(60, 60), (150, 90)]);
    assert_eq!((image.width, image.height), (250, 150));
    let (first, second) = (marker_points(1), marker_points(2));
    for y in 0..150 {
        for x in 0..250 {
            let expected =
                first.contains(&(x - 60, y - 60)) || second.contains(&(x - 150, y - 90));
            assert_eq!(is_marked(&image, x, y), expected, "{x} {y}");
        }
    }
}

#[test]
fn answers_name_candidates() {
    assert_eq!(parse_choice("2\n", 3), Some(1));
    assert_eq!(parse_choice("  +3 ", 3), Some(2));
    assert_eq!(parse_choice("01", 3), Some(0));
    for answer in ["0", "4", "", "two", "1 2", "-1", "1.0", "99999999999999999999"] {
        assert_eq!(parse_choice(answer, 3), None, "{answer:?}");
    }
    assert_eq!(parse_choice("1", 0), None);
    assert_eq!(read_choice(&['2'], 3), Some(1));
    assert_eq!(read_choice(&[' ', '2'], 3), None);
    for index in 0..12 {
        assert_eq!(parse_choice(&(index + 1).to_string(), 12), Some(index));
    }
}

#[test]
fn the_prompt_is_put_three_times() {
    assert_eq!(after_answer("x", 2, 0), AfterAnswer::AskAgain { asked: 1 });
    assert_eq!(after_answer("3", 2, 1), AfterAnswer::AskAgain { asked: 2 });
    assert_eq!(after_answer("", 2, 2), AfterAnswer::GiveUp);
    assert_eq!(after_answer("2", 2, 2), AfterAnswer::Chosen { index: 1 });
}

fn cold(bits: u32) -> u64 {
    f64::from((225.0 - f32::from_bits(bits)).max(0.0)).to_bits()
}

fn plus(a: u64, b: u64) -> u64 {
    (f64::from_bits(a) + f64::from_bits(b)).to_bits()
}

fn gather(sums: Sums, weight: u64, x: usize, y: usize) -> Sums {
    let w = f64::from_bits(weight);
    (
        plus(sums.0, weight),
        plus(sums.1, (w * x as f64).to_bits()),
        plus(sums.2, (w * y as f64).to_bits()),
    )
}

/// Positions are pixels of the grid itself here.
fn place(sums: Sums) -> Position {
    let total = f64::from_bits(sums.0);
    (
        (f64::from_bits(sums.1) / total).to_bits(),
        (f64::from_bits(sums.2) / total).to_bits(),
    )
}

fn locate(position: Position) -> (i64, i64) {
    (f64::from_bits(position.0) as i64, f64::from_bits(position.1) as i64)
}

fn whole(x: usize, y: usize) -> Position {
    ((x as f64).to_bits(), (y as f64).to_bits())
}

fn halfway(a: Position, b: Position) -> Position {
    let mid = |p: u64, q: u64| ((f64::from_bits(p) + f64::from_bits(q)) / 2.0).to_bits();
    (mid(a.0, b.0), mid(a.1, b.1))
}

fn at(x: f64, y: f64) -> Position {
    (x.to_bits(), y.to_bits())
}

/// A warm grid with a cold square of 10 x 10 pixels.
fn storm(width: usize, x: usize, y: usize, temperature: f32) -> Vec<u32> {
    let mut grid = vec![280.0f32.to_bits(); width * width];
    for row in y..y + 10 {
        for column in x..x + 10 {
            grid[row * width + column] = temperature.to_bits();
        }
    }
    grid
}

#[test]
fn pixels_weigh_what_they_are_colder() {
    assert_eq!(f64::from_bits(weight(215.0f32.to_bits(), &cold)), 10.0);
    assert_eq!(f64::from_bits(weight(230.0f32.to_bits(), &cold)), 0.0);
    assert_eq!(weight(NAN32, &cold), 0);
    assert_eq!(weight(f32::NEG_INFINITY.to_bits(), &cold), 0);
}

#[test]
fn the_centroid_is_that_of_the_cold_cloud() {
    let grid = storm(200, 40, 60, 215.0);
    let fix = centroid(&grid, 200, (100, 100), &cold, &gather, &place);
    assert_eq!(fix, Some(at(44.5, 64.5)));
    // Too little cold cloud, and none within the search radius.
    assert_eq!(
        centroid(&storm(200, 40, 60, 220.5), 200, (100, 100), &cold, &gather, &place),
        None
    );
    let far = storm(400, 380, 60, 215.0);
    assert_eq!(centroid(&far, 400, (100, 100), &cold, &gather, &place), None);
    assert_eq!(
        centroid(&far, 400, (236, 100), &cold, &gather, &place),
        Some(at(383.0, 64.5))
    );
    assert_eq!(centroid(&far, 400, (-500, 100), &cold, &gather, &place), None);
    assert_eq!(centroid(&far, 400, (5_000, 100), &cold, &gather, &place), None);
}

#[test]
fn a_track_is_seeded_on_the_coldest_window() {
    let width = 600;
    let mut grid = storm(width, 400, 320, 205.0);
    for row in 100..120 {
        for column in 100..120 {
            grid[row * width + column] = 222.0f32.to_bits();
        }
    }
    let anywhere = |_: usize, _: usize| true;
    let fix = seed(&grid, width, &anywhere, &cold, &plus, &gather, &place, &whole);
    // The coarse samples hold too little of either cloud for a fix.
    assert_eq!(fix, None);
    for row in 250..400 {
        for column in 350..500 {
            grid[row * width + column] = 205.0f32.to_bits();
        }
    }
    let fix = seed(&grid, width, &anywhere, &cold, &plus, &gather, &place, &whole);
    let (x, y) = fix.unwrap();
    assert_eq!((f64::from_bits(x).round(), f64::from_bits(y).round()), (425.0, 325.0));
    let nowhere = |_: usize, _: usize| false;
    assert_eq!(
        seed(&grid, width, &nowhere, &cold, &plus, &gather, &place, &whole),
        None
    );
}

#[test]
fn a_small_disk_gives_no_seed() {
    let grid = storm(256, 100, 100, 100.0);
    let anywhere = |_: usize, _: usize| true;
    assert_eq!(
        seed(&grid, 256, &anywhere, &cold, &plus, &gather, &place, &whole),
        None
    );
}

#[test]
fn a_track_follows_and_holds() {
    let grid = storm(200, 40, 60, 215.0);
    let previous = at(54.5, 74.5);
    assert_eq!(
        follow(&grid, 200, previous, &locate, &cold, &gather, &place, &halfway),
        at(49.5, 69.5)
    );
    let clear = vec![280.0f32.to_bits(); 200 * 200];
    assert_eq!(
        follow(&clear, 200, previous, &locate, &cold, &gather, &place, &halfway),
        previous
    );
    assert_eq!(
        acquire(&grid, 200, previous, &locate, &cold, &gather, &place),
        at(44.5, 64.5)
    );
    assert_eq!(
        acquire(&clear, 200, previous, &locate, &cold, &gather, &place),
        previous
    );
}

#[test]
fn updates_seed_or_follow() {
    let grid = storm(200, 40, 60, 215.0);
    let anywhere = |_: usize, _: usize| true;
    let next = |previous| {
        update(
            &grid, 200, previous, &anywhere, &plus, &whole, &locate, &cold, &gather, &place,
            &halfway,
        )
    };
    assert_eq!(next(Some(at(54.5, 74.5))), Some(at(49.5, 69.5)));
    assert_eq!(next(None), None);
}
