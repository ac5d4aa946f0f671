use mosaic::color::Rgb;
use mosaic::layout::sort_layout;
use mosaic::quantizer::Assignment;

fn at(x: u64, y: u64, entry: usize) -> Assignment {
    Assignment { x, y, color: Rgb { r: entry as u8, g: 0, b: 0 }, entry }
}

#[test]
fn sort_orders_by_row_then_column() {
    let shuffled = vec![at(1, 1, 0), at(0, 1, 1), at(2, 0, 2), at(0, 0, 3), at(1, 0, 4), at(2, 1, 5)];
    let sorted = sort_layout(&shuffled);
    assert_eq!(
        sorted,
        vec![at(0, 0, 3), at(1, 0, 4), at(2, 0, 2), at(0, 1, 1), at(1, 1, 0), at(2, 1, 5)]
    );
}

#[test]
fn sort_is_idempotent() {
    let shuffled = vec![at(3, 2, 0), at(0, 0, 1), at(3, 0, 2), at(1, 2, 3), at(0, 0, 4), at(2, 1, 5)];
    let once = sort_layout(&shuffled);
    let twice = sort_layout(&once);
    assert_eq!(once, twice);
}

#[test]
fn sort_keeps_a_sorted_layout() {
    let sorted = vec![at(0, 0, 0), at(1, 0, 1), at(0, 1, 2), at(1, 1, 3)];
    assert_eq!(sort_layout(&sorted), sorted);
}

#[test]
fn sort_reverses_a_reversed_layout() {
    let reversed = vec![at(1, 1, 3), at(0, 1, 2), at(1, 0, 1), at(0, 0, 0)];
    assert_eq!(sort_layout(&reversed), vec![at(0, 0, 0), at(1, 0, 1), at(0, 1, 2), at(1, 1, 3)]);
}

#[test]
fn sort_keeps_the_order_of_equal_positions() {
    let doubled = vec![at(1, 0, 7), at(0, 0, 1), at(1, 0, 3), at(0, 0, 2), at(1, 0, 5)];
    assert_eq!(
        sort_layout(&doubled),
        vec![at(0, 0, 1), at(0, 0, 2), at(1, 0, 7), at(1, 0, 3), at(1, 0, 5)]
    );
}

#[test]
fn sort_of_nothing_is_nothing() {
    assert_eq!(sort_layout(&Vec::new()), Vec::new());
}

#[test]
fn sort_of_one_is_that_one() {
    assert_eq!(sort_layout(&vec![at(5, 9, 1)]), vec![at(5, 9, 1)]);
}

#[test]
fn sort_puts_rows_before_columns() {
    let cells = vec![at(0, 2, 0), at(9, 1, 1), at(5, 0, 2)];
    assert_eq!(sort_layout(&cells), vec![at(5, 0, 2), at(9, 1, 1), at(0, 2, 0)]);
}

#[test]
fn sort_enumerates_a_full_grid_row_by_row() {
    let width = 7u64;
    let height = 5u64;
    let mut cells = Vec::new();
    for i in 0..width * height {
        let k = (i * 11 + 3) % (width * height);
        cells.push(at(k % width, k / width, k as usize));
    }
    let sorted = sort_layout(&cells);
    assert_eq!(sorted.len(), 35);
    for (i, a) in sorted.iter().enumerate() {
        assert_eq!(a.y * width + a.x, i as u64);
        assert_eq!(a.entry, i);
    }
}

#[test]
fn sort_agrees_with_a_stable_sort_by_row_and_column() {
    let mut cells = Vec::new();
    let mut state = 12345u64;
    for i in 0..5000usize {
        state = state.wrapping_mul(6364136223846793005).wrapping_add(1442695040888963407);
        let x = (state >> 33) % 40;
        let y = (state >> 45) % 40;
        cells.push(at(x, y, i));
    }
    let mut expected = cells.clone();
    expected.sort_by_key(|a| (a.y, a.x));
    assert_eq!(sort_layout(&cells), expected);
}

#[test]
fn sort_handles_the_largest_coordinates() {
    let cells = vec![at(u64::MAX, u64::MAX, 0), at(0, u64::MAX, 1), at(u64::MAX, 0, 2), at(0, 0, 3)];
    assert_eq!(
        sort_layout(&cells),
        vec![at(0, 0, 3), at(u64::MAX, 0, 2), at(0, u64::MAX, 1), at(u64::MAX, u64::MAX, 0)]
    );
}

#[test]
fn sort_leaves_its_argument_as_it_was() {
    let cells = vec![at(1, 1, 0), at(0, 0, 1)];
    let before = cells.clone();
    sort_layout(&cells);
    assert_eq!(cells, before);
}
