use mosaic::color::Rgb;
use mosaic::error::ErrorKind;
use mosaic::grid::GridCell;
use mosaic::inventory::{build_inventory, Inventory, PaletteColor};
use mosaic::layout::sort_layout;
use mosaic::quantizer::{quantize, quantize_in_order, Assignment};
use mosaic::report::{report, summarize, Summary, Usage};
use rand::rngs::StdRng;
use rand::SeedableRng;

fn rgb(r: u8, g: u8, b: u8) -> Rgb {
    Rgb { r, g, b }
}

fn entry(name: &str, color: Rgb, remaining: u64) -> PaletteColor {
    PaletteColor { name: name.to_string(), color, remaining }
}

fn palette(entries: Vec<PaletteColor>) -> Inventory {
    build_inventory(entries).unwrap()
}

fn cell(x: u64, y: u64, source: Rgb) -> GridCell {
    GridCell { x, y, source }
}

fn at(x: u64, y: u64, entry: usize) -> Assignment {
    Assignment { x, y, color: rgb(0, 0, 0), entry }
}

fn usage(name: &str, count: u64) -> Usage {
    Usage { name: name.to_string(), color: rgb(0, 0, 0), count }
}

#[test]
fn report_of_a_two_color_mosaic() {
    let mut inv = palette(vec![
        entry("A", rgb(0, 0, 0), 2),
        entry("B", rgb(255, 255, 255), 2),
    ]);
    let cells = vec![
        cell(0, 0, rgb(10, 10, 10)),
        cell(1, 0, rgb(20, 20, 20)),
        cell(0, 1, rgb(30, 30, 30)),
        cell(1, 1, rgb(250, 250, 250)),
    ];
    let assigned = quantize_in_order(&cells, &mut inv).unwrap();
    let summary = summarize(&sort_layout(&assigned), &inv).unwrap();
    assert_eq!(summary.total, 4);
    assert_eq!(report(&summary), vec!["A - 2 pieces", "B - 2 pieces", "Total Pieces: 4"]);
}

#[test]
fn report_of_a_one_color_mosaic() {
    let mut inv = palette(vec![entry("C", rgb(90, 14, 201), 4)]);
    let cells = vec![
        cell(0, 0, rgb(0, 0, 0)),
        cell(1, 0, rgb(255, 255, 255)),
        cell(0, 1, rgb(90, 14, 201)),
        cell(1, 1, rgb(3, 250, 77)),
    ];
    let mut rng = StdRng::seed_from_u64(4);
    let assigned = quantize(&cells, &mut inv, &mut rng).unwrap();
    let summary = summarize(&assigned, &inv).unwrap();
    assert_eq!(report(&summary), vec!["C - 4 pieces", "Total Pieces: 4"]);
}

#[test]
fn summarize_counts_per_palette_entry() {
    let inv = palette(vec![
        entry("a", rgb(1, 1, 1), 0),
        entry("b", rgb(2, 2, 2), 9),
        entry("c", rgb(3, 3, 3), 0),
    ]);
    let assigned = vec![at(0, 0, 2), at(1, 0, 0), at(2, 0, 2), at(3, 0, 2)];
    let summary = summarize(&assigned, &inv).unwrap();
    assert_eq!(summary.total, 4);
    assert_eq!(summary.usage.len(), 3);
    assert_eq!(summary.usage[0].name, "a");
    assert_eq!(summary.usage[0].color, rgb(1, 1, 1));
    assert_eq!(summary.usage[0].count, 1);
    assert_eq!(summary.usage[1].name, "b");
    assert_eq!(summary.usage[1].count, 0);
    assert_eq!(summary.usage[2].name, "c");
    assert_eq!(summary.usage[2].color, rgb(3, 3, 3));
    assert_eq!(summary.usage[2].count, 3);
    let counted: u64 = summary.usage.iter().map(|u| u.count).sum();
    assert_eq!(counted, summary.total);
}

#[test]
fn summarize_keeps_entries_of_the_same_name_apart() {
    let inv = palette(vec![entry("red", rgb(200, 0, 0), 1), entry("red", rgb(250, 10, 10), 1)]);
    let assigned = vec![at(0, 0, 1), at(1, 0, 0), at(2, 0, 1)];
    let summary = summarize(&assigned, &inv).unwrap();
    assert_eq!(summary.usage[0].count, 1);
    assert_eq!(summary.usage[1].count, 2);
    assert_eq!(report(&summary), vec!["red - 1 pieces", "red - 2 pieces", "Total Pieces: 3"]);
}

#[test]
fn summarize_of_no_assignments() {
    let inv = palette(vec![entry("a", rgb(1, 1, 1), 3)]);
    let summary = summarize(&Vec::new(), &inv).unwrap();
    assert_eq!(summary.total, 0);
    assert_eq!(summary.usage[0].count, 0);
    assert_eq!(report(&summary), vec!["Total Pieces: 0"]);
}

#[test]
fn summarize_refuses_an_entry_outside_the_palette() {
    let inv = palette(vec![entry("a", rgb(1, 1, 1), 3)]);
    let assigned = vec![at(0, 0, 0), at(1, 0, 1)];
    assert!(matches!(summarize(&assigned, &inv), Err(ErrorKind::PreconditionViolation)));
}

#[test]
fn summary_total_is_the_number_of_cells() {
    let mut cells = Vec::new();
    for y in 0..48u64 {
        for x in 0..48u64 {
            cells.push(cell(x, y, rgb((x * 5) as u8, (y * 5) as u8, 100)));
        }
    }
    let mut inv = palette(vec![
        entry("dark", rgb(20, 20, 20), 1000),
        entry("mid", rgb(120, 120, 120), 1000),
        entry("light", rgb(230, 230, 230), 1000),
    ]);
    let mut rng = StdRng::seed_from_u64(99);
    let assigned = quantize(&cells, &mut inv, &mut rng).unwrap();
    let summary = summarize(&assigned, &inv).unwrap();
    assert_eq!(summary.total, 48 * 48);
    for (i, used) in summary.usage.iter().enumerate() {
        assert_eq!(used.count, 1000 - inv.entries[i].remaining);
    }
    let lines = report(&summary);
    assert_eq!(lines.last().unwrap(), "Total Pieces: 2304");
}

#[test]
fn report_leaves_out_unused_entries() {
    let summary = Summary {
        usage: vec![usage("none", 0), usage("some", 12), usage("nothing", 0), usage("more", 3)],
        total: 15,
    };
    assert_eq!(report(&summary), vec!["some - 12 pieces", "more - 3 pieces", "Total Pieces: 15"]);
}

#[test]
fn report_writes_numbers_in_decimal() {
    let summary = Summary {
        usage: vec![
            usage("one", 1),
            usage("nine", 9),
            usage("ten", 10),
            usage("round", 1000),
            usage("mixed", 9_876_543_210),
            usage("most", u64::MAX),
        ],
        total: 107,
    };
    assert_eq!(
        report(&summary),
        vec![
            "one - 1 pieces",
            "nine - 9 pieces",
            "ten - 10 pieces",
            "round - 1000 pieces",
            "mixed - 9876543210 pieces",
            "most - 18446744073709551615 pieces",
            "Total Pieces: 107",
        ]
    );
}

#[test]
fn report_keeps_names_as_they_are() {
    let summary = Summary { usage: vec![usage("Light Blue - pastel", 2), usage("", 1)], total: 3 };
    assert_eq!(
        report(&summary),
        vec!["Light Blue - pastel - 2 pieces", " - 1 pieces", "Total Pieces: 3"]
    );
}
