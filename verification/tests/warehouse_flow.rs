use stockroom::date::Date;
use stockroom::warehouse::ErrorKind;
use stockroom::warehouse::Warehouse;

fn date(year: i32, month: u32, day: u32) -> Date {
    Date { year, month, day }
}

fn grid(rows: usize, cols: usize, zones: usize) -> Warehouse {
    let mut w = Warehouse::new();
    w.initialize_rows(rows, cols, zones);
    w
}

#[test]
fn fills_one_column_exactly() {
    // A 1x1x5 grid has capacity 5; five units of one product fill it
    // contiguously and a sixth unit is refused for want of space.
    let mut w = grid(1, 1, 5);
    assert_eq!(w.capacity, 5);
    assert_eq!(w.available_space, 5);
    assert!(w.add_items_by_qty(7, 5, None).is_ok());
    assert_eq!(w.available_space, 0);
    let occ = w.find_all_item_occurences(7);
    assert_eq!(occ, vec![(1, 1, 1), (1, 1, 2), (1, 1, 3), (1, 1, 4), (1, 1, 5)]);
    assert!(w.is_product_stored_contiguously(7));
    assert!(matches!(w.add_items_by_qty(7, 1, None), Err(ErrorKind::InsufficientSpace)));
}

#[test]
fn capacity_check_runs_before_run_search() {
    // 1x2x3 grid: product A fills column 1, product B takes column 2 zone 1.
    // A run of 2 exists at column 2 zones 2-3; a request of 3 exceeds the
    // free space and must fail with InsufficientSpace, not NoContiguousSpace.
    let mut w = grid(1, 2, 3);
    assert!(w.add_items_by_qty(1, 3, None).is_ok());
    assert!(w.add_items_by_qty(2, 1, None).is_ok());
    assert_eq!(w.find_all_item_occurences(2), vec![(1, 2, 1)]);
    assert_eq!(w.available_space, 2);
    assert_eq!(w.find_contiguous_space(2).unwrap(), (1, 2, 2));
    assert!(matches!(w.find_contiguous_space(3), Err(ErrorKind::InsufficientSpace)));
}

#[test]
fn fragmentation_is_told_from_exhaustion() {
    // Free zones exist but no two adjacent ones: a run of 2 is refused with
    // NoContiguousSpace while the aggregate space would suffice.
    let mut w = grid(1, 2, 3);
    assert!(w.add_items_by_qty(1, 3, None).is_ok());
    // occupy the middle zone of column 2, leaving zones 1 and 3 free
    let item = stockroom::product::ProductItem::new(2, 1, 2, 2, None);
    assert!(w.add_item(1, 2, 2, item).is_ok());
    assert_eq!(w.available_space, 2);
    assert!(matches!(w.find_contiguous_space(2), Err(ErrorKind::NoContiguousSpace)));
    assert!(matches!(w.add_items_by_qty(3, 2, None), Err(ErrorKind::NoContiguousSpace)));
}

#[test]
fn removal_takes_earliest_expirations_first() {
    // Three dated units; removing two takes the 2025-01-01 and 2025-02-01
    // units and leaves only the 2025-03-01 one.
    let mut w = grid(1, 1, 5);
    assert!(w.add_items_by_qty(9, 1, Some(date(2025, 1, 1))).is_ok());
    assert!(w.add_items_by_qty(9, 1, Some(date(2025, 3, 1))).is_ok());
    assert!(w.add_items_by_qty(9, 1, Some(date(2025, 2, 1))).is_ok());
    assert!(w.remove_item_by_qty(9, 2).is_ok());
    let occ = w.find_all_item_occurences(9);
    assert_eq!(occ.len(), 1);
    let it = w.get_item(occ[0].0, occ[0].1, occ[0].2).unwrap();
    assert_eq!(it.expiry_date, Some(date(2025, 3, 1)));
}

#[test]
fn short_dated_stock_falls_back_to_removing_all() {
    // One dated and two undated units: asking for two dated removals falls
    // back to clearing every unit of the product.
    let mut w = grid(1, 1, 5);
    assert!(w.add_items_by_qty(4, 1, Some(date(2026, 6, 1))).is_ok());
    assert!(w.add_items_by_qty(4, 2, None).is_ok());
    assert_eq!(w.find_all_item_occurences(4).len(), 3);
    assert!(w.remove_item_by_qty(4, 2).is_ok());
    assert!(w.find_all_item_occurences(4).is_empty());
    assert!(!w.contains_product(4));
    assert_eq!(w.available_space, 5);
}

#[test]
fn placement_changes_counts_by_exactly_the_quantity() {
    let mut w = grid(2, 2, 3);
    let before_space = w.available_space;
    let before_occ = w.find_all_item_occurences(5).len();
    assert!(w.add_items_by_qty(5, 4, None).is_ok());
    assert_eq!(w.available_space, before_space - 4);
    assert_eq!(w.find_all_item_occurences(5).len(), before_occ + 4);
}

#[test]
fn removing_all_restores_the_free_space() {
    let mut w = grid(2, 2, 3);
    let before = w.available_space;
    assert!(w.add_items_by_qty(6, 2, None).is_ok());
    assert!(w.add_items_by_qty(6, 3, None).is_ok());
    assert!(w.remove_all_items(6).is_ok());
    assert_eq!(w.available_space, before);
    assert!(w.find_all_item_occurences(6).is_empty());
    assert!(matches!(w.remove_all_items(6), Err(ErrorKind::NoProductFound)));
}

#[test]
fn continued_placement_stays_contiguous() {
    // Case A then case B within one column keep the product contiguous.
    let mut w = grid(1, 1, 8);
    assert!(w.add_items_by_qty(3, 2, None).is_ok());
    assert!(w.is_product_stored_contiguously(3));
    assert!(w.add_items_by_qty(3, 3, None).is_ok());
    assert!(w.is_product_stored_contiguously(3));
    assert_eq!(
        w.find_all_item_occurences(3),
        vec![(1, 1, 1), (1, 1, 2), (1, 1, 3), (1, 1, 4), (1, 1, 5)]
    );
}

#[test]
fn scattered_stock_is_regrouped_by_expiration() {
    // Product A becomes scattered around an intruder; the next placement
    // regroups every dated unit into one region, earliest date first, and
    // appends the new units after them.
    let mut w = grid(1, 1, 10);
    assert!(w.add_items_by_qty(1, 2, Some(date(2025, 5, 1))).is_ok());
    let intruder = stockroom::product::ProductItem::new(2, 1, 1, 3, None);
    assert!(w.add_item(1, 1, 3, intruder).is_ok());
    assert!(w.add_items_by_qty(1, 2, Some(date(2025, 4, 1))).is_ok());
    // A sits at zones 1,2 (May) and 4,5 (April), split by the intruder.
    assert!(!w.is_product_stored_contiguously(1));
    assert!(w.add_items_by_qty(1, 1, Some(date(2025, 6, 1))).is_ok());
    let occ = w.find_all_item_occurences(1);
    assert_eq!(occ, vec![(1, 1, 6), (1, 1, 7), (1, 1, 8), (1, 1, 9), (1, 1, 10)]);
    assert!(w.is_product_stored_contiguously(1));
    let dates: Vec<Option<Date>> = occ
        .iter()
        .map(|p| w.get_item(p.0, p.1, p.2).unwrap().expiry_date)
        .collect();
    assert_eq!(
        dates,
        vec![
            Some(date(2025, 4, 1)),
            Some(date(2025, 4, 1)),
            Some(date(2025, 5, 1)),
            Some(date(2025, 5, 1)),
            Some(date(2025, 6, 1)),
        ]
    );
    // the old zones are free again
    assert!(w.get_item(1, 1, 1).is_none());
    assert!(w.get_item(1, 1, 2).is_none());
}

#[test]
fn organize_regroups_without_adding() {
    let mut w = grid(1, 1, 10);
    assert!(w.add_items_by_qty(8, 1, Some(date(2025, 2, 2))).is_ok());
    let intruder = stockroom::product::ProductItem::new(9, 1, 1, 2, None);
    assert!(w.add_item(1, 1, 2, intruder).is_ok());
    assert!(w.add_items_by_qty(8, 1, Some(date(2025, 1, 2))).is_ok());
    assert!(!w.is_product_stored_contiguously(8));
    let before = w.available_space;
    assert!(w.organize_items_by_id(8).is_ok());
    assert_eq!(w.available_space, before);
    assert!(w.is_product_stored_contiguously(8));
    assert!(matches!(w.organize_items_by_id(77), Err(ErrorKind::NoProductFound)));
}

#[test]
fn single_moves_and_single_removals() {
    let mut w = grid(1, 2, 2);
    assert!(w.add_items_by_qty(5, 1, None).is_ok());
    assert!(w.move_item((1, 1, 1), (1, 2, 2)).is_ok());
    assert_eq!(w.find_all_item_occurences(5), vec![(1, 2, 2)]);
    assert!(matches!(
        w.move_item((1, 1, 1), (1, 2, 1)),
        Err(ErrorKind::ZoneEmpty((1, 1, 1)))
    ));
    assert!(matches!(
        w.move_item((3, 1, 1), (1, 2, 1)),
        Err(ErrorKind::ZoneNotFound((3, 1, 1)))
    ));
    assert!(w.remove_item_by_id(5).is_ok());
    assert!(!w.contains_product(5));
    assert!(matches!(w.remove_item_by_id(5), Err(ErrorKind::NoProductFound)));
}

#[test]
fn positions_map_both_ways() {
    let w = grid(2, 2, 3);
    assert_eq!(w.flat_map_position_to_zone(0).unwrap(), (1, 1, 1));
    assert_eq!(w.flat_map_position_to_zone(3).unwrap(), (1, 2, 1));
    assert_eq!(w.flat_map_position_to_zone(6).unwrap(), (2, 1, 1));
    assert_eq!(w.flat_map_position_to_zone(11).unwrap(), (2, 2, 3));
    assert!(w.flat_map_position_to_zone(12).is_none());
    assert_eq!(w.position_to_flat_index(2, 2, 3), 11);
}

#[test]
fn bitmap_tracks_occupancy() {
    let mut w = grid(1, 2, 2);
    assert!(w.add_items_by_qty(4, 1, None).is_ok());
    assert_eq!(w.flat_map(), vec![true, false, false, false]);
    assert!(w.add_items_by_qty(4, 2, None).is_ok());
    assert_eq!(w.flat_map(), vec![true, true, true, false]);
    assert!(!w.is_full());
}

#[test]
fn zone_level_errors_carry_their_positions() {
    let mut w = grid(1, 1, 2);
    let item = stockroom::product::ProductItem::new(1, 1, 1, 1, None);
    assert!(w.add_item(1, 1, 1, item).is_ok());
    let again = stockroom::product::ProductItem::new(2, 1, 1, 1, None);
    assert!(matches!(w.add_item(1, 1, 1, again), Err(ErrorKind::ZoneOccupied((1, 1, 1)))));
    let off = stockroom::product::ProductItem::new(2, 1, 1, 9, None);
    assert!(matches!(w.add_item(1, 1, 9, off), Err(ErrorKind::ZoneNotFound((1, 1, 9)))));
    let wrong_col = stockroom::product::ProductItem::new(2, 1, 5, 1, None);
    assert!(matches!(w.add_item(1, 5, 1, wrong_col), Err(ErrorKind::ColumnNotFound((1, 5)))));
    let wrong_row = stockroom::product::ProductItem::new(2, 4, 1, 1, None);
    assert!(matches!(w.add_item(4, 1, 1, wrong_row), Err(ErrorKind::RowNotFound(4))));
    assert!(matches!(w.remove_item(1, 1, 2), Err(ErrorKind::ZoneEmpty((1, 1, 2)))));
}

#[test]
fn dates_order_lexicographically() {
    let a = date(2024, 12, 31);
    let b = date(2025, 1, 1);
    assert!(a.is_le(&b));
    assert!(!b.is_le(&a));
    assert!(a.is_le(&a));
}
