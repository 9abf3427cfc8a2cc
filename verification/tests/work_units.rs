use raytracer::raytracing::work::RaytracingWork;

fn drain(unit: &mut RaytracingWork) -> Vec<(u32, u32)> {
    let mut cells = vec![];
    loop {
        match unit.get_next_work_pixel() {
            Some(cell) => cells.push(cell),
            None => return cells,
        }
    }
}

#[test]
fn pixel_is_handed_out_once() {
    let mut unit = RaytracingWork::pixel(3, 9);
    assert!(!unit.is_exhausted());
    assert_eq!(unit.get_next_work_pixel(), Some((3, 9)));
    assert!(unit.is_exhausted());
    assert_eq!(unit.get_next_work_pixel(), None);
    assert_eq!(unit.get_next_work_pixel(), None);
}

#[test]
fn line_goes_forward() {
    let mut unit = RaytracingWork::line(5, 5, 3, false);
    assert_eq!(unit.get_next_work_pixel(), Some((5, 5)));
    assert_eq!(unit.get_next_work_pixel(), Some((6, 5)));
    assert_eq!(unit.get_next_work_pixel(), Some((7, 5)));
    assert_eq!(unit.get_next_work_pixel(), None);
    assert_eq!(unit.get_next_work_pixel(), None);
}

#[test]
fn line_goes_in_reverse() {
    let mut unit = RaytracingWork::line(5, 5, 3, true);
    assert_eq!(unit.get_next_work_pixel(), Some((7, 5)));
    assert_eq!(unit.get_next_work_pixel(), Some((6, 5)));
    assert_eq!(unit.get_next_work_pixel(), Some((5, 5)));
    assert_eq!(unit.get_next_work_pixel(), None);
}

#[test]
fn stripe_goes_forward_and_in_reverse() {
    let mut down = RaytracingWork::stripe(2, 10, 3, false);
    assert_eq!(drain(&mut down), vec![(2, 10), (2, 11), (2, 12)]);
    let mut up = RaytracingWork::stripe(2, 10, 3, true);
    assert_eq!(drain(&mut up), vec![(2, 12), (2, 11), (2, 10)]);
}

#[test]
fn run_of_no_cells_is_exhausted_at_once() {
    let mut line = RaytracingWork::line(4, 4, 0, false);
    assert!(line.is_exhausted());
    assert_eq!(line.get_next_work_pixel(), None);
    let mut line = RaytracingWork::line(4, 4, 0, true);
    assert_eq!(line.get_next_work_pixel(), None);
    let mut stripe = RaytracingWork::stripe(4, 4, 0, false);
    assert!(stripe.is_exhausted());
    assert_eq!(stripe.get_next_work_pixel(), None);
    let mut tile = RaytracingWork::tile(4, 4, vec![]);
    assert!(tile.is_exhausted());
    assert_eq!(tile.get_next_work_pixel(), None);
}

#[test]
fn run_of_one_cell() {
    let mut line = RaytracingWork::line(8, 1, 1, true);
    assert_eq!(drain(&mut line), vec![(8, 1)]);
    let mut stripe = RaytracingWork::stripe(8, 1, 1, false);
    assert_eq!(drain(&mut stripe), vec![(8, 1)]);
}

#[test]
fn tile_moves_its_cells_by_its_anchor() {
    let mut tile = RaytracingWork::tile(
        10,
        20,
        vec![RaytracingWork::line(0, 0, 2, false), RaytracingWork::line(0, 1, 2, true)],
    );
    assert_eq!(drain(&mut tile), vec![(10, 20), (11, 20), (11, 21), (10, 21)]);
    assert!(tile.is_exhausted());
}

#[test]
fn tile_drains_its_slots_in_order() {
    let mut tile = RaytracingWork::tile(
        1,
        1,
        vec![
            RaytracingWork::pixel(5, 5),
            RaytracingWork::line(0, 0, 0, false),
            RaytracingWork::stripe(0, 0, 2, false),
            RaytracingWork::pixel(7, 7),
        ],
    );
    assert_eq!(tile.get_next_work_pixel(), Some((6, 6)));
    assert_eq!(tile.get_next_work_pixel(), Some((1, 1)));
    assert!(!tile.is_exhausted());
    assert_eq!(tile.get_next_work_pixel(), Some((1, 2)));
    assert_eq!(tile.get_next_work_pixel(), Some((8, 8)));
    assert!(tile.is_exhausted());
    assert_eq!(tile.get_next_work_pixel(), None);
}

#[test]
fn nested_tiles_add_their_anchors() {
    let inner = RaytracingWork::tile(2, 3, vec![RaytracingWork::line(1, 1, 2, false)]);
    let mut outer = RaytracingWork::tile(100, 200, vec![inner, RaytracingWork::pixel(0, 0)]);
    assert_eq!(drain(&mut outer), vec![(103, 204), (104, 204), (100, 200)]);
}

#[test]
fn tile_of_exhausted_units_is_exhausted() {
    let mut pixel = RaytracingWork::pixel(1, 1);
    assert_eq!(pixel.get_next_work_pixel(), Some((1, 1)));
    let mut tile = RaytracingWork::tile(0, 0, vec![pixel, RaytracingWork::line(0, 0, 0, false)]);
    assert!(tile.is_exhausted());
    assert_eq!(tile.get_next_work_pixel(), None);
}

#[test]
fn pixel_splits_into_itself() {
    let mut units = RaytracingWork::pixel(4, 2).to_sub_work();
    assert_eq!(units.len(), 1);
    assert_eq!(drain(&mut units[0]), vec![(4, 2)]);
}

#[test]
fn line_splits_into_its_cells() {
    let mut units = RaytracingWork::line(5, 5, 3, true).to_sub_work();
    assert_eq!(units.len(), 3);
    for unit in units.iter() {
        assert!(matches!(unit, RaytracingWork::Pixel(_)));
    }
    assert_eq!(drain(&mut units[0]), vec![(7, 5)]);
    assert_eq!(drain(&mut units[1]), vec![(6, 5)]);
    assert_eq!(drain(&mut units[2]), vec![(5, 5)]);
}

#[test]
fn started_line_splits_into_the_cells_left() {
    let mut line = RaytracingWork::line(0, 0, 4, false);
    assert_eq!(line.get_next_work_pixel(), Some((0, 0)));
    let mut units = line.to_sub_work();
    assert_eq!(units.len(), 3);
    assert_eq!(drain(&mut units[0]), vec![(1, 0)]);
    assert_eq!(drain(&mut units[2]), vec![(3, 0)]);
}

#[test]
fn stripe_splits_into_its_cells() {
    let mut units = RaytracingWork::stripe(1, 2, 2, false).to_sub_work();
    assert_eq!(units.len(), 2);
    assert_eq!(drain(&mut units[0]), vec![(1, 2)]);
    assert_eq!(drain(&mut units[1]), vec![(1, 3)]);
}

#[test]
fn tile_splits_into_its_cells() {
    let tile = RaytracingWork::tile(
        10,
        20,
        vec![
            RaytracingWork::line(0, 0, 2, false),
            RaytracingWork::pixel(1, 1),
            RaytracingWork::tile(2, 2, vec![RaytracingWork::stripe(0, 0, 2, true)]),
        ],
    );
    let mut units = tile.to_sub_work();
    assert_eq!(units.len(), 5);
    for unit in units.iter() {
        assert!(matches!(unit, RaytracingWork::Pixel(_)));
    }
    assert_eq!(drain(&mut units[0]), vec![(10, 20)]);
    assert_eq!(drain(&mut units[1]), vec![(11, 20)]);
    assert_eq!(drain(&mut units[2]), vec![(11, 21)]);
    assert_eq!(drain(&mut units[3]), vec![(12, 23)]);
    assert_eq!(drain(&mut units[4]), vec![(12, 22)]);
}

#[test]
fn started_tile_splits_into_the_cells_left() {
    let mut tile = RaytracingWork::tile(
        1,
        0,
        vec![RaytracingWork::pixel(0, 0), RaytracingWork::line(0, 1, 2, false)],
    );
    assert_eq!(tile.get_next_work_pixel(), Some((1, 0)));
    assert_eq!(tile.get_next_work_pixel(), Some((1, 1)));
    let mut units = tile.to_sub_work();
    assert_eq!(units.len(), 1);
    assert!(matches!(units[0], RaytracingWork::Pixel(_)));
    assert_eq!(drain(&mut units[0]), vec![(2, 1)]);
}

#[test]
fn copy_hands_out_the_same_cells() {
    let mut tile = RaytracingWork::tile(
        3,
        3,
        vec![RaytracingWork::line(0, 0, 3, true), RaytracingWork::pixel(9, 9)],
    );
    assert_eq!(tile.get_next_work_pixel(), Some((5, 3)));
    let mut copy = tile.clone();
    assert_eq!(drain(&mut copy), vec![(4, 3), (3, 3), (12, 12)]);
    assert_eq!(drain(&mut tile), vec![(4, 3), (3, 3), (12, 12)]);
}

#[test]
fn units_lie_in_a_grid_or_not() {
    assert!(RaytracingWork::pixel(3, 9).lies_within(4, 10));
    assert!(!RaytracingWork::pixel(3, 9).lies_within(3, 10));
    assert!(!RaytracingWork::pixel(3, 9).lies_within(4, 9));
    assert!(RaytracingWork::line(2, 0, 3, true).lies_within(5, 1));
    assert!(!RaytracingWork::line(2, 0, 3, true).lies_within(4, 1));
    assert!(!RaytracingWork::line(2, 0, 3, true).lies_within(5, 0));
    assert!(RaytracingWork::line(0, 0, 0, false).lies_within(0, 1));
    assert!(RaytracingWork::stripe(0, 2, 3, false).lies_within(1, 5));
    assert!(!RaytracingWork::stripe(0, 2, 3, false).lies_within(1, 4));
    let tile = RaytracingWork::tile(
        10,
        20,
        vec![RaytracingWork::line(0, 0, 2, false), RaytracingWork::pixel(1, 1)],
    );
    assert!(tile.lies_within(12, 22));
    assert!(!tile.lies_within(11, 22));
    assert!(!tile.lies_within(12, 21));
    assert!(RaytracingWork::tile(5, 5, vec![]).lies_within(5, 5));
    assert!(!RaytracingWork::tile(5, 5, vec![]).lies_within(4, 5));
}

#[test]
fn units_are_well_formed_where_their_coordinates_fit() {
    assert!(RaytracingWork::pixel(u32::MAX, u32::MAX).is_well_formed());
    assert!(RaytracingWork::line(u32::MAX - 2, 0, 3, false).is_well_formed());
    assert!(!RaytracingWork::line(u32::MAX - 2, 0, 4, false).is_well_formed());
    assert!(RaytracingWork::line(u32::MAX, 0, 0, false).is_well_formed());
    assert!(RaytracingWork::line(0, 0, u32::MAX, false).is_well_formed());
    assert!(!RaytracingWork::line(2, 0, u32::MAX, false).is_well_formed());
    assert!(RaytracingWork::stripe(0, 1, u32::MAX, true).is_well_formed());
    assert!(!RaytracingWork::stripe(0, 7, u32::MAX, true).is_well_formed());
    let tile = RaytracingWork::tile(u32::MAX - 1, 0, vec![RaytracingWork::pixel(1, 0)]);
    assert!(tile.is_well_formed());
    let tile = RaytracingWork::tile(u32::MAX - 1, 0, vec![RaytracingWork::pixel(2, 0)]);
    assert!(!tile.is_well_formed());
    let tile = RaytracingWork::tile(u32::MAX, u32::MAX, vec![RaytracingWork::pixel(0, 0)]);
    assert!(tile.is_well_formed());
}

#[test]
fn cells_at_the_far_end_are_handed_out() {
    let mut pixel = RaytracingWork::pixel(u32::MAX, u32::MAX);
    assert_eq!(pixel.get_next_work_pixel(), Some((u32::MAX, u32::MAX)));
    assert_eq!(pixel.get_next_work_pixel(), None);
    let mut line = RaytracingWork::line(u32::MAX - 1, 3, 2, true);
    assert_eq!(line.get_next_work_pixel(), Some((u32::MAX, 3)));
    assert_eq!(line.get_next_work_pixel(), Some((u32::MAX - 1, 3)));
    assert_eq!(line.get_next_work_pixel(), None);
    let mut stripe = RaytracingWork::stripe(0, u32::MAX, 1, false);
    assert_eq!(stripe.get_next_work_pixel(), Some((0, u32::MAX)));
    assert_eq!(stripe.get_next_work_pixel(), None);
    let mut empty = RaytracingWork::line(u32::MAX, u32::MAX, 0, false);
    assert_eq!(empty.get_next_work_pixel(), None);
    let mut tile = RaytracingWork::tile(
        u32::MAX - 1,
        u32::MAX,
        vec![RaytracingWork::line(0, 0, 2, false)],
    );
    assert_eq!(tile.get_next_work_pixel(), Some((u32::MAX - 1, u32::MAX)));
    assert_eq!(tile.get_next_work_pixel(), Some((u32::MAX, u32::MAX)));
    assert_eq!(tile.get_next_work_pixel(), None);
    assert!(RaytracingWork::pixel(u32::MAX, 0).lies_within(u32::MAX, 1) == false);
}
