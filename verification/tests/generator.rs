use raytracer::gui::index_to_mode_settings;
use raytracer::gui::index_to_sub_tree;
use raytracer::gui::mode_settings_to_index;
use raytracer::gui::GUIModeSettings;
use raytracer::gui::GUIModeTree;
use raytracer::raytracing::work::generator::tile_count;
use raytracer::raytracing::work::generator::tile_extent;
use raytracer::raytracing::work::generator::GenerationMode;
use raytracer::raytracing::work::generator::TileAxisOrder;
use raytracer::raytracing::work::generator::TileDimensionOrder;
use raytracer::raytracing::work::RaytracingWork;

fn drain(unit: &mut RaytracingWork) -> Vec<(u32, u32)> {
    let mut cells = vec![];
    loop {
        match unit.get_next_work_pixel() {
            Some(cell) => cells.push(cell),
            None => return cells,
        }
    }
}

fn drain_all(units: &mut Vec<RaytracingWork>) -> Vec<(u32, u32)> {
    let mut cells = vec![];
    for unit in units.iter_mut() {
        cells.append(&mut drain(unit));
    }
    cells
}

fn assert_covers(cells: &Vec<(u32, u32)>, width: u32, height: u32) {
    assert_eq!(cells.len(), (width as usize) * (height as usize));
    let mut seen = vec![false; cells.len()];
    for (x, y) in cells.iter() {
        assert!(*x < width && *y < height);
        let index = (*y as usize) * (width as usize) + (*x as usize);
        assert!(!seen[index]);
        seen[index] = true;
    }
}

fn line_first(horizontal_order: TileAxisOrder, vertical_order: TileAxisOrder) -> TileDimensionOrder {
    TileDimensionOrder::LineFirst { horizontal_order, vertical_order }
}

fn stripe_first(
    horizontal_order: TileAxisOrder,
    vertical_order: TileAxisOrder,
) -> TileDimensionOrder {
    TileDimensionOrder::StripeFirst { horizontal_order, vertical_order }
}

fn tiles(
    tile_width: u32,
    tile_height: u32,
    transparent: bool,
    dimension_order: TileDimensionOrder,
    sub_generation_mode: GenerationMode,
) -> GenerationMode {
    GenerationMode::Tile {
        tile_width,
        tile_height,
        transparent,
        dimension_order,
        sub_generation_mode: Box::new(sub_generation_mode),
    }
}

fn bounds(cells: &Vec<(u32, u32)>) -> (u32, u32, u32, u32) {
    let mut left = u32::MAX;
    let mut top = u32::MAX;
    let mut right = 0;
    let mut bottom = 0;
    for (x, y) in cells.iter() {
        left = left.min(*x);
        top = top.min(*y);
        right = right.max(*x);
        bottom = bottom.max(*y);
    }
    (left, top, right - left + 1, bottom - top + 1)
}

#[test]
fn shuffled_pixels_cover_the_grid() {
    let mut work = GenerationMode::PixelRandom.to_work(7, 5);
    assert_eq!(work.len(), 35);
    for unit in work.iter() {
        assert!(matches!(unit, RaytracingWork::Pixel(_)));
    }
    assert_covers(&drain_all(&mut work), 7, 5);
}

#[test]
fn grid_of_one_cell() {
    let mut work = GenerationMode::PixelRandom.to_work(1, 1);
    assert_eq!(drain_all(&mut work), vec![(0, 0)]);
    let mode = tiles(
        10,
        10,
        false,
        TileDimensionOrder::Random,
        GenerationMode::Line {
            reverse_order_horizontal: true,
            random_order_vertical: true,
            transparent: false,
        },
    );
    let mut work = mode.to_work(1, 1);
    assert_eq!(work.len(), 1);
    assert_eq!(drain_all(&mut work), vec![(0, 0)]);
}

#[test]
fn grid_without_cells() {
    assert!(GenerationMode::PixelRandom.to_work(0, 9).is_empty());
    assert!(GenerationMode::PixelRandom.to_work(9, 0).is_empty());
    let lines = GenerationMode::Line {
        reverse_order_horizontal: false,
        random_order_vertical: false,
        transparent: false,
    };
    let mut work = lines.to_work(0, 3);
    assert_eq!(work.len(), 3);
    assert!(drain_all(&mut work).is_empty());
    assert!(lines.to_work(3, 0).is_empty());
    let mode = tiles(2, 2, false, TileDimensionOrder::Random, GenerationMode::PixelRandom);
    assert!(mode.to_work(0, 5).is_empty());
    assert!(mode.to_work(5, 0).is_empty());
}

#[test]
fn lines_in_order() {
    let mode = GenerationMode::Line {
        reverse_order_horizontal: false,
        random_order_vertical: false,
        transparent: false,
    };
    let mut work = mode.to_work(3, 2);
    assert_eq!(work.len(), 2);
    assert!(matches!(work[0], RaytracingWork::Line(_)));
    assert_eq!(drain(&mut work[0]), vec![(0, 0), (1, 0), (2, 0)]);
    assert_eq!(drain(&mut work[1]), vec![(0, 1), (1, 1), (2, 1)]);
}

#[test]
fn lines_in_reverse_and_transparent() {
    let mode = GenerationMode::Line {
        reverse_order_horizontal: true,
        random_order_vertical: false,
        transparent: true,
    };
    let mut work = mode.to_work(3, 2);
    assert_eq!(work.len(), 6);
    for unit in work.iter() {
        assert!(matches!(unit, RaytracingWork::Pixel(_)));
    }
    assert_eq!(drain_all(&mut work), vec![(2, 0), (1, 0), (0, 0), (2, 1), (1, 1), (0, 1)]);
}

#[test]
fn shuffled_lines_cover_the_grid() {
    let mode = GenerationMode::Line {
        reverse_order_horizontal: false,
        random_order_vertical: true,
        transparent: false,
    };
    let mut work = mode.to_work(4, 9);
    assert_eq!(work.len(), 9);
    for unit in work.iter_mut() {
        let cells = drain(unit);
        assert_eq!(cells.len(), 4);
        let y = cells[0].1;
        assert_eq!(cells, vec![(0, y), (1, y), (2, y), (3, y)]);
    }
    let mut work = mode.to_work(4, 9);
    assert_covers(&drain_all(&mut work), 4, 9);
}

#[test]
fn stripes_in_order() {
    let mode = GenerationMode::Stripe {
        random_order_horizontal: false,
        reverse_order_vertical: true,
        transparent: false,
    };
    let mut work = mode.to_work(2, 3);
    assert_eq!(work.len(), 2);
    assert!(matches!(work[0], RaytracingWork::Stripe(_)));
    assert_eq!(drain(&mut work[0]), vec![(0, 2), (0, 1), (0, 0)]);
    assert_eq!(drain(&mut work[1]), vec![(1, 2), (1, 1), (1, 0)]);
}

#[test]
fn shuffled_transparent_stripes_cover_the_grid() {
    let mode = GenerationMode::Stripe {
        random_order_horizontal: true,
        reverse_order_vertical: false,
        transparent: true,
    };
    let mut work = mode.to_work(6, 4);
    assert_eq!(work.len(), 24);
    for unit in work.iter() {
        assert!(matches!(unit, RaytracingWork::Pixel(_)));
    }
    assert_covers(&drain_all(&mut work), 6, 4);
}

#[test]
fn tile_counts_and_extents() {
    assert_eq!(tile_count(37, 10), 4);
    assert_eq!(tile_count(21, 10), 3);
    assert_eq!(tile_count(40, 10), 4);
    assert_eq!(tile_count(9, 10), 1);
    assert_eq!(tile_count(0, 10), 0);
    assert_eq!(tile_count(u32::MAX, 1), u32::MAX);
    assert_eq!(tile_extent(37, 10, 0), 10);
    assert_eq!(tile_extent(37, 10, 2), 10);
    assert_eq!(tile_extent(37, 10, 3), 7);
    assert_eq!(tile_extent(21, 10, 1), 10);
    assert_eq!(tile_extent(21, 10, 2), 1);
    assert_eq!(tile_extent(40, 10, 3), 10);
    assert_eq!(tile_extent(9, 10, 0), 9);
}

#[test]
fn tiles_with_a_remainder() {
    let mode = tiles(
        10,
        10,
        false,
        line_first(TileAxisOrder::Forward, TileAxisOrder::Forward),
        GenerationMode::PixelRandom,
    );
    let mut work = mode.to_work(37, 21);
    assert_eq!(work.len(), 12);
    let mut sizes = vec![];
    let mut all = vec![];
    for unit in work.iter_mut() {
        assert!(matches!(unit, RaytracingWork::Tile(_)));
        let mut cells = drain(unit);
        let (left, top, width, height) = bounds(&cells);
        assert_eq!(cells.len(), (width * height) as usize);
        assert_eq!(left % 10, 0);
        assert_eq!(top % 10, 0);
        sizes.push((left / 10, top / 10, width, height));
        all.append(&mut cells);
    }
    assert_covers(&all, 37, 21);
    assert_eq!(
        sizes,
        vec![
            (0, 0, 10, 10),
            (1, 0, 10, 10),
            (2, 0, 10, 10),
            (3, 0, 7, 10),
            (0, 1, 10, 10),
            (1, 1, 10, 10),
            (2, 1, 10, 10),
            (3, 1, 7, 10),
            (0, 2, 10, 1),
            (1, 2, 10, 1),
            (2, 2, 10, 1),
            (3, 2, 7, 1),
        ]
    );
}

#[test]
fn tiles_column_by_column_in_reverse() {
    let mode = tiles(
        2,
        2,
        false,
        stripe_first(TileAxisOrder::Reverse, TileAxisOrder::Forward),
        GenerationMode::Line {
            reverse_order_horizontal: false,
            random_order_vertical: false,
            transparent: false,
        },
    );
    let mut work = mode.to_work(4, 4);
    assert_eq!(work.len(), 4);
    assert_eq!(drain(&mut work[0]), vec![(2, 0), (3, 0), (2, 1), (3, 1)]);
    assert_eq!(drain(&mut work[1]), vec![(2, 2), (3, 2), (2, 3), (3, 3)]);
    assert_eq!(drain(&mut work[2]), vec![(0, 0), (1, 0), (0, 1), (1, 1)]);
    assert_eq!(drain(&mut work[3]), vec![(0, 2), (1, 2), (0, 3), (1, 3)]);
}

#[test]
fn tiles_row_by_row_from_the_bottom() {
    let mode = tiles(
        3,
        2,
        false,
        line_first(TileAxisOrder::Forward, TileAxisOrder::Reverse),
        GenerationMode::Stripe {
            random_order_horizontal: false,
            reverse_order_vertical: false,
            transparent: false,
        },
    );
    let mut work = mode.to_work(5, 3);
    assert_eq!(work.len(), 4);
    assert_eq!(drain(&mut work[0]), vec![(0, 2), (1, 2), (2, 2)]);
    assert_eq!(drain(&mut work[1]), vec![(3, 2), (4, 2)]);
    assert_eq!(drain(&mut work[2]), vec![(0, 0), (0, 1), (1, 0), (1, 1), (2, 0), (2, 1)]);
    assert_eq!(drain(&mut work[3]), vec![(3, 0), (3, 1), (4, 0), (4, 1)]);
}

#[test]
fn transparent_tiles_become_single_cells() {
    let mode = tiles(
        2,
        2,
        true,
        line_first(TileAxisOrder::Forward, TileAxisOrder::Forward),
        GenerationMode::Line {
            reverse_order_horizontal: false,
            random_order_vertical: false,
            transparent: false,
        },
    );
    let mut work = mode.to_work(4, 2);
    assert_eq!(work.len(), 8);
    for unit in work.iter() {
        assert!(matches!(unit, RaytracingWork::Pixel(_)));
    }
    assert_eq!(
        drain_all(&mut work),
        vec![(0, 0), (1, 0), (0, 1), (1, 1), (2, 0), (3, 0), (2, 1), (3, 1)]
    );
}

#[test]
fn transparent_tiles_of_tiles_become_single_cells() {
    let inner = tiles(
        1,
        2,
        false,
        stripe_first(TileAxisOrder::Reverse, TileAxisOrder::Forward),
        GenerationMode::Stripe {
            random_order_horizontal: false,
            reverse_order_vertical: true,
            transparent: false,
        },
    );
    let mode = tiles(
        2,
        2,
        true,
        stripe_first(TileAxisOrder::Forward, TileAxisOrder::Reverse),
        inner,
    );
    let mut work = mode.to_work(3, 3);
    assert_eq!(work.len(), 9);
    for unit in work.iter() {
        assert!(matches!(unit, RaytracingWork::Pixel(_)));
    }
    assert_eq!(
        drain_all(&mut work),
        vec![(1, 2), (0, 2), (1, 1), (1, 0), (0, 1), (0, 0), (2, 2), (2, 1), (2, 0)]
    );
}

#[test]
fn transparent_tiles_of_pixels_are_pixels() {
    let mode = tiles(3, 3, true, TileDimensionOrder::Random, GenerationMode::PixelRandom);
    let mut work = mode.to_work(8, 7);
    assert_eq!(work.len(), 56);
    for unit in work.iter() {
        assert!(matches!(unit, RaytracingWork::Pixel(_)));
    }
    assert_covers(&drain_all(&mut work), 8, 7);
}

#[test]
fn nested_tiles_cover_the_grid() {
    let inner = tiles(
        2,
        3,
        true,
        stripe_first(TileAxisOrder::Random, TileAxisOrder::Reverse),
        GenerationMode::Stripe {
            random_order_horizontal: true,
            reverse_order_vertical: true,
            transparent: false,
        },
    );
    let middle = tiles(5, 4, false, TileDimensionOrder::Random, inner);
    let outer = tiles(
        7,
        9,
        false,
        line_first(TileAxisOrder::Reverse, TileAxisOrder::Random),
        middle,
    );
    let mut work = outer.to_work(23, 20);
    assert_eq!(work.len(), 12);
    assert_covers(&drain_all(&mut work), 23, 20);
}

#[test]
fn tiles_larger_than_the_grid() {
    let mode = tiles(100, 50, false, TileDimensionOrder::Random, GenerationMode::PixelRandom);
    let mut work = mode.to_work(3, 4);
    assert_eq!(work.len(), 1);
    assert_covers(&drain_all(&mut work), 3, 4);
}

#[test]
fn every_mode_covers_every_small_grid() {
    let orders = vec![TileAxisOrder::Forward, TileAxisOrder::Reverse, TileAxisOrder::Random];
    for width in 1..6u32 {
        for height in 1..6u32 {
            for transparent in vec![false, true] {
                for first in orders.iter() {
                    for second in orders.iter() {
                        let sub = GenerationMode::Line {
                            reverse_order_horizontal: transparent,
                            random_order_vertical: !transparent,
                            transparent,
                        };
                        let mode = tiles(2, 3, transparent, line_first(*first, *second), sub);
                        assert_covers(&drain_all(&mut mode.to_work(width, height)), width, height);
                        let sub = GenerationMode::Stripe {
                            random_order_horizontal: transparent,
                            reverse_order_vertical: !transparent,
                            transparent: !transparent,
                        };
                        let mode = tiles(3, 2, transparent, stripe_first(*first, *second), sub);
                        assert_covers(&drain_all(&mut mode.to_work(width, height)), width, height);
                    }
                }
            }
        }
    }
}

#[test]
fn well_formed_modes() {
    assert!(GenerationMode::PixelRandom.is_well_formed());
    let good = tiles(1, 1, false, TileDimensionOrder::Random, GenerationMode::PixelRandom);
    assert!(good.is_well_formed());
    let flat = tiles(0, 1, false, TileDimensionOrder::Random, GenerationMode::PixelRandom);
    assert!(!flat.is_well_formed());
    let thin = tiles(1, 0, false, TileDimensionOrder::Random, GenerationMode::PixelRandom);
    assert!(!thin.is_well_formed());
    let nested = tiles(4, 4, true, TileDimensionOrder::Random, thin);
    assert!(!nested.is_well_formed());
}

#[test]
fn copied_mode_is_the_same_mode() {
    let mode = tiles(
        2,
        2,
        false,
        line_first(TileAxisOrder::Forward, TileAxisOrder::Reverse),
        GenerationMode::Line {
            reverse_order_horizontal: true,
            random_order_vertical: false,
            transparent: false,
        },
    );
    let mut first = mode.to_work(4, 4);
    let mut second = mode.clone().to_work(4, 4);
    assert_eq!(drain_all(&mut first), drain_all(&mut second));
}

#[test]
fn mode_of_a_tree_without_tiles() {
    let tree = GUIModeTree::new(GUIModeSettings::PixelRandom, None);
    assert!(tree.is_complete());
    assert!(matches!(GenerationMode::from_gui_mode_tree(&tree), GenerationMode::PixelRandom));
    let tree = GUIModeTree::new(
        GUIModeSettings::PixelLine { reverse_order_horizontal: true, random_order_vertical: false },
        None,
    );
    assert!(matches!(
        GenerationMode::from_gui_mode_tree(&tree),
        GenerationMode::Line {
            reverse_order_horizontal: true,
            random_order_vertical: false,
            transparent: true
        }
    ));
    let tree = GUIModeTree::new(
        GUIModeSettings::Stripe { random_order_horizontal: true, reverse_order_vertical: false },
        None,
    );
    assert!(matches!(
        GenerationMode::from_gui_mode_tree(&tree),
        GenerationMode::Stripe {
            random_order_horizontal: true,
            reverse_order_vertical: false,
            transparent: false
        }
    ));
}

#[test]
fn mode_of_a_tree_of_tiles() {
    let below = GUIModeTree::new(
        GUIModeSettings::Line { reverse_order_horizontal: false, random_order_vertical: true },
        None,
    );
    let tree = GUIModeTree::new(
        GUIModeSettings::StripeFirstPixelTile {
            tile_width: 8,
            tile_height: 4,
            horizontal_order: 1,
            vertical_order: 2,
        },
        Some(Box::new(below)),
    );
    assert!(tree.is_complete());
    match GenerationMode::from_gui_mode_tree(&tree) {
        GenerationMode::Tile {
            tile_width,
            tile_height,
            transparent,
            dimension_order,
            sub_generation_mode,
        } => {
            assert_eq!(tile_width, 8);
            assert_eq!(tile_height, 4);
            assert!(transparent);
            assert_eq!(
                dimension_order,
                stripe_first(TileAxisOrder::Reverse, TileAxisOrder::Random)
            );
            assert!(matches!(
                *sub_generation_mode,
                GenerationMode::Line {
                    reverse_order_horizontal: false,
                    random_order_vertical: true,
                    transparent: false
                }
            ));
        },
        _ => panic!("a mode of tiles was expected"),
    }
    let tree = GUIModeTree::new(
        GUIModeSettings::LineFirstTile {
            tile_width: 8,
            tile_height: 4,
            horizontal_order: 0,
            vertical_order: 7,
        },
        index_to_sub_tree(5),
    );
    match GenerationMode::from_gui_mode_tree(&tree) {
        GenerationMode::Tile { transparent, dimension_order, sub_generation_mode, .. } => {
            assert!(!transparent);
            assert_eq!(
                dimension_order,
                line_first(TileAxisOrder::Forward, TileAxisOrder::Forward)
            );
            assert!(matches!(*sub_generation_mode, GenerationMode::PixelRandom));
        },
        _ => panic!("a mode of tiles was expected"),
    }
}

#[test]
fn tree_of_tiles_without_a_tree_below_is_not_complete() {
    let tree = GUIModeTree::new(index_to_mode_settings(6), None);
    assert!(!tree.is_complete());
    let tree = GUIModeTree::new(index_to_mode_settings(6), Some(Box::new(tree)));
    assert!(!tree.is_complete());
    let tree = GUIModeTree::new(index_to_mode_settings(3), None);
    assert!(tree.is_complete());
}

#[test]
fn settings_and_their_indices() {
    for index in 0..9usize {
        assert_eq!(mode_settings_to_index(&index_to_mode_settings(index)), index);
        assert_eq!(index_to_sub_tree(index).is_some(), index >= 5);
    }
    assert_eq!(index_to_mode_settings(9), GUIModeSettings::PixelRandom);
    assert_eq!(
        index_to_mode_settings(7),
        GUIModeSettings::LineFirstPixelTile {
            tile_width: 10,
            tile_height: 10,
            horizontal_order: 0,
            vertical_order: 0
        }
    );
    assert_eq!(
        index_to_mode_settings(2),
        GUIModeSettings::PixelLine { reverse_order_horizontal: false, random_order_vertical: false }
    );
}

#[test]
fn choosing_another_mode_starts_afresh() {
    let mut tree = GUIModeTree::new(
        GUIModeSettings::Line { reverse_order_horizontal: true, random_order_vertical: true },
        None,
    );
    assert_eq!(tree.selection, 1);
    tree.select(1);
    assert_eq!(
        tree.settings,
        GUIModeSettings::Line { reverse_order_horizontal: true, random_order_vertical: true }
    );
    tree.select(8);
    assert_eq!(tree.selection, 8);
    assert_eq!(tree.settings, index_to_mode_settings(8));
    let below = tree.sub_tree.clone().unwrap();
    assert_eq!(below.selection, 0);
    assert_eq!(below.settings, GUIModeSettings::PixelRandom);
    assert!(below.sub_tree.is_none());
    assert!(tree.is_complete());
    tree.select(0);
    assert_eq!(tree.settings, GUIModeSettings::PixelRandom);
    assert!(tree.sub_tree.is_none());
    tree.selection = 4;
    GUIModeTree::update_mode_tree(&mut tree);
    assert_eq!(tree.settings, index_to_mode_settings(4));
}

#[test]
fn shuffled_pixels_leave_the_row_order() {
    let mut work = GenerationMode::PixelRandom.to_work(16, 16);
    let cells = drain_all(&mut work);
    assert_covers(&cells, 16, 16);
    let mut in_order = vec![];
    for y in 0..16u32 {
        for x in 0..16u32 {
            in_order.push((x, y));
        }
    }
    assert_ne!(cells, in_order);
}

#[test]
fn shuffled_tiles_leave_the_row_order() {
    let mode = tiles(1, 1, false, TileDimensionOrder::Random, GenerationMode::PixelRandom);
    let mut work = mode.to_work(16, 16);
    assert_eq!(work.len(), 256);
    let cells = drain_all(&mut work);
    assert_covers(&cells, 16, 16);
    let mut in_order = vec![];
    for y in 0..16u32 {
        for x in 0..16u32 {
            in_order.push((x, y));
        }
    }
    assert_ne!(cells, in_order);
}

#[test]
fn shuffled_rows_leave_their_order() {
    let mode = GenerationMode::Line {
        reverse_order_horizontal: false,
        random_order_vertical: true,
        transparent: false,
    };
    let mut work = mode.to_work(1, 200);
    let cells = drain_all(&mut work);
    assert_covers(&cells, 1, 200);
    let mut in_order = vec![];
    for y in 0..200u32 {
        in_order.push((0, y));
    }
    assert_ne!(cells, in_order);
}

#[test]
fn copied_tree_is_the_same_tree() {
    let mut tree = GUIModeTree::new(GUIModeSettings::PixelRandom, None);
    tree.select(6);
    let copy = tree.clone();
    assert_eq!(copy.selection, 6);
    assert_eq!(copy.settings, tree.settings);
    assert_eq!(copy.sub_tree.unwrap().settings, GUIModeSettings::PixelRandom);
}
