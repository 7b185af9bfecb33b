use ducky_core::geom::{IRect, IVec2, URect, UVec2};
use ducky_core::level_collision::{LevelCollider, LevelCollisionBuilder};

const T: bool = true;
const F: bool = false;

fn collider(min: (u32, u32), max: (u32, u32)) -> LevelCollider {
    LevelCollider(URect { min: UVec2::new(min.0, min.1), max: UVec2::new(max.0, max.1) })
}

fn check_reduction(w: u32, h: u32, cells: &[bool], colliders: &[LevelCollider]) {
    for c in colliders {
        assert!(c.0.min.x < c.0.max.x && c.0.min.y < c.0.max.y);
        assert!(c.0.max.x <= w && c.0.max.y <= h);
        for y in c.0.min.y..c.0.max.y {
            for x in c.0.min.x..c.0.max.x {
                assert!(cells[(x + w * y) as usize], "collider covers empty cell ({x}, {y})");
            }
        }
    }
    for y in 0..h {
        for x in 0..w {
            if cells[(x + w * y) as usize] {
                let covering = colliders
                    .iter()
                    .filter(|c| c.0.min.x <= x && x < c.0.max.x && c.0.min.y <= y && y < c.0.max.y)
                    .count();
                assert_eq!(covering, 1, "solid cell ({x}, {y}) covered {covering} times");
            }
        }
    }
}

#[test]
fn staggered_rows_reduce_to_two_rectangles() {
    let grid = LevelCollisionBuilder::from_grid(UVec2::new(3, 2), vec![T, T, F, F, T, T]);
    let colliders = grid.build();
    assert_eq!(colliders, vec![collider((0, 0), (2, 1)), collider((1, 1), (3, 2))]);
}

#[test]
fn full_square_reduces_to_its_bounds() {
    let grid = LevelCollisionBuilder::from_grid(UVec2::new(2, 2), vec![T, T, T, T]);
    assert_eq!(grid.build(), vec![collider((0, 0), (2, 2))]);
}

#[test]
fn empty_grid_reduces_to_nothing() {
    let grid = LevelCollisionBuilder::from_grid(UVec2::new(4, 3), vec![F; 12]);
    assert!(grid.build().is_empty());
    let empty = LevelCollisionBuilder::new_empty(IRect {
        min: IVec2::new(-2, 5),
        max: IVec2::new(3, 9),
    });
    assert!(empty.build().is_empty());
}

#[test]
fn filled_grid_with_offset_reduces_to_one_local_collider() {
    let grid = LevelCollisionBuilder::new_filled(IRect {
        min: IVec2::new(-2, 5),
        max: IVec2::new(3, 9),
    });
    assert_eq!(grid.build(), vec![collider((0, 0), (5, 4))]);
}

#[test]
fn zero_area_grid_reduces_to_nothing() {
    let grid = LevelCollisionBuilder::from_grid(UVec2::new(0, 3), vec![]);
    assert!(grid.build().is_empty());
}

#[test]
fn single_row_gives_unit_high_rectangles() {
    let grid = LevelCollisionBuilder::from_grid(UVec2::new(6, 1), vec![T, F, T, T, F, T]);
    let colliders = grid.build();
    assert_eq!(colliders.len(), 3);
    for c in &colliders {
        assert_eq!(c.0.max.y - c.0.min.y, 1);
    }
    check_reduction(6, 1, &[T, F, T, T, F, T], &colliders);
}

#[test]
fn equal_strips_merge_vertically() {
    let cells = vec![
        F, T, T, F,
        F, T, T, F,
        T, T, T, T,
    ];
    let colliders = LevelCollisionBuilder::from_grid(UVec2::new(4, 3), cells.clone()).build();
    assert_eq!(colliders, vec![collider((1, 0), (3, 2)), collider((0, 2), (4, 3))]);
    check_reduction(4, 3, &cells, &colliders);
}

#[test]
fn every_three_by_three_grid_is_reduced_faithfully() {
    for bits in 0u32..512 {
        let cells: Vec<bool> = (0..9).map(|i| bits & (1 << i) != 0).collect();
        let colliders = LevelCollisionBuilder::from_grid(UVec2::new(3, 3), cells.clone()).build();
        check_reduction(3, 3, &cells, &colliders);
    }
}

#[test]
fn get_and_set_respect_bounds() {
    let mut grid = LevelCollisionBuilder::new_empty(IRect {
        min: IVec2::new(-1, -1),
        max: IVec2::new(2, 2),
    });
    grid.set(IVec2::new(0, 1), true);
    grid.set(IVec2::new(5, 5), true);
    assert!(grid.get(IVec2::new(0, 1)));
    assert!(!grid.get(IVec2::new(1, 0)));
    assert!(!grid.get(IVec2::new(5, 5)));
    assert!(!grid.get(IVec2::new(-2, 0)));
    grid.set_iter(&[(IVec2::new(-1, -1), true), (IVec2::new(0, 1), false), (IVec2::new(1, 1), true)]);
    assert!(grid.get(IVec2::new(-1, -1)));
    assert!(!grid.get(IVec2::new(0, 1)));
    assert!(grid.get(IVec2::new(1, 1)));
    assert_eq!(grid.build(), vec![collider((0, 0), (1, 1)), collider((2, 2), (3, 3))]);
}

#[test]
fn colliders_are_the_maximal_stacks_in_row_order() {
    let cells = vec![
        T, T, F, T, T, //
        T, T, F, T, T, //
        F, T, T, T, F, //
        T, T, F, T, T,
    ];
    let colliders = LevelCollisionBuilder::from_grid(UVec2::new(5, 4), cells.clone()).build();
    assert_eq!(
        colliders,
        vec![
            collider((3, 0), (5, 2)),
            collider((0, 0), (2, 2)),
            collider((1, 2), (4, 3)),
            collider((3, 3), (5, 4)),
            collider((0, 3), (2, 4)),
        ]
    );
    check_reduction(5, 4, &cells, &colliders);
}
