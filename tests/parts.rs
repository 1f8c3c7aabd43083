use backpack3d::geometry::{box_vacant, fill_box, EMPTY};
use backpack3d::ordering::{candidate_volumes, order_candidates, suffix_values};
use backpack3d::search::Solver;
use backpack3d::{Limit, Object};

fn obj(name: &str, x: usize, y: usize, z: usize, value: usize) -> Object {
    Object { name: name.to_string(), x, y, z, value }
}

#[test]
fn order_drops_misfits_and_sorts_by_value_then_input_order() {
    let limit = Limit { x: 2, y: 2, z: 2 };
    let objects = vec![
        obj("a", 1, 1, 1, 3),
        obj("b", 3, 1, 1, 50),
        obj("c", 2, 2, 2, 7),
        obj("d", 1, 2, 1, 3),
        obj("e", 1, 1, 1, 9),
    ];
    assert_eq!(order_candidates(&limit, &objects), vec![4, 2, 0, 3]);
}

#[test]
fn suffix_values_sum_each_tail() {
    let objects = vec![obj("a", 1, 1, 1, 3), obj("b", 1, 1, 1, 5), obj("c", 1, 1, 1, 2)];
    let order = vec![1, 0, 2];
    assert_eq!(suffix_values(&objects, &order), vec![10, 5, 2, 0]);
    assert_eq!(suffix_values(&objects, &vec![]), vec![0]);
}

#[test]
fn volumes_follow_the_order() {
    let limit = Limit { x: 4, y: 3, z: 3 };
    let objects = vec![obj("a", 2, 2, 1, 6), obj("b", 1, 3, 1, 5), obj("c", 1, 2, 2, 7)];
    assert_eq!(candidate_volumes(&limit, &objects, &vec![2, 0, 1]), vec![4, 4, 3]);
}

#[test]
fn fill_and_test_a_box() {
    let limit = Limit { x: 2, y: 2, z: 3 };
    let mut grid = vec![EMPTY; 12];
    assert!(box_vacant(&grid, &limit, 0, 1, 1, 2, 1, 2));
    assert!(!box_vacant(&grid, &limit, 1, 1, 1, 2, 1, 2));
    fill_box(&mut grid, &limit, 0, 1, 1, 2, 1, 2, 5);
    let expected: Vec<isize> = vec![-1, -1, -1, -1, 5, 5, -1, -1, -1, -1, 5, 5];
    assert_eq!(grid, expected);
    assert!(!box_vacant(&grid, &limit, 1, 1, 2, 1, 1, 1));
    assert!(box_vacant(&grid, &limit, 0, 0, 0, 2, 1, 3));
    fill_box(&mut grid, &limit, 0, 1, 1, 2, 1, 2, EMPTY);
    assert_eq!(grid, vec![EMPTY; 12]);
}

#[test]
fn solver_starts_empty_and_finds_the_best() {
    let limit = Limit { x: 2, y: 1, z: 1 };
    let objects = vec![obj("long", 2, 1, 1, 5), obj("p", 1, 1, 1, 3), obj("q", 1, 1, 1, 3)];
    let mut s = Solver::new(limit, objects);
    assert_eq!(s.order, vec![0, 1, 2]);
    assert_eq!(s.suffix, vec![11, 6, 3, 0]);
    assert_eq!(s.best_value, 0);
    assert_eq!(s.best_grid, vec![EMPTY, EMPTY]);
    s.dfs(0, 0);
    assert_eq!(s.best_value, 6);
    assert_eq!(s.best_selected, vec![1, 2]);
    assert_eq!(s.best_grid, vec![1, 2]);
    assert_eq!(s.grid, vec![EMPTY, EMPTY]);
    assert_eq!(s.used, 0);
    assert!(s.selected.is_empty());
}

#[test]
fn box_vacant_refuses_objects_larger_than_the_container() {
    let limit = Limit { x: 2, y: 2, z: 2 };
    let grid = vec![EMPTY; 8];
    assert!(!box_vacant(&grid, &limit, 0, 0, 0, 3, 1, 1));
    assert!(!box_vacant(&grid, &limit, 0, 0, 0, 1, 5, 1));
    assert!(!box_vacant(&grid, &limit, 0, 0, 0, 1, 1, usize::MAX));
    assert!(!box_vacant(&grid, &limit, usize::MAX, 0, 0, 1, 1, 1));
    assert!(box_vacant(&grid, &limit, 0, 0, 0, 2, 2, 2));
}
