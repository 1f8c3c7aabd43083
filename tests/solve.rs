use backpack3d::{solve_to_grid_zxy, Limit, Object};

fn obj(name: &str, x: usize, y: usize, z: usize, value: usize) -> Object {
    Object { name: name.to_string(), x, y, z, value }
}

fn lim(x: usize, y: usize, z: usize) -> Limit {
    Limit { x, y, z }
}

fn demo_objects() -> Vec<Object> {
    vec![
        obj("A", 2, 2, 1, 6),
        obj("B", 1, 3, 1, 5),
        obj("C", 1, 2, 2, 7),
        obj("D", 2, 1, 1, 3),
    ]
}

/// Exhaustive search over every subset and every placement, for checking.
fn brute_force(limit: Limit, objects: &[Object]) -> usize {
    fn go(limit: Limit, objects: &[Object], i: usize, grid: &mut Vec<bool>) -> usize {
        if i == objects.len() {
            return 0;
        }
        let mut best = go(limit, objects, i + 1, grid);
        let o = &objects[i];
        if o.x > limit.x || o.y > limit.y || o.z > limit.z {
            return best;
        }
        let at = |x: usize, y: usize, z: usize| (x * limit.y + y) * limit.z + z;
        for x in 0..=limit.x - o.x {
            for y in 0..=limit.y - o.y {
                for z in 0..=limit.z - o.z {
                    let mut cells = Vec::new();
                    for a in x..x + o.x {
                        for b in y..y + o.y {
                            for c in z..z + o.z {
                                cells.push(at(a, b, c));
                            }
                        }
                    }
                    if cells.iter().all(|&k| !grid[k]) {
                        for &k in &cells {
                            grid[k] = true;
                        }
                        let v = o.value + go(limit, objects, i + 1, grid);
                        best = best.max(v);
                        for &k in &cells {
                            grid[k] = false;
                        }
                    }
                }
            }
        }
        best
    }
    let mut grid = vec![false; limit.x * limit.y * limit.z];
    go(limit, objects, 0, &mut grid)
}

/// Checks the shape of an output and the facts that hold of every one.
fn check_output(limit: Limit, objects: &[Object], out: &(Vec<String>, Vec<Vec<Vec<isize>>>, Vec<Object>, usize)) {
    let (names, grid, selected, best) = out;
    assert_eq!(grid.len(), limit.z);
    let mut seen = vec![false; names.len()];
    for plane in grid {
        assert_eq!(plane.len(), limit.x);
        for row in plane {
            assert_eq!(row.len(), limit.y);
            for &v in row {
                assert!(v >= -1 && v < names.len() as isize);
                if v >= 0 {
                    seen[v as usize] = true;
                }
            }
        }
    }
    assert!(seen.iter().all(|&s| s));
    assert_eq!(selected.iter().map(|o| o.value).sum::<usize>(), *best);
    assert_eq!(names.len(), selected.len());
    for s in selected {
        assert!(objects.contains(s));
    }
    for (k, name) in names.iter().enumerate() {
        let o = selected.iter().find(|o| &o.name == name).unwrap();
        let cells: Vec<(usize, usize, usize)> = (0..limit.z)
            .flat_map(|z| (0..limit.x).flat_map(move |x| (0..limit.y).map(move |y| (x, y, z))))
            .filter(|&(x, y, z)| grid[z][x][y] == k as isize)
            .collect();
        assert_eq!(cells.len(), o.x * o.y * o.z);
        let x0 = cells.iter().map(|c| c.0).min().unwrap();
        let y0 = cells.iter().map(|c| c.1).min().unwrap();
        let z0 = cells.iter().map(|c| c.2).min().unwrap();
        for &(x, y, z) in &cells {
            assert!(x < x0 + o.x && y < y0 + o.y && z < z0 + o.z);
        }
    }
}

#[test]
fn demo_scenario_exact() {
    let (names, grid, selected, best) = solve_to_grid_zxy(lim(4, 3, 3), demo_objects());
    assert_eq!(best, 21);
    assert_eq!(names, vec!["A", "B", "C", "D"]);
    let order: Vec<&str> = selected.iter().map(|o| o.name.as_str()).collect();
    assert_eq!(order, vec!["C", "A", "B", "D"]);
    let expected: Vec<Vec<Vec<isize>>> = vec![
        vec![vec![2, 2, -1], vec![1, 1, 1], vec![-1, -1, -1], vec![-1, -1, -1]],
        vec![vec![2, 2, 3], vec![-1, -1, 3], vec![-1, -1, -1], vec![-1, -1, -1]],
        vec![vec![0, 0, -1], vec![0, 0, -1], vec![-1, -1, -1], vec![-1, -1, -1]],
    ];
    assert_eq!(grid, expected);
}

#[test]
fn demo_scenario_beats_best_single_object() {
    let objects = demo_objects();
    let out = solve_to_grid_zxy(lim(4, 3, 3), objects.clone());
    assert!(out.3 > 7);
    assert_eq!(out.3, brute_force(lim(4, 3, 3), &objects));
    check_output(lim(4, 3, 3), &objects, &out);
}

#[test]
fn no_objects_gives_empty_result() {
    let (names, grid, selected, best) = solve_to_grid_zxy(lim(2, 3, 1), vec![]);
    assert_eq!(best, 0);
    assert!(names.is_empty());
    assert!(selected.is_empty());
    assert_eq!(grid, vec![vec![vec![-1isize; 3]; 2]; 1]);
}

#[test]
fn object_larger_than_container_is_never_placed() {
    let objects = vec![obj("big", 3, 1, 1, 100), obj("small", 1, 1, 1, 2)];
    let (names, grid, selected, best) = solve_to_grid_zxy(lim(2, 2, 2), objects);
    assert_eq!(best, 2);
    assert_eq!(names, vec!["small"]);
    assert_eq!(selected, vec![obj("small", 1, 1, 1, 2)]);
    assert_eq!(grid[0][0][0], 0);
    let filled: usize = grid.iter().flatten().flatten().filter(|&&v| v >= 0).count();
    assert_eq!(filled, 1);
}

#[test]
fn all_objects_too_large_gives_zero() {
    let objects = vec![obj("a", 1, 1, 4, 9), obj("b", 5, 1, 1, 9)];
    let (names, grid, selected, best) = solve_to_grid_zxy(lim(2, 2, 2), objects);
    assert_eq!(best, 0);
    assert!(names.is_empty());
    assert!(selected.is_empty());
    assert!(grid.iter().flatten().flatten().all(|&v| v == -1));
}

#[test]
fn two_small_objects_beat_one_large() {
    let objects = vec![obj("long", 2, 1, 1, 5), obj("p", 1, 1, 1, 3), obj("q", 1, 1, 1, 3)];
    let (names, grid, selected, best) = solve_to_grid_zxy(lim(2, 1, 1), objects);
    assert_eq!(best, 6);
    assert_eq!(names, vec!["p", "q"]);
    assert_eq!(selected, vec![obj("p", 1, 1, 1, 3), obj("q", 1, 1, 1, 3)]);
    assert_eq!(grid, vec![vec![vec![0], vec![1]]]);
}

#[test]
fn equal_values_keep_input_order() {
    let objects = vec![obj("first", 1, 1, 1, 4), obj("second", 1, 1, 1, 4)];
    let (names, grid, selected, best) = solve_to_grid_zxy(lim(1, 1, 1), objects);
    assert_eq!(best, 4);
    assert_eq!(names, vec!["first"]);
    assert_eq!(selected, vec![obj("first", 1, 1, 1, 4)]);
    assert_eq!(grid, vec![vec![vec![0]]]);
}

#[test]
fn names_follow_input_order_not_selection_order() {
    let objects = vec![obj("cheap", 1, 1, 1, 1), obj("dear", 1, 1, 1, 10)];
    let (names, grid, selected, best) = solve_to_grid_zxy(lim(2, 1, 1), objects);
    assert_eq!(best, 11);
    assert_eq!(names, vec!["cheap", "dear"]);
    let order: Vec<&str> = selected.iter().map(|o| o.name.as_str()).collect();
    assert_eq!(order, vec!["dear", "cheap"]);
    assert_eq!(grid, vec![vec![vec![1], vec![0]]]);
}

#[test]
fn full_container_stops_the_search() {
    let objects = vec![obj("slab", 2, 2, 1, 8), obj("cube", 1, 1, 1, 1)];
    let (names, grid, _, best) = solve_to_grid_zxy(lim(2, 2, 1), objects);
    assert_eq!(best, 8);
    assert_eq!(names, vec!["slab"]);
    assert_eq!(grid, vec![vec![vec![0, 0], vec![0, 0]]]);
}

#[test]
fn zero_value_objects_are_not_selected() {
    let objects = vec![obj("nothing", 1, 1, 1, 0)];
    let (names, _, selected, best) = solve_to_grid_zxy(lim(1, 1, 1), objects);
    assert_eq!(best, 0);
    assert!(names.is_empty());
    assert!(selected.is_empty());
}

#[test]
fn repeated_solves_are_identical() {
    let a = solve_to_grid_zxy(lim(4, 3, 3), demo_objects());
    let b = solve_to_grid_zxy(lim(4, 3, 3), demo_objects());
    assert_eq!(a, b);
}

#[test]
fn matches_exhaustive_search_on_small_instances() {
    let cases: Vec<(Limit, Vec<Object>)> = vec![
        (lim(3, 2, 1), vec![obj("a", 2, 2, 1, 5), obj("b", 2, 1, 1, 3), obj("c", 1, 2, 1, 3), obj("d", 1, 1, 1, 1)]),
        (lim(2, 2, 2), vec![obj("a", 2, 2, 1, 4), obj("b", 1, 2, 2, 4), obj("c", 2, 1, 2, 4), obj("d", 1, 1, 1, 2)]),
        (lim(3, 3, 1), vec![obj("a", 2, 2, 1, 9), obj("b", 2, 2, 1, 9), obj("c", 1, 3, 1, 4), obj("d", 3, 1, 1, 4), obj("e", 1, 1, 1, 1)]),
        (lim(4, 1, 2), vec![obj("a", 3, 1, 1, 6), obj("b", 2, 1, 2, 7), obj("c", 1, 1, 2, 3), obj("d", 4, 1, 1, 5)]),
        (lim(2, 3, 2), vec![obj("a", 2, 3, 1, 10), obj("b", 1, 3, 2, 10), obj("c", 2, 2, 2, 12), obj("d", 1, 1, 1, 2)]),
    ];
    for (limit, objects) in cases {
        let out = solve_to_grid_zxy(limit, objects.clone());
        assert_eq!(out.3, brute_force(limit, &objects));
        check_output(limit, &objects, &out);
    }
}
