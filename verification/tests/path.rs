use goldberg::grid::generate_goldberg;
use goldberg::path::{adjacency, find_path};
use goldberg::spatial::Tolerances;
use std::collections::{HashMap, VecDeque};

fn graph(edges: &[(usize, &[usize])]) -> HashMap<usize, Vec<usize>> {
    edges.iter().map(|(a, bs)| (*a, bs.to_vec())).collect()
}

fn hops(map: &HashMap<usize, Vec<usize>>, start: usize, end: usize) -> Option<usize> {
    let mut dist: HashMap<usize, usize> = HashMap::new();
    dist.insert(start, 0);
    let mut queue = VecDeque::new();
    queue.push_back(start);
    while let Some(c) = queue.pop_front() {
        if c == end {
            return Some(dist[&c]);
        }
        for &n in map.get(&c).into_iter().flatten() {
            if !dist.contains_key(&n) {
                dist.insert(n, dist[&c] + 1);
                queue.push_back(n);
            }
        }
    }
    None
}

#[test]
fn path_to_itself_is_the_node_alone() {
    let g = graph(&[(0, &[1]), (1, &[0])]);
    assert_eq!(find_path(&g, 0, 0), vec![0]);
    assert_eq!(find_path(&g, 7, 7), vec![7]);
    assert_eq!(find_path(&HashMap::new(), 3, 3), vec![3]);
}

#[test]
fn disconnected_pair_has_no_path() {
    let g = graph(&[(0, &[1]), (1, &[0]), (2, &[3]), (3, &[2])]);
    assert_eq!(find_path(&g, 0, 3), Vec::<usize>::new());
    assert_eq!(find_path(&g, 0, 9), Vec::<usize>::new());
    assert_eq!(find_path(&g, 9, 0), Vec::<usize>::new());
}

#[test]
fn edges_are_followed_in_their_direction() {
    let g = graph(&[(0, &[1]), (1, &[2])]);
    assert_eq!(find_path(&g, 0, 2), vec![0, 1, 2]);
    assert_eq!(find_path(&g, 2, 0), Vec::<usize>::new());
}

#[test]
fn shortest_of_several_paths_is_found() {
    let g = graph(&[(0, &[1, 2]), (1, &[3]), (2, &[4]), (3, &[5]), (4, &[3, 6]), (5, &[6]), (6, &[])]);
    assert_eq!(find_path(&g, 0, 6), vec![0, 2, 4, 6]);
    assert_eq!(find_path(&g, 0, 5), vec![0, 1, 3, 5]);
}

#[test]
fn first_listed_neighbor_wins_among_equal_paths() {
    let g = graph(&[(0, &[2, 1]), (1, &[3]), (2, &[3]), (3, &[])]);
    assert_eq!(find_path(&g, 0, 3), vec![0, 2, 3]);
    let g = graph(&[(0, &[1, 2]), (1, &[3]), (2, &[3]), (3, &[])]);
    assert_eq!(find_path(&g, 0, 3), vec![0, 1, 3]);
}

#[test]
fn repeated_and_self_edges_do_no_harm() {
    let g = graph(&[(0, &[0, 1, 1]), (1, &[1, 0, 2, 2]), (2, &[])]);
    assert_eq!(find_path(&g, 0, 2), vec![0, 1, 2]);
}

#[test]
fn paths_on_a_grid_are_shortest() {
    let tol = Tolerances::for_class(2, 1).unwrap();
    let cells = generate_goldberg(2, 1, tol).unwrap();
    let map = adjacency(&cells);
    assert_eq!(map.len(), cells.len());
    for cell in &cells {
        assert_eq!(map[&cell.id], cell.neighbors);
    }
    for start in [0usize, 5, 17, 40] {
        for end in 0..cells.len() {
            let path = find_path(&map, start, end);
            let expected = hops(&map, start, end).expect("the grid is connected");
            assert_eq!(path.len(), expected + 1);
            assert_eq!(path[0], start);
            assert_eq!(*path.last().unwrap(), end);
            for pair in path.windows(2) {
                assert!(map[&pair[0]].contains(&pair[1]));
            }
        }
    }
}
