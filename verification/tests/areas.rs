use civ_remastered::area::{bfs, AreaIdAndSize};
use std::collections::BTreeMap;

#[test]
fn bfs_numbers_each_connected_group() {
    // tiles 0-1-2 form one group, 3 stands alone, 4 is not part of the pass
    let adj: Vec<Vec<usize>> = vec![vec![1], vec![0, 2], vec![1, 4], vec![], vec![2]];
    let in_area = vec![true, true, true, true, false];
    let read_ids = vec![-1, -1, -1, -1, 5];
    let mut pending = vec![-1, -1, -1, -1, 9];
    let mut sizes = AreaIdAndSize(BTreeMap::new());
    sizes.0.insert(2, 40);
    bfs(&read_ids, &mut pending, &mut sizes, &in_area, &adj);
    assert_eq!(pending, vec![6, 6, 6, 7, 9]);
    assert_eq!(sizes.0.get(&6), Some(&3));
    assert_eq!(sizes.0.get(&7), Some(&1));
    assert_eq!(sizes.0.get(&2), Some(&40));
    assert_eq!(sizes.0.len(), 3);
}

#[test]
fn bfs_starts_after_the_largest_id_read() {
    let adj: Vec<Vec<usize>> = vec![vec![1], vec![0], vec![]];
    let in_area = vec![false, true, true];
    let read_ids = vec![12, 3, 3];
    let mut pending = vec![0, 0, 0];
    let mut sizes = AreaIdAndSize(BTreeMap::new());
    bfs(&read_ids, &mut pending, &mut sizes, &in_area, &adj);
    // tile 1 and tile 2 are not neighbors: two areas of one tile each
    assert_eq!(pending, vec![0, 13, 14]);
    assert_eq!(sizes.0.get(&13), Some(&1));
    assert_eq!(sizes.0.get(&14), Some(&1));
}

#[test]
fn bfs_overwrites_sizes_of_reused_ids() {
    let adj: Vec<Vec<usize>> = vec![vec![1], vec![0]];
    let in_area = vec![true, true];
    let read_ids = vec![0, 0];
    let mut pending = vec![-1, -1];
    let mut sizes = AreaIdAndSize(BTreeMap::new());
    sizes.0.insert(1, 99);
    bfs(&read_ids, &mut pending, &mut sizes, &in_area, &adj);
    assert_eq!(pending, vec![1, 1]);
    assert_eq!(sizes.0.get(&1), Some(&2));
}
