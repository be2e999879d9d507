use common::mesh::concat_strips;
use common::mesh::rotate3;
use common::mesh::sorted;
use common::mesh::tear_into_strips;
use common::mesh::validate_trig_strips;

fn strip_triangle_keys(strips: &[Vec<u32>]) -> Vec<[u32; 3]> {
    let mut keys = Vec::new();
    for strip in strips {
        for w in strip.windows(3) {
            let mut k = [w[0], w[1], w[2]];
            k.sort();
            keys.push(k);
        }
    }
    keys.sort();
    keys
}

#[test]
fn tear_single_triangle() {
    let strips = tear_into_strips(&[0, 1, 2]);
    assert_eq!(strips, vec![vec![1, 2, 0]]);
}

#[test]
fn tear_empty_input() {
    let strips = tear_into_strips(&[]);
    assert!(strips.is_empty());
}

#[test]
fn tear_two_adjacent_triangles_chain() {
    let strips = tear_into_strips(&[0, 1, 2, 1, 3, 2]);
    assert_eq!(strips, vec![vec![3, 2, 1, 0]]);
}

#[test]
fn tear_keeps_triangle_set() {
    // two fans around a quad grid
    let indices = [0, 1, 4, 1, 5, 4, 1, 2, 5, 2, 6, 5, 2, 3, 6, 3, 7, 6];
    let strips = tear_into_strips(&indices);
    for strip in &strips {
        assert!(strip.len() >= 3);
    }
    let mut input_keys: Vec<[u32; 3]> = indices
        .chunks(3)
        .map(|t| {
            let mut k = [t[0], t[1], t[2]];
            k.sort();
            k
        })
        .collect();
    input_keys.sort();
    assert_eq!(strip_triangle_keys(&strips), input_keys);
}

#[test]
fn tear_drops_exact_duplicates() {
    let strips = tear_into_strips(&[0, 1, 2, 0, 1, 2]);
    assert_eq!(strips, vec![vec![1, 2, 0]]);
}

#[test]
fn tear_keeps_rotated_duplicates() {
    // the same face written twice with different leading corners
    let strips = tear_into_strips(&[0, 1, 2, 1, 2, 0]);
    assert_eq!(strip_triangle_keys(&strips), vec![[0, 1, 2], [0, 1, 2]]);
}

#[test]
fn concat_empty() {
    let strips: Vec<Vec<u32>> = Vec::new();
    assert_eq!(concat_strips(&strips), Vec::<u32>::new());
}

#[test]
fn concat_single_strip() {
    assert_eq!(concat_strips(&[vec![7, 8, 9]]), vec![7, 8, 9]);
}

#[test]
fn concat_joins_with_degenerate_vertices() {
    let joined = concat_strips(&[vec![1, 2, 3], vec![4, 5, 6]]);
    assert_eq!(joined, vec![1, 2, 3, 3, 4, 4, 5, 6]);
}

#[test]
fn concat_three_strips() {
    let joined = concat_strips(&[vec![1, 2, 3], vec![4, 5, 6], vec![7, 8, 9]]);
    assert_eq!(joined, vec![1, 2, 3, 3, 4, 4, 5, 6, 6, 7, 7, 8, 9]);
}

#[test]
fn validate_accepts_identity_strip() {
    assert!(validate_trig_strips(&[0, 1, 2], &[vec![0, 1, 2]]));
}

#[test]
fn validate_accepts_rotated_window() {
    // the window lists the same face with the same winding
    assert!(validate_trig_strips(&[0, 1, 2], &[vec![1, 2, 0]]));
}

#[test]
fn validate_rejects_reversed_winding() {
    assert!(!validate_trig_strips(&[0, 1, 2], &[vec![2, 1, 0]]));
}

#[test]
fn validate_rejects_missing_triangle() {
    assert!(!validate_trig_strips(&[0, 1, 2, 1, 3, 2], &[vec![0, 1, 2]]));
}

#[test]
fn validate_sees_alternating_winding_of_long_strip() {
    // every second window of a strip runs against the face winding,
    // so the rotation-only normal form reports it
    assert!(!validate_trig_strips(&[0, 1, 2, 1, 3, 2], &[vec![3, 2, 1, 0]]));
}

#[test]
fn sorted_orders_a_pair() {
    assert_eq!(sorted([2, 1]), [1, 2]);
    assert_eq!(sorted([1, 2]), [1, 2]);
    assert_eq!(sorted([5, 5]), [5, 5]);
}

#[test]
fn rotate3_puts_smallest_first() {
    assert_eq!(rotate3([5, 1, 3]), [1, 3, 5]);
    assert_eq!(rotate3([1, 3, 5]), [1, 3, 5]);
    assert_eq!(rotate3([3, 5, 1]), [1, 3, 5]);
}
