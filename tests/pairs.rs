use pair_finder::pairs::two_number_sum;

fn run(input: Vec<i32>, t: i32) -> (Vec<i32>, Vec<Vec<i32>>) {
    let mut x = input;
    let r = two_number_sum(&mut x, t);
    (x, r)
}

#[test]
fn empty_input_gives_no_pairs() {
    let (x, r) = run(vec![], 5);
    assert!(x.is_empty());
    assert!(r.is_empty());
}

#[test]
fn single_element_gives_no_pairs() {
    let (x, r) = run(vec![5], 10);
    assert_eq!(x, vec![5]);
    assert!(r.is_empty());
}

#[test]
fn no_match_gives_no_pairs() {
    let (_, r) = run(vec![1, 2, 3], 100);
    assert!(r.is_empty());
}

#[test]
fn demo_input_golden_output() {
    let (x, r) = run(vec![3, 5, -4, 8, 11, 1, -1, 6], 10);
    assert_eq!(x, vec![-4, -1, 1, 3, 5, 6, 8, 11]);
    assert_eq!(r, vec![vec![-1, 11]]);
}

#[test]
fn input_is_left_sorted() {
    let (x, _) = run(vec![9, -3, 7, 0, 7, -3], 4);
    assert_eq!(x, vec![-3, -3, 0, 7, 7, 9]);
}

#[test]
fn several_pairs_in_discovery_order() {
    let (_, r) = run(vec![6, 1, 5, 2, 4, 3], 7);
    assert_eq!(r, vec![vec![1, 6], vec![2, 5], vec![3, 4]]);
}

#[test]
fn every_pair_sums_to_target() {
    let t = 12;
    let (_, r) = run(vec![7, 5, 12, 0, 3, 9, 6, 6, -2, 14], t);
    assert!(!r.is_empty());
    for p in r.iter() {
        assert_eq!(p.len(), 2);
        assert_eq!(p[0] + p[1], t);
    }
}

#[test]
fn equal_halves_used_once_per_position() {
    let (_, r) = run(vec![5, 5, 5], 10);
    assert_eq!(r, vec![vec![5, 5]]);
    let (_, r) = run(vec![5, 5, 5, 5], 10);
    assert_eq!(r, vec![vec![5, 5], vec![5, 5]]);
}

#[test]
fn duplicates_at_distinct_positions_give_duplicate_pairs() {
    let (_, r) = run(vec![2, 1, 2, 1], 3);
    assert_eq!(r, vec![vec![1, 2], vec![1, 2]]);
}

#[test]
fn no_position_shared_between_pairs() {
    let (x, r) = run(vec![3, 1, 1, 3, 1], 4);
    assert_eq!(x, vec![1, 1, 1, 3, 3]);
    assert_eq!(r, vec![vec![1, 3], vec![1, 3]]);
    let ones = r.iter().filter(|p| p[0] == 1).count();
    let threes = r.iter().filter(|p| p[1] == 3).count();
    assert!(ones <= x.iter().filter(|v| **v == 1).count());
    assert!(threes <= x.iter().filter(|v| **v == 3).count());
}

#[test]
fn agrees_with_brute_force_value_pairs() {
    let t = 8;
    let (x, r) = run(vec![4, 2, 6, 4, 0, 8, 3, 5, 5, -1, 9], t);
    let mut brute: Vec<Vec<i32>> = Vec::new();
    for i in 0..x.len() {
        for j in (i + 1)..x.len() {
            if x[i] + x[j] == t {
                let row = vec![x[i], x[j]];
                if !brute.contains(&row) {
                    brute.push(row);
                }
            }
        }
    }
    let mut found: Vec<Vec<i32>> = Vec::new();
    for row in r.iter() {
        if !found.contains(row) {
            found.push(row.clone());
        }
    }
    brute.sort();
    found.sort();
    assert_eq!(found, brute);
}

#[test]
fn order_of_input_does_not_matter() {
    let (_, a) = run(vec![2, 1, 3, 2], 4);
    let (_, b) = run(vec![3, 2, 2, 1], 4);
    let (_, c) = run(vec![1, 2, 2, 3], 4);
    assert_eq!(a, vec![vec![1, 3], vec![2, 2]]);
    assert_eq!(a, b);
    assert_eq!(a, c);
}

#[test]
fn sums_do_not_wrap() {
    let (_, r) = run(vec![i32::MAX, i32::MAX], -2);
    assert!(r.is_empty());
    let (_, r) = run(vec![i32::MAX, i32::MIN], -1);
    assert_eq!(r, vec![vec![i32::MIN, i32::MAX]]);
    let (_, r) = run(vec![i32::MIN, i32::MIN, 0], i32::MIN);
    assert_eq!(r, vec![vec![i32::MIN, 0]]);
}

#[test]
fn negative_target() {
    let (_, r) = run(vec![-7, 2, -5, 0, -3, 4], -3);
    assert_eq!(r, vec![vec![-7, 4], vec![-5, 2], vec![-3, 0]]);
}
