use combinations::{
    all, all_qualifying, all_qualifying_positions, combinations, combinations_positions,
    combinations_qualifying_positions, get_subset,
};

fn sum_below_five(v: &Vec<i32>) -> bool {
    let sum: i32 = v.iter().sum();
    sum < 5
}

#[test]
fn test_get_subset() {
    let result = get_subset(&(1..4).collect(), 3);
    assert_eq!(result, vec![1, 2]);
    let result = get_subset(&(1..4).collect(), 6);
    assert_eq!(result, vec![2, 3]);
}

#[test]
fn test_all() {
    let result = all(&(1..4).collect());
    assert_eq!(
        result,
        vec![
            vec![1],
            vec![2],
            vec![1, 2],
            vec![3],
            vec![1, 3],
            vec![2, 3],
            vec![1, 2, 3]
        ]
    );
}

#[test]
fn test_all_qualifying() {
    let result = all_qualifying(&(1..4).collect(), |v: &Vec<i32>| -> bool {
        let sum: i32 = v.iter().sum();
        sum < 5
    });
    assert_eq!(
        result,
        vec![vec![1], vec![2], vec![1, 2], vec![3], vec![1, 3]]
    );
}

#[test]
fn test_all_qualifying_positions() {
    let result = all_qualifying_positions(&(1..4).collect(), |v: &Vec<i32>| -> bool {
        let sum: i32 = v.iter().sum();
        sum < 5
    });
    assert_eq!(result.len(), 5);
}

#[test]
fn test_combinations() {
    let result = combinations(&(1..4).collect(), 2);
    assert_eq!(result, vec![vec![1, 2], vec![1, 3], vec![2, 3]]);
}

#[test]
fn test_combinations_positions() {
    let result = combinations_positions(&(1..21).collect(), 10);
    assert_eq!(result.len(), 184756);
    let result = combinations_positions(&(1..21).collect(), 11);
    assert_eq!(result.len(), 167960);
    let result = combinations_positions(&(1..21).collect(), 9);
    assert_eq!(result.len(), 167960);
}

#[test]
fn test_combinations_qualifying_positions() {
    let result =
        combinations_qualifying_positions(&(1..4).collect(), 2, |v: &Vec<i32>| -> bool {
            let sum: i32 = v.iter().sum();
            sum < 5
        });
    assert_eq!(result.len(), 2);
}

#[test]
fn test_complicated() {
    let actual = combinations(&vec![1, 2, 2, 3], 3);
    let expected = vec![vec![1, 2, 2], vec![1, 2, 3], vec![1, 2, 3], vec![2, 2, 3]];
    assert_eq!(actual, expected)
}

#[test]
fn get_subset_ignores_bits_past_the_end() {
    let v: Vec<i32> = vec![1, 2, 3];
    assert_eq!(get_subset(&v, 0b1111_1101), vec![1, 3]);
    assert_eq!(get_subset(&v, u128::MAX), vec![1, 2, 3]);
    assert_eq!(get_subset(&v, 0), Vec::<i32>::new());
    assert_eq!(get_subset(&v, 8), Vec::<i32>::new());
}

#[test]
fn get_subset_of_a_long_vector() {
    let v: Vec<u32> = (0..130).collect();
    let expected: Vec<u32> = (0..128).collect();
    assert_eq!(get_subset(&v, u128::MAX), expected);
    assert_eq!(get_subset(&v, 1u128 << 127), vec![127]);
}

#[test]
fn all_of_empty_input_is_empty() {
    let v: Vec<i32> = vec![];
    assert!(all(&v).is_empty());
    assert!(combinations(&v, 0).is_empty());
    assert!(combinations_positions(&v, 1).is_empty());
    assert!(all_qualifying_positions(&v, sum_below_five).is_empty());
}

#[test]
fn all_has_two_to_the_n_minus_one_subsets() {
    for n in 0..10u32 {
        let v: Vec<u32> = (0..n).collect();
        assert_eq!(all(&v).len(), (1usize << n) - 1);
    }
}

#[test]
fn combinations_count_is_binomial() {
    let v: Vec<i32> = (1..7).collect();
    let expected = [0usize, 6, 15, 20, 15, 6, 1];
    for r in 0..7u32 {
        let result = combinations(&v, r);
        assert_eq!(result.len(), expected[r as usize]);
        for subset in result.iter() {
            assert_eq!(subset.len(), r as usize);
        }
    }
}

#[test]
fn combinations_of_size_zero_or_too_large_are_empty() {
    let v: Vec<i32> = vec![1, 2, 3];
    assert!(combinations(&v, 0).is_empty());
    assert!(combinations(&v, 4).is_empty());
    assert!(combinations(&v, u32::MAX).is_empty());
    assert!(combinations_positions(&v, 4).is_empty());
    assert!(combinations_qualifying_positions(&v, 5, sum_below_five).is_empty());
}

#[test]
fn positions_decode_to_their_size() {
    let v: Vec<i32> = (1..9).collect();
    for r in 1..9u32 {
        for pos in combinations_positions(&v, r) {
            assert_eq!(pos.count_ones(), r);
            assert_eq!(get_subset(&v, pos).len(), r as usize);
        }
        for pos in combinations_qualifying_positions(&v, r, sum_below_five) {
            assert_eq!(get_subset(&v, pos).len(), r as usize);
        }
    }
}

#[test]
fn positions_are_strictly_increasing() {
    let v: Vec<i32> = (1..8).collect();
    let lists = vec![
        combinations_positions(&v, 3),
        all_qualifying_positions(&v, sum_below_five),
        combinations_qualifying_positions(&v, 2, sum_below_five),
    ];
    for list in lists {
        for pair in list.windows(2) {
            assert!(pair[0] < pair[1]);
        }
    }
}

#[test]
fn positions_are_ordinals_in_the_full_enumeration() {
    let v: Vec<i32> = (1..6).collect();
    let everything = all(&v);
    for pos in all_qualifying_positions(&v, sum_below_five) {
        assert_eq!(everything[(pos - 1) as usize], get_subset(&v, pos));
    }
    for pos in combinations_positions(&v, 2) {
        assert_eq!(everything[(pos - 1) as usize], get_subset(&v, pos));
    }
}

#[test]
fn qualifying_positions_match_filtered_combinations() {
    let v: Vec<i32> = (1..7).collect();
    for r in 0..7u32 {
        let decoded: Vec<Vec<i32>> = combinations_qualifying_positions(&v, r, sum_below_five)
            .into_iter()
            .map(|pos| get_subset(&v, pos))
            .collect();
        let filtered: Vec<Vec<i32>> = combinations(&v, r)
            .into_iter()
            .filter(|s| sum_below_five(s))
            .collect();
        assert_eq!(decoded, filtered);
    }
}

#[test]
fn qualifying_positions_exact_values() {
    let v: Vec<i32> = vec![1, 2, 3];
    assert_eq!(all_qualifying_positions(&v, sum_below_five), vec![1, 2, 3, 4, 5]);
    assert_eq!(combinations_qualifying_positions(&v, 2, sum_below_five), vec![3, 5]);
    assert_eq!(combinations_positions(&v, 2), vec![3, 5, 6]);
}

#[test]
fn all_qualifying_rejecting_everything_is_empty() {
    let v: Vec<i32> = vec![1, 2, 3];
    assert!(all_qualifying(&v, |_: &Vec<i32>| false).is_empty());
    assert_eq!(all_qualifying(&v, |_: &Vec<i32>| true), all(&v));
}
