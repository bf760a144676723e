use ray_tracer::perlin::{
    check_arrangement, perlin_generate_perm, perlin_generate_perm_by, permute, permute_by, Perlin,
    POINT_COUNT,
};

fn counting() -> Vec<usize> {
    (0..POINT_COUNT).collect()
}

fn reversed() -> Vec<usize> {
    (0..POINT_COUNT).rev().collect()
}

fn stepped(step: usize, shift: usize) -> Vec<usize> {
    (0..POINT_COUNT).map(|i| (i * step + shift) % POINT_COUNT).collect()
}

#[test]
fn point_count_is_256() {
    assert_eq!(POINT_COUNT, 256);
}

#[test]
fn shuffle_exchanges_from_the_last_place_down() {
    let mut perm = vec![0, 1, 2, 3];
    permute_by(&mut perm, 4, &|_| 0);
    // 3 with 0, then 2 with 0, then 1 with 0.
    assert_eq!(perm, vec![1, 2, 3, 0]);
    let mut perm = vec![10, 11, 12, 13, 14];
    permute_by(&mut perm, 5, &|i| i - 1);
    assert_eq!(perm, vec![14, 10, 11, 12, 13]);
    let mut perm = vec![10, 11, 12, 13, 14];
    permute_by(&mut perm, 5, &|i| i / 2);
    // 4 with 2, 3 with 1, 2 with 1, 1 with 0.
    assert_eq!(perm, vec![14, 10, 13, 11, 12]);
}

#[test]
fn shuffle_with_each_place_as_its_own_target_changes_nothing() {
    let mut perm = vec![5, 3, 8, 1];
    permute_by(&mut perm, 4, &|i| i);
    assert_eq!(perm, vec![5, 3, 8, 1]);
}

#[test]
fn shuffle_leaves_the_rest_of_the_list_alone() {
    let mut perm = vec![0, 1, 2, 3, 4, 5];
    permute_by(&mut perm, 3, &|_| 0);
    assert_eq!(perm, vec![1, 2, 0, 3, 4, 5]);
    let mut perm = vec![0, 1, 2];
    permute_by(&mut perm, 1, &|_| panic!("one item is not shuffled"));
    assert_eq!(perm, vec![0, 1, 2]);
    permute_by(&mut perm, 0, &|_| panic!("no item is not shuffled"));
    assert_eq!(perm, vec![0, 1, 2]);
    let mut none: Vec<usize> = Vec::new();
    permute(&mut none, 0);
    assert!(none.is_empty());
}

#[test]
fn random_shuffle_rearranges() {
    let mut perm: Vec<usize> = (100..200).collect();
    permute(&mut perm, 60);
    assert_eq!(perm[60..], (160..200).collect::<Vec<_>>()[..]);
    let mut head = perm[..60].to_vec();
    head.sort();
    assert_eq!(head, (100..160).collect::<Vec<_>>());
}

#[test]
fn generated_table_is_an_arrangement() {
    let perm = perlin_generate_perm();
    assert_eq!(perm.len(), POINT_COUNT);
    assert!(check_arrangement(&perm));
    let mut sorted = perm.clone();
    sorted.sort();
    assert_eq!(sorted, counting());
    // A table that came out in rising order 256 times over was not shuffled.
    assert!(perm != counting() || perlin_generate_perm() != counting());
}

#[test]
fn generated_table_follows_the_draws() {
    let perm = perlin_generate_perm_by(&|_| 0);
    let expected: Vec<usize> = (1..POINT_COUNT).chain([0]).collect();
    assert_eq!(perm, expected);
    assert_eq!(perlin_generate_perm_by(&|i| i), counting());
}

#[test]
fn arrangements_are_told_from_other_lists() {
    assert!(check_arrangement(&counting()));
    assert!(check_arrangement(&reversed()));
    assert!(check_arrangement(&stepped(7, 3)));
    assert!(!check_arrangement(&Vec::new()));
    assert!(!check_arrangement(&(0..POINT_COUNT - 1).collect()));
    assert!(!check_arrangement(&(0..POINT_COUNT + 1).collect()));
    let mut twice = counting();
    twice[200] = 17;
    assert!(!check_arrangement(&twice));
    let mut beyond = counting();
    beyond[0] = POINT_COUNT;
    assert!(!check_arrangement(&beyond));
    assert!(!check_arrangement(&stepped(2, 0)));
}

#[test]
fn generator_needs_256_gradients() {
    assert!(Perlin::new(vec![0u8; POINT_COUNT]).is_some());
    assert!(Perlin::new(vec![0u8; POINT_COUNT - 1]).is_none());
    assert!(Perlin::new(vec![0u8; POINT_COUNT + 1]).is_none());
    assert!(Perlin::new(Vec::<u8>::new()).is_none());
}

#[test]
fn generator_needs_arranged_tables() {
    let gradients: Vec<usize> = counting();
    assert!(Perlin::from_tables(gradients.clone(), counting(), reversed(), stepped(3, 1)).is_some());
    assert!(Perlin::from_tables(gradients.clone(), stepped(2, 0), reversed(), counting()).is_none());
    assert!(Perlin::from_tables(gradients.clone(), counting(), vec![0; 256], counting()).is_none());
    assert!(Perlin::from_tables(gradients.clone(), counting(), counting(), vec![]).is_none());
    assert!(Perlin::from_tables(vec![1usize], counting(), counting(), counting()).is_none());
}

#[test]
fn gradient_is_picked_by_the_exclusive_or_of_the_three_tables() {
    let gradients: Vec<usize> = counting();
    let perlin =
        Perlin::from_tables(gradients, counting(), reversed(), stepped(3, 1)).unwrap();
    // x: 5, y: 255 - 9 = 246, z: (3 * 2 + 1) = 7; 5 ^ 246 ^ 7 = 244.
    assert_eq!(*perlin.gradient(5, 9, 2), 244);
    assert_eq!(*perlin.gradient(0, 0, 0), 0 ^ 255 ^ 1);
    for (i, j, k) in [(1, 2, 3), (255, 255, 255), (100, 0, 77), (17, 200, 31)] {
        let expected = (i as usize) ^ (255 - j as usize) ^ ((3 * k as usize + 1) % 256);
        assert_eq!(*perlin.gradient(i, j, k), expected);
    }
}

#[test]
fn lattice_coordinates_wrap_every_256() {
    let gradients: Vec<usize> = counting();
    let perlin = Perlin::from_tables(gradients, counting(), counting(), counting()).unwrap();
    assert_eq!(*perlin.gradient(256, 0, 0), 0);
    assert_eq!(*perlin.gradient(257, 0, 0), 1);
    assert_eq!(*perlin.gradient(-1, 0, 0), 255);
    assert_eq!(*perlin.gradient(-256, 0, 0), 0);
    assert_eq!(*perlin.gradient(-257, 0, 0), 255);
    assert_eq!(*perlin.gradient(0, -3, 0), 253);
    assert_eq!(*perlin.gradient(0, 0, 1000), 1000 % 256);
    assert_eq!(*perlin.gradient(i32::MAX, 0, 0), 255);
    assert_eq!(*perlin.gradient(i32::MIN, 0, 0), 0);
    assert_eq!(*perlin.gradient(3, 5, 6), 3 ^ 5 ^ 6);
}

#[test]
fn corners_come_in_order_of_their_steps() {
    let gradients: Vec<usize> = counting();
    let perlin = Perlin::from_tables(gradients, counting(), reversed(), stepped(5, 2)).unwrap();
    for (i, j, k) in [(0, 0, 0), (10, 20, 30), (-1, -1, -1), (255, 255, 255), (-700, 3, 90000)] {
        let corners = perlin.corners(i, j, k);
        assert_eq!(corners.len(), 8);
        for di in 0..2 {
            for dj in 0..2 {
                for dk in 0..2 {
                    let place = (4 * di + 2 * dj + dk) as usize;
                    assert_eq!(corners[place], perlin.gradient(i + di, j + dj, k + dk));
                }
            }
        }
    }
}

#[test]
fn corners_at_the_end_of_the_coordinates_wrap() {
    let gradients: Vec<usize> = counting();
    let perlin = Perlin::from_tables(gradients, counting(), counting(), counting()).unwrap();
    let corners = perlin.corners(i32::MAX, 0, 0);
    assert_eq!(*corners[0], 255);
    assert_eq!(*corners[4], 0);
    assert_eq!(*corners[1], 255 ^ 1);
    assert_eq!(*corners[7], 0 ^ 1 ^ 1);
}

#[test]
fn same_tables_give_the_same_gradients() {
    let gradients: Vec<(i8, i8, i8)> =
        (0..POINT_COUNT).map(|i| (i as i8, (i / 2) as i8, (i / 3) as i8)).collect();
    let first =
        Perlin::from_tables(gradients.clone(), stepped(3, 0), stepped(5, 1), stepped(7, 2)).unwrap();
    let second =
        Perlin::from_tables(gradients, stepped(3, 0), stepped(5, 1), stepped(7, 2)).unwrap();
    for i in -20..20 {
        for j in [-300, 0, 41] {
            for k in [-1, 0, 255, 256] {
                assert_eq!(first.gradient(i, j, k), second.gradient(i, j, k));
                assert_eq!(first.corners(i, j, k), second.corners(i, j, k));
                assert_eq!(first.corners(i, j, k), first.corners(i, j, k));
            }
        }
    }
}
