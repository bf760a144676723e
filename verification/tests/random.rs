use ray_tracer::{
    clamp, isize_from_draw, random_draw, random_isize_range, random_usize_range, usize_from_draw,
    DRAW_PARTS,
};

#[test]
fn draw_parts_is_one_more_than_the_last_draw() {
    assert_eq!(DRAW_PARTS, 1001);
}

#[test]
fn draws_stay_below_the_number_of_parts_and_vary() {
    let first = random_draw();
    let mut varied = false;
    for _ in 0..2000 {
        let k = random_draw();
        assert!(k < DRAW_PARTS);
        varied = varied || k != first;
    }
    assert!(varied);
}

#[test]
fn draws_cut_three_integers_into_thirds() {
    assert_eq!(isize_from_draw(0, 2, 0), 0);
    assert_eq!(isize_from_draw(0, 2, 333), 0);
    assert_eq!(isize_from_draw(0, 2, 334), 1);
    assert_eq!(isize_from_draw(0, 2, 667), 1);
    assert_eq!(isize_from_draw(0, 2, 668), 2);
    assert_eq!(isize_from_draw(0, 2, 1000), 2);
}

#[test]
fn a_single_integer_is_always_selected() {
    for k in 0..DRAW_PARTS {
        assert_eq!(isize_from_draw(7, 7, k), 7);
        assert_eq!(usize_from_draw(7, 7, k), 7);
    }
}

#[test]
fn draws_follow_the_formula_on_a_wide_range() {
    // 10 + (110 + 1 - 10) * 500 / 1001 = 10 + 50500 / 1001 = 10 + 50.44...
    assert_eq!(usize_from_draw(10, 110, 500), 60);
    assert_eq!(isize_from_draw(10, 110, 500), 60);
    // 256 * 1000 / 1001 = 255.74...
    assert_eq!(usize_from_draw(0, 255, 1000), 255);
    assert_eq!(usize_from_draw(0, 255, 1), 0);
    assert_eq!(usize_from_draw(0, 255, 4), 1);
}

#[test]
fn draws_round_toward_zero_below_zero() {
    // -5 + 3 * 1000 / 1001 = -2.003..., which rounds toward zero to -2.
    assert_eq!(isize_from_draw(-5, -3, 1000), -2);
    assert_eq!(isize_from_draw(-5, -3, 0), -5);
    // -5 + 3 * 500 / 1001 = -3.50...
    assert_eq!(isize_from_draw(-5, -3, 500), -3);
    // -1 + 3 * 500 / 1001 = 0.49...
    assert_eq!(isize_from_draw(-1, 1, 500), 0);
    // -1 + 3 * 100 / 1001 = -0.70...
    assert_eq!(isize_from_draw(-1, 1, 100), 0);
}

#[test]
fn draws_stay_between_crossed_bounds() {
    // The range from 10 down to 4: 10 + (5 - 10) * 1000 / 1001 = 5.004...
    assert_eq!(usize_from_draw(10, 4, 0), 10);
    assert_eq!(usize_from_draw(10, 4, 1000), 5);
    assert_eq!(isize_from_draw(10, 4, 1000), 5);
}

#[test]
fn random_axis_is_one_of_three_and_each_turns_up() {
    let mut seen = [false; 3];
    for _ in 0..3000 {
        let axis = random_isize_range(0, 2);
        assert!((0..=2).contains(&axis));
        seen[axis as usize] = true;
    }
    assert_eq!(seen, [true, true, true]);
}

#[test]
fn random_place_lies_in_range_and_varies() {
    let mut seen = [false; 10];
    for _ in 0..3000 {
        let place = random_usize_range(0, 9);
        assert!(place <= 9);
        seen[place] = true;
    }
    assert!(seen.iter().filter(|s| **s).count() > 1);
    for _ in 0..100 {
        let place = random_usize_range(20, 25);
        assert!((20..=25).contains(&place));
    }
    assert_eq!(random_usize_range(0, 0), 0);
}

#[test]
fn clamp_moves_to_the_nearer_bound() {
    assert_eq!(clamp(5, 0, 10), 5);
    assert_eq!(clamp(-5, 0, 10), 0);
    assert_eq!(clamp(15, 0, 10), 10);
    assert_eq!(clamp(0, 0, 10), 0);
    assert_eq!(clamp(10, 0, 10), 10);
    // With crossed bounds the lower one is tested first.
    assert_eq!(clamp(5, 10, 0), 10);
    assert_eq!(clamp(20, 10, 0), 0);
}
