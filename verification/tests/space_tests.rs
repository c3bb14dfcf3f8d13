use voxel_world::space::{floor_div, floor_mod};

#[test]
fn floor_div_rounds_down() {
    assert_eq!(floor_div(0, 64), 0);
    assert_eq!(floor_div(63, 64), 0);
    assert_eq!(floor_div(64, 64), 1);
    assert_eq!(floor_div(199, 64), 3);
    assert_eq!(floor_div(-1, 64), -1);
    assert_eq!(floor_div(-64, 64), -1);
    assert_eq!(floor_div(-65, 64), -2);
    assert_eq!(floor_div(-7, 1), -7);
    assert_eq!(floor_div(i64::MAX, 1), i64::MAX);
    assert_eq!(floor_div(i64::MIN, 1), i64::MIN);
    assert_eq!(floor_div(i64::MIN, i64::MAX), -2);
    assert_eq!(floor_div(i64::MAX, i64::MAX), 1);
}

#[test]
fn floor_mod_is_never_negative() {
    assert_eq!(floor_mod(0, 64), 0);
    assert_eq!(floor_mod(63, 64), 63);
    assert_eq!(floor_mod(64, 64), 0);
    assert_eq!(floor_mod(199, 64), 7);
    assert_eq!(floor_mod(-1, 64), 63);
    assert_eq!(floor_mod(-64, 64), 0);
    assert_eq!(floor_mod(-65, 64), 63);
    assert_eq!(floor_mod(-7, 1), 0);
    assert_eq!(floor_mod(i64::MIN, i64::MAX), i64::MAX - 1);
}

#[test]
fn floor_div_and_floor_mod_put_a_position_together_again() {
    for d in [1i64, 2, 3, 4, 10, 64] {
        for g in -200i64..200 {
            let q = floor_div(g, d);
            let r = floor_mod(g, d);
            assert!(0 <= r && r < d);
            assert_eq!(q * d + r, g);
            assert_eq!(q, g.div_euclid(d));
            assert_eq!(r, g.rem_euclid(d));
        }
    }
}
