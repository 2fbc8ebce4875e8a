use peaks::math::{ceil_pow2, Color};

#[test]
fn ceil_pow2_rounds_up_to_a_power_of_two() {
    assert_eq!(ceil_pow2(0), 0);
    assert_eq!(ceil_pow2(1), 1);
    assert_eq!(ceil_pow2(2), 2);
    assert_eq!(ceil_pow2(3), 4);
    assert_eq!(ceil_pow2(4), 4);
    assert_eq!(ceil_pow2(5), 8);
    assert_eq!(ceil_pow2(8), 8);
    assert_eq!(ceil_pow2(9), 16);
    assert_eq!(ceil_pow2(1000), 1024);
    assert_eq!(ceil_pow2(1025), 2048);
}

#[test]
fn ceil_pow2_is_the_least_power_of_two_not_below() {
    for num in 1usize..5000 {
        let p = ceil_pow2(num);
        assert!(p.is_power_of_two());
        assert!(p >= num);
        assert!(p / 2 < num);
    }
}

#[test]
fn ceil_pow2_at_its_limit() {
    let limit = usize::MAX / 2 + 1;
    assert_eq!(ceil_pow2(limit), limit);
    assert_eq!(ceil_pow2(limit - 1), limit);
    assert_eq!(ceil_pow2(limit / 2 + 1), limit);
}

#[test]
fn color_keeps_its_channels() {
    let c = Color::new(1, 2, 3);
    assert_eq!((c.r, c.g, c.b), (1, 2, 3));
    assert_eq!(Color::default(), Color::new(0, 0, 0));
}

#[test]
fn colors_add_channel_by_channel() {
    let sum = Color::new(1, 2, 3) + Color::new(10, 20, 252);
    assert_eq!(sum, Color::new(11, 22, 255));
}
