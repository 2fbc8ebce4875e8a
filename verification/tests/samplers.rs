use peaks::samplers::{ring_size, stencil_size};

#[test]
fn stencils_of_one_and_of_two_rings() {
    assert_eq!(stencil_size(1), 8);
    assert_eq!(stencil_size(2), 24);
}

#[test]
fn each_ring_holds_eight_samples_more() {
    assert_eq!(ring_size(0), 8);
    assert_eq!(ring_size(1), 16);
    assert_eq!(ring_size(2), 24);
    assert_eq!(ring_size(9), 80);
}

#[test]
fn stencil_holds_the_samples_of_its_rings() {
    assert_eq!(stencil_size(0), 0);
    let mut sum = 0;
    for quality in 0..200 {
        assert_eq!(stencil_size(quality), sum);
        assert_eq!(stencil_size(quality), 4 * quality * (quality + 1));
        sum += ring_size(quality);
    }
}
