use starfield::next_random;

#[test]
fn next_random_from_zero_follows_the_recurrence() {
    let mut state: u32 = 0;
    assert_eq!(next_random(&mut state), 134742016);
    assert_eq!(state, 134775814);
    assert_eq!(next_random(&mut state), 870112365);
    assert_eq!(state, 870078620);
    assert_eq!(next_random(&mut state), 2884715998);
    assert_eq!(state, 2884733762);
}

#[test]
fn next_random_is_a_function_of_the_state() {
    let mut a: u32 = 987654321;
    let mut b: u32 = 987654321;
    for _ in 0..100 {
        assert_eq!(next_random(&mut a), next_random(&mut b));
        assert_eq!(a, b);
    }
}
