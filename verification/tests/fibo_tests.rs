use tp_led_matrix::fibo::fibo;

#[test]
fn fibo_first_values() {
    let expected = [0u32, 1, 1, 2, 3, 5, 8, 13, 21, 34, 55];
    for (n, value) in expected.iter().enumerate() {
        assert_eq!(fibo(n as u32), Some(*value));
    }
}

#[test]
fn fibo_last_that_fits() {
    assert_eq!(fibo(46), Some(1_836_311_903));
    assert_eq!(fibo(47), Some(2_971_215_073));
}

#[test]
fn fibo_overflow_is_none() {
    assert_eq!(fibo(48), None);
    assert_eq!(fibo(49), None);
    assert_eq!(fibo(1000), None);
}
