use hashstore::ptr_file_pos;
use hashstore::ptr_new;
use hashstore::ptr_size_est;

#[test]
fn test_size() {
    // test size encode/decode
    for n in 0..2000000 {
        let dp = ptr_new(0, n);
        let sz = ptr_size_est(dp);
        assert!(sz >= n, "n={}", n);
    }
}

#[test]
fn test_ptr_fields() {
    // the offset survives the size hint, and the hint is the smallest class
    let p = ptr_new(123456, 300);
    assert_eq!(ptr_file_pos(p), 123456);
    assert_eq!(ptr_size_est(p), 512);

    // a record too large for any class leaves the hint at the minimum
    let q = ptr_new(77, 3_000_000);
    assert_eq!(q, 77);
    assert_eq!(ptr_file_pos(q), 77);
    assert_eq!(ptr_size_est(q), 64);
}
