use hashstore::get_root_index;

fn random_key() -> [u8; 32] {
    let mut key = [0u8; 32];
    rand::fill(&mut key[..]);
    key
}

#[test]
fn test_get_root_index() {
    for _ in 0..100 {
        let x = random_key();

        assert_eq!(get_root_index(2, &x), (x[0] as usize) >> 6);
        assert_eq!(get_root_index(6, &x), (x[0] as usize) >> 2);
        assert_eq!(get_root_index(8, &x), x[0] as usize);
        assert_eq!(get_root_index(9, &x), ((x[0] as usize) << 1) | ((x[1]) as usize) >> 7);
    }
}
