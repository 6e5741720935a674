use hashstore::read_value_finish;
use hashstore::read_value_start;
use hashstore::write_value;
use hashstore::ValuePrefix;
use hashstore::ValuePtr;

fn random_value(size: usize) -> Vec<u8> {
    let mut value = vec![0u8; size];
    rand::fill(&mut value[..]);
    value
}

fn random_key() -> [u8; 32] {
    let mut key = [0u8; 32];
    rand::fill(&mut key[..]);
    key
}

fn do_write(file: &mut Vec<u8>, size: usize) -> (ValuePtr, Vec<u8>) {
    let v1 = random_value(size);
    let v1_prefix = ValuePrefix {
        key: random_key(),
        prev_pos: 0,
        size: v1.len() as u32,
        time: 0,
        is_dependency: false,
    };
    let ptr = write_value(file, v1_prefix, &v1).unwrap();
    (ptr, v1)
}

#[test]
fn test_io() {
    let mut file: Vec<u8> = Vec::new();

    // small power of two should work in one go (record is exactly 256 bytes)
    let (ptr, v) = do_write(&mut file, 256 - 49);
    let (_, res) = read_value_start(&file, ptr, None).unwrap();
    assert_eq!(&res, &v);

    // a bit larger needs trimming: the probe overshoots past the payload
    let (ptr, v) = do_write(&mut file, 500);
    let (prefix, mut res) = read_value_start(&file, ptr, None).unwrap();
    assert_ne!(&res, &v);
    assert_eq!(&res[0..v.len()], &v[..]);
    // finishing trims the probe down to the payload
    read_value_finish(&file, ptr, &prefix, &mut res).unwrap();
    assert_eq!(&res[0..v.len()], &v[..]);

    // larger than any size class needs another read
    let (ptr, v) = do_write(&mut file, 5_000_000);
    let (prefix, mut res) = read_value_start(&file, ptr, None).unwrap();
    assert_ne!(&res, &v);
    read_value_finish(&file, ptr, &prefix, &mut res).unwrap();
    assert_eq!(&res, &v);
}
