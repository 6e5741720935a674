use hashstore::HashStore;
use hashstore::HashStoreError;
use hashstore::HashStoreSetResult;
use hashstore::SearchDepth;

fn random_key() -> [u8; 32] {
    let mut key = [0u8; 32];
    rand::fill(&mut key[..]);
    key
}

fn random_value() -> Vec<u8> {
    let mut len = [0u8; 2];
    rand::fill(&mut len[..]);
    let size = 100 + ((len[0] as usize) << 8 | len[1] as usize) % 600;
    let mut value = vec![0u8; size];
    rand::fill(&mut value[..]);
    value
}

#[test]
fn test_dependency() {
    let mut hs = HashStore::new(Vec::new(), 24).unwrap();

    match hs.set(&[1; 32], &[2; 8], vec![], SearchDepth::FullSearch, 10).unwrap() {
        HashStoreSetResult::Stored(_) => {},
        HashStoreSetResult::UnmetDependency(_) => panic!("nothing to depend on yet"),
    }

    // successful get dependency
    assert!(hs.get_dependency(&[1; 32], &[3; 32], 10).unwrap().is_some());
    assert!(hs.key_exists(&[1; 32], SearchDepth::FullSearch).unwrap().is_some());
    assert!(hs.key_exists(&[3; 32], SearchDepth::FullSearch).unwrap().is_none());
}

#[test]
fn test_exists() {
    // we use a root hashtable of size one to test search depth
    let mut hs = HashStore::new(Vec::new(), 0).unwrap();

    hs.set_unchecked(&[1; 32], &[2; 8], 10).unwrap();
    hs.set_unchecked(&[3; 32], &[4; 8], 20).unwrap();
    hs.set_unchecked(&[5; 32], &[6; 8], 30).unwrap();

    assert!(hs.key_exists(&[1; 32], SearchDepth::FullSearch).unwrap().is_some());

    // after(20) still reaches 1, as we only stop *after* an element has t<20
    assert!(hs.key_exists(&[1; 32], SearchDepth::SearchAfter(20)).unwrap().is_some());
    assert!(hs.key_exists(&[1; 32], SearchDepth::SearchAfter(21)).unwrap().is_none());

    assert!(hs.key_exists(&[2; 32], SearchDepth::FullSearch).unwrap().is_none());
    assert!(hs.key_exists(&[2; 32], SearchDepth::SearchAfter(25)).unwrap().is_none());

    assert!(hs.key_exists(&[5; 32], SearchDepth::FullSearch).unwrap().is_some());
    assert!(hs.key_exists(&[5; 32], SearchDepth::SearchAfter(45)).unwrap().is_some());
}

#[test]
fn test_set_then_get() {
    let mut hs = HashStore::new(Vec::new(), 4).unwrap();
    let k = [7u8; 32];
    hs.set_unchecked(&k, &[9, 8, 7], 5).unwrap();
    assert_eq!(hs.get(k, SearchDepth::FullSearch).unwrap().unwrap(), vec![9u8, 8, 7]);
    // a later write for the same key wins
    hs.set_unchecked(&k, &[1], 6).unwrap();
    assert_eq!(hs.get(k, SearchDepth::FullSearch).unwrap().unwrap(), vec![1u8]);
}

#[test]
fn test_get_by_ptr() {
    let mut hs = HashStore::new(Vec::new(), 4).unwrap();
    let k = [11u8; 32];
    let p = hs.set_unchecked(&k, &[5; 10], 1).unwrap();
    assert_eq!(hs.get_by_ptr(p).unwrap(), vec![5u8; 10]);
}

#[test]
fn test_dependency_cold_key() {
    let mut hs = HashStore::new(Vec::new(), 8).unwrap();
    let k = [9u8; 32];
    let d = [4u8; 32];
    // a cold key gets an anchor instead of a value
    assert!(hs.get_dependency(&k, &d, 10).unwrap().is_none());
    // the anchor refuses a write that does not acknowledge it
    match hs.set(&k, &[1, 2], vec![], SearchDepth::FullSearch, 11).unwrap() {
        HashStoreSetResult::UnmetDependency(a) => assert_eq!(a, d),
        HashStoreSetResult::Stored(_) => panic!("the anchor was not enforced"),
    }
    // acknowledging it lets the write through
    match hs.set(&k, &[1, 2], vec![d], SearchDepth::FullSearch, 11).unwrap() {
        HashStoreSetResult::Stored(_) => {},
        HashStoreSetResult::UnmetDependency(_) => panic!("the dependency was solved"),
    }
    assert_eq!(hs.get(k, SearchDepth::FullSearch).unwrap().unwrap(), vec![1u8, 2]);
}

#[test]
fn test_dependency_no_anchor_on_hit() {
    let mut hs = HashStore::new(Vec::new(), 8).unwrap();
    match hs.set(&[1; 32], &[2; 8], vec![], SearchDepth::FullSearch, 10).unwrap() {
        HashStoreSetResult::Stored(_) => {},
        HashStoreSetResult::UnmetDependency(_) => panic!("nothing to depend on yet"),
    }
    // the key is warm: its value comes back and no anchor is created
    let got = hs.get_dependency(&[1; 32], &[3; 32], 10).unwrap();
    assert_eq!(got.unwrap(), vec![2u8; 8]);
    assert!(hs.key_exists(&[3; 32], SearchDepth::FullSearch).unwrap().is_none());
    match hs.set(&[1; 32], &[7; 4], vec![], SearchDepth::FullSearch, 11).unwrap() {
        HashStoreSetResult::Stored(_) => {},
        HashStoreSetResult::UnmetDependency(_) => panic!("no anchor should exist"),
    }
}

#[test]
fn test_persistence() {
    let mut hs = HashStore::new(Vec::new(), 6).unwrap();
    let mut keys: Vec<[u8; 32]> = Vec::new();
    for i in 0..50u8 {
        let mut k = [0u8; 32];
        k[0] = i.wrapping_mul(37);
        k[1] = i;
        keys.push(k);
        hs.set_unchecked(&k, &[i, i, i], i as u32).unwrap();
    }
    // close and reopen the same image
    let bytes = hs.into_file();
    let mut hs2 = HashStore::new(bytes, 6).unwrap();
    for (i, k) in keys.iter().enumerate() {
        let v = hs2.get(*k, SearchDepth::FullSearch).unwrap().unwrap();
        assert_eq!(v, vec![i as u8; 3]);
    }
}

#[test]
fn test_root_bits_mismatch() {
    let hs = HashStore::new(Vec::new(), 6).unwrap();
    let bytes = hs.into_file();
    match HashStore::new(bytes, 7) {
        Err(HashStoreError::InvalidRootBits) => {},
        _ => panic!("expected a root-bits mismatch"),
    }
}

#[test]
fn test_magic_mismatch() {
    let hs = HashStore::new(Vec::new(), 2).unwrap();
    let mut bytes = hs.into_file();
    bytes[0] ^= 0xff;
    match HashStore::new(bytes, 2) {
        Err(HashStoreError::InvalidMagicFileId) => {},
        _ => panic!("expected a magic mismatch"),
    }
}

#[test]
fn test_truncated_image() {
    let hs = HashStore::new(Vec::new(), 4).unwrap();
    let mut bytes = hs.into_file();
    bytes.truncate(100);
    match HashStore::new(bytes, 4) {
        Err(HashStoreError::Other) => {},
        _ => panic!("expected a truncated root table to be refused"),
    }
}

#[test]
fn test_stats() {
    let mut hs = HashStore::new(Vec::new(), 4).unwrap();
    hs.set_unchecked(&[1; 32], &[2; 8], 1).unwrap();
    hs.set_unchecked(&[3; 32], &[4; 8], 2).unwrap();
    let d = [8u8; 32];
    assert!(hs.get_dependency(&[5; 32], &d, 3).unwrap().is_none());
    match hs.set(&[5; 32], &[6; 8], vec![d], SearchDepth::FullSearch, 4).unwrap() {
        HashStoreSetResult::Stored(_) => {},
        HashStoreSetResult::UnmetDependency(_) => panic!("the dependency was solved"),
    }
    let st = hs.stats().unwrap();
    assert_eq!(st.len(), 4);
    assert_eq!(st[0], 3);
    assert_eq!(st[1], 1);
    assert_eq!(st[2], 1);
    assert_eq!(st[3], hs.file_bytes().len() as u64);
}

#[test]
fn test_update() {
    let mut hs = HashStore::new(Vec::new(), 4).unwrap();
    let k = [13u8; 32];
    let p = hs.set_unchecked(&k, &[0; 8], 1).unwrap();
    hs.update(p, &[9, 9], 3).unwrap();
    assert_eq!(hs.get_by_ptr(p).unwrap(), vec![0, 0, 0, 9, 9, 0, 0, 0]);
    assert_eq!(hs.get(k, SearchDepth::FullSearch).unwrap().unwrap(), vec![0, 0, 0, 9, 9, 0, 0, 0]);
}

#[test]
fn test_big_value() {
    // a value far beyond the largest size hint is reassembled in full
    let mut hs = HashStore::new(Vec::new(), 2).unwrap();
    let k = [21u8; 32];
    let mut v = vec![0u8; 5_000_000];
    rand::fill(&mut v[..]);
    let p = hs.set_unchecked(&k, &v, 1).unwrap();
    assert_eq!(hs.get(k, SearchDepth::FullSearch).unwrap().unwrap(), v);
    assert_eq!(hs.get_by_ptr(p).unwrap(), v);
}

#[test]
fn test_many_records() {
    // a dense load: early records stay reachable under later blocks
    let mut hs = HashStore::new(Vec::new(), 8).unwrap();
    let mut block1: Vec<([u8; 32], Vec<u8>)> = Vec::new();
    for _ in 0..1000 {
        let k = random_key();
        let v = random_value();
        hs.set_unchecked(&k, &v, 1).unwrap();
        block1.push((k, v));
    }
    for block in 2..32u32 {
        for _ in 0..200 {
            let k = random_key();
            let v = random_value();
            hs.set_unchecked(&k, &v, block).unwrap();
        }
    }
    for (k, v) in block1.iter().rev() {
        let got = hs.get(*k, SearchDepth::FullSearch).unwrap().unwrap();
        assert_eq!(&got, v);
    }
}
