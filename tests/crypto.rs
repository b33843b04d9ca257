use sort_files::hashing;
use sort_files::loader::FileLoader;
use sort_files::record::{ProcessedFile, HASH_LEN};

#[test]
fn hash_size() {
    assert_eq!(HASH_LEN, ring::digest::SHA256_OUTPUT_LEN)
}

#[test]
fn get_hash() {
    let empty = hashing::get_hash(&[]);
    let expected: [u8; 32] = [
        0xe3, 0xb0, 0xc4, 0x42, 0x98, 0xfc, 0x1c, 0x14, 0x9a, 0xfb, 0xf4, 0xc8, 0x99, 0x6f, 0xb9, 0x24,
        0x27, 0xae, 0x41, 0xe4, 0x64, 0x9b, 0x93, 0x4c, 0xa4, 0x95, 0x99, 0x1b, 0x78, 0x52, 0xb8, 0x55,
    ];
    assert_eq!(empty, expected);
    let abc = hashing::get_hash(b"abc");
    assert_eq!(abc[0], 0xba);
    assert_eq!(abc[31], 0xad);
    assert_ne!(abc, empty);
}

#[test]
fn records_from_bytes() {
    match FileLoader::read_new_file(b"abc", "/r/new_files/a.txt", 2023) {
        ProcessedFile::New { hash, size, path, year } => {
            assert_eq!(hash, hashing::get_hash(b"abc"));
            assert_eq!(hash[0], 0xba);
            assert_eq!(size, 3);
            assert_eq!(path, "/r/new_files/a.txt");
            assert_eq!(year, 2023);
        }
        other => panic!("unexpected {:?}", other),
    }
    match FileLoader::read_stored_file(b"", "/r/store/2020/e") {
        ProcessedFile::Stored { hash, size, path } => {
            assert_eq!(hash[0], 0xe3);
            assert_eq!(size, 0);
            assert_eq!(path, "/r/store/2020/e");
        }
        other => panic!("unexpected {:?}", other),
    }
}
