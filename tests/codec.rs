use sort_files::error::FileError;
use sort_files::record::ProcessedFile;

const ROOT: &str = "/data/store";

fn sample_hash() -> [u8; 32] {
    let mut h = [0u8; 32];
    for (i, b) in h.iter_mut().enumerate() {
        *b = (i as u8) * 8 + 1;
    }
    h
}

fn hex_line() -> String {
    let mut s = String::new();
    for b in sample_hash() {
        s.push_str(&format!("{:02x}", b));
    }
    s
}

#[test]
fn encode_stored_record() {
    let f = ProcessedFile::Stored { hash: sample_hash(), size: 1234, path: "/data/store/2023/a.jpg".to_string() };
    assert_eq!(f.encode_stored_file(ROOT), format!("{}|1234|2023/a.jpg", hex_line()));
}

#[test]
fn encode_new_stored_uses_destination() {
    let f = ProcessedFile::NewStored {
        hash: sample_hash(),
        size: 0,
        path: "/data/new_files/x.png".to_string(),
        stored_path: "/data/store/2020/x.png".to_string(),
        year: 2020,
    };
    assert_eq!(f.encode_stored_file(ROOT), format!("{}|0|2020/x.png", hex_line()));
}

#[test]
fn decode_round_trip() {
    let f = ProcessedFile::Stored { hash: sample_hash(), size: u64::MAX, path: "/data/store/1999/b c.txt".to_string() };
    let line = f.encode_stored_file(ROOT);
    match ProcessedFile::decode_stored_file(&line, ROOT) {
        Ok(ProcessedFile::Stored { hash, size, path }) => {
            assert_eq!(hash, sample_hash());
            assert_eq!(size, u64::MAX);
            assert_eq!(path, "/data/store/1999/b c.txt");
        }
        other => panic!("unexpected {:?}", other),
    }
}

#[test]
fn decode_accepts_upper_case_hex() {
    let line = format!("{}|7|a.txt", hex_line().to_uppercase());
    match ProcessedFile::decode_stored_file(&line, ROOT) {
        Ok(ProcessedFile::Stored { hash, size, path }) => {
            assert_eq!(hash, sample_hash());
            assert_eq!(size, 7);
            assert_eq!(path, "/data/store/a.txt");
        }
        other => panic!("unexpected {:?}", other),
    }
}

#[test]
fn decode_keeps_bars_in_path() {
    let line = format!("{}|7|a|b.txt", hex_line());
    match ProcessedFile::decode_stored_file(&line, ROOT) {
        Ok(ProcessedFile::Stored { path, .. }) => assert_eq!(path, "/data/store/a|b.txt"),
        other => panic!("unexpected {:?}", other),
    }
}

#[test]
fn decode_rejects_missing_fields() {
    let line = format!("{}|7", hex_line());
    assert!(matches!(ProcessedFile::decode_stored_file(&line, ROOT), Err(FileError::CorruptIndex)));
    assert!(matches!(ProcessedFile::decode_stored_file("", ROOT), Err(FileError::CorruptIndex)));
}

#[test]
fn decode_rejects_bad_hex() {
    let mut h = hex_line();
    h.replace_range(10..11, "g");
    let line = format!("{}|7|a.txt", h);
    assert!(matches!(ProcessedFile::decode_stored_file(&line, ROOT), Err(FileError::CorruptIndex)));
    let short = format!("{}|7|a.txt", &hex_line()[..62]);
    assert!(matches!(ProcessedFile::decode_stored_file(&short, ROOT), Err(FileError::CorruptIndex)));
}

#[test]
fn decode_rejects_bad_size() {
    for size in ["", "12a", "-1", "18446744073709551616"] {
        let line = format!("{}|{}|a.txt", hex_line(), size);
        assert!(matches!(ProcessedFile::decode_stored_file(&line, ROOT), Err(FileError::CorruptIndex)), "{}", size);
    }
    let line = format!("{}|18446744073709551615|a.txt", hex_line());
    assert!(ProcessedFile::decode_stored_file(&line, ROOT).is_ok());
}
