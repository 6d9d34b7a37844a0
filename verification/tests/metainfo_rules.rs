use bencode::{File, Hashes, Info, Keys, Torrent};

fn torrent(keys: Keys) -> Torrent {
    Torrent {
        announce: String::from("http://tracker.example/announce"),
        info: Info {
            name: String::from("sample.txt"),
            plength: 32768,
            pieces: Hashes(vec![[7u8; 20]]),
            keys,
        },
    }
}

#[test]
fn pieces_are_cut_into_hashes_of_twenty_bytes() {
    let bytes: Vec<u8> = (0..60u8).collect();
    let hashes = Hashes::from_bytes(&bytes).unwrap();
    assert_eq!(hashes.0.len(), 3);
    for (i, hash) in hashes.0.iter().enumerate() {
        let expected: Vec<u8> = ((20 * i) as u8..(20 * i + 20) as u8).collect();
        assert_eq!(hash.to_vec(), expected);
    }
}

#[test]
fn no_pieces_give_no_hashes() {
    let hashes = Hashes::from_bytes(b"").unwrap();
    assert!(hashes.0.is_empty());
}

#[test]
fn pieces_of_a_length_that_is_no_multiple_of_twenty_are_rejected() {
    for len in [1usize, 19, 21, 39, 41, 59] {
        let bytes: Vec<u8> = vec![0xab; len];
        assert!(Hashes::from_bytes(&bytes).is_none(), "length {}", len);
    }
}

#[test]
fn length_alone_is_a_single_file() {
    match Keys::select(Some(92063), None) {
        Some(Keys::SingleFile { length }) => assert_eq!(length, 92063),
        _ => panic!("a single file was expected"),
    }
}

#[test]
fn files_alone_are_several_files() {
    let files = vec![
        File { length: 3, path: vec![String::from("a"), String::from("b.txt")] },
        File { length: 5, path: vec![String::from("c.txt")] },
    ];
    match Keys::select(None, Some(files)) {
        Some(Keys::MultiFile { files }) => {
            assert_eq!(files.len(), 2);
            assert_eq!(files[0].length, 3);
            assert_eq!(files[0].path, vec![String::from("a"), String::from("b.txt")]);
            assert_eq!(files[1].length, 5);
        }
        _ => panic!("several files were expected"),
    }
}

#[test]
fn length_and_files_together_are_rejected() {
    assert!(Keys::select(Some(1), Some(vec![])).is_none());
}

#[test]
fn neither_length_nor_files_is_rejected() {
    assert!(Keys::select(None, None).is_none());
}

#[test]
fn single_file_reports_its_length() {
    let t = torrent(Keys::select(Some(92063), None).unwrap());
    assert_eq!(t.single_file_length(), Some(92063));
}

#[test]
fn several_files_report_no_length() {
    let files = vec![File { length: 3, path: vec![String::from("a.txt")] }];
    let t = torrent(Keys::select(None, Some(files)).unwrap());
    assert_eq!(t.single_file_length(), None);
}
