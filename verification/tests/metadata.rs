use dht_spider::bencode::{BVal, Dict};
use dht_spider::codec::encode_dict;
use dht_spider::metadata::read_torrent;

fn text(s: &str) -> BVal {
    BVal::Bytes(s.as_bytes().to_vec())
}

fn file(length: i64, path: &[&str]) -> BVal {
    let parts = path.iter().map(|p| text(p)).collect();
    BVal::Dict(Dict::new().with("length", BVal::Int(length)).with("path", BVal::List(parts)))
}

#[test]
fn single_file_has_the_name_of_the_torrent() {
    let t = read_torrent(b"d6:lengthi123e4:name8:file.txte").unwrap();
    assert_eq!(t.name, "file.txt");
    assert_eq!(t.files.len(), 1);
    assert_eq!(t.files[0].path, vec!["file.txt".to_string()]);
    assert_eq!(t.files[0].length, 123);
}

#[test]
fn listed_files_have_paths_and_lengths() {
    let files = vec![
        file(5, &["dir", "a.mkv"]),
        BVal::Int(3),
        BVal::Dict(Dict::new().with("length", BVal::Int(1))),
        file(7, &["größe"]),
        BVal::Dict(Dict::new().with("length", BVal::Int(9)).with(
            "path",
            BVal::List(vec![BVal::Int(1), BVal::Bytes(vec![0xff]), text("ok")]),
        )),
    ];
    let info = encode_dict(
        Dict::new().with("files", BVal::List(files)).with("length", BVal::Int(99)).with("name", text("set")),
    );
    let t = read_torrent(&info).unwrap();
    let got: Vec<(Vec<String>, i64)> = t.files.iter().map(|f| (f.path.clone(), f.length)).collect();
    assert_eq!(
        got,
        vec![
            (vec!["dir".to_string(), "a.mkv".to_string()], 5),
            (vec!["größe".to_string()], 7),
            (vec!["ok".to_string()], 9),
        ]
    );
}

#[test]
fn metadata_without_name_or_files_is_no_torrent() {
    assert!(read_torrent(b"d6:lengthi123ee").is_none());
    assert!(read_torrent(b"d6:lengthi123e4:namei1ee").is_none());
    assert!(read_torrent(b"d6:lengthi123e4:name1:\xffe").is_none());
    assert!(read_torrent(b"d4:name1:ae").is_none());
    assert!(read_torrent(b"d5:filesle6:lengthi1e4:name1:ae").is_none());
    assert!(read_torrent(b"l4:spame").is_none());
    assert!(read_torrent(b"nonsense").is_none());
}
