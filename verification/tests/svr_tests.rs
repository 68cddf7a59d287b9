use p2psync::digest::hex_digest;
use p2psync::server::fs::{FileDigest, VirtualFileSystem};
use p2psync::server::host::HostEntry;
use p2psync::server::lookup::LookupDirOrFile;
use p2psync::server::svr::{
    base_url, bind_address, download, query, CreateArgs, DownloadReply, QueryReply,
};

fn served() -> VirtualFileSystem {
    let mut vfs = VirtualFileSystem::new();
    let tree = HostEntry::Dir {
        path: "/srv/share".to_string(),
        entries: vec![HostEntry::File { path: "/srv/share/readme.md".to_string() }],
    };
    vfs.add(&tree).unwrap();
    vfs.seal(&vec![FileDigest { md5: hex_digest(b"read me"), size: 7 }]).unwrap();
    vfs
}

#[test]
fn paths_win_over_a_snapshot() {
    let paths = vec!["/a".to_string(), "/b".to_string()];
    match CreateArgs::from_options(paths.clone(), Some("snap.bin".to_string())) {
        Some(CreateArgs::Pathes(taken)) => assert_eq!(taken, paths),
        other => panic!("Expected paths, got {:?}", other),
    }
    match CreateArgs::from_options(paths.clone(), None) {
        Some(CreateArgs::Pathes(taken)) => assert_eq!(taken, paths),
        other => panic!("Expected paths, got {:?}", other),
    }
}

#[test]
fn a_snapshot_is_loaded_where_no_path_is_given() {
    match CreateArgs::from_options(vec![], Some("snap.bin".to_string())) {
        Some(CreateArgs::LoadPath(file)) => assert_eq!(file, "snap.bin"),
        other => panic!("Expected a snapshot, got {:?}", other),
    }
    assert!(CreateArgs::from_options(vec![], None).is_none());
}

#[test]
fn addresses_are_written_out() {
    assert_eq!(bind_address("0.0.0.0", 8080), "0.0.0.0:8080");
    assert_eq!(bind_address("host", 0), "host:0");
    assert_eq!(bind_address("::1", 65535), "::1:65535");
    assert_eq!(base_url("127.0.0.1:8080"), "http://127.0.0.1:8080");
}

#[test]
fn query_without_digest_is_a_bad_request() {
    assert!(matches!(query(&served(), None), QueryReply::BadRequest));
}

#[test]
fn query_for_an_unknown_digest_is_not_found() {
    let unknown = "00000000000000000000000000000000".to_string();
    assert!(matches!(query(&served(), Some(&unknown)), QueryReply::NotFound));
}

#[test]
fn query_for_a_known_digest_hands_out_its_view() {
    let digest = hex_digest(b"read me");
    match query(&served(), Some(&digest)) {
        QueryReply::Found(tree) => assert_eq!(
            tree,
            LookupDirOrFile::File { name: "readme.md".to_string(), md5: digest.clone(), size: 7 }
        ),
        other => panic!("Expected a view, got {:?}", other),
    }
}

#[test]
fn download_without_digest_is_a_bad_request() {
    assert!(matches!(download(&served(), None), DownloadReply::BadRequest));
}

#[test]
fn download_of_an_unknown_digest_is_not_found() {
    let unknown = "abc".to_string();
    match download(&served(), Some(&unknown)) {
        DownloadReply::NotFound { message } => assert_eq!(message, "File not found abc"),
        other => panic!("Expected not found, got {:?}", other),
    }
}

#[test]
fn download_of_a_directory_is_a_server_error() {
    let dir_digest = hex_digest(hex_digest(b"read me").as_bytes());
    match download(&served(), Some(&dir_digest)) {
        DownloadReply::ServerError { message } => {
            assert_eq!(message, "Internal server error: is directory")
        }
        other => panic!("Expected a server error, got {:?}", other),
    }
}

#[test]
fn download_of_a_file_names_its_host_path() {
    let digest = hex_digest(b"read me");
    match download(&served(), Some(&digest)) {
        DownloadReply::Send { path } => assert_eq!(path, "/srv/share/readme.md"),
        other => panic!("Expected a path, got {:?}", other),
    }
}
