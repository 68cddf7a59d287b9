use p2psync::downloader::planer::{
    contains_string, join_path_exec, Action, PeerReply, PlanError, Planer,
};
use p2psync::server::lookup::LookupDirOrFile;
use p2psync::tracker::{PeerInfo, PeersResponse};

fn file(name: &str, md5: &str, size: usize) -> LookupDirOrFile {
    LookupDirOrFile::File { name: name.to_string(), md5: md5.to_string(), size }
}

fn dir(name: &str, children: Vec<LookupDirOrFile>) -> LookupDirOrFile {
    LookupDirOrFile::Dir { name: name.to_string(), children }
}

// What a tracker answers: two peers.
fn tracker_reply(first: &str, second: &str) -> Result<PeersResponse, String> {
    Ok(PeersResponse {
        peers: vec![
            PeerInfo { addr: first.to_string(), last_seen: 1234567890 },
            PeerInfo { addr: second.to_string(), last_seen: 1234567890 },
        ],
    })
}

// What a peer answers for a digest.
fn peer_tree(md5: &str) -> LookupDirOrFile {
    match md5 {
        "test_file_md5" => file("test.txt", "test_file_md5", 12),
        "test_dir_md5" => dir(
            "test_dir",
            vec![file("file1.txt", "file1_md5", 1), file("file2.txt", "file2_md5", 2)],
        ),
        "nested_dir_md5" => dir(
            "parent",
            vec![
                dir("subdir", vec![file("nested.txt", "nested_file_md5", 3)]),
                file("root_file.txt", "root_file_md5", 4),
            ],
        ),
        _ => file("default.txt", "default_md5", 0),
    }
}

// Runs the planner against trackers and peers that answer from memory.
fn plan_with(
    trackers: Vec<Result<PeersResponse, String>>,
    md5: &str,
    mismatching: &[&str],
) -> Result<Vec<Action>, PlanError> {
    let peers = Planer::discover(&trackers)?;
    let replies: Vec<PeerReply> = peers
        .iter()
        .map(|peer| PeerReply {
            peer: peer.clone(),
            tree: if mismatching.contains(&peer.as_str()) {
                Ok(file("different.txt", "different_md5", 0))
            } else {
                Ok(peer_tree(md5))
            },
        })
        .collect();
    Planer::plan(&replies)
}

fn path_of(action: &Action) -> &str {
    match action {
        Action::Download { path, .. } => path,
        Action::MakeDir { path } => path,
    }
}

#[test]
fn test_plan_single_file() {
    let trackers = vec![tracker_reply("http://127.0.0.1:18081", "http://127.0.0.1:18082")];
    let actions = plan_with(trackers, "test_file_md5", &[]).unwrap();

    assert_eq!(actions.len(), 1);
    match &actions[0] {
        Action::Download { path, md5, peer_id, size, peers } => {
            assert_eq!(path, "./test.txt");
            assert_eq!(md5, "test_file_md5");
            assert_eq!(*peer_id, 0);
            assert_eq!(*size, 12);
            assert_eq!(peers.len(), 2);
        }
        _ => panic!("Expected Download action"),
    }
}

#[test]
fn test_plan_directory_with_files() {
    let trackers = vec![tracker_reply("http://127.0.0.1:18084", "http://127.0.0.1:18085")];
    let actions = plan_with(trackers, "test_dir_md5", &[]).unwrap();

    assert_eq!(actions.len(), 3); // 1 MakeDir + 2 Download

    match &actions[0] {
        Action::MakeDir { path } => {
            assert_eq!(path, "./test_dir");
        }
        _ => panic!("Expected MakeDir action"),
    }

    for action in &actions[1..] {
        match action {
            Action::Download { path, md5, .. } => {
                assert!(path.starts_with("./test_dir"));
                assert!(md5 == "file1_md5" || md5 == "file2_md5");
            }
            _ => panic!("Expected Download action"),
        }
    }
    assert_eq!(path_of(&actions[1]), "./test_dir/file1.txt");
    assert_eq!(path_of(&actions[2]), "./test_dir/file2.txt");
}

#[test]
fn test_plan_nested_directory() {
    let trackers = vec![tracker_reply("http://127.0.0.1:18087", "http://127.0.0.1:18088")];
    let actions = plan_with(trackers, "nested_dir_md5", &[]).unwrap();

    assert_eq!(actions.len(), 4); // 2 MakeDir + 2 Download

    let mut make_dir_count = 0;
    let mut download_count = 0;

    for action in &actions {
        match action {
            Action::MakeDir { .. } => make_dir_count += 1,
            Action::Download { .. } => download_count += 1,
        }
    }

    assert_eq!(make_dir_count, 2);
    assert_eq!(download_count, 2);

    let paths: Vec<&str> = actions.iter().map(path_of).collect();
    assert_eq!(
        paths,
        vec![
            "./parent",
            "./parent/subdir",
            "./parent/root_file.txt",
            "./parent/subdir/nested.txt"
        ]
    );
}

#[test]
fn test_plan_empty_tracker_urls() {
    let planer = Planer::new(vec![]);
    assert!(planer.tracker_requests().is_empty());
    let result = plan_with(vec![], "test_md5", &[]);

    assert!(result.is_err());
    assert!(result
        .unwrap_err()
        .message()
        .contains("tracker_urls is empty"));
}

#[test]
fn test_plan_invalid_tracker_url() {
    let planer = Planer::new(vec!["http://invalid-url:9999".to_string()]);
    assert_eq!(planer.tracker_requests(), vec!["http://invalid-url:9999/peers"]);
    let result = plan_with(vec![Err("connection refused".to_string())], "test_md5", &[]);

    assert!(result.is_err());
    match result.unwrap_err() {
        PlanError::TrackerErrors(errors) => {
            assert_eq!(errors.errors(), &["connection refused".to_string()]);
        }
        other => panic!("Expected tracker errors, got {:?}", other),
    }
}

#[test]
fn test_plan_peer_tree_mismatch() {
    let trackers = vec![tracker_reply("http://127.0.0.1:19081", "http://127.0.0.1:19082")];
    let result = plan_with(trackers, "test_file_md5", &["http://127.0.0.1:19082"]);

    assert!(result.is_err());
    let error_msg = result.unwrap_err().message();
    assert!(error_msg.contains("tree mismatch") || error_msg.contains("connection"));
    assert_eq!(error_msg, "tree mismatch");
}

#[test]
fn test_plan_multiple_trackers() {
    let trackers = vec![
        tracker_reply("http://127.0.0.1:18094", "http://127.0.0.1:18095"),
        tracker_reply("http://127.0.0.1:18094", "http://127.0.0.1:18095"),
    ];
    let actions = plan_with(trackers, "test_file_md5", &[]).unwrap();

    assert_eq!(actions.len(), 1);
    match &actions[0] {
        Action::Download { path, md5, peers, .. } => {
            assert_eq!(path, "./test.txt");
            assert_eq!(md5, "test_file_md5");
            assert_eq!(peers.len(), 2);
        }
        _ => panic!("Expected Download action"),
    }
}

#[test]
fn test_action_peer_round_robin() {
    let trackers = vec![tracker_reply("http://127.0.0.1:18097", "http://127.0.0.1:18098")];
    let actions = plan_with(trackers, "test_dir_md5", &[]).unwrap();

    let download_actions: Vec<_> = actions
        .iter()
        .filter_map(|action| match action {
            Action::Download { peer_id, .. } => Some(*peer_id),
            _ => None,
        })
        .collect();

    assert_eq!(download_actions.len(), 2);
    assert_eq!(download_actions[0], 0);
    assert_eq!(download_actions[1], 1);
}

#[test]
fn test_plan_no_peers_available() {
    let result = plan_with(vec![Ok(PeersResponse { peers: vec![] })], "test_md5", &[]);

    assert!(result.is_err());
    let error_msg = result.unwrap_err().message();
    assert!(error_msg.contains("tracker_urls is empty") || error_msg.contains("no peers found"));
}

#[test]
fn discover_keeps_each_address_once_in_order_of_first_mention() {
    let trackers = vec![
        tracker_reply("b", "a"),
        Err("down".to_string()),
        tracker_reply("a", "c"),
        Ok(PeersResponse { peers: vec![] }),
        tracker_reply("c", "b"),
    ];
    assert_eq!(Planer::discover(&trackers).unwrap(), vec!["b", "a", "c"]);
}

#[test]
fn discover_reports_every_failure_when_nobody_is_named() {
    let trackers = vec![
        Err("first down".to_string()),
        Ok(PeersResponse { peers: vec![] }),
        Err("second down".to_string()),
    ];
    match Planer::discover(&trackers) {
        Err(PlanError::TrackerErrors(errors)) => {
            assert_eq!(
                errors.message(),
                "Multiple errors occurred (2): first down; second down"
            );
        }
        other => panic!("Expected tracker errors, got {:?}", other),
    }
}

#[test]
fn discover_without_trackers_is_a_configuration_error() {
    assert!(matches!(Planer::discover(&vec![]), Err(PlanError::EmptyTrackers)));
    assert_eq!(PlanError::EmptyTrackers.message(), "tracker_urls is empty");
}

#[test]
fn requests_are_built_from_base_urls() {
    let planer = Planer::new(vec!["http://t1:9090".to_string(), "http://t2".to_string()]);
    assert_eq!(
        planer.tracker_requests(),
        vec!["http://t1:9090/peers", "http://t2/peers"]
    );
    assert_eq!(
        Planer::query_url("http://p:8080", "abc"),
        "http://p:8080/query?md5=abc"
    );
}

fn reply(peer: &str, tree: Result<LookupDirOrFile, String>) -> PeerReply {
    PeerReply { peer: peer.to_string(), tree }
}

#[test]
fn agree_takes_the_peers_that_answered_last_answer_first() {
    let replies = vec![
        reply("a", Ok(peer_tree("test_dir_md5"))),
        reply("b", Err("timeout".to_string())),
        reply("c", Ok(peer_tree("test_dir_md5"))),
        reply("d", Ok(peer_tree("test_dir_md5"))),
    ];
    let (tree, peers) = Planer::agree(&replies).unwrap();
    assert_eq!(tree, peer_tree("test_dir_md5"));
    assert_eq!(peers, vec!["d", "c", "a"]);
}

#[test]
fn agree_reports_the_last_tree_that_differs() {
    let replies = vec![
        reply("a", Ok(file("one", "1", 1))),
        reply("b", Ok(file("two", "2", 2))),
        reply("c", Ok(file("ref", "r", 3))),
        reply("d", Ok(file("ref", "r", 3))),
    ];
    match Planer::agree(&replies) {
        Err(PlanError::TreeMismatch { expected, found }) => {
            assert_eq!(expected, file("ref", "r", 3));
            assert_eq!(found, file("two", "2", 2));
        }
        other => panic!("Expected a mismatch, got {:?}", other),
    }
}

#[test]
fn agree_tells_trees_apart_by_every_field() {
    let reference = dir("d", vec![file("a", "1", 1), file("b", "2", 2)]);
    let variants = vec![
        dir("e", vec![file("a", "1", 1), file("b", "2", 2)]),
        dir("d", vec![file("b", "2", 2), file("a", "1", 1)]),
        dir("d", vec![file("a", "1", 1)]),
        dir("d", vec![file("a", "1", 1), file("b", "2", 3)]),
        dir("d", vec![file("a", "1", 1), file("b", "3", 2)]),
        dir("d", vec![file("a", "1", 1), file("c", "2", 2)]),
        dir("d", vec![file("a", "1", 1), dir("b", vec![])]),
        file("d", "", 0),
    ];
    for variant in variants {
        assert!(variant != reference);
        let replies = vec![reply("a", Ok(variant)), reply("b", Ok(reference.clone()))];
        assert!(matches!(
            Planer::agree(&replies),
            Err(PlanError::TreeMismatch { .. })
        ));
    }
    let same = vec![reply("a", Ok(reference.clone())), reply("b", Ok(reference.clone()))];
    assert!(Planer::agree(&same).is_ok());
}

#[test]
fn agree_with_only_failures_reports_them() {
    let replies = vec![
        reply("a", Err("refused".to_string())),
        reply("b", Err("bad json".to_string())),
    ];
    match Planer::agree(&replies) {
        Err(PlanError::PeerErrors(errors)) => {
            assert_eq!(errors.errors(), &["refused".to_string(), "bad json".to_string()]);
        }
        other => panic!("Expected peer errors, got {:?}", other),
    }
}

#[test]
fn agree_without_replies_finds_no_peers() {
    let error = Planer::agree(&vec![]).unwrap_err();
    assert!(matches!(error, PlanError::NoPeers));
    assert_eq!(error.message(), "no peers found");
}

#[test]
fn emit_rotates_the_starting_peer() {
    let files: Vec<LookupDirOrFile> =
        (0..7).map(|i| file(&format!("f{}", i), &format!("d{}", i), i)).collect();
    let tree = dir("top", files);
    let peers = vec!["north".to_string(), "east".to_string(), "south".to_string()];
    let actions = Planer::emit(&tree, peers.clone());
    assert_eq!(actions.len(), 8);
    let mut seen = 0;
    let mut first: Option<&std::sync::Arc<Vec<String>>> = None;
    for action in &actions {
        if let Action::Download { peer_id, peers: shared, size, .. } = action {
            assert_eq!(*peer_id, seen % 3);
            assert_eq!(**shared, peers);
            assert_eq!(*size, seen);
            assert!(std::sync::Arc::ptr_eq(shared, first.get_or_insert(shared)));
            seen += 1;
        }
    }
    assert_eq!(seen, 7);
}

#[test]
fn emit_with_one_peer_always_starts_at_it() {
    let tree = dir("top", vec![file("a", "1", 1), file("b", "2", 2)]);
    let actions = Planer::emit(&tree, vec!["only".to_string()]);
    for action in &actions[1..] {
        assert!(matches!(action, Action::Download { peer_id: 0, .. }));
    }
}

#[test]
fn emit_walks_level_by_level() {
    let tree = dir(
        "r",
        vec![
            dir("a", vec![file("x", "1", 1), dir("deep", vec![file("z", "3", 3)])]),
            file("f", "0", 0),
            dir("b", vec![file("y", "2", 2)]),
        ],
    );
    let actions = Planer::emit(&tree, vec!["p".to_string(), "q".to_string()]);
    let paths: Vec<&str> = actions.iter().map(path_of).collect();
    assert_eq!(
        paths,
        vec!["./r", "./r/a", "./r/f", "./r/b", "./r/a/x", "./r/a/deep", "./r/b/y", "./r/a/deep/z"]
    );
    let ids: Vec<usize> = actions
        .iter()
        .filter_map(|a| match a {
            Action::Download { peer_id, .. } => Some(*peer_id),
            _ => None,
        })
        .collect();
    assert_eq!(ids, vec![0, 1, 0, 1]);
}

#[test]
fn emit_makes_every_directory_before_what_is_inside() {
    let tree = dir(
        "r",
        vec![
            file("f", "0", 0),
            dir("a", vec![dir("b", vec![dir("c", vec![file("g", "1", 1)])])]),
            dir("e", vec![]),
        ],
    );
    let actions = Planer::emit(&tree, vec!["p".to_string()]);
    for (j, action) in actions.iter().enumerate() {
        if let Action::Download { path, .. } = action {
            for (i, other) in actions.iter().enumerate() {
                if let Action::MakeDir { path: made } = other {
                    if path.starts_with(&format!("{}/", made)) {
                        assert!(i < j);
                    }
                }
            }
        }
    }
    assert_eq!(actions.len(), 7);
}

#[test]
fn emit_takes_names_as_they_are() {
    // A name that holds a separator reaches into a directory made later.
    let tree = dir("r", vec![file("b/c", "1", 1), dir("b", vec![])]);
    let actions = Planer::emit(&tree, vec!["p".to_string()]);
    let paths: Vec<&str> = actions.iter().map(path_of).collect();
    assert_eq!(paths, vec!["./r", "./r/b/c", "./r/b"]);
    assert!(matches!(actions[1], Action::Download { .. }));
    assert!(matches!(actions[2], Action::MakeDir { .. }));
}

#[test]
fn emit_of_a_single_file() {
    let actions = Planer::emit(&file("only.bin", "abc", 9), vec!["p".to_string()]);
    assert_eq!(actions.len(), 1);
    match &actions[0] {
        Action::Download { peers, peer_id, path, md5, size } => {
            assert_eq!(**peers, vec!["p".to_string()]);
            assert_eq!(*peer_id, 0);
            assert_eq!(path, "./only.bin");
            assert_eq!(md5, "abc");
            assert_eq!(*size, 9);
        }
        _ => panic!("Expected Download action"),
    }
}

#[test]
fn plan_uses_only_peers_that_answered() {
    let replies = vec![
        reply("a", Ok(file("f", "d", 1))),
        reply("gone", Err("refused".to_string())),
        reply("b", Ok(file("f", "d", 1))),
    ];
    let actions = Planer::plan(&replies).unwrap();
    match &actions[0] {
        Action::Download { peers, .. } => assert_eq!(**peers, vec!["b".to_string(), "a".to_string()]),
        _ => panic!("Expected Download action"),
    }
}

#[test]
fn paths_are_joined_with_a_slash() {
    assert_eq!(join_path_exec(".", "a"), "./a");
    assert_eq!(join_path_exec("./a", "b.txt"), "./a/b.txt");
    assert_eq!(join_path_exec("", ""), "/");
}

#[test]
fn contains_string_finds_equal_strings() {
    let list = vec!["a".to_string(), "bc".to_string()];
    assert!(contains_string(&list, &"bc".to_string()));
    assert!(!contains_string(&list, &"b".to_string()));
    assert!(!contains_string(&vec![], &"".to_string()));
}

#[test]
fn action_clone_shares_the_peer_list() {
    let actions = Planer::emit(
        &dir("d", vec![file("f", "1", 5)]),
        vec!["p".to_string(), "q".to_string()],
    );
    for action in &actions {
        let copy = action.clone();
        match (action, &copy) {
            (Action::MakeDir { path }, Action::MakeDir { path: copied }) => {
                assert_eq!(path, copied)
            }
            (
                Action::Download { peers, peer_id, path, md5, size },
                Action::Download {
                    peers: peers2,
                    peer_id: peer_id2,
                    path: path2,
                    md5: md52,
                    size: size2,
                },
            ) => {
                assert!(std::sync::Arc::ptr_eq(peers, peers2));
                assert_eq!((peer_id, path, md5, size), (peer_id2, path2, md52, size2));
            }
            _ => panic!("a copy of another kind"),
        }
    }
}

#[test]
fn lookup_tree_clone_is_equal() {
    let tree = peer_tree("nested_dir_md5");
    let copy = tree.clone();
    assert_eq!(copy, tree);
    assert!(copy == tree);
    assert!(tree != peer_tree("test_dir_md5"));
}
