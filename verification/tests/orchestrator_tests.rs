use library_inspector::analyzer::{fingerprint_to_bytes, AnalyzerBehavior, Fingerprint};
use library_inspector::cache::{derive_key, CacheStore};
use library_inspector::decoder::DecodeError;
use library_inspector::orchestrator::{
    process_file, run_once, scan_forest, FileOutcome, FsEntry, Library, LibraryFs, RegistryError,
    RunReport,
};

fn audio_bytes(sample_count: usize) -> Vec<u8> {
    let mut bytes = vec![0x62, 0x73, 0x61, 0x31];
    let mut left = sample_count;
    while left > 0 {
        let take = left.min(250);
        bytes.push(1);
        bytes.push(take as u8);
        for _ in 0..take {
            bytes.push(0);
            bytes.push(42);
        }
        left -= take;
    }
    bytes
}

fn yields(features: Vec<i32>) -> AnalyzerBehavior {
    AnalyzerBehavior::Yields { fingerprint: Fingerprint { features } }
}

fn file(path: &str, bytes: Vec<u8>, analyzer: AnalyzerBehavior) -> FsEntry {
    FsEntry::File { path: path.to_string(), bytes, analyzer }
}

#[test]
fn stores_fingerprint_on_first_pass() {
    let mut cache = CacheStore::new();
    let path = "/music/a.wav".to_string();
    let outcome = process_file(&path, &audio_bytes(3), &yields(vec![1, -1]), &mut cache);
    assert_eq!(outcome, FileOutcome::Stored);
    let key = derive_key("/music/a.wav");
    let expected = fingerprint_to_bytes(&Fingerprint { features: vec![1, -1] });
    assert_eq!(cache.get(&key), Some(&expected));
}

#[test]
fn second_pass_is_a_cache_hit() {
    let mut cache = CacheStore::new();
    let path = "/music/a.wav".to_string();
    let first = process_file(&path, &audio_bytes(3), &yields(vec![1]), &mut cache);
    assert_eq!(first, FileOutcome::Stored);
    let stored = cache.get(&derive_key("/music/a.wav")).unwrap().clone();
    // The second pass short-circuits on the cache even when the file's
    // bytes or the analyzer would now behave differently.
    let second = process_file(&path, &vec![], &AnalyzerBehavior::Faults, &mut cache);
    assert_eq!(second, FileOutcome::CacheHit);
    assert_eq!(cache.get(&derive_key("/music/a.wav")), Some(&stored));
}

#[test]
fn undecodable_file_is_skipped_without_a_cache_entry() {
    let mut cache = CacheStore::new();
    let path = "/music/b.txt".to_string();
    let outcome = process_file(&path, &b"not audio".to_vec(), &yields(vec![1]), &mut cache);
    assert_eq!(outcome, FileOutcome::DecodeFailed(DecodeError::UnknownFormat));
    assert!(!cache.contains(&derive_key("/music/b.txt")));
}

#[test]
fn zero_byte_file_is_skipped_without_a_cache_entry() {
    let mut cache = CacheStore::new();
    let path = "/music/empty".to_string();
    let outcome = process_file(&path, &vec![], &yields(vec![1]), &mut cache);
    assert_eq!(outcome, FileOutcome::DecodeFailed(DecodeError::UnknownFormat));
    assert!(!cache.contains(&derive_key("/music/empty")));
}

#[test]
fn truncated_file_is_skipped_without_a_cache_entry() {
    let mut cache = CacheStore::new();
    let path = "/music/cut.wav".to_string();
    let outcome = process_file(
        &path,
        &vec![0x62, 0x73, 0x61, 0x31, 1, 5, 0],
        &yields(vec![1]),
        &mut cache,
    );
    assert_eq!(outcome, FileOutcome::DecodeFailed(DecodeError::Truncated));
    assert!(!cache.contains(&derive_key("/music/cut.wav")));
}

#[test]
fn zero_samples_are_rejected_before_analysis() {
    let mut cache = CacheStore::new();
    let path = "/music/silent.wav".to_string();
    // A recognized container with no packets decodes to zero samples.
    let outcome = process_file(
        &path,
        &vec![0x62, 0x73, 0x61, 0x31],
        &AnalyzerBehavior::Faults,
        &mut cache,
    );
    assert_eq!(outcome, FileOutcome::EmptyDecode);
    assert!(!cache.contains(&derive_key("/music/silent.wav")));
}

#[test]
fn analysis_crash_is_contained() {
    let mut cache = CacheStore::new();
    let crash_path = "/music/evil.wav".to_string();
    let outcome = process_file(&crash_path, &audio_bytes(3), &AnalyzerBehavior::Faults, &mut cache);
    assert_eq!(outcome, FileOutcome::AnalysisCrashed);
    assert!(!cache.contains(&derive_key("/music/evil.wav")));
    // The run goes on: the next file is still examined and stored.
    let next = process_file(&"/music/ok.wav".to_string(), &audio_bytes(3), &yields(vec![2]), &mut cache);
    assert_eq!(next, FileOutcome::Stored);
}

#[test]
fn analysis_rejection_is_contained() {
    let mut cache = CacheStore::new();
    let outcome = process_file(
        &"/music/odd.wav".to_string(),
        &audio_bytes(3),
        &AnalyzerBehavior::Rejects,
        &mut cache,
    );
    assert_eq!(outcome, FileOutcome::AnalysisRejected);
    assert!(!cache.contains(&derive_key("/music/odd.wav")));
}

#[test]
fn quota_stops_traversal_early() {
    // Five files under a quota of three: exactly three are examined.
    let entries = vec![
        file("/m/1", audio_bytes(2), yields(vec![1])),
        file("/m/2", audio_bytes(2), yields(vec![2])),
        file("/m/3", audio_bytes(2), yields(vec![3])),
        file("/m/4", audio_bytes(2), yields(vec![4])),
        file("/m/5", audio_bytes(2), yields(vec![5])),
    ];
    let mut cache = CacheStore::new();
    let mut remaining: u64 = 3;
    let mut outcomes = Vec::new();
    scan_forest(&entries, &mut cache, &mut remaining, &mut outcomes);
    assert_eq!(outcomes.len(), 3);
    assert_eq!(remaining, 0);
    assert!(cache.contains(&derive_key("/m/3")));
    assert!(!cache.contains(&derive_key("/m/4")));
    assert!(!cache.contains(&derive_key("/m/5")));
}

#[test]
fn cache_hits_count_toward_the_quota() {
    let entries = vec![
        file("/m/1", audio_bytes(2), yields(vec![1])),
        file("/m/2", audio_bytes(2), yields(vec![2])),
    ];
    let mut cache = CacheStore::new();
    cache.put(derive_key("/m/1"), vec![9]);
    let mut remaining: u64 = 1;
    let mut outcomes = Vec::new();
    scan_forest(&entries, &mut cache, &mut remaining, &mut outcomes);
    assert_eq!(outcomes, vec![FileOutcome::CacheHit]);
    assert!(!cache.contains(&derive_key("/m/2")));
}

#[test]
fn traversal_is_depth_first_in_enumeration_order() {
    let entries = vec![
        FsEntry::Dir {
            readable: true,
            entries: vec![
                file("/m/d/1", audio_bytes(1), yields(vec![1])),
                FsEntry::Dir {
                    readable: true,
                    entries: vec![file("/m/d/e/2", b"junk".to_vec(), yields(vec![2]))],
                },
            ],
        },
        file("/m/3", audio_bytes(1), yields(vec![3])),
    ];
    let mut cache = CacheStore::new();
    let mut remaining: u64 = 10;
    let mut outcomes = Vec::new();
    scan_forest(&entries, &mut cache, &mut remaining, &mut outcomes);
    assert_eq!(
        outcomes,
        vec![
            FileOutcome::Stored,
            FileOutcome::DecodeFailed(DecodeError::UnknownFormat),
            FileOutcome::Stored,
        ]
    );
    assert_eq!(remaining, 7);
}

#[test]
fn unreadable_directory_is_skipped_but_siblings_are_visited() {
    let entries = vec![
        FsEntry::Dir {
            readable: false,
            entries: vec![file("/m/locked/1", audio_bytes(1), yields(vec![1]))],
        },
        file("/m/2", audio_bytes(1), yields(vec![2])),
    ];
    let mut cache = CacheStore::new();
    let mut remaining: u64 = 10;
    let mut outcomes = Vec::new();
    scan_forest(&entries, &mut cache, &mut remaining, &mut outcomes);
    assert_eq!(outcomes, vec![FileOutcome::Stored]);
    assert!(!cache.contains(&derive_key("/m/locked/1")));
    assert!(cache.contains(&derive_key("/m/2")));
}

fn scenario_library() -> Vec<LibraryFs> {
    vec![LibraryFs {
        library: Library {
            id: 1,
            name: "main".to_string(),
            mount_point: "/music".to_string(),
            total_songs: 3,
        },
        root: vec![
            file("/music/a.wav", audio_bytes(1000), yields(vec![10, 20])),
            file("/music/b.txt", b"liner notes, not audio".to_vec(), yields(vec![0])),
            file("/music/c.mp3", audio_bytes(44), yields(vec![30, 40])),
        ],
    }]
}

#[test]
fn end_to_end_scenario_caches_the_two_decodable_files() {
    let mut cache = CacheStore::new();
    let report = run_once(Ok(scenario_library()), &mut cache, 10);
    match report {
        RunReport::Completed(reports) => {
            assert_eq!(reports.len(), 1);
            assert_eq!(reports[0].library_id, 1);
            assert_eq!(
                reports[0].outcomes,
                vec![
                    FileOutcome::Stored,
                    FileOutcome::DecodeFailed(DecodeError::UnknownFormat),
                    FileOutcome::Stored,
                ]
            );
        }
        _ => panic!("run did not complete"),
    }
    assert!(cache.contains(&derive_key("/music/a.wav")));
    assert!(!cache.contains(&derive_key("/music/b.txt")));
    assert!(cache.contains(&derive_key("/music/c.mp3")));
}

#[test]
fn rerunning_the_scenario_changes_nothing() {
    let mut cache = CacheStore::new();
    run_once(Ok(scenario_library()), &mut cache, 10);
    let a_bytes = cache.get(&derive_key("/music/a.wav")).unwrap().clone();
    let c_bytes = cache.get(&derive_key("/music/c.mp3")).unwrap().clone();
    let report = run_once(Ok(scenario_library()), &mut cache, 10);
    match report {
        RunReport::Completed(reports) => {
            // Both cached files short-circuit: no decode or analysis work.
            assert_eq!(
                reports[0].outcomes,
                vec![
                    FileOutcome::CacheHit,
                    FileOutcome::DecodeFailed(DecodeError::UnknownFormat),
                    FileOutcome::CacheHit,
                ]
            );
        }
        _ => panic!("run did not complete"),
    }
    assert_eq!(cache.get(&derive_key("/music/a.wav")), Some(&a_bytes));
    assert_eq!(cache.get(&derive_key("/music/c.mp3")), Some(&c_bytes));
}

#[test]
fn registry_error_aborts_the_run_only() {
    let mut cache = CacheStore::new();
    cache.put("bliss:kept".to_string(), vec![1]);
    let failed: Result<Vec<LibraryFs>, RegistryError> = Err(RegistryError {
        detail: "registry unavailable".to_string(),
    });
    match run_once(failed, &mut cache, 10) {
        RunReport::RegistryFailed(e) => assert_eq!(e.detail, "registry unavailable"),
        _ => panic!("expected a registry failure"),
    }
    assert_eq!(cache.get(&"bliss:kept".to_string()), Some(&vec![1u8]));
}

#[test]
fn empty_registry_is_a_normal_terminal_state() {
    let mut cache = CacheStore::new();
    match run_once(Ok(vec![]), &mut cache, 10) {
        RunReport::NoLibraries => {}
        _ => panic!("expected the no-libraries report"),
    }
}

#[test]
fn empty_mount_point_is_not_traversed() {
    let mut cache = CacheStore::new();
    let libs = vec![LibraryFs {
        library: Library {
            id: 7,
            name: "detached".to_string(),
            mount_point: "".to_string(),
            total_songs: 0,
        },
        root: vec![file("/x/1", audio_bytes(1), yields(vec![1]))],
    }];
    match run_once(Ok(libs), &mut cache, 10) {
        RunReport::Completed(reports) => {
            assert_eq!(reports.len(), 1);
            assert_eq!(reports[0].library_id, 7);
            assert!(reports[0].outcomes.is_empty());
        }
        _ => panic!("run did not complete"),
    }
    assert!(!cache.contains(&derive_key("/x/1")));
}

#[test]
fn quota_is_shared_across_libraries() {
    let lib = |id: u64, mount: &str, path: &str| LibraryFs {
        library: Library {
            id,
            name: format!("lib{}", id),
            mount_point: mount.to_string(),
            total_songs: 1,
        },
        root: vec![file(path, audio_bytes(1), yields(vec![id as i32]))],
    };
    let mut cache = CacheStore::new();
    match run_once(Ok(vec![lib(1, "/a", "/a/1"), lib(2, "/b", "/b/1")]), &mut cache, 1) {
        RunReport::Completed(reports) => {
            assert_eq!(reports[0].outcomes, vec![FileOutcome::Stored]);
            assert!(reports[1].outcomes.is_empty());
        }
        _ => panic!("run did not complete"),
    }
    assert!(cache.contains(&derive_key("/a/1")));
    assert!(!cache.contains(&derive_key("/b/1")));
}
