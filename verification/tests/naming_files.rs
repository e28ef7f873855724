use cipollino::files::hash_of_bytes;
use cipollino::project::Project;
use cipollino::saveload::LoadingMetadata;
use cipollino::util::{format_number, next_unique_name, suffixed_name};

fn empty_project() -> Project {
    Project::new(vec!["proj.cip".to_string()], 24, 44100)
}

#[test]
fn numbers_render_in_decimal() {
    assert_eq!(format_number(0), "0");
    assert_eq!(format_number(7), "7");
    assert_eq!(format_number(10), "10");
    assert_eq!(format_number(90321), "90321");
    assert_eq!(format_number(u64::MAX), "18446744073709551615");
    assert_eq!(suffixed_name(&"Scene".to_string(), 3), "Scene (3)");
}

#[test]
fn colliding_names_get_the_smallest_free_suffix() {
    let name = "Scene".to_string();
    let empty: Vec<String> = vec![];
    assert_eq!(next_unique_name(&name, &empty), "Scene");
    let one = vec!["Scene".to_string()];
    assert_eq!(next_unique_name(&name, &one), "Scene (1)");
    let two = vec!["Scene".to_string(), "Scene (1)".to_string()];
    assert_eq!(next_unique_name(&name, &two), "Scene (2)");
    // A hole is reused: the smallest free suffix wins.
    let holey = vec!["Scene".to_string(), "Scene (2)".to_string()];
    assert_eq!(next_unique_name(&name, &holey), "Scene (1)");
    // Unrelated names do not collide.
    let other = vec!["Props".to_string()];
    assert_eq!(next_unique_name(&name, &other), "Scene");
}

#[test]
fn content_hash_matches_the_reference_digest() {
    // First eight bytes of the SHA-256 digests, folded big-endian: the
    // wrapper really hashes, it does not hand its input back.
    assert_eq!(hash_of_bytes(&vec![]), 0xe3b0c44298fc1c14);
    assert_eq!(hash_of_bytes(&"boop-bytes".as_bytes().to_vec()), 0xb1b6bd4579c492d3);
    assert_eq!(hash_of_bytes(&"other-bytes".as_bytes().to_vec()), 0xfbf22ec45a215e0d);
}

#[test]
fn references_resolve_by_path_and_survive_renames_by_hash() {
    let mut p = empty_project();
    let root = p.root_folder;
    let bytes = "boop-bytes".as_bytes().to_vec();
    let path = "base/sfx/boop.mp3".to_string();
    let base = "base".to_string();
    let ptr = p.get_file_ptr(&path, &base, &bytes, root).unwrap();
    let rec = p.audio_files.get(ptr).unwrap();
    // The relative path was computed against the base directory.
    assert_eq!(rec.rel_path, "sfx/boop.mp3");
    let hash = hash_of_bytes(&bytes);
    assert_eq!(rec.hash, hash);

    // Exact path and hash resolve.
    let rel = "sfx/boop.mp3".to_string();
    assert_eq!(p.resolve_file_ptr(&rel, hash).map(|x| x.key), Some(ptr.key));
    // The file was renamed on disk but its bytes are unchanged: the hash
    // index still finds it.
    let moved = "sfx/renamed.mp3".to_string();
    assert_eq!(p.resolve_file_ptr(&moved, hash).map(|x| x.key), Some(ptr.key));
    // The bytes changed under the unmoved path: the reference no longer
    // resolves even though the path matches.
    let other_hash = hash_of_bytes(&"other-bytes".as_bytes().to_vec());
    assert!(p.resolve_file_ptr(&rel, other_hash).is_none());
}

#[test]
fn unresolved_references_land_in_the_load_report() {
    let mut p = empty_project();
    let root = p.root_folder;
    let bytes = "boop-bytes".as_bytes().to_vec();
    let path = "base/sfx/boop.mp3".to_string();
    let base = "base".to_string();
    p.get_file_ptr(&path, &base, &bytes, root).unwrap();
    let hash = hash_of_bytes(&bytes);
    let stale_hash = hash_of_bytes(&"other-bytes".as_bytes().to_vec());
    let refs = vec![
        ("sfx/boop.mp3".to_string(), hash),
        ("sfx/boop.mp3".to_string(), stale_hash),
        ("missing.mp3".to_string(), 12345),
    ];
    let mut report = LoadingMetadata::new();
    p.check_references(&refs, &mut report);
    // The intact reference resolves; the two damaged ones are reported and
    // the load itself never aborts.
    assert_eq!(report.unresolved, vec!["sfx/boop.mp3".to_string(), "missing.mp3".to_string()]);
}

#[test]
fn reimporting_the_same_bytes_reuses_the_reference() {
    let mut p = empty_project();
    let root = p.root_folder;
    let bytes = "boop-bytes".as_bytes().to_vec();
    let path = "base/sfx/boop.mp3".to_string();
    let base = "base".to_string();
    let a = p.get_file_ptr(&path, &base, &bytes, root).unwrap();
    let b = p.get_file_ptr(&path, &base, &bytes, root).unwrap();
    assert_eq!(a.key, b.key);
    // A different path with the same bytes makes a fresh record; both stay
    // reachable through the indices they own.
    let path2 = "base/sfx/copy.mp3".to_string();
    let c = p.get_file_ptr(&path2, &base, &bytes, root).unwrap();
    let rel2 = "sfx/copy.mp3".to_string();
    assert_eq!(p.resolve_file_ptr(&rel2, hash_of_bytes(&bytes)).map(|x| x.key), Some(c.key));
}
