use pdfl::package::{file_digest, find_entry, install_plan, is_safe_path, verified_entry, Manifest, ManifestFile};

const ABC: &str = "ba7816bf8f01cfea414140de5dae2223b00361a396177a9cb410ff61f20015ad";

#[test]
fn the_digest_is_lower_case_hex_sha256() {
    assert_eq!(file_digest(&b"abc".to_vec()), ABC);
    assert_eq!(
        file_digest(&Vec::new()),
        "e3b0c44298fc1c149afbf4c8996fb92427ae41e4649b934ca495991b7852b855"
    );
}

#[test]
fn paths_that_leave_the_folder_are_refused() {
    assert!(is_safe_path("profile/check.pdfl"));
    assert!(!is_safe_path("../etc/passwd"));
    assert!(!is_safe_path("a/../../b"));
    assert!(!is_safe_path("/etc/passwd"));
}

#[test]
fn a_package_entry_verifies_against_its_digest() {
    let entries = vec![
        ("index.json".to_string(), b"{}".to_vec()),
        ("p.pdfl".to_string(), b"abc".to_vec()),
    ];
    assert_eq!(verified_entry(&entries, "p.pdfl", ABC), Ok(1));
}

#[test]
fn a_tampered_or_missing_entry_is_refused() {
    let entries = vec![("p.pdfl".to_string(), b"abd".to_vec())];
    assert_eq!(
        verified_entry(&entries, "p.pdfl", ABC),
        Err("hash of p.pdfl does not match (corrupted or tampered package)".to_string())
    );
    assert_eq!(
        verified_entry(&entries, "q.pdfl", ABC),
        Err("file q.pdfl listed in the manifest but missing from the package".to_string())
    );
}

fn manifest(files: &[(&str, &str)]) -> Manifest {
    Manifest {
        name: "p".to_string(),
        version: "1.0".to_string(),
        files: files
            .iter()
            .map(|(p, h)| ManifestFile { path: p.to_string(), sha256: h.to_string() })
            .collect(),
    }
}

#[test]
fn the_index_is_found_by_its_name() {
    let entries = vec![
        ("p.pdfl".to_string(), b"abc".to_vec()),
        ("index.json".to_string(), b"{}".to_vec()),
    ];
    assert_eq!(find_entry(&entries, "index.json"), Some(1));
    assert_eq!(find_entry(&entries, "other.json"), None);
}

#[test]
fn every_file_of_an_intact_package_is_installed() {
    let entries = vec![
        ("index.json".to_string(), b"{}".to_vec()),
        ("a.pdfl".to_string(), b"abc".to_vec()),
        ("b.csv".to_string(), Vec::new()),
    ];
    let empty = file_digest(&Vec::new());
    let (ok, failure) = install_plan(&manifest(&[("b.csv", &empty), ("a.pdfl", ABC)]), &entries);
    assert_eq!(ok, vec![2, 1]);
    assert_eq!(failure, None);
}

#[test]
fn installing_stops_at_the_first_tampered_file() {
    let entries = vec![
        ("a.pdfl".to_string(), b"abc".to_vec()),
        ("b.pdfl".to_string(), b"abd".to_vec()),
    ];
    let (ok, failure) = install_plan(&manifest(&[("a.pdfl", ABC), ("b.pdfl", ABC), ("c.pdfl", ABC)]), &entries);
    assert_eq!(ok, vec![0]);
    assert_eq!(
        failure,
        Some("hash of b.pdfl does not match (corrupted or tampered package)".to_string())
    );
}
