//! The patch disk cache: framing, file naming and the round-trip law on
//! concrete values.

use gitfiend_core::patches_cache::{
    get_file_name, load_patches_cache, write_patches_cache, Patch,
};

fn patch(old_file: &str, new_file: &str) -> Patch {
    Patch { old_file: String::from(old_file), new_file: String::from(new_file) }
}

fn sample() -> Vec<(String, Vec<Patch>)> {
    vec![
        (
            String::from("diff-key-1"),
            vec![patch("src/a.rs", "src/a.rs"), patch("old name.txt", "new name.txt")],
        ),
        (String::from("diff-key-2"), vec![]),
        (String::from(""), vec![patch("", "x")]),
    ]
}

#[test]
fn write_then_read_returns_equal_map() {
    let entries = sample();
    let (_name, text) = write_patches_cache(&String::from("/home/u/repo"), &entries).unwrap();
    let back = load_patches_cache(Some(&text)).unwrap();
    assert_eq!(back.len(), entries.len());
    for (a, b) in back.iter().zip(entries.iter()) {
        assert_eq!(a.0, b.0);
        assert_eq!(a.1.len(), b.1.len());
        for (pa, pb) in a.1.iter().zip(b.1.iter()) {
            assert_eq!(pa.old_file, pb.old_file);
            assert_eq!(pa.new_file, pb.new_file);
        }
    }
}

#[test]
fn empty_map_round_trips() {
    let entries: Vec<(String, Vec<Patch>)> = vec![];
    let (_name, text) = write_patches_cache(&String::from("/r"), &entries).unwrap();
    let back = load_patches_cache(Some(&text)).unwrap();
    assert!(back.is_empty());
}

#[test]
fn missing_or_corrupt_file_is_a_miss() {
    assert!(load_patches_cache(None).is_none());
    let garbage = String::from("not a cache file");
    assert!(load_patches_cache(Some(&garbage)).is_none());
    // A well-formed frame with trailing bytes does not parse either.
    let entries: Vec<(String, Vec<Patch>)> = vec![];
    let (_name, mut text) = write_patches_cache(&String::from("/r"), &entries).unwrap();
    text.push('x');
    assert!(load_patches_cache(Some(&text)).is_none());
    // A truncated frame is a miss, not an error.
    let (_n2, full) = write_patches_cache(&String::from("/r"), &sample()).unwrap();
    let truncated = String::from(&full[..full.len() - 1]);
    assert!(load_patches_cache(Some(&truncated)).is_none());
}

#[test]
fn file_name_concatenates_path_segments() {
    assert_eq!(get_file_name(&String::from("/home/u/repo")), "homeurepo.json");
    assert_eq!(get_file_name(&String::from("C:\\work\\repo")), "C:workrepo.json");
    // The documented collision: distinct paths may collapse to one name.
    assert_eq!(
        get_file_name(&String::from("/a/bc")),
        get_file_name(&String::from("/ab/c")),
    );
}

#[test]
fn distinct_repos_get_distinct_files_normally() {
    let a = get_file_name(&String::from("/home/u/alpha"));
    let b = get_file_name(&String::from("/home/u/beta"));
    assert_ne!(a, b);
}
