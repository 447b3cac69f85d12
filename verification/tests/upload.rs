use gshare3::upload::{get_unique_path, is_plain, resolve_upload, upload_candidate};

fn taken(paths: &[&str]) -> Vec<String> {
    paths.iter().map(|p| p.to_string()).collect()
}

#[test]
fn a_free_name_is_used_as_it_is() {
    assert_eq!(get_unique_path("/d/x.txt", &taken(&[])), "/d/x.txt");
    assert_eq!(get_unique_path("/d/x.txt", &taken(&["/d/y.txt", "/d/x (1).txt"])), "/d/x.txt");
}

#[test]
fn a_taken_name_gets_a_counter_before_the_extension() {
    assert_eq!(get_unique_path("/d/x.txt", &taken(&["/d/x.txt"])), "/d/x (1).txt");
    assert_eq!(get_unique_path("/d/x.txt", &taken(&["/d/x.txt", "/d/x (1).txt"])), "/d/x (2).txt");
    assert_eq!(
        get_unique_path("/d/x.txt", &taken(&["/d/x (2).txt", "/d/x.txt", "/d/x (1).txt", "/d/x (4).txt"])),
        "/d/x (3).txt"
    );
}

#[test]
fn uploading_twice_counts_up() {
    let mut existing = taken(&["/d/x.txt"]);
    let first = resolve_upload("/d", "x.txt", false, &existing).unwrap();
    assert_eq!(first.filename, "x (1).txt");
    assert_eq!(first.path, "/d/x (1).txt");
    assert!(first.create_new);
    existing.push(first.path);
    let second = resolve_upload("/d", "x.txt", false, &existing).unwrap();
    assert_eq!(second.filename, "x (2).txt");
    assert_eq!(second.path, "/d/x (2).txt");
    assert!(second.create_new);
}

#[test]
fn overwriting_keeps_the_name() {
    let existing = taken(&["/d/x.txt"]);
    for _ in 0..2 {
        let outcome = resolve_upload("/d", "x.txt", true, &existing).unwrap();
        assert_eq!(outcome.filename, "x.txt");
        assert_eq!(outcome.path, "/d/x.txt");
        assert!(!outcome.create_new);
    }
}

#[test]
fn the_counter_goes_before_the_last_extension_only() {
    assert_eq!(get_unique_path("/d/archive.tar.gz", &taken(&["/d/archive.tar.gz"])), "/d/archive.tar (1).gz");
    assert_eq!(get_unique_path("/d/README", &taken(&["/d/README"])), "/d/README (1)");
    assert_eq!(get_unique_path("/d/.bashrc", &taken(&["/d/.bashrc"])), "/d/.bashrc (1)");
    assert_eq!(get_unique_path("/d/.config.toml", &taken(&["/d/.config.toml"])), "/d/.config (1).toml");
    assert_eq!(get_unique_path("/d/foo.", &taken(&["/d/foo."])), "/d/foo (1).");
    assert_eq!(get_unique_path("/d.v/README", &taken(&["/d.v/README"])), "/d.v/README (1)");
    assert_eq!(get_unique_path("x.txt", &taken(&["x.txt"])), "x (1).txt");
}

#[test]
fn the_counter_is_written_in_decimal() {
    let mut existing = taken(&["/d/x.txt"]);
    for n in 1..=120 {
        let next = get_unique_path("/d/x.txt", &existing);
        assert_eq!(next, format!("/d/x ({n}).txt"));
        existing.push(next);
    }
}

#[test]
fn a_name_is_taken_only_by_the_same_path() {
    assert_eq!(get_unique_path("/d/x.txt", &taken(&["/e/x.txt", "/d/X.txt", "/d/x.txt "])), "/d/x.txt");
    let outcome = resolve_upload("/d/", "new file.bin", false, &taken(&["/d/other"])).unwrap();
    assert_eq!(outcome.path, "/d/new file.bin");
    assert_eq!(outcome.filename, "new file.bin");
}

#[test]
fn an_upload_stays_in_its_directory() {
    for name in ["../evil.txt", "/tmp/evil.txt", "", ".", "..", "a/b.txt", "sub/", "/", "x/.."] {
        for overwrite in [false, true] {
            assert!(resolve_upload("/d", name, overwrite, &taken(&[])).is_none());
            assert!(resolve_upload("/d", name, overwrite, &taken(&["/d/x.txt"])).is_none());
        }
        assert_eq!(upload_candidate("/d", name, 0), None);
        assert_eq!(upload_candidate("/d", name, 3), None);
        assert!(!is_plain(name));
    }
}

#[test]
fn plain_names_are_taken() {
    for name in ["x.txt", "...", ".hidden", "a b", "..x", "x..", " ", "ü"] {
        assert!(is_plain(name));
        for overwrite in [false, true] {
            let outcome = resolve_upload("/d", name, overwrite, &taken(&[])).unwrap();
            assert_eq!(outcome.filename, name);
            assert_eq!(outcome.path, format!("/d/{name}"));
        }
    }
}

#[test]
fn the_name_of_a_path_is_numbered_whatever_follows_it() {
    assert_eq!(get_unique_path("/d/x/", &taken(&["/d/x/"])), "/d/x (1)");
    assert_eq!(get_unique_path("/d/x.txt//", &taken(&["/d/x.txt//", "/d/x (1).txt"])), "/d/x (2).txt");
    assert_eq!(get_unique_path("/d//x", &taken(&["/d//x"])), "/d//x (1)");
    assert_eq!(get_unique_path("/", &taken(&["/"])), "/ (1)");
    assert_eq!(get_unique_path("", &taken(&[""])), " (1)");
}

#[test]
fn candidates_are_tried_in_turn() {
    assert_eq!(upload_candidate("/d", "x.txt", 0), Some("/d/x.txt".to_string()));
    assert_eq!(upload_candidate("/d", "x.txt", 1), Some("/d/x (1).txt".to_string()));
    assert_eq!(upload_candidate("/d/", "x.tar.gz", 12), Some("/d/x.tar (12).gz".to_string()));
    assert_eq!(upload_candidate("", ".bashrc", 2), Some(".bashrc (2)".to_string()));
    let mut existing = Vec::new();
    let mut n = 0;
    while n < 3 {
        existing.push(upload_candidate("/d", "x.txt", n).unwrap());
        n += 1;
    }
    let outcome = resolve_upload("/d", "x.txt", false, &existing).unwrap();
    assert_eq!(Some(outcome.path), upload_candidate("/d", "x.txt", 3));
    assert_eq!(outcome.filename, "x (3).txt");
}
