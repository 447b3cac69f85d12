use gshare3::cli::DirectoryListingViewType;
use gshare3::handlers::{
    body_of, created_body, get_request_handler, store_upload, upload_handler, BodyError, Reply,
};
use gshare3::resolve::PathKind;
use gshare3::state::{AppState, Root, RootSet};

const FONT: &str = "/gshare3-resources/JetBrainsMono-Medium.woff2";
const KINDS: [PathKind; 3] = [PathKind::Directory, PathKind::File, PathKind::Neither];

fn state_of(roots: &[(&str, bool)], upload: bool, upload_overwrite: bool) -> AppState {
    let roots = roots
        .iter()
        .map(|(path, is_directory)| Root { path: path.to_string(), is_directory: *is_directory })
        .collect();
    AppState {
        whitelisted_ips: Vec::new(),
        paths: RootSet::new(roots).unwrap(),
        upload,
        upload_overwrite,
        default_view: DirectoryListingViewType::Grid,
        title: None,
    }
}

#[test]
fn an_unauthorized_caller_is_denied_alike() {
    let states = [
        state_of(&[("/srv", true)], true, false),
        state_of(&[("/srv", true)], false, false),
        state_of(&[("/srv", true), ("/other", true)], false, true),
    ];
    for state in &states {
        for path in ["/", "/a/b/", "/a.txt", "/../x", "/srv/", "/missing", ""] {
            for found in KINDS {
                for data in [false, true] {
                    assert_eq!(get_request_handler(state, path, data, false, found), Reply::Unauthorized);
                }
                assert_eq!(upload_handler(state, path, false, found), Reply::Unauthorized);
            }
        }
    }
    assert_eq!(Reply::Unauthorized.status(), 401);
}

#[test]
fn the_font_is_served_to_everyone() {
    let state = state_of(&[("/srv", true)], false, false);
    for found in KINDS {
        assert_eq!(get_request_handler(&state, FONT, false, false, found), Reply::Font);
        assert_eq!(get_request_handler(&state, FONT, false, true, found), Reply::Font);
        assert_eq!(get_request_handler(&state, FONT, true, false, found), Reply::Unauthorized);
        assert_eq!(upload_handler(&state, FONT, false, found), Reply::Unauthorized);
    }
    assert_eq!(
        get_request_handler(&state, FONT, true, true, PathKind::Neither),
        Reply::NotFoundPage { directory: false }
    );
}

#[test]
fn a_get_names_a_file_or_a_listing() {
    let state = state_of(&[("/srv", true)], false, false);
    assert_eq!(
        get_request_handler(&state, "/a%20b/c.txt", false, true, PathKind::File),
        Reply::File("/srv/a b/c.txt".to_string())
    );
    assert_eq!(get_request_handler(&state, "/a%20b/c.txt", true, true, PathKind::File), Reply::NotImplemented);
    for data in [false, true] {
        assert_eq!(
            get_request_handler(&state, "/a%20b/", data, true, PathKind::Directory),
            Reply::ListDirectory("/srv/a b".to_string())
        );
    }
    let several = state_of(&[("/srv", true), ("/other", true)], false, false);
    assert_eq!(
        get_request_handler(&several, "/", false, true, PathKind::Neither),
        Reply::ListVirtualDirectory
    );
}

#[test]
fn a_get_of_nothing_says_what_was_asked_for() {
    let state = state_of(&[("/srv", true)], false, false);
    assert_eq!(
        get_request_handler(&state, "/missing/", false, true, PathKind::Neither),
        Reply::NotFoundPage { directory: true }
    );
    assert_eq!(
        get_request_handler(&state, "/missing", true, true, PathKind::Neither),
        Reply::NotFoundPage { directory: false }
    );
    assert_eq!(
        get_request_handler(&state, "/../etc/", false, true, PathKind::Directory),
        Reply::NotFoundPage { directory: true }
    );
}

#[test]
fn uploads_go_to_directories_only() {
    let state = state_of(&[("/srv", true)], true, false);
    assert_eq!(
        upload_handler(&state, "/in/", true, PathKind::Directory),
        Reply::StoreUploads("/srv/in".to_string())
    );
    assert_eq!(upload_handler(&state, "/in/a.txt", true, PathKind::File), Reply::MethodNotAllowed);
    assert_eq!(upload_handler(&state, "/in/", true, PathKind::Neither), Reply::NotFound);
    assert_eq!(upload_handler(&state, "/../in/", true, PathKind::Directory), Reply::NotFound);
    let several = state_of(&[("/srv", true), ("/other", true)], false, true);
    assert_eq!(upload_handler(&several, "/", true, PathKind::Neither), Reply::MethodNotAllowed);
    assert_eq!(
        upload_handler(&several, "/other/", true, PathKind::Directory),
        Reply::StoreUploads("/other".to_string())
    );
}

#[test]
fn an_upload_path_is_not_decoded() {
    let state = state_of(&[("/srv", true)], true, false);
    assert_eq!(
        upload_handler(&state, "/a%20b/", true, PathKind::Directory),
        Reply::StoreUploads("/srv/a%20b".to_string())
    );
}

#[test]
fn uploads_are_refused_where_they_are_off() {
    let state = state_of(&[("/srv", true)], false, false);
    for found in KINDS {
        assert_eq!(upload_handler(&state, "/in/", true, found), Reply::MethodNotAllowed);
    }
}

#[test]
fn every_reply_has_its_status() {
    assert_eq!(Reply::Font.status(), 200);
    assert_eq!(Reply::File("/f".to_string()).status(), 200);
    assert_eq!(Reply::ListDirectory("/d".to_string()).status(), 200);
    assert_eq!(Reply::ListVirtualDirectory.status(), 200);
    assert_eq!(Reply::StoreUploads("/d".to_string()).status(), 201);
    assert_eq!(Reply::Unauthorized.status(), 401);
    assert_eq!(Reply::NotFound.status(), 404);
    assert_eq!(Reply::NotFoundPage { directory: true }.status(), 404);
    assert_eq!(Reply::MethodNotAllowed.status(), 405);
    assert_eq!(Reply::NotImplemented.status(), 501);
}

#[test]
fn the_body_of_an_upload_names_the_files() {
    let names = vec!["x (1).txt".to_string(), "a \"b\".txt".to_string(), "ü".to_string()];
    assert_eq!(created_body(&names), Ok("[\"x (1).txt\",\"a \\\"b\\\".txt\",\"ü\"]".to_string()));
    assert_eq!(created_body(&Vec::new()), Ok("[]".to_string()));
    let parsed: Vec<String> = serde_json::from_str(&created_body(&names).unwrap()).unwrap();
    assert_eq!(parsed, names);
}

#[test]
fn a_failed_serializer_gives_no_body() {
    let failure = serde_json::from_str::<u8>("x").unwrap_err();
    assert_eq!(body_of(Err(failure)), Err(BodyError::Serialize));
    assert_eq!(body_of(Ok("[]".to_string())), Ok("[]".to_string()));
}

#[test]
fn a_file_is_stored_by_the_overwrite_policy() {
    let existing = vec!["/srv/in/x.txt".to_string()];
    let new_only = state_of(&[("/srv", true)], true, false);
    let stored = store_upload(&new_only, "/srv/in", "x.txt", &existing).unwrap();
    assert_eq!(stored.path, "/srv/in/x (1).txt");
    assert_eq!(stored.filename, "x (1).txt");
    assert!(stored.create_new);
    let overwriting = state_of(&[("/srv", true)], false, true);
    let stored = store_upload(&overwriting, "/srv/in", "x.txt", &existing).unwrap();
    assert_eq!(stored.path, "/srv/in/x.txt");
    assert_eq!(stored.filename, "x.txt");
    assert!(!stored.create_new);
}

#[test]
fn a_file_that_would_leave_the_directory_is_not_found() {
    for state in [state_of(&[("/srv", true)], true, false), state_of(&[("/srv", true)], false, true)] {
        for name in ["../evil.txt", "/tmp/evil.txt", "", "..", ".", "a/b"] {
            let refused = store_upload(&state, "/srv/in", name, &Vec::new()).unwrap_err();
            assert_eq!(refused, Reply::NotFound);
            assert_eq!(refused.status(), 404);
        }
    }
}
