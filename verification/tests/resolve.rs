use gshare3::cli::DirectoryListingViewType;
use gshare3::resolve::{candidate_path, figure_out_request_path, FiguredOutRequestPath, PathKind};
use gshare3::state::{AppState, Root, RootSet};
use gshare3::text::{file_name, join_path, split_segments};

fn state_of(roots: &[(&str, bool)]) -> AppState {
    let roots = roots
        .iter()
        .map(|(path, is_directory)| Root { path: path.to_string(), is_directory: *is_directory })
        .collect();
    AppState {
        whitelisted_ips: Vec::new(),
        paths: RootSet::new(roots).unwrap(),
        upload: false,
        upload_overwrite: false,
        default_view: DirectoryListingViewType::Grid,
        title: None,
    }
}

const KINDS: [PathKind; 3] = [PathKind::Directory, PathKind::File, PathKind::Neither];

#[test]
fn a_root_set_is_never_empty() {
    assert!(RootSet::new(Vec::new()).is_none());
    let set = RootSet::new(vec![Root { path: "/srv".to_string(), is_directory: true }]).unwrap();
    assert_eq!(set.len(), 1);
    assert_eq!(set.get(0).path, "/srv");
    assert!(set.is_single_root());
}

#[test]
fn parent_segments_are_never_found() {
    let single = state_of(&[("/srv/share", true)]);
    let several = state_of(&[("/srv/share", true), ("/srv/other", true)]);
    for request in ["/..", "/../", "/a/../b", "/share/../other/", "..", "/a/b/.."] {
        for found in KINDS {
            assert_eq!(figure_out_request_path(&single, request, found), FiguredOutRequestPath::NotFound);
            assert_eq!(figure_out_request_path(&several, request, found), FiguredOutRequestPath::NotFound);
        }
        assert_eq!(candidate_path(&single, request), None);
        assert_eq!(candidate_path(&several, request), None);
    }
}

#[test]
fn names_with_dots_are_no_parent_segments() {
    let single = state_of(&[("/srv/share", true)]);
    assert_eq!(
        figure_out_request_path(&single, "/a..b/...", PathKind::File),
        FiguredOutRequestPath::File("/srv/share/a..b/...".to_string())
    );
}

#[test]
fn single_root_directory_needs_the_slash_and_the_directory() {
    let state = state_of(&[("/srv/share", true)]);
    assert_eq!(candidate_path(&state, "/a/b/"), Some("/srv/share/a/b".to_string()));
    assert_eq!(
        figure_out_request_path(&state, "/a/b/", PathKind::Directory),
        FiguredOutRequestPath::Directory("/srv/share/a/b".to_string())
    );
    assert_eq!(figure_out_request_path(&state, "/a/b/", PathKind::Neither), FiguredOutRequestPath::NotFound);
    assert_eq!(figure_out_request_path(&state, "/a/b/", PathKind::File), FiguredOutRequestPath::NotFound);
    assert_eq!(figure_out_request_path(&state, "/a/b", PathKind::Directory), FiguredOutRequestPath::NotFound);
}

#[test]
fn single_root_file_needs_no_slash() {
    let state = state_of(&[("/srv/share", true)]);
    assert_eq!(
        figure_out_request_path(&state, "/a/b.txt", PathKind::File),
        FiguredOutRequestPath::File("/srv/share/a/b.txt".to_string())
    );
    assert_eq!(figure_out_request_path(&state, "/a/b.txt", PathKind::Neither), FiguredOutRequestPath::NotFound);
}

#[test]
fn single_root_top_is_the_root() {
    let state = state_of(&[("/srv/share", true)]);
    assert_eq!(candidate_path(&state, "/"), Some("/srv/share".to_string()));
    assert_eq!(
        figure_out_request_path(&state, "/", PathKind::Directory),
        FiguredOutRequestPath::Directory("/srv/share".to_string())
    );
    assert_eq!(figure_out_request_path(&state, "", PathKind::Directory), FiguredOutRequestPath::NotFound);
    let top = state_of(&[("/", true)]);
    assert_eq!(
        figure_out_request_path(&top, "/etc/", PathKind::Directory),
        FiguredOutRequestPath::Directory("/etc".to_string())
    );
}

#[test]
fn empty_segments_are_skipped() {
    let state = state_of(&[("/srv/share", true)]);
    assert_eq!(
        figure_out_request_path(&state, "//a///b//", PathKind::Directory),
        FiguredOutRequestPath::Directory("/srv/share/a/b".to_string())
    );
    assert_eq!(split_segments("//a///b//"), vec!["a".to_string(), "b".to_string()]);
    assert_eq!(split_segments("a/b"), vec!["a".to_string(), "b".to_string()]);
    assert!(split_segments("///").is_empty());
    assert!(split_segments("").is_empty());
}

#[test]
fn virtual_mode_serves_the_virtual_root() {
    let state = state_of(&[("/home/u/docs", true), ("/home/u/notes.txt", false)]);
    for found in KINDS {
        assert_eq!(figure_out_request_path(&state, "/", found), FiguredOutRequestPath::VirtualDirectory);
        assert_eq!(figure_out_request_path(&state, "", found), FiguredOutRequestPath::VirtualDirectory);
        assert_eq!(figure_out_request_path(&state, "//", found), FiguredOutRequestPath::VirtualDirectory);
    }
    assert_eq!(candidate_path(&state, "/"), None);
}

#[test]
fn virtual_mode_matches_the_first_segment_to_a_root() {
    let state = state_of(&[("/home/u/docs", true), ("/home/u/notes.txt", false)]);
    assert_eq!(candidate_path(&state, "/docs/"), Some("/home/u/docs".to_string()));
    assert_eq!(
        figure_out_request_path(&state, "/docs/", PathKind::Directory),
        FiguredOutRequestPath::Directory("/home/u/docs".to_string())
    );
    assert_eq!(
        figure_out_request_path(&state, "/notes.txt", PathKind::File),
        FiguredOutRequestPath::File("/home/u/notes.txt".to_string())
    );
    assert_eq!(
        figure_out_request_path(&state, "/docs/x/y.txt", PathKind::File),
        FiguredOutRequestPath::File("/home/u/docs/x/y.txt".to_string())
    );
    assert_eq!(figure_out_request_path(&state, "/docs", PathKind::Directory), FiguredOutRequestPath::NotFound);
    assert_eq!(figure_out_request_path(&state, "/notes.txt/", PathKind::File), FiguredOutRequestPath::NotFound);
}

#[test]
fn virtual_mode_knows_no_other_names() {
    let state = state_of(&[("/home/u/docs", true), ("/home/u/notes.txt", false)]);
    assert_eq!(candidate_path(&state, "/other/"), None);
    assert_eq!(candidate_path(&state, "/u/docs/"), None);
    for found in KINDS {
        assert_eq!(figure_out_request_path(&state, "/other/", found), FiguredOutRequestPath::NotFound);
        assert_eq!(figure_out_request_path(&state, "/Docs/", found), FiguredOutRequestPath::NotFound);
    }
}

#[test]
fn a_single_file_is_served_in_virtual_mode() {
    let state = state_of(&[("/home/u/notes.txt", false)]);
    assert!(!state.paths.is_single_root());
    assert_eq!(figure_out_request_path(&state, "/", PathKind::Neither), FiguredOutRequestPath::VirtualDirectory);
    assert_eq!(
        figure_out_request_path(&state, "/notes.txt", PathKind::File),
        FiguredOutRequestPath::File("/home/u/notes.txt".to_string())
    );
}

#[test]
fn of_two_roots_with_one_name_the_first_is_served() {
    let state = state_of(&[("/a/x", true), ("/b/x", true)]);
    assert_eq!(state.paths.find_named(&"x".to_string()), Some(0));
    assert_eq!(state.paths.find_named(&"y".to_string()), None);
    assert_eq!(
        figure_out_request_path(&state, "/x/", PathKind::Directory),
        FiguredOutRequestPath::Directory("/a/x".to_string())
    );
}

#[test]
fn paths_are_joined_with_one_slash() {
    assert_eq!(join_path("/srv", "a"), "/srv/a");
    assert_eq!(join_path("/srv/", "a"), "/srv/a");
    assert_eq!(join_path("/", "a"), "/a");
    assert_eq!(join_path("", "a"), "a");
    assert_eq!(join_path("/srv", "/etc/passwd"), "/etc/passwd");
    assert_eq!(join_path("/srv", ""), "/srv/");
}

#[test]
fn the_name_of_a_path_is_its_last_segment() {
    assert_eq!(file_name("/home/u/docs"), Some("docs".to_string()));
    assert_eq!(file_name("/home/u/docs/"), Some("docs".to_string()));
    assert_eq!(file_name("notes.txt"), Some("notes.txt".to_string()));
    assert_eq!(file_name("/"), None);
    assert_eq!(file_name(""), None);
}
