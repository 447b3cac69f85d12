use gshare3::cli::DirectoryListingViewType;
use gshare3::listing::{
    directory_page, name_or_empty_of, sort_children, wrap_empty_string_in_quotation_marks, Child,
    EntryKind, Timestamp,
};
use gshare3::order::{chars_of, SortKey};
use gshare3::sizes::{size_of, FsNode, SizeCache};
use gshare3::state::{AppState, Root, RootSet};

fn state_of(roots: &[(&str, bool)], title: Option<&str>) -> AppState {
    let roots = roots
        .iter()
        .map(|(path, is_directory)| Root { path: path.to_string(), is_directory: *is_directory })
        .collect();
    AppState {
        whitelisted_ips: Vec::new(),
        paths: RootSet::new(roots).unwrap(),
        upload: true,
        upload_overwrite: false,
        default_view: DirectoryListingViewType::CompactList,
        title: title.map(|t| t.to_string()),
    }
}

fn child(path: &str, kind: EntryKind, size: u64) -> Child {
    Child { path: path.to_string(), kind, size, modified: Timestamp { secs: size + 1, nanos: 500 } }
}

fn names_sorted(names: &[&str]) -> Vec<String> {
    let children = names.iter().map(|n| child(&format!("/d/{n}"), EntryKind::File, 0)).collect();
    sort_children(children).iter().map(|c| name_or_empty_of(&c.path)).collect()
}

#[test]
fn lowercase_stands_before_its_uppercase_twin() {
    assert_eq!(names_sorted(&["b", "A", "a", "B"]), ["a", "A", "b", "B"]);
    assert_eq!(names_sorted(&["File", "file"]), ["file", "File"]);
    assert_eq!(names_sorted(&["file", "File"]), ["file", "File"]);
}

#[test]
fn names_are_ordered_without_regard_to_case() {
    assert_eq!(names_sorted(&["Zeta", "alpha", "Beta", "gamma"]), ["alpha", "Beta", "gamma", "Zeta"]);
    assert_eq!(names_sorted(&["b10", "B2", "a", "ab", "A b"]), ["a", "A b", "ab", "b10", "B2"]);
    assert_eq!(names_sorted(&["Ärger", "zebra", "ärger"]), ["zebra", "ärger", "Ärger"]);
    assert!(names_sorted(&[]).is_empty());
}

#[test]
fn the_lowercase_name_decides_before_the_case() {
    assert_eq!(names_sorted(&["a!", "a"]), ["a", "a!"]);
    assert_eq!(names_sorted(&["aB", "Ab", "AB", "ab"]), ["ab", "aB", "Ab", "AB"]);
}

#[test]
fn keys_compare_as_pairs() {
    assert!(SortKey::of("a").le(&SortKey::of("A")));
    assert!(!SortKey::of("A").le(&SortKey::of("a")));
    assert!(SortKey::of("a").le(&SortKey::of("a")));
    assert!(SortKey::of("A").le(&SortKey::of("b")));
    assert!(!SortKey::of("b").le(&SortKey::of("A")));
    assert!(SortKey::of("").le(&SortKey::of("a")));
    assert!(!SortKey::of("a").le(&SortKey::of("")));
    assert!(SortKey::of("STRASSE").le(&SortKey::of("strassf")));
    assert!(!SortKey::of("straße").le(&SortKey::of("STRASSF")));
    assert_eq!(chars_of("aé"), vec!['a', 'é']);
}

#[test]
fn equal_names_keep_their_order() {
    let children = vec![
        child("/a/x", EntryKind::File, 1),
        child("/b/x", EntryKind::File, 2),
        child("/c/w", EntryKind::File, 3),
        child("/d/x", EntryKind::File, 4),
    ];
    let sizes: Vec<u64> = sort_children(children).iter().map(|c| c.size).collect();
    assert_eq!(sizes, [3, 1, 2, 4]);
}

#[test]
fn blank_texts_are_put_in_quotation_marks() {
    assert_eq!(wrap_empty_string_in_quotation_marks(""), "\"\"");
    assert_eq!(wrap_empty_string_in_quotation_marks(" "), "\" \"");
    assert_eq!(wrap_empty_string_in_quotation_marks(" \t\u{a0}"), "\" \t\u{a0}\"");
    assert_eq!(wrap_empty_string_in_quotation_marks("a"), "a");
    assert_eq!(wrap_empty_string_in_quotation_marks(" a "), " a ");
}

fn listed() -> Vec<Child> {
    vec![
        child("/srv/my dir/sub/b.txt", EntryKind::File, 10),
        child("/srv/my dir/sub/A dir", EntryKind::Directory, 4096),
        child("/srv/my dir/sub/link", EntryKind::Symlink, 7),
        child("/srv/my dir/sub/a.txt", EntryKind::File, 20),
        child("/srv/my dir/sub/unknown", EntryKind::Directory, 4096),
    ]
}

#[test]
fn a_page_lists_the_children_in_order_without_links() {
    let state = state_of(&[("/srv", true)], None);
    let mut cache = SizeCache::new();
    cache.insert("/srv/my dir/sub/A dir".to_string(), 42);
    let page = directory_page(&state, "/my dir/sub/", false, false, listed(), &cache);
    let names: Vec<&str> = page.entries.iter().map(|e| e.name.as_str()).collect();
    assert_eq!(names, ["A dir", "a.txt", "b.txt", "unknown"]);
    let urls: Vec<&str> = page.entries.iter().map(|e| e.url.as_str()).collect();
    assert_eq!(urls, ["A%20dir/", "a.txt", "b.txt", "unknown/"]);
    let directories: Vec<bool> = page.entries.iter().map(|e| e.directory).collect();
    assert_eq!(directories, [true, false, false, true]);
    let sizes: Vec<Option<u64>> = page.entries.iter().map(|e| e.size).collect();
    assert_eq!(sizes, [Some(42), Some(20), Some(10), None]);
    assert_eq!(page.entries[1].modified, Timestamp { secs: 21, nanos: 500 });
}

#[test]
fn a_data_response_has_absolute_urls() {
    let state = state_of(&[("/srv", true)], None);
    let cache = SizeCache::new();
    let page = directory_page(&state, "/my dir/sub/", true, false, listed(), &cache);
    let urls: Vec<&str> = page.entries.iter().map(|e| e.url.as_str()).collect();
    assert_eq!(
        urls,
        ["/my%20dir/sub/A%20dir/", "/my%20dir/sub/a.txt", "/my%20dir/sub/b.txt", "/my%20dir/sub/unknown/"]
    );
    let top = directory_page(&state, "/", true, false, vec![child("/srv/x y", EntryKind::File, 1)], &cache);
    assert_eq!(top.entries[0].url, "/x%20y");
}

#[test]
fn a_page_shows_the_path_and_the_title() {
    let state = state_of(&[("/srv", true)], Some("Shared"));
    let cache = SizeCache::new();
    let page = directory_page(&state, "/my dir/sub/", false, false, Vec::new(), &cache);
    assert_eq!(page.title, "sub");
    let steps: Vec<(&str, &str)> =
        page.path_components.iter().map(|c| (c.name.as_str(), c.url.as_str())).collect();
    assert_eq!(steps, [("Root Directory", "/"), ("my dir", "/my dir/"), ("sub", "/my dir/sub/")]);
    assert!(page.entries.is_empty());
    assert!(page.upload_enabled);
    assert!(!page.upload_overwrite);
    assert!(!page.virtual_directory);
    assert_eq!(page.default_view, DirectoryListingViewType::CompactList);
}

#[test]
fn the_top_page_has_the_configured_title() {
    let cache = SizeCache::new();
    let titled = state_of(&[("/srv", true)], Some("Shared"));
    assert_eq!(directory_page(&titled, "/", false, false, Vec::new(), &cache).title, "Shared");
    let plain = state_of(&[("/srv", true)], None);
    assert_eq!(directory_page(&plain, "/", false, false, Vec::new(), &cache).title, "gshare3");
    let blank = state_of(&[("/srv", true)], Some("  "));
    assert_eq!(directory_page(&blank, "/", false, false, Vec::new(), &cache).title, "\"  \"");
}

#[test]
fn a_blank_segment_is_shown_in_quotation_marks() {
    let state = state_of(&[("/srv", true)], None);
    let cache = SizeCache::new();
    let page = directory_page(&state, "/ /", false, false, Vec::new(), &cache);
    assert_eq!(page.title, "\" \"");
    assert_eq!(page.path_components[1].name, "\" \"");
    assert_eq!(page.path_components[1].url, "/ /");
}

#[test]
fn the_virtual_directory_lists_the_roots() {
    let state = state_of(&[("/home/u/notes.txt", false), ("/home/u/Docs", true)], None);
    let mut cache = SizeCache::new();
    cache.insert("/home/u/Docs".to_string(), 9000);
    let roots = vec![
        child("/home/u/notes.txt", EntryKind::File, 12),
        child("/home/u/Docs", EntryKind::Directory, 4096),
    ];
    let page = directory_page(&state, "/", false, true, roots, &cache);
    assert!(page.virtual_directory);
    assert_eq!(page.path_components.len(), 1);
    assert_eq!(page.path_components[0].name, "Virtual Directory");
    assert_eq!(page.path_components[0].url, "/");
    let lines: Vec<(&str, &str, Option<u64>)> =
        page.entries.iter().map(|e| (e.name.as_str(), e.url.as_str(), e.size)).collect();
    assert_eq!(lines, [("Docs", "Docs/", Some(9000)), ("notes.txt", "notes.txt", Some(12))]);
}

#[test]
fn dot_names_are_left_out() {
    let state = state_of(&[("/srv", true)], None);
    let cache = SizeCache::new();
    let children = vec![
        child("/srv/.", EntryKind::Directory, 0),
        child("/srv/..", EntryKind::Directory, 0),
        child("/srv/...", EntryKind::File, 0),
        child("/srv/.hidden", EntryKind::File, 0),
    ];
    let page = directory_page(&state, "/", false, false, children, &cache);
    let names: Vec<&str> = page.entries.iter().map(|e| e.name.as_str()).collect();
    assert_eq!(names, ["...", ".hidden"]);
}

#[test]
fn a_listing_shows_the_sizes_that_were_found() {
    let state = state_of(&[("/srv", true)], None);
    let tree = FsNode::Directory {
        path: "/srv".to_string(),
        children: vec![
            FsNode::File { size: 10 },
            FsNode::Directory {
                path: "/srv/a".to_string(),
                children: vec![
                    FsNode::File { size: 1 },
                    FsNode::Symlink,
                    FsNode::Directory { path: "/srv/a/deep".to_string(), children: vec![FsNode::File { size: 100 }] },
                    FsNode::Unreadable,
                ],
            },
            FsNode::Directory { path: "/srv/empty".to_string(), children: Vec::new() },
        ],
    };
    let mut cache = SizeCache::new();
    assert_eq!(size_of(&tree, &mut cache), Some(111));
    let top = vec![
        child("/srv/f", EntryKind::File, 10),
        child("/srv/empty", EntryKind::Directory, 4096),
        child("/srv/a", EntryKind::Directory, 4096),
    ];
    let page = directory_page(&state, "/", false, false, top, &cache);
    let lines: Vec<(&str, Option<u64>)> = page.entries.iter().map(|e| (e.name.as_str(), e.size)).collect();
    assert_eq!(lines, [("a", Some(101)), ("empty", Some(0)), ("f", Some(10))]);
    let inner = vec![child("/srv/a/deep", EntryKind::Directory, 4096)];
    let page = directory_page(&state, "/a/", false, false, inner, &cache);
    assert_eq!(page.entries[0].size, Some(100));
}
