//! Directory listings: which children are shown, in which order, and how
//! each is described.

use vstd::prelude::*;
use crate::cli::DirectoryListingViewType;
use crate::order::{lemma_name_le_total, lemma_name_le_transitive, name_le, sort_key, SortKey};
use crate::resolve::is_single_root;
use crate::sizes::{
    directory_paths, distinct_paths, lemma_walk_remembers_every_directory, size_at, total, walk,
    FsNode, SizeCache, Sizes,
};
use crate::state::AppState;
use crate::text::{
    closed_pieces, ends_with_slash, file_name, is_name, last_piece, lemma_pieces_before_plain_text,
    lemma_segments_of_lone_name, name_of, push_char, segments, split_segments, texts,
};
use crate::url::{encode_url_spaces, spaces_encoded};

verus! {

/// A point in time: whole seconds since the Unix epoch and the nanoseconds
/// of the second begun.
#[derive(Debug, Clone, Copy, PartialEq, Eq, Structural)]
pub struct Timestamp {
    pub secs: u64,
    pub nanos: u32,
}

/// What a child of a directory is.
#[derive(Debug, Clone, Copy, PartialEq, Eq, Structural)]
pub enum EntryKind {
    /// A directory.
    Directory,
    /// A symbolic link, whatever it points to.
    Symlink,
    /// A regular file, or anything else.
    File,
}

/// A child of a directory as it was found on disk.
#[derive(Debug)]
pub struct Child {
    /// The path of the child.
    pub path: String,
    /// What the child is.
    pub kind: EntryKind,
    /// Its length in bytes as the disk reports it.
    pub size: u64,
    /// When it was last modified.
    pub modified: Timestamp,
}

/// The name of a path, empty if it has none.
pub open spec fn name_or_empty(path: Seq<char>) -> Seq<char> {
    match name_of(path) {
        Some(name) => name,
        None => Seq::empty(),
    }
}

/// The name a child is listed under: the name of its path.
pub open spec fn child_name(child: Child) -> Seq<char> {
    name_or_empty(child.path@)
}

/// Whether `a` may stand before `b` in a listing.
pub open spec fn listed_before(a: Child, b: Child) -> bool {
    name_le(child_name(a), child_name(b))
}

/// `sorted` with `child` put behind the last entry that may stand before it.
pub open spec fn inserted(sorted: Seq<Child>, child: Child) -> Seq<Child>
    decreases sorted.len(),
{
    if sorted.len() == 0 || listed_before(sorted.last(), child) {
        sorted.push(child)
    } else {
        inserted(sorted.drop_last(), child).push(sorted.last())
    }
}

/// The children in the order of a listing. Children that may stand before
/// each other keep the order they came in.
pub open spec fn listing_order(children: Seq<Child>) -> Seq<Child>
    decreases children.len(),
{
    if children.len() == 0 {
        Seq::empty()
    } else {
        inserted(listing_order(children.drop_last()), children.last())
    }
}

/// Whether each entry may stand before all that follow it.
pub open spec fn ordered(entries: Seq<Child>) -> bool {
    forall|i: int, j: int| 0 <= i < j < entries.len() ==> listed_before(entries[i], entries[j])
}

/// Where `inserted` puts a child: behind the last entry that may stand
/// before it.
pub proof fn lemma_inserted_at(sorted: Seq<Child>, child: Child, p: int)
    requires
        0 <= p <= sorted.len(),
        forall|j: int| p <= j < sorted.len() ==> !listed_before(sorted[j], child),
        p > 0 ==> listed_before(sorted[p - 1], child),
    ensures
        inserted(sorted, child) == sorted.insert(p, child),
    decreases sorted.len() - p,
{
    if p == sorted.len() {
        assert(sorted.insert(p, child) =~= sorted.push(child));
    } else {
        lemma_inserted_at(sorted.drop_last(), child, p);
        assert(sorted.insert(p, child) =~= sorted.drop_last().insert(p, child).push(sorted.last()));
    }
}

/// The place that `inserted` puts a child at.
pub proof fn lemma_inserted_somewhere(sorted: Seq<Child>, child: Child) -> (p: int)
    ensures
        0 <= p <= sorted.len(),
        inserted(sorted, child) == sorted.insert(p, child),
        forall|j: int| p <= j < sorted.len() ==> !listed_before(sorted[j], child),
        p > 0 ==> listed_before(sorted[p - 1], child),
    decreases sorted.len(),
{
    if sorted.len() == 0 || listed_before(sorted.last(), child) {
        assert(sorted.insert(sorted.len() as int, child) =~= sorted.push(child));
        sorted.len() as int
    } else {
        let shorter = sorted.drop_last();
        let p = lemma_inserted_somewhere(shorter, child);
        assert(sorted.insert(p, child) =~= shorter.insert(p, child).push(sorted.last()));
        assert forall|j: int| p <= j < sorted.len() implies !listed_before(sorted[j], child) by {
            if j < shorter.len() {
                assert(sorted[j] == shorter[j]);
            }
        }
        if p > 0 {
            assert(sorted[p - 1] == shorter[p - 1]);
        }
        p
    }
}

/// Putting a child into an ordered listing leaves it ordered, and adds the
/// child and nothing else.
pub proof fn lemma_inserted_keeps_order(sorted: Seq<Child>, child: Child)
    requires
        ordered(sorted),
    ensures
        ordered(inserted(sorted, child)),
        inserted(sorted, child).to_multiset() == sorted.to_multiset().insert(child),
{
    let p = lemma_inserted_somewhere(sorted, child);
    let longer = sorted.insert(p, child);
    assert forall|i: int, j: int| 0 <= i < j < longer.len() implies listed_before(
        longer[i],
        longer[j],
    ) by {
        if j < p {
            assert(listed_before(sorted[i], sorted[j]));
        } else if j == p {
            if i < p - 1 {
                assert(listed_before(sorted[i], sorted[p - 1]));
                lemma_name_le_transitive(
                    child_name(sorted[i]),
                    child_name(sorted[p - 1]),
                    child_name(child),
                );
            }
        } else if i == p {
            lemma_name_le_total(child_name(sorted[j - 1]), child_name(child));
        } else if i < p {
            assert(longer[j] == sorted[j - 1]);
            assert(listed_before(sorted[i], sorted[j - 1]));
        } else {
            assert(longer[i] == sorted[i - 1] && longer[j] == sorted[j - 1]);
            assert(listed_before(sorted[i - 1], sorted[j - 1]));
        }
    }
    assert(longer.remove(p) =~= sorted);
    vstd::seq_lib::to_multiset_remove(longer, p);
    assert(longer.to_multiset().count(child) > 0) by {
        longer.to_multiset_ensures();
        assert(longer.contains(longer[p]));
    }
    assert(longer.to_multiset() =~= sorted.to_multiset().insert(child));
}

/// A listing is ordered.
pub proof fn lemma_listing_is_ordered(children: Seq<Child>)
    ensures
        ordered(listing_order(children)),
    decreases children.len(),
{
    if children.len() > 0 {
        lemma_listing_is_ordered(children.drop_last());
        lemma_inserted_keeps_order(listing_order(children.drop_last()), children.last());
    }
}

/// A listing holds the children it was made of, each as often as it came.
pub proof fn lemma_listing_is_permutation(children: Seq<Child>)
    ensures
        listing_order(children).to_multiset() == children.to_multiset(),
    decreases children.len(),
{
    if children.len() > 0 {
        lemma_listing_is_ordered(children.drop_last());
        lemma_listing_is_permutation(children.drop_last());
        lemma_inserted_keeps_order(listing_order(children.drop_last()), children.last());
        assert(children.drop_last().push(children.last()) =~= children);
        vstd::seq_lib::to_multiset_build(children.drop_last(), children.last());
    } else {
        assert(listing_order(children) =~= children);
    }
}

/// The name of `path`, empty if it has none.
pub fn name_or_empty_of(path: &str) -> (name: String)
    ensures
        name@ == name_or_empty(path@),
{
    match file_name(path) {
        Some(name) => name,
        None => String::new(),
    }
}

/// Puts the children in the order of a listing: by name without regard to
/// case, a lowercase letter before its uppercase twin.
pub fn sort_children(children: Vec<Child>) -> (sorted: Vec<Child>)
    ensures
        sorted@ == listing_order(children@),
{
    let mut sorted: Vec<Child> = Vec::new();
    let mut keys: Vec<SortKey> = Vec::new();
    let ghost all = children@;
    for child in it: children
        invariant
            it.seq() == all,
            sorted@ == listing_order(all.take(it.index() as int)),
            keys@.len() == sorted@.len(),
            forall|j: int|
                0 <= j < keys@.len() ==> (#[trigger] keys@[j])@ == sort_key(child_name(sorted@[j])),
    {
        proof {
            let i = it.index() as int;
            assert(all.take(i + 1).drop_last() == all.take(i));
            assert(all.take(i + 1).last() == child);
        }
        let name = name_or_empty_of(child.path.as_str());
        let key = SortKey::of(name.as_str());
        let mut p: usize = sorted.len();
        while p > 0 && !keys[p - 1].le(&key)
            invariant
                p <= sorted@.len(),
                keys@.len() == sorted@.len(),
                key@ == sort_key(child_name(child)),
                forall|j: int|
                    0 <= j < keys@.len() ==> (#[trigger] keys@[j])@ == sort_key(
                        child_name(sorted@[j]),
                    ),
                forall|j: int| p <= j < sorted@.len() ==> !listed_before(sorted@[j], child),
            decreases p,
        {
            p -= 1;
        }
        proof {
            lemma_inserted_at(sorted@, child, p as int);
        }
        sorted.insert(p, child);
        keys.insert(p, key);
    }
    assert(all.take(all.len() as int) == all);
    sorted
}


/// Whether `char::is_whitespace` holds of a character.
pub uninterp spec fn char_is_whitespace(c: char) -> bool;

/// `char::is_whitespace` of std: whether the character has the Unicode
/// property White_Space. The contract only names the result.
#[verifier::external_body]
fn is_whitespace(c: char) -> (blank: bool)
    ensures
        blank == char_is_whitespace(c),
{
    c.is_whitespace()
}

/// Whether a text holds nothing but whitespace.
pub open spec fn is_blank(s: Seq<char>) -> bool {
    forall|i: int| 0 <= i < s.len() ==> char_is_whitespace(#[trigger] s[i])
}

/// A text as a page shows it: between quotation marks if it is blank, so
/// that it can be seen, and as it is otherwise.
pub open spec fn quoted_if_blank(s: Seq<char>) -> Seq<char> {
    if is_blank(s) {
        seq!['"'] + s + seq!['"']
    } else {
        s
    }
}

/// Puts a text that holds nothing but whitespace between quotation marks.
pub fn wrap_empty_string_in_quotation_marks(string: &str) -> (shown: String)
    ensures
        shown@ == quoted_if_blank(string@),
{
    let mut blank = true;
    for c in it: string.chars()
        invariant
            it.seq() == string@,
            blank == is_blank(string@.take(it.index() as int)),
    {
        let ghost i = it.index() as int;
        let here = is_whitespace(c);
        proof {
            if blank && here {
                assert forall|j: int| 0 <= j < i + 1 implies char_is_whitespace(
                    #[trigger] string@.take(i + 1)[j],
                ) by {
                    if j < i {
                        assert(string@.take(i)[j] == string@[j]);
                    }
                }
            } else if !here {
                assert(string@.take(i + 1)[i] == c);
            } else {
                let j = choose|j: int| 0 <= j < i && !char_is_whitespace(#[trigger] string@.take(i)[j]);
                assert(string@.take(i + 1)[j] == string@[j]);
            }
        }
        blank = blank && here;
    }
    assert(string@.take(string@.len() as int) == string@);
    if blank {
        let mut shown = String::new();
        push_char(&mut shown, '"');
        shown.append(string);
        push_char(&mut shown, '"');
        assert(shown@ == seq!['"'] + string@ + seq!['"']);
        shown
    } else {
        String::from_str(string)
    }
}

/// The URL of the directory with the given segments: `/`, then each segment
/// with a `/` behind it.
pub open spec fn directory_url(parts: Seq<Seq<char>>) -> Seq<char>
    decreases parts.len(),
{
    if parts.len() == 0 {
        seq!['/']
    } else {
        (directory_url(parts.drop_last()) + parts.last()).push('/')
    }
}

/// One step of the path to the listed directory.
#[derive(Debug)]
pub struct PathComponent {
    /// The name that is shown.
    pub name: String,
    /// The URL of the directory.
    pub url: String,
}

/// A step of the path, in characters.
pub struct ComponentShape {
    pub name: Seq<char>,
    pub url: Seq<char>,
}

impl View for PathComponent {
    type V = ComponentShape;

    open spec fn view(&self) -> ComponentShape {
        ComponentShape { name: self.name@, url: self.url@ }
    }
}

/// One line of a listing.
#[derive(Debug)]
pub struct EntryData {
    /// The name of the child.
    pub name: String,
    /// The URL of the child: relative to the listed directory on a page,
    /// absolute in a data response.
    pub url: String,
    /// Whether the child is a directory.
    pub directory: bool,
    /// The size in bytes; none for a directory whose size is not known yet.
    pub size: Option<u64>,
    /// When the child was last modified.
    pub modified: Timestamp,
}

/// A line of a listing, in characters.
pub struct EntryShape {
    pub name: Seq<char>,
    pub url: Seq<char>,
    pub directory: bool,
    pub size: Option<u64>,
    pub modified: Timestamp,
}

impl View for EntryData {
    type V = EntryShape;

    open spec fn view(&self) -> EntryShape {
        EntryShape {
            name: self.name@,
            url: self.url@,
            directory: self.directory,
            size: self.size,
            modified: self.modified,
        }
    }
}

/// What a directory page shows.
#[derive(Debug)]
pub struct PageData {
    /// The title of the page.
    pub title: String,
    /// The path to the listed directory, from the top.
    pub path_components: Vec<PathComponent>,
    /// The children that are shown, in order.
    pub entries: Vec<EntryData>,
    /// Whether clients may upload.
    pub upload_enabled: bool,
    /// Whether uploads may overwrite.
    pub upload_overwrite: bool,
    /// Whether the page lists the roots.
    pub virtual_directory: bool,
    /// The view the page starts in.
    pub default_view: DirectoryListingViewType,
}

/// A directory page, in characters.
pub struct PageShape {
    pub title: Seq<char>,
    pub path_components: Seq<ComponentShape>,
    pub entries: Seq<EntryShape>,
    pub upload_enabled: bool,
    pub upload_overwrite: bool,
    pub virtual_directory: bool,
    pub default_view: DirectoryListingViewType,
}

impl View for PageData {
    type V = PageShape;

    open spec fn view(&self) -> PageShape {
        PageShape {
            title: self.title@,
            path_components: self.path_components@.map_values(|c: PathComponent| c@),
            entries: self.entries@.map_values(|e: EntryData| e@),
            upload_enabled: self.upload_enabled,
            upload_overwrite: self.upload_overwrite,
            virtual_directory: self.virtual_directory,
            default_view: self.default_view,
        }
    }
}

/// Whether a child is left out of a listing: symbolic links are, and the
/// names `.` and `..`.
pub open spec fn is_hidden(child: Child) -> bool {
    child.kind == EntryKind::Symlink || child_name(child) == seq!['.'] || child_name(child)
        == seq!['.', '.']
}

/// The line of a child: its name; its URL, which is `prefix`, the name, and
/// a `/` for a directory, with spaces encoded; for a directory the size that
/// the cache holds, for anything else the length on disk.
pub open spec fn entry_of(child: Child, prefix: Seq<char>, cache: Sizes) -> EntryShape {
    let name = child_name(child);
    if child.kind == EntryKind::Directory {
        EntryShape {
            name,
            url: spaces_encoded((prefix + name).push('/')),
            directory: true,
            size: if cache.contains_key(child.path@) {
                Some(cache[child.path@])
            } else {
                None
            },
            modified: child.modified,
        }
    } else {
        EntryShape {
            name,
            url: spaces_encoded(prefix + name),
            directory: false,
            size: Some(child.size),
            modified: child.modified,
        }
    }
}

/// The lines of the children that are shown, in the order of the children.
pub open spec fn entries_of(children: Seq<Child>, prefix: Seq<char>, cache: Sizes) -> Seq<
    EntryShape,
>
    decreases children.len(),
{
    if children.len() == 0 {
        Seq::empty()
    } else if is_hidden(children.last()) {
        entries_of(children.drop_last(), prefix, cache)
    } else {
        entries_of(children.drop_last(), prefix, cache).push(
            entry_of(children.last(), prefix, cache),
        )
    }
}

/// The name of the top of the path: one for the virtual directory, one for
/// a single root.
pub open spec fn top_name(roots_are_virtual: bool) -> Seq<char> {
    if roots_are_virtual {
        "Virtual Directory"@
    } else {
        "Root Directory"@
    }
}

/// The path to the directory with the given segments: the top, then one
/// step for each segment.
pub open spec fn components_of(parts: Seq<Seq<char>>, roots_are_virtual: bool) -> Seq<
    ComponentShape,
>
    decreases parts.len(),
{
    if parts.len() == 0 {
        seq![ComponentShape { name: top_name(roots_are_virtual), url: seq!['/'] }]
    } else {
        components_of(parts.drop_last(), roots_are_virtual).push(
            ComponentShape { name: quoted_if_blank(parts.last()), url: directory_url(parts) },
        )
    }
}

/// The title of the page: the last segment of the path; at the top the
/// configured title, or the name of the program.
pub open spec fn title_of(parts: Seq<Seq<char>>, configured: Option<String>) -> Seq<char> {
    quoted_if_blank(
        if parts.len() > 0 {
            parts.last()
        } else {
            match configured {
                Some(title) => title@,
                None => "gshare3"@,
            }
        },
    )
}

/// The page for a listing of `children` under the (decoded) request path.
pub open spec fn page_of(
    state: AppState,
    request: Seq<char>,
    data_request: bool,
    virtual_directory: bool,
    children: Seq<Child>,
    cache: Sizes,
) -> PageShape {
    let parts = segments(request);
    PageShape {
        title: title_of(parts, state.title),
        path_components: components_of(parts, !is_single_root(state.paths@)),
        entries: entries_of(
            listing_order(children),
            if data_request {
                directory_url(parts)
            } else {
                Seq::empty()
            },
            cache,
        ),
        upload_enabled: state.upload || state.upload_overwrite,
        upload_overwrite: state.upload_overwrite,
        virtual_directory,
        default_view: state.default_view,
    }
}

/// The line of a child that is shown.
fn describe(child: &Child, name: String, prefix: &str, cache: &SizeCache) -> (entry: EntryData)
    requires
        name@ == child_name(*child),
    ensures
        entry@ == entry_of(*child, prefix@, cache@),
{
    let mut url = String::from_str(prefix);
    url.append(name.as_str());
    match child.kind {
        EntryKind::Directory => {
            push_char(&mut url, '/');
            EntryData {
                name,
                url: encode_url_spaces(url.as_str()),
                directory: true,
                size: cache.get(child.path.as_str()),
                modified: child.modified,
            }
        },
        _ => EntryData {
            name,
            url: encode_url_spaces(url.as_str()),
            directory: false,
            size: Some(child.size),
            modified: child.modified,
        },
    }
}

/// The lines of the children that are shown.
fn describe_all(children: &Vec<Child>, prefix: &str, cache: &SizeCache) -> (entries: Vec<
    EntryData,
>)
    ensures
        entries@.map_values(|e: EntryData| e@) == entries_of(children@, prefix@, cache@),
{
    let dot = String::from_str(".");
    let dots = String::from_str("..");
    proof {
        reveal_strlit(".");
        reveal_strlit("..");
        assert(dot@ =~= seq!['.']);
        assert(dots@ =~= seq!['.', '.']);
    }
    let mut entries: Vec<EntryData> = Vec::new();
    let mut i: usize = 0;
    while i < children.len()
        invariant
            i <= children.len(),
            dot@ == seq!['.'],
            dots@ == seq!['.', '.'],
            entries@.map_values(|e: EntryData| e@) == entries_of(
                children@.take(i as int),
                prefix@,
                cache@,
            ),
        decreases children.len() - i,
    {
        proof {
            assert(children@.take(i + 1).drop_last() == children@.take(i as int));
            assert(children@.take(i + 1).last() == children@[i as int]);
        }
        let child = &children[i];
        let name = name_or_empty_of(child.path.as_str());
        let hidden = child.kind == EntryKind::Symlink || name == dot || name == dots;
        if !hidden {
            let ghost before = entries@;
            let entry = describe(child, name, prefix, cache);
            entries.push(entry);
            assert(entries@.map_values(|e: EntryData| e@) == before.map_values(
                |e: EntryData| e@,
            ).push(entry@));
        }
        i += 1;
    }
    assert(children@.take(children@.len() as int) == children@);
    entries
}

/// The page that lists `children`, the children of the directory that the
/// decoded `request_path` names (the roots, for the virtual directory).
/// A data request gets absolute URLs, a page relative ones.
pub fn directory_page(
    state: &AppState,
    request_path: &str,
    is_data_request: bool,
    virtual_directory: bool,
    children: Vec<Child>,
    cache: &SizeCache,
) -> (page: PageData)
    ensures
        page@ == page_of(
            *state,
            request_path@,
            is_data_request,
            virtual_directory,
            children@,
            cache@,
        ),
{
    let parts = split_segments(request_path);
    let ghost names = segments(request_path@);
    let roots_are_virtual = !state.paths.is_single_root();
    let mut path_components: Vec<PathComponent> = Vec::new();
    path_components.push(
        PathComponent {
            name: if roots_are_virtual {
                String::from_str("Virtual Directory")
            } else {
                String::from_str("Root Directory")
            },
            url: String::from_str("/"),
        },
    );
    let mut url = String::from_str("/");
    proof {
        reveal_strlit("/");
        assert("/"@ =~= seq!['/']);
        assert(names.take(0) == Seq::<Seq<char>>::empty());
        assert(path_components@.map_values(|c: PathComponent| c@) == components_of(
            names.take(0),
            roots_are_virtual,
        ));
    }
    let mut i: usize = 0;
    while i < parts.len()
        invariant
            i <= parts.len(),
            texts(parts@) == names,
            url@ == directory_url(names.take(i as int)),
            path_components@.map_values(|c: PathComponent| c@) == components_of(
                names.take(i as int),
                roots_are_virtual,
            ),
        decreases parts.len() - i,
    {
        proof {
            assert(names.take(i + 1).drop_last() == names.take(i as int));
            assert(names.take(i + 1).last() == parts@[i as int]@);
        }
        url.append(parts[i].as_str());
        push_char(&mut url, '/');
        let ghost before = path_components@;
        let step = PathComponent {
            name: wrap_empty_string_in_quotation_marks(parts[i].as_str()),
            url: url.clone(),
        };
        path_components.push(step);
        assert(path_components@.map_values(|c: PathComponent| c@) == before.map_values(
            |c: PathComponent| c@,
        ).push(step@));
        i += 1;
    }
    proof {
        assert(names.take(names.len() as int) == names);
        if names.len() > 0 {
            assert(names.last() == parts@[parts@.len() - 1]@);
        }
    }
    let title = if parts.len() > 0 {
        wrap_empty_string_in_quotation_marks(parts[parts.len() - 1].as_str())
    } else {
        match &state.title {
            Some(title) => wrap_empty_string_in_quotation_marks(title.as_str()),
            None => wrap_empty_string_in_quotation_marks("gshare3"),
        }
    };
    let prefix = if is_data_request {
        url
    } else {
        String::new()
    };
    let sorted = sort_children(children);
    let entries = describe_all(&sorted, prefix.as_str(), cache);
    PageData {
        title,
        path_components,
        entries,
        upload_enabled: state.upload || state.upload_overwrite,
        upload_overwrite: state.upload_overwrite,
        virtual_directory,
        default_view: state.default_view,
    }
}


/// Every line of a listing is the line of a child that is shown: of no
/// symbolic link, and of no child named `.` or `..`.
pub proof fn lemma_entries_stem_from_shown_children(
    children: Seq<Child>,
    prefix: Seq<char>,
    cache: Sizes,
)
    ensures
        forall|i: int|
            0 <= i < entries_of(children, prefix, cache).len() ==> exists|j: int|
                0 <= j < children.len() && !is_hidden(children[j]) && #[trigger] entries_of(
                    children,
                    prefix,
                    cache,
                )[i] == entry_of(#[trigger] children[j], prefix, cache),
    decreases children.len(),
{
    if children.len() > 0 {
        let fewer = children.drop_last();
        lemma_entries_stem_from_shown_children(fewer, prefix, cache);
        let entries = entries_of(children, prefix, cache);
        assert forall|i: int| 0 <= i < entries.len() implies exists|j: int|
            0 <= j < children.len() && !is_hidden(children[j]) && #[trigger] entries[i]
                == entry_of(#[trigger] children[j], prefix, cache) by {
            if i < entries_of(fewer, prefix, cache).len() {
                assert(entries[i] == entries_of(fewer, prefix, cache)[i]);
                let j = choose|j: int|
                    0 <= j < fewer.len() && !is_hidden(fewer[j]) && entries_of(
                        fewer,
                        prefix,
                        cache,
                    )[i] == entry_of(#[trigger] fewer[j], prefix, cache);
                assert(children[j] == fewer[j]);
            } else {
                let j = children.len() - 1;
                assert(entries[i] == entry_of(children[j], prefix, cache));
            }
        }
    }
}

/// A page lists no symbolic link: each of its lines is the line of one of
/// the children, and that child is no symbolic link.
pub proof fn lemma_page_lists_no_symlink(
    state: AppState,
    request: Seq<char>,
    data_request: bool,
    virtual_directory: bool,
    children: Seq<Child>,
    cache: Sizes,
)
    ensures
        forall|i: int|
            #![trigger page_of(state, request, data_request, virtual_directory, children, cache).entries[i]]
            0 <= i < page_of(
                state,
                request,
                data_request,
                virtual_directory,
                children,
                cache,
            ).entries.len() ==> exists|j: int|
                0 <= j < children.len() && (#[trigger] children[j]).kind != EntryKind::Symlink
                    && page_of(
                    state,
                    request,
                    data_request,
                    virtual_directory,
                    children,
                    cache,
                ).entries[i].name == child_name(children[j]),
{
    let page = page_of(state, request, data_request, virtual_directory, children, cache);
    let sorted = listing_order(children);
    let prefix = if data_request {
        directory_url(segments(request))
    } else {
        Seq::empty()
    };
    lemma_entries_stem_from_shown_children(sorted, prefix, cache);
    lemma_listing_is_permutation(children);
    assert forall|i: int|
        #![trigger page.entries[i]]
        0 <= i < page.entries.len() implies exists|j: int|
        0 <= j < children.len() && (#[trigger] children[j]).kind != EntryKind::Symlink
            && page.entries[i].name == child_name(children[j]) by {
        let k = choose|k: int|
            0 <= k < sorted.len() && !is_hidden(sorted[k]) && entries_of(sorted, prefix, cache)[i]
                == entry_of(#[trigger] sorted[k], prefix, cache);
        sorted.to_multiset_ensures();
        children.to_multiset_ensures();
        assert(sorted.contains(sorted[k]));
        assert(sorted.to_multiset().count(sorted[k]) > 0);
        assert(children.to_multiset().count(sorted[k]) > 0);
        assert(children.contains(sorted[k]));
        let j = choose|j: int| 0 <= j < children.len() && children[j] == sorted[k];
        assert(children[j].kind != EntryKind::Symlink);
    }
}


/// The URL of a directory leads back to it: the segments of the URL are
/// the segments it was made of, and it ends in `/`, as the path of a
/// directory must.
pub proof fn lemma_segments_of_directory_url(parts: Seq<Seq<char>>)
    requires
        forall|i: int| 0 <= i < parts.len() ==> is_name(#[trigger] parts[i]),
    ensures
        segments(directory_url(parts)) == parts,
        ends_with_slash(directory_url(parts)),
    decreases parts.len(),
{
    if parts.len() == 0 {
        lemma_segments_of_lone_name(seq!['a']);
        assert(parts =~= Seq::<Seq<char>>::empty());
    } else {
        let before = parts.drop_last();
        let name = parts.last();
        let url = directory_url(before);
        lemma_segments_of_directory_url(before);
        assert(last_piece(url) == Seq::<char>::empty());
        assert(closed_pieces(url) == before);
        lemma_pieces_before_plain_text(url, name);
        assert(Seq::<char>::empty() + name == name);
        let whole = (url + name).push('/');
        assert(whole.drop_last() == url + name);
        assert(whole.last() == '/');
        assert(closed_pieces(whole) == before.push(name));
        assert(before.push(name) == parts);
    }
}

/// Once the sizes of a tree are found, a listing shows the size of each of
/// its directories: after a walk over a tree whose directories have
/// distinct paths, none of them remembered before, the line of a directory
/// of the tree gives the bytes of all regular files under it.
pub proof fn lemma_listing_shows_found_size(
    tree: FsNode,
    before: Sizes,
    child: Child,
    prefix: Seq<char>,
)
    requires
        distinct_paths(tree),
        forall|p: Seq<char>| directory_paths(tree).contains(p) ==> !before.contains_key(p),
        total(tree) <= u64::MAX,
        child.kind == EntryKind::Directory,
        directory_paths(tree).contains(child.path@),
    ensures
        size_at(tree, child.path@) is Some,
        entry_of(child, prefix, walk(tree, before).1).size == Some(
            size_at(tree, child.path@)->0 as u64,
        ),
{
    lemma_walk_remembers_every_directory(tree, before);
    let after = walk(tree, before).1;
    assert(directory_paths(tree).contains(child.path@));
    assert(after.contains_key(child.path@));
}

/// Every child that is shown has its line in the listing.
pub proof fn lemma_shown_children_are_listed(
    children: Seq<Child>,
    prefix: Seq<char>,
    cache: Sizes,
    j: int,
)
    requires
        0 <= j < children.len(),
        !is_hidden(children[j]),
    ensures
        exists|i: int|
            0 <= i < entries_of(children, prefix, cache).len() && #[trigger] entries_of(
                children,
                prefix,
                cache,
            )[i] == entry_of(children[j], prefix, cache),
    decreases children.len(),
{
    let entries = entries_of(children, prefix, cache);
    let fewer = children.drop_last();
    if j == children.len() - 1 {
        let i = entries.len() - 1;
        assert(entries[i] == entry_of(children[j], prefix, cache));
    } else {
        lemma_shown_children_are_listed(fewer, prefix, cache, j);
        let i = choose|i: int|
            0 <= i < entries_of(fewer, prefix, cache).len() && #[trigger] entries_of(
                fewer,
                prefix,
                cache,
            )[i] == entry_of(fewer[j], prefix, cache);
        assert(fewer[j] == children[j]);
        assert(entries[i] == entries_of(fewer, prefix, cache)[i]);
    }
}

/// Once the sizes of a tree are found, a page shows them: a directory of
/// the tree among the children has a line on the page, and the line gives
/// the bytes of all regular files under the directory.
pub proof fn lemma_page_shows_found_sizes(
    state: AppState,
    request: Seq<char>,
    data_request: bool,
    virtual_directory: bool,
    children: Seq<Child>,
    j: int,
    tree: FsNode,
    before: Sizes,
)
    requires
        distinct_paths(tree),
        forall|p: Seq<char>| directory_paths(tree).contains(p) ==> !before.contains_key(p),
        total(tree) <= u64::MAX,
        0 <= j < children.len(),
        children[j].kind == EntryKind::Directory,
        !is_hidden(children[j]),
        directory_paths(tree).contains(children[j].path@),
    ensures
        size_at(tree, children[j].path@) is Some,
        exists|i: int|
            #![trigger page_of(state, request, data_request, virtual_directory, children, walk(tree, before).1).entries[i]]
            {
                let line = page_of(
                    state,
                    request,
                    data_request,
                    virtual_directory,
                    children,
                    walk(tree, before).1,
                ).entries[i];
                &&& 0 <= i < page_of(
                    state,
                    request,
                    data_request,
                    virtual_directory,
                    children,
                    walk(tree, before).1,
                ).entries.len()
                &&& line.name == child_name(children[j])
                &&& line.directory
                &&& line.size == Some(size_at(tree, children[j].path@)->0 as u64)
            },
{
    let cache = walk(tree, before).1;
    let page = page_of(state, request, data_request, virtual_directory, children, cache);
    let sorted = listing_order(children);
    let prefix = if data_request {
        directory_url(segments(request))
    } else {
        Seq::empty()
    };
    let child = children[j];
    lemma_listing_shows_found_size(tree, before, child, prefix);
    lemma_listing_is_permutation(children);
    sorted.to_multiset_ensures();
    children.to_multiset_ensures();
    assert(children.contains(child));
    assert(children.to_multiset().count(child) > 0);
    assert(sorted.to_multiset().count(child) > 0);
    assert(sorted.contains(child));
    let k = choose|k: int| 0 <= k < sorted.len() && sorted[k] == child;
    lemma_shown_children_are_listed(sorted, prefix, cache, k);
    let i = choose|i: int|
        0 <= i < entries_of(sorted, prefix, cache).len() && #[trigger] entries_of(
            sorted,
            prefix,
            cache,
        )[i] == entry_of(sorted[k], prefix, cache);
    assert(page.entries[i] == entry_of(child, prefix, cache));
}

} // verus!
