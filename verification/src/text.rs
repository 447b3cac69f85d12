//! Character-level helpers on strings and on `/`-separated paths.

use vstd::prelude::*;

verus! {

/// The views of a sequence of strings.
pub open spec fn texts(v: Seq<String>) -> Seq<Seq<char>> {
    v.map_values(|s: String| s@)
}

/// `String::push` of std: appends one character to the string.
#[verifier::external_body]
pub(crate) fn push_char(s: &mut String, c: char)
    ensures
        final(s)@ == old(s)@.push(c),
{
    s.push(c)
}

/// The characters behind the last `/` of `s`; all of `s` if it has none.
pub open spec fn last_piece(s: Seq<char>) -> Seq<char>
    decreases s.len(),
{
    if s.len() == 0 || s.last() == '/' {
        Seq::empty()
    } else {
        last_piece(s.drop_last()).push(s.last())
    }
}

/// The non-empty pieces of `s` that a `/` ends, in order.
pub open spec fn closed_pieces(s: Seq<char>) -> Seq<Seq<char>>
    decreases s.len(),
{
    if s.len() == 0 {
        Seq::empty()
    } else if s.last() == '/' && last_piece(s.drop_last()).len() > 0 {
        closed_pieces(s.drop_last()).push(last_piece(s.drop_last()))
    } else {
        closed_pieces(s.drop_last())
    }
}

/// The segments of a path: what stands between its `/` separators, without
/// the empty pieces.
pub open spec fn segments(s: Seq<char>) -> Seq<Seq<char>> {
    if last_piece(s).len() > 0 {
        closed_pieces(s).push(last_piece(s))
    } else {
        closed_pieces(s)
    }
}

/// Splits a path into its segments.
pub fn split_segments(path: &str) -> (parts: Vec<String>)
    ensures
        texts(parts@) == segments(path@),
{
    let mut parts: Vec<String> = Vec::new();
    let mut current = String::new();
    for c in it: path.chars()
        invariant
            it.seq() == path@,
            current@ == last_piece(path@.take(it.index() as int)),
            texts(parts@) == closed_pieces(path@.take(it.index() as int)),
    {
        proof {
            let i = it.index() as int;
            assert(path@.take(i + 1).drop_last() == path@.take(i));
            assert(path@.take(i + 1).last() == c);
        }
        if c == '/' {
            if !current.as_str().is_empty() {
                let ghost before = parts@;
                parts.push(current);
                assert(texts(parts@) == texts(before).push(current@));
            }
            current = String::new();
        } else {
            push_char(&mut current, c);
        }
    }
    assert(path@.take(path@.len() as int) == path@);
    if !current.as_str().is_empty() {
        let ghost before = parts@;
        parts.push(current);
        assert(texts(parts@) == texts(before).push(current@));
    }
    parts
}


/// Whether `s` ends in `/`.
pub open spec fn ends_with_slash(s: Seq<char>) -> bool {
    s.len() > 0 && s.last() == '/'
}

/// Whether `s` begins with `/`.
pub open spec fn starts_with_slash(s: Seq<char>) -> bool {
    s.len() > 0 && s[0] == '/'
}

/// Whether `path` begins with `/`, and whether it ends in `/`.
pub fn slashes_at_ends(path: &str) -> (ends: (bool, bool))
    ensures
        ends.0 == starts_with_slash(path@),
        ends.1 == ends_with_slash(path@),
{
    let mut first = false;
    let mut last = false;
    let mut seen = false;
    for c in it: path.chars()
        invariant
            it.seq() == path@,
            seen == (it.index() > 0),
            first == (it.index() > 0 && path@[0] == '/'),
            last == (it.index() > 0 && path@[it.index() - 1] == '/'),
    {
        if !seen {
            first = c == '/';
            seen = true;
        }
        last = c == '/';
    }
    (first, last)
}

/// `piece` joined onto `base` as a path: an absolute `piece` stands for
/// itself, any other follows `base` behind exactly one `/`.
pub open spec fn path_joined(base: Seq<char>, piece: Seq<char>) -> Seq<char> {
    if starts_with_slash(piece) {
        piece
    } else if base.len() == 0 || ends_with_slash(base) {
        base + piece
    } else {
        base.push('/') + piece
    }
}

/// Joins `piece` onto the path `base`.
pub fn join_path(base: &str, piece: &str) -> (joined: String)
    ensures
        joined@ == path_joined(base@, piece@),
{
    if slashes_at_ends(piece).0 {
        return String::from_str(piece);
    }
    let mut joined = String::from_str(base);
    if !base.is_empty() && !slashes_at_ends(base).1 {
        push_char(&mut joined, '/');
    }
    joined.append(piece);
    joined
}

/// `parts` joined onto `base` one after the other.
pub open spec fn joined_onto(base: Seq<char>, parts: Seq<Seq<char>>) -> Seq<char>
    decreases parts.len(),
{
    if parts.len() == 0 {
        base
    } else {
        path_joined(joined_onto(base, parts.drop_last()), parts.last())
    }
}

/// Joins `parts[from..]` onto the path `base`.
pub fn join_onto(base: &str, parts: &Vec<String>, from: usize) -> (joined: String)
    requires
        from <= parts.len(),
    ensures
        joined@ == joined_onto(base@, texts(parts@).skip(from as int)),
{
    let mut joined = String::from_str(base);
    let mut i = from;
    let ghost tail = texts(parts@).skip(from as int);
    while i < parts.len()
        invariant
            from <= i <= parts.len(),
            tail == texts(parts@).skip(from as int),
            joined@ == joined_onto(base@, tail.take(i - from)),
        decreases parts.len() - i,
    {
        proof {
            assert(tail.take(i + 1 - from).drop_last() == tail.take(i - from));
            assert(tail.take(i + 1 - from).last() == parts@[i as int]@);
        }
        joined = join_path(joined.as_str(), parts[i].as_str());
        i += 1;
    }
    assert(tail.take(tail.len() as int) == tail);
    joined
}

/// The name of a path: its last segment, if it has one.
pub open spec fn name_of(path: Seq<char>) -> Option<Seq<char>> {
    if segments(path).len() > 0 {
        Some(segments(path).last())
    } else {
        None
    }
}

/// The name of `path`: its last segment.
pub fn file_name(path: &str) -> (name: Option<String>)
    ensures
        name is Some <==> name_of(path@) is Some,
        name is Some ==> name->0@ == name_of(path@)->0,
{
    let mut parts = split_segments(path);
    let ghost all = parts@;
    let last = parts.pop();
    proof {
        if all.len() > 0 {
            assert(texts(all).last() == all.last()@);
        }
    }
    last
}

/// Whether one of `parts` reads `wanted`.
pub fn contains_text(parts: &Vec<String>, wanted: &str) -> (found: bool)
    ensures
        found == texts(parts@).contains(wanted@),
{
    let sought = String::from_str(wanted);
    let mut i: usize = 0;
    while i < parts.len()
        invariant
            i <= parts.len(),
            sought@ == wanted@,
            forall|j: int| 0 <= j < i ==> texts(parts@)[j] != wanted@,
        decreases parts.len() - i,
    {
        if parts[i] == sought {
            assert(texts(parts@)[i as int] == wanted@);
            return true;
        }
        i += 1;
    }
    false
}


/// A name: at least one character, none of them `/`.
pub open spec fn is_name(s: Seq<char>) -> bool {
    s.len() > 0 && !s.contains('/')
}

/// The last piece of a text holds no `/`.
pub proof fn lemma_last_piece_is_plain(s: Seq<char>)
    ensures
        !last_piece(s).contains('/'),
    decreases s.len(),
{
    if s.len() > 0 && s.last() != '/' {
        lemma_last_piece_is_plain(s.drop_last());
        let before = last_piece(s.drop_last());
        assert forall|i: int| 0 <= i < before.push(s.last()).len() implies before.push(s.last())[i]
            != '/' by {
            if i < before.len() {
                assert(before.contains(before[i]));
            }
        }
    }
}

/// Every piece that a `/` ends is a name.
pub proof fn lemma_closed_pieces_are_names(s: Seq<char>)
    ensures
        forall|i: int| 0 <= i < closed_pieces(s).len() ==> is_name(#[trigger] closed_pieces(s)[i]),
    decreases s.len(),
{
    if s.len() > 0 {
        let shorter = s.drop_last();
        lemma_closed_pieces_are_names(shorter);
        lemma_last_piece_is_plain(shorter);
        assert forall|i: int| 0 <= i < closed_pieces(s).len() implies is_name(
            #[trigger] closed_pieces(s)[i],
        ) by {
            if i < closed_pieces(shorter).len() {
                assert(closed_pieces(s)[i] == closed_pieces(shorter)[i]);
            } else {
                assert(closed_pieces(s)[i] == last_piece(shorter));
            }
        }
    }
}

/// Every segment of a path is a name.
pub proof fn lemma_segments_are_names(s: Seq<char>)
    ensures
        forall|i: int| 0 <= i < segments(s).len() ==> is_name(#[trigger] segments(s)[i]),
{
    lemma_closed_pieces_are_names(s);
    lemma_last_piece_is_plain(s);
}

/// Characters without a `/` behind a text lengthen its last piece and end
/// no piece.
pub proof fn lemma_pieces_before_plain_text(s: Seq<char>, plain: Seq<char>)
    requires
        !plain.contains('/'),
    ensures
        last_piece(s + plain) == last_piece(s) + plain,
        closed_pieces(s + plain) == closed_pieces(s),
    decreases plain.len(),
{
    if plain.len() == 0 {
        assert(s + plain == s);
        assert(last_piece(s) + plain == last_piece(s));
    } else {
        let shorter = plain.drop_last();
        assert(plain.contains(plain.last()));
        assert forall|i: int| 0 <= i < shorter.len() implies shorter[i] != '/' by {
            assert(plain.contains(plain[i]));
        }
        lemma_pieces_before_plain_text(s, shorter);
        assert((s + plain).drop_last() == s + shorter);
        assert((s + plain).last() == plain.last());
        assert((last_piece(s) + shorter).push(plain.last()) == last_piece(s) + plain);
    }
}

/// The path `/name/` has the one segment `name`, and the path `/` has none.
pub proof fn lemma_segments_of_lone_name(name: Seq<char>)
    requires
        is_name(name),
    ensures
        segments(seq!['/'] + name + seq!['/']) == seq![name],
        segments(seq!['/']) == Seq::<Seq<char>>::empty(),
{
    let slash = seq!['/'];
    let nothing = Seq::<char>::empty();
    assert(slash.drop_last() == nothing);
    assert(last_piece(nothing) == nothing);
    assert(closed_pieces(nothing) == Seq::<Seq<char>>::empty());
    assert(last_piece(slash) == nothing);
    assert(closed_pieces(slash) == Seq::<Seq<char>>::empty());
    lemma_pieces_before_plain_text(slash, name);
    let whole = slash + name + slash;
    assert(whole.drop_last() == slash + name);
    assert(whole.last() == '/');
    assert(Seq::<char>::empty() + name == name);
    assert(closed_pieces(whole) == closed_pieces(slash + name).push(name));
    assert(Seq::<Seq<char>>::empty().push(name) == seq![name]);
}

} // verus!
