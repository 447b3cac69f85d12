//! Uploads: under which name an uploaded file is stored.

use vstd::prelude::*;
use crate::listing::{name_or_empty, name_or_empty_of};
use crate::order::chars_of;
use crate::resolve::parent_segment;
use crate::text::{
    contains_text, ends_with_slash, is_name, join_path, last_piece, lemma_pieces_before_plain_text,
    path_joined, push_char, segments, starts_with_slash, texts,
};

verus! {

/// The character of a decimal digit.
pub open spec fn digit(d: nat) -> char {
    if d == 0 {
        '0'
    } else if d == 1 {
        '1'
    } else if d == 2 {
        '2'
    } else if d == 3 {
        '3'
    } else if d == 4 {
        '4'
    } else if d == 5 {
        '5'
    } else if d == 6 {
        '6'
    } else if d == 7 {
        '7'
    } else if d == 8 {
        '8'
    } else {
        '9'
    }
}

/// A number in decimal digits, without leading zeros.
pub open spec fn decimal(n: nat) -> Seq<char>
    decreases n,
{
    if n < 10 {
        seq![digit(n)]
    } else {
        decimal(n / 10).push(digit(n % 10))
    }
}

/// Different numbers are written differently.
pub proof fn lemma_decimal_is_injective(n: nat, m: nat)
    requires
        decimal(n) == decimal(m),
    ensures
        n == m,
    decreases n,
{
    lemma_decimal_is_not_empty(n / 10);
    lemma_decimal_is_not_empty(m / 10);
    if n < 10 && m < 10 {
        assert(decimal(n) == seq![digit(n)]);
        assert(decimal(m) == seq![digit(m)]);
        assert(decimal(n)[0] == digit(n));
        assert(decimal(m)[0] == digit(m));
        assert(digit(n) == digit(m));
    } else if n >= 10 && m >= 10 {
        let (a, b) = (decimal(n / 10), decimal(m / 10));
        assert(decimal(n) == a.push(digit(n % 10)));
        assert(decimal(m) == b.push(digit(m % 10)));
        assert(a.push(digit(n % 10)).drop_last() == a);
        assert(b.push(digit(m % 10)).drop_last() == b);
        assert(a.push(digit(n % 10)).last() == digit(n % 10));
        assert(b.push(digit(m % 10)).last() == digit(m % 10));
        assert(a == b);
        assert(digit(n % 10) == digit(m % 10));
        lemma_decimal_is_injective(n / 10, m / 10);
        assert(n % 10 == m % 10);
        assert(n == 10 * (n / 10) + n % 10);
        assert(m == 10 * (m / 10) + m % 10);
    } else if n >= 10 {
        assert(decimal(n) == decimal(n / 10).push(digit(n % 10)));
        assert(decimal(n).len() >= 2);
        assert(decimal(m) == seq![digit(m)]);
        assert(decimal(m).len() == 1);
    } else {
        assert(decimal(m) == decimal(m / 10).push(digit(m % 10)));
        assert(decimal(m).len() >= 2);
        assert(decimal(n) == seq![digit(n)]);
        assert(decimal(n).len() == 1);
    }
}

/// Every number has at least one digit.
pub proof fn lemma_decimal_is_not_empty(n: nat)
    ensures
        decimal(n).len() >= 1,
    decreases n,
{
    if n >= 10 {
        lemma_decimal_is_not_empty(n / 10);
    }
}

/// No digit is a `/`, and no number is written with one.
pub proof fn lemma_decimal_is_plain(n: nat)
    ensures
        !decimal(n).contains('/'),
    decreases n,
{
    if n >= 10 {
        lemma_decimal_is_plain(n / 10);
        let before = decimal(n / 10);
        assert forall|i: int| 0 <= i < decimal(n).len() implies decimal(n)[i] != '/' by {
            if i < before.len() {
                assert(before.contains(before[i]));
            }
        }
    }
}

/// The position of the last `c` in `s`; -1 if there is none.
pub open spec fn last_index_of(s: Seq<char>, c: char) -> int
    decreases s.len(),
{
    if s.len() == 0 {
        -1
    } else if s.last() == c {
        s.len() - 1
    } else {
        last_index_of(s.drop_last(), c)
    }
}

/// Where the extension of a file name begins, its dot included: at the last
/// `.` of the name, unless that begins the name; at the end of the name if
/// it has no such dot.
pub open spec fn extension_start(name: Seq<char>) -> int {
    let dot = last_index_of(name, '.');
    if dot > 0 {
        dot
    } else {
        name.len() as int
    }
}

/// The counter as it is put into a name: a space and the number in
/// parentheses.
pub open spec fn counter(n: nat) -> Seq<char> {
    seq![' ', '('] + decimal(n) + seq![')']
}

/// The file name with the counter `n` before its extension.
pub open spec fn numbered(name: Seq<char>, n: nat) -> Seq<char> {
    let e = extension_start(name);
    name.take(e) + counter(n) + name.skip(e)
}

/// The names that are tried for a file name, in turn: the name itself, then
/// the name with the counters 1, 2, and so on.
pub open spec fn candidate_name(name: Seq<char>, n: nat) -> Seq<char> {
    if n == 0 {
        name
    } else {
        numbered(name, n)
    }
}

/// The length of `s` without the slashes at its end.
pub open spec fn trimmed_len(s: Seq<char>) -> int
    decreases s.len(),
{
    if s.len() > 0 && s.last() == '/' {
        trimmed_len(s.drop_last())
    } else {
        s.len() as int
    }
}

/// Where the last piece of `s` begins: behind its last `/`.
pub open spec fn piece_start(s: Seq<char>) -> int
    decreases s.len(),
{
    if s.len() > 0 && s.last() != '/' {
        piece_start(s.drop_last())
    } else {
        s.len() as int
    }
}

/// Where the name of a path begins: its last segment. The end of the path
/// if it has no segment.
pub open spec fn name_start(path: Seq<char>) -> int {
    let end = trimmed_len(path);
    if end == 0 {
        path.len() as int
    } else {
        piece_start(path.take(end))
    }
}

/// The path up to its name.
pub open spec fn parent_part(path: Seq<char>) -> Seq<char> {
    path.take(name_start(path))
}

/// The paths that are tried for a path, in turn: the path itself, then the
/// path with its name numbered 1, 2, and so on.
pub open spec fn candidate_of(path: Seq<char>, n: nat) -> Seq<char> {
    if n == 0 {
        path
    } else {
        parent_part(path) + numbered(name_or_empty(path), n)
    }
}

/// Whether candidate `n` is the first that is not taken.
pub open spec fn is_first_free(path: Seq<char>, taken: Seq<Seq<char>>, n: nat) -> bool {
    &&& !taken.contains(candidate_of(path, n))
    &&& forall|m: nat| m < n ==> taken.contains(#[trigger] candidate_of(path, m))
}

/// A name that can be given to a file in a directory: a single segment
/// that is neither `.` nor `..`.
pub open spec fn is_plain_name(name: Seq<char>) -> bool {
    is_name(name) && name != seq!['.'] && name != parent_segment()
}

/// The last occurrence of a character lies within the text, and is one.
proof fn lemma_last_index_in_range(s: Seq<char>, c: char)
    ensures
        -1 <= last_index_of(s, c) < s.len(),
        last_index_of(s, c) >= 0 ==> s[last_index_of(s, c)] == c,
    decreases s.len(),
{
    if s.len() > 0 && s.last() != c {
        lemma_last_index_in_range(s.drop_last(), c);
    }
}

/// The extension begins within the name, at a dot if before its end.
pub proof fn lemma_extension_start_in_range(name: Seq<char>)
    ensures
        0 <= extension_start(name) <= name.len(),
        extension_start(name) < name.len() ==> name[extension_start(name)] == '.',
        name.len() > 0 ==> extension_start(name) > 0,
{
    lemma_last_index_in_range(name, '.');
}

/// Behind the trimmed length a path holds slashes only, and before it none
/// at its end; the slashes add no segment.
pub proof fn lemma_trimmed(s: Seq<char>)
    ensures
        0 <= trimmed_len(s) <= s.len(),
        forall|i: int| trimmed_len(s) <= i < s.len() ==> s[i] == '/',
        trimmed_len(s) > 0 ==> s[trimmed_len(s) - 1] != '/',
        segments(s.take(trimmed_len(s))) == segments(s),
    decreases s.len(),
{
    if s.len() > 0 && s.last() == '/' {
        let shorter = s.drop_last();
        lemma_trimmed(shorter);
        assert(shorter.take(trimmed_len(shorter)) == s.take(trimmed_len(s)));
        assert(last_piece(s) == Seq::<char>::empty());
        assert(segments(s) == segments(shorter));
        assert forall|i: int| trimmed_len(s) <= i < s.len() implies s[i] == '/' by {
            if i < shorter.len() {
                assert(shorter[i] == s[i]);
            }
        }
        if trimmed_len(s) > 0 {
            assert(shorter[trimmed_len(s) - 1] == s[trimmed_len(s) - 1]);
        }
    } else {
        assert(s.take(s.len() as int) == s);
    }
}

/// The last piece of a text is what stands behind its start.
pub proof fn lemma_piece_start(s: Seq<char>)
    ensures
        0 <= piece_start(s) <= s.len(),
        last_piece(s) == s.skip(piece_start(s)),
    decreases s.len(),
{
    if s.len() > 0 && s.last() != '/' {
        let shorter = s.drop_last();
        lemma_piece_start(shorter);
        assert(shorter.skip(piece_start(shorter)).push(s.last()) == s.skip(piece_start(s)));
    } else {
        assert(s.skip(s.len() as int) == Seq::<char>::empty());
    }
}

/// A path is its parent part, its name, and slashes.
pub proof fn lemma_path_parts(path: Seq<char>)
    ensures
        0 <= name_start(path) <= path.len(),
        name_start(path) + name_or_empty(path).len() == (if trimmed_len(path) == 0 {
            path.len() as int
        } else {
            trimmed_len(path)
        }),
        name_or_empty(path) == path.subrange(
            name_start(path),
            name_start(path) + name_or_empty(path).len(),
        ),
        forall|i: int|
            name_start(path) + name_or_empty(path).len() <= i < path.len() ==> path[i] == '/',
{
    lemma_trimmed(path);
    let end = trimmed_len(path);
    let kept = path.take(end);
    if end == 0 {
        assert(kept == Seq::<char>::empty());
        assert(last_piece(kept) == Seq::<char>::empty());
        assert(segments(kept) == Seq::<Seq<char>>::empty());
        assert(path.subrange(path.len() as int, path.len() as int) == Seq::<char>::empty());
    } else {
        lemma_piece_start(kept);
        assert(kept.last() != '/');
        assert(last_piece(kept).len() > 0);
        assert(segments(kept).last() == last_piece(kept));
        assert(kept.skip(piece_start(kept)) == path.subrange(piece_start(kept), end));
    }
}

/// Characters without a `/` behind a text leave the start of its last
/// piece where it was.
proof fn lemma_piece_start_before_plain_text(s: Seq<char>, plain: Seq<char>)
    requires
        !plain.contains('/'),
    ensures
        piece_start(s + plain) == piece_start(s),
    decreases plain.len(),
{
    if plain.len() == 0 {
        assert(s + plain == s);
    } else {
        let shorter = plain.drop_last();
        assert(plain.contains(plain.last()));
        assert forall|i: int| 0 <= i < shorter.len() implies shorter[i] != '/' by {
            assert(plain.contains(plain[i]));
        }
        lemma_piece_start_before_plain_text(s, shorter);
        assert((s + plain).drop_last() == s + shorter);
        assert((s + plain).last() == plain.last());
    }
}

/// A name joined onto a directory is the name of the path, and the path up
/// to it is the directory with its slash.
pub proof fn lemma_joined_name(directory: Seq<char>, name: Seq<char>)
    requires
        is_name(name),
    ensures
        path_joined(directory, name) == path_joined(directory, Seq::empty()) + name,
        name_or_empty(path_joined(directory, name)) == name,
        parent_part(path_joined(directory, name)) == path_joined(directory, Seq::empty()),
{
    let nothing = Seq::<char>::empty();
    let base = path_joined(directory, nothing);
    let path = path_joined(directory, name);
    assert(name.contains(name[0]));
    assert(name.contains(name.last()));
    assert(!starts_with_slash(name));
    assert(directory + nothing == directory);
    assert(directory.push('/') + nothing == directory.push('/'));
    assert(path == base + name);
    assert(base.len() == 0 || base.last() == '/');
    assert(last_piece(base) == nothing);
    assert(piece_start(base) == base.len());
    lemma_pieces_before_plain_text(base, name);
    lemma_piece_start_before_plain_text(base, name);
    assert(nothing + name == name);
    assert(segments(path).last() == name);
    assert(path.last() == name.last());
    assert(trimmed_len(path) == path.len());
    assert(path.take(path.len() as int) == path);
    assert(path.take(base.len() as int) == base);
}

/// A numbered name is a name.
pub proof fn lemma_candidate_is_name(name: Seq<char>, n: nat)
    requires
        is_name(name),
    ensures
        is_name(candidate_name(name, n)),
{
    if n > 0 {
        lemma_extension_start_in_range(name);
        lemma_decimal_is_plain(n);
        let e = extension_start(name);
        let whole = numbered(name, n);
        assert forall|i: int| 0 <= i < whole.len() implies whole[i] != '/' by {
            if i < e {
                assert(name.contains(name[i]));
            } else if i < e + counter(n).len() {
                let j = i - e;
                assert(whole[i] == counter(n)[j]);
                if 2 <= j < 2 + decimal(n).len() {
                    assert(decimal(n).contains(decimal(n)[j - 2]));
                }
            } else {
                let j = i - counter(n).len();
                assert(whole[i] == name[j]);
                assert(name.contains(name[j]));
            }
        }
    }
}

/// The candidates of a name joined onto a directory are the candidates of
/// the name, joined onto the directory.
pub proof fn lemma_candidate_of_joined(directory: Seq<char>, name: Seq<char>, n: nat)
    requires
        is_name(name),
    ensures
        candidate_of(path_joined(directory, name), n) == path_joined(
            directory,
            candidate_name(name, n),
        ),
        is_name(candidate_name(name, n)),
        name_or_empty(path_joined(directory, candidate_name(name, n))) == candidate_name(name, n),
{
    lemma_candidate_is_name(name, n);
    lemma_joined_name(directory, name);
    lemma_joined_name(directory, candidate_name(name, n));
}

/// Different candidates are different paths.
pub proof fn lemma_candidates_differ(path: Seq<char>, n: nat, m: nat)
    requires
        candidate_of(path, n) == candidate_of(path, m),
    ensures
        n == m,
{
    let name = name_or_empty(path);
    let parent = parent_part(path);
    let e = extension_start(name);
    lemma_path_parts(path);
    lemma_extension_start_in_range(name);
    lemma_decimal_is_not_empty(n);
    lemma_decimal_is_not_empty(m);
    assert(parent.len() == name_start(path));
    if n > 0 && m > 0 {
        let (a, b) = (candidate_of(path, n), candidate_of(path, m));
        assert(a.len() == parent.len() + name.len() + decimal(n).len() + 3);
        assert(b.len() == parent.len() + name.len() + decimal(m).len() + 3);
        assert forall|i: int| 0 <= i < decimal(n).len() implies decimal(n)[i] == decimal(m)[i] by {
            assert(a[parent.len() + e + 2 + i] == decimal(n)[i]);
            assert(b[parent.len() + e + 2 + i] == decimal(m)[i]);
        }
        assert(decimal(n) =~= decimal(m));
        lemma_decimal_is_injective(n, m);
    } else if n > 0 || m > 0 {
        let k = if n > 0 {
            n
        } else {
            m
        };
        let other = candidate_of(path, k);
        assert(other == path);
        assert(other.len() == parent.len() + name.len() + decimal(k).len() + 3);
        let i = parent.len() + e;
        assert(other[i] == ' ');
        if e < name.len() {
            assert(path[i] == path.subrange(name_start(path), name_start(path) + name.len())[e]);
        }
    }
}

/// At most one candidate is the first that is not taken.
pub proof fn lemma_first_free_is_unique(path: Seq<char>, taken: Seq<Seq<char>>, n: nat, m: nat)
    requires
        is_first_free(path, taken, n),
        is_first_free(path, taken, m),
    ensures
        n == m,
{
    if n < m {
        assert(taken.contains(candidate_of(path, n)));
    } else if m < n {
        assert(taken.contains(candidate_of(path, m)));
    }
}

/// The character of the digit `d`.
fn digit_char(d: u64) -> (c: char)
    requires
        d < 10,
    ensures
        c == digit(d as nat),
{
    if d == 0 {
        '0'
    } else if d == 1 {
        '1'
    } else if d == 2 {
        '2'
    } else if d == 3 {
        '3'
    } else if d == 4 {
        '4'
    } else if d == 5 {
        '5'
    } else if d == 6 {
        '6'
    } else if d == 7 {
        '7'
    } else if d == 8 {
        '8'
    } else {
        '9'
    }
}

/// Appends `n` in decimal digits to `text`.
fn push_decimal(text: &mut String, n: u64)
    ensures
        final(text)@ == old(text)@ + decimal(n as nat),
    decreases n,
{
    if n >= 10 {
        push_decimal(text, n / 10);
    }
    push_char(text, digit_char(n % 10));
    proof {
        if n >= 10 {
            assert(old(text)@ + decimal((n / 10) as nat).push(digit((n % 10) as nat)) == (old(
                text,
            )@ + decimal((n / 10) as nat)).push(digit((n % 10) as nat)));
        } else {
            assert(old(text)@ + seq![digit(n as nat)] == old(text)@.push(digit(n as nat)));
        }
    }
}

/// Where the extension of the name begins.
fn extension_start_of(name: &Vec<char>) -> (e: usize)
    ensures
        e == extension_start(name@),
{
    let mut dot: Option<usize> = None;
    let mut i: usize = 0;
    while i < name.len()
        invariant
            i <= name.len(),
            match dot {
                Some(d) => d == last_index_of(name@.take(i as int), '.') && d < i,
                None => last_index_of(name@.take(i as int), '.') == -1,
            },
        decreases name.len() - i,
    {
        proof {
            assert(name@.take(i + 1).drop_last() == name@.take(i as int));
            assert(name@.take(i + 1).last() == name@[i as int]);
        }
        if name[i] == '.' {
            dot = Some(i);
        }
        i += 1;
    }
    assert(name@.take(name@.len() as int) == name@);
    match dot {
        Some(d) => if d > 0 {
            d
        } else {
            name.len()
        },
        None => name.len(),
    }
}

/// Appends `name` to `text`, with the counter `n` before its extension.
fn push_numbered(text: &mut String, name: &Vec<char>, n: u64)
    ensures
        final(text)@ == old(text)@ + numbered(name@, n as nat),
{
    let e = extension_start_of(name);
    proof {
        lemma_extension_start_in_range(name@);
    }
    let mut i: usize = 0;
    while i < e
        invariant
            i <= e <= name.len(),
            text@ == old(text)@ + name@.take(i as int),
        decreases e - i,
    {
        push_char(text, name[i]);
        assert(name@.take(i + 1) == name@.take(i as int).push(name@[i as int]));
        i += 1;
    }
    push_char(text, ' ');
    push_char(text, '(');
    push_decimal(text, n);
    push_char(text, ')');
    let ghost head = text@;
    assert(head == old(text)@ + (name@.take(e as int) + counter(n as nat)));
    while i < name.len()
        invariant
            e <= i <= name.len(),
            text@ == head + name@.subrange(e as int, i as int),
        decreases name.len() - i,
    {
        push_char(text, name[i]);
        assert(name@.subrange(e as int, i + 1) == name@.subrange(e as int, i as int).push(
            name@[i as int],
        ));
        i += 1;
    }
    assert(name@.subrange(e as int, name@.len() as int) == name@.skip(e as int));
    assert(text@ == old(text)@ + (name@.take(e as int) + counter(n as nat) + name@.skip(e as int)));
}

/// The path up to its name, and the name.
fn split_path(path: &Vec<char>) -> (parts: (String, Vec<char>))
    ensures
        parts.0@ == parent_part(path@),
        parts.1@ == name_or_empty(path@),
{
    proof {
        lemma_path_parts(path@);
        lemma_trimmed(path@);
    }
    let mut end: usize = path.len();
    assert(path@.take(end as int) == path@);
    while end > 0 && path[end - 1] == '/'
        invariant
            end <= path.len(),
            trimmed_len(path@.take(end as int)) == trimmed_len(path@),
        decreases end,
    {
        assert(path@.take(end as int).drop_last() == path@.take(end - 1));
        end -= 1;
    }
    assert(end == trimmed_len(path@));
    let ghost kept = path@.take(end as int);
    let mut start: usize = if end == 0 {
        path.len()
    } else {
        end
    };
    if end > 0 {
        assert(kept.take(start as int) == kept);
        while start > 0 && path[start - 1] != '/'
            invariant
                start <= end <= path.len(),
                kept == path@.take(end as int),
                piece_start(kept.take(start as int)) == piece_start(kept),
            decreases start,
        {
            assert(kept.take(start as int).drop_last() == kept.take(start - 1));
            assert(kept.take(start as int).last() == path@[start - 1]);
            start -= 1;
        }
        assert(start > 0 ==> kept.take(start as int).last() == path@[start - 1]);
    }
    assert(start == name_start(path@));
    let mut parent = String::new();
    let mut i: usize = 0;
    while i < start
        invariant
            i <= start <= path.len(),
            parent@ == path@.take(i as int),
        decreases start - i,
    {
        push_char(&mut parent, path[i]);
        assert(path@.take(i + 1) == path@.take(i as int).push(path@[i as int]));
        i += 1;
    }
    let mut name: Vec<char> = Vec::new();
    let stop = if end == 0 {
        start
    } else {
        end
    };
    while i < stop
        invariant
            start <= i <= stop <= path.len(),
            name@ == path@.subrange(start as int, i as int),
        decreases stop - i,
    {
        name.push(path[i]);
        assert(path@.subrange(start as int, i + 1) == path@.subrange(start as int, i as int).push(
            path@[i as int],
        ));
        i += 1;
    }
    (parent, name)
}

/// A path that is not taken: `path` itself if it is free; otherwise the
/// first of `name (1).ext`, `name (2).ext`, ... beside it that is free,
/// where `name.ext` is the name of `path`. `taken` holds the paths that
/// exist.
pub fn get_unique_path(path: &str, taken: &Vec<String>) -> (unique: String)
    ensures
        exists|n: nat| #[trigger]
            is_first_free(path@, texts(taken@), n) && unique@ == candidate_of(path@, n),
{
    if !contains_text(taken, path) {
        assert(is_first_free(path@, texts(taken@), 0));
        return String::from_str(path);
    }
    let chars = chars_of(path);
    let (parent, name) = split_path(&chars);
    let ghost names = texts(taken@);
    let ghost mut pending: Set<Seq<char>> = names.to_set().remove(path@);
    proof {
        vstd::seq_lib::seq_to_set_is_finite(names);
        names.lemma_cardinality_of_set();
        assert(names.to_set().contains(path@));
        assert(candidate_of(path@, 0) == path@);
        assert forall|t: Seq<char>| pending.contains(t) <==> names.contains(t) && forall|m: nat|
            m < 1 ==> t != #[trigger] candidate_of(path@, m) by {
            if names.contains(t) && t != path@ {
                assert(names.to_set().contains(t));
            }
        }
        assert forall|m: nat| m < 1 implies names.contains(#[trigger] candidate_of(path@, m)) by {
            assert(m == 0);
        }
    }
    let limit = taken.len();
    let mut n: u64 = 1;
    loop
        invariant
            limit == taken@.len(),
            parent@ == parent_part(path@),
            name@ == name_or_empty(path@),
            names == texts(taken@),
            1 <= n,
            pending.finite(),
            n + pending.len() <= taken@.len(),
            forall|m: nat| m < n ==> names.contains(#[trigger] candidate_of(path@, m)),
            forall|t: Seq<char>|
                pending.contains(t) <==> names.contains(t) && forall|m: nat|
                    m < n ==> t != #[trigger] candidate_of(path@, m),
        decreases pending.len(),
    {
        let mut candidate = parent.clone();
        push_numbered(&mut candidate, &name, n);
        if !contains_text(taken, candidate.as_str()) {
            assert(is_first_free(path@, names, n as nat));
            return candidate;
        }
        proof {
            let tried = candidate_of(path@, n as nat);
            assert forall|m: nat| m < n implies tried != #[trigger] candidate_of(path@, m) by {
                if tried == candidate_of(path@, m) {
                    lemma_candidates_differ(path@, n as nat, m);
                }
            }
            assert(pending.contains(tried));
            assert(pending.len() >= 1);
            let fewer = pending.remove(tried);
            assert(fewer.len() == pending.len() - 1);
            assert forall|t: Seq<char>| fewer.contains(t) <==> names.contains(t) && forall|m: nat|
                m < n + 1 ==> t != #[trigger] candidate_of(path@, m) by {
                if fewer.contains(t) {
                    assert forall|m: nat| m < n + 1 implies t != #[trigger] candidate_of(
                        path@,
                        m,
                    ) by {
                        if m == n {
                        }
                    }
                }
                if names.contains(t) && (forall|m: nat|
                    m < n + 1 ==> t != #[trigger] candidate_of(path@, m)) {
                    assert(t != candidate_of(path@, n as nat));
                    assert(pending.contains(t));
                }
            }
            pending = fewer;
        }
        n += 1;
    }
}

/// Whether `name` can be given to a file in a directory.
pub fn is_plain(name: &str) -> (plain: bool)
    ensures
        plain == is_plain_name(name@),
{
    // The length of the name, as far as it matters: 3 stands for more.
    let mut count: u8 = 0;
    let mut dots_only = true;
    let mut slash = false;
    for c in it: name.chars()
        invariant
            it.seq() == name@,
            count == (if it.index() < 3 {
                it.index()
            } else {
                3
            }),
            dots_only == (forall|i: int| 0 <= i < it.index() ==> name@[i] == '.'),
            slash == (exists|i: int| 0 <= i < it.index() && name@[i] == '/'),
    {
        if c != '.' {
            dots_only = false;
        }
        if c == '/' {
            slash = true;
        }
        if count < 3 {
            count += 1;
        }
    }
    proof {
        if slash {
            let i = choose|i: int| 0 <= i < name@.len() && name@[i] == '/';
            assert(name@.contains(name@[i]));
        }
        if dots_only && count == 1 {
            assert(name@ =~= seq!['.']);
        }
        if dots_only && count == 2 {
            assert(name@ =~= parent_segment());
        }
        if name@ == seq!['.'] {
            assert(name@.len() == 1);
        }
        if name@ == parent_segment() {
            assert(name@.len() == 2);
        }
    }
    count > 0 && !slash && !(dots_only && (count == 1 || count == 2))
}

/// Where an uploaded file is stored, and how it is opened.
#[derive(Debug)]
pub struct UploadOutcome {
    /// The path of the file: a child of the directory.
    pub path: String,
    /// The name of the file, which is reported to the client.
    pub filename: String,
    /// Whether the file must be created and must not exist. Otherwise it is
    /// created if it does not exist and emptied if it does.
    pub create_new: bool,
}

/// Whether `outcome` is where the upload of `requested` into `directory` is
/// stored: in a child of the directory, under the requested name where
/// overwriting is allowed, and otherwise under the first candidate of the
/// name that is not taken, to be created anew.
pub open spec fn is_outcome(
    outcome: UploadOutcome,
    directory: Seq<char>,
    requested: Seq<char>,
    overwrite_allowed: bool,
    taken: Seq<Seq<char>>,
) -> bool {
    &&& is_name(outcome.filename@)
    &&& outcome.path@ == path_joined(directory, outcome.filename@)
    &&& outcome.filename@ == name_or_empty(outcome.path@)
    &&& outcome.create_new == !overwrite_allowed
    &&& overwrite_allowed ==> outcome.filename@ == requested
    &&& !overwrite_allowed ==> exists|n: nat| #[trigger]
        is_first_free(path_joined(directory, requested), taken, n) && outcome.filename@
            == candidate_name(requested, n) && outcome.path@ == candidate_of(
            path_joined(directory, requested),
            n,
        )
}

/// Candidate `n` for the upload of `requested_filename` into `directory`:
/// the path that is tried in turn `n`. None if the name is no plain name.
pub fn upload_candidate(directory: &str, requested_filename: &str, n: u64) -> (candidate: Option<
    String,
>)
    ensures
        candidate is Some <==> is_plain_name(requested_filename@),
        candidate matches Some(path) ==> path@ == candidate_of(
            path_joined(directory@, requested_filename@),
            n as nat,
        ) && path@ == path_joined(directory@, candidate_name(requested_filename@, n as nat)),
{
    if !is_plain(requested_filename) {
        return None;
    }
    proof {
        lemma_candidate_of_joined(directory@, requested_filename@, n as nat);
        lemma_joined_name(directory@, requested_filename@);
        reveal_strlit("");
        assert(""@ =~= Seq::<char>::empty());
    }
    if n == 0 {
        return Some(join_path(directory, requested_filename));
    }
    let name = chars_of(requested_filename);
    let mut path = join_path(directory, "");
    push_numbered(&mut path, &name, n);
    Some(path)
}

/// Decides where the upload of `requested_filename` into `directory` is
/// stored. A name that is no plain name (one with a `/`, the empty name,
/// `.` and `..`) is refused, so that no upload leaves the directory. Where
/// overwriting is allowed the file goes under the requested name. Where it
/// is not, it goes under the first name that is not taken, counted up from
/// the requested one, and is to be created anew. `taken` holds the paths
/// that exist.
pub fn resolve_upload(
    directory: &str,
    requested_filename: &str,
    overwrite_allowed: bool,
    taken: &Vec<String>,
) -> (outcome: Option<UploadOutcome>)
    ensures
        outcome is Some <==> is_plain_name(requested_filename@),
        outcome matches Some(o) ==> is_outcome(
            o,
            directory@,
            requested_filename@,
            overwrite_allowed,
            texts(taken@),
        ),
{
    if !is_plain(requested_filename) {
        return None;
    }
    let requested = join_path(directory, requested_filename);
    let path = if overwrite_allowed {
        requested
    } else {
        get_unique_path(requested.as_str(), taken)
    };
    let filename = name_or_empty_of(path.as_str());
    proof {
        let joined = path_joined(directory@, requested_filename@);
        if overwrite_allowed {
            lemma_candidate_of_joined(directory@, requested_filename@, 0);
        } else {
            let n = choose|n: nat| #[trigger]
                is_first_free(joined, texts(taken@), n) && path@ == candidate_of(joined, n);
            lemma_candidate_of_joined(directory@, requested_filename@, n);
        }
    }
    Some(UploadOutcome { path, filename, create_new: !overwrite_allowed })
}

} // verus!
