//! The order of a directory listing: names are compared without regard to
//! case first, and a lowercase letter stands before its uppercase twin.

use vstd::prelude::*;

verus! {

/// What `str::to_lowercase` makes of a text.
pub uninterp spec fn lowercase_of_text(s: Seq<char>) -> Seq<char>;

/// Whether `char::is_lowercase` holds of a character.
pub uninterp spec fn char_is_lowercase(c: char) -> bool;

/// The characters that `char::to_uppercase` yields for a character.
pub uninterp spec fn uppercase_of_char(c: char) -> Seq<char>;

/// The characters that `char::to_lowercase` yields for a character.
pub uninterp spec fn lowercase_of_char(c: char) -> Seq<char>;

/// `str::to_lowercase` of std: the lowercase equivalent of the text, by the
/// rules of Unicode. The contract only names the result.
#[verifier::external_body]
fn lowercase_text(s: &str) -> (lowered: String)
    ensures
        lowered@ == lowercase_of_text(s@),
{
    s.to_lowercase()
}

/// `char::is_lowercase` of std: whether the character has the Unicode
/// property Lowercase. The contract only names the result.
#[verifier::external_body]
fn is_lowercase(c: char) -> (lowercase: bool)
    ensures
        lowercase == char_is_lowercase(c),
{
    c.is_lowercase()
}

/// `char::to_uppercase` of std: the uppercase mapping of the character,
/// which may be several characters. The contract only names the result.
#[verifier::external_body]
fn uppercase_char(c: char) -> (upper: String)
    ensures
        upper@ == uppercase_of_char(c),
{
    c.to_uppercase().to_string()
}

/// `char::to_lowercase` of std: the lowercase mapping of the character,
/// which may be several characters. The contract only names the result.
#[verifier::external_body]
fn lowercase_char(c: char) -> (lower: String)
    ensures
        lower@ == lowercase_of_char(c),
{
    c.to_lowercase().to_string()
}

/// A character with its case inverted: the uppercase mapping of a lowercase
/// character, the lowercase mapping of any other.
pub open spec fn flipped(c: char) -> Seq<char> {
    if char_is_lowercase(c) {
        uppercase_of_char(c)
    } else {
        lowercase_of_char(c)
    }
}

/// A text with the case of every character inverted.
pub open spec fn case_inverted(s: Seq<char>) -> Seq<char>
    decreases s.len(),
{
    if s.len() == 0 {
        Seq::empty()
    } else {
        case_inverted(s.drop_last()) + flipped(s.last())
    }
}

/// The key a name is listed by: the name in lowercase, then the name with
/// inverted case.
pub open spec fn sort_key(name: Seq<char>) -> (Seq<char>, Seq<char>) {
    (lowercase_of_text(name), case_inverted(name))
}

/// Whether `a` is `b` or stands before it in the order of the dictionary,
/// characters compared by their code.
pub open spec fn text_le(a: Seq<char>, b: Seq<char>) -> bool
    decreases a.len(),
{
    if a.len() == 0 {
        true
    } else if b.len() == 0 {
        false
    } else if a[0] != b[0] {
        (a[0] as int) < (b[0] as int)
    } else {
        text_le(a.skip(1), b.skip(1))
    }
}

/// Whether key `a` is key `b` or stands before it: by the first parts, and
/// by the second parts where the first are the same.
pub open spec fn key_le(a: (Seq<char>, Seq<char>), b: (Seq<char>, Seq<char>)) -> bool {
    if a.0 == b.0 {
        text_le(a.1, b.1)
    } else {
        text_le(a.0, b.0)
    }
}

/// Whether a name may stand before another in a listing.
pub open spec fn name_le(a: Seq<char>, b: Seq<char>) -> bool {
    key_le(sort_key(a), sort_key(b))
}

/// The order of the dictionary, read off the first place where two texts
/// differ.
pub proof fn lemma_text_le_at_difference(a: Seq<char>, b: Seq<char>, i: int)
    requires
        0 <= i <= a.len(),
        i <= b.len(),
        a.take(i) == b.take(i),
        i < a.len() && i < b.len() ==> a[i] != b[i],
    ensures
        text_le(a, b) == (i == a.len() || (i < b.len() && (a[i] as int) < (b[i] as int))),
        (a == b) == (i == a.len() && i == b.len()),
    decreases i,
{
    if i == 0 {
        if a.len() == 0 && b.len() == 0 {
            assert(a =~= b);
        }
    } else {
        assert(a[0] == a.take(i)[0]);
        assert(b[0] == b.take(i)[0]);
        assert(a.skip(1).take(i - 1) == a.take(i).skip(1));
        assert(b.skip(1).take(i - 1) == b.take(i).skip(1));
        lemma_text_le_at_difference(a.skip(1), b.skip(1), i - 1);
        if i == a.len() && i == b.len() {
            assert(a.take(i) == a);
            assert(b.take(i) == b);
        }
    }
}

/// Of two texts one is the other or stands before it.
pub proof fn lemma_text_le_total(a: Seq<char>, b: Seq<char>)
    ensures
        text_le(a, b) || text_le(b, a),
    decreases a.len(),
{
    if a.len() > 0 && b.len() > 0 {
        if a[0] == b[0] {
            lemma_text_le_total(a.skip(1), b.skip(1));
        } else {
            assert(a[0] as int != b[0] as int);
        }
    }
}

/// Two texts of which each is the other or stands before it are the same.
pub proof fn lemma_text_le_antisymmetric(a: Seq<char>, b: Seq<char>)
    requires
        text_le(a, b),
        text_le(b, a),
    ensures
        a == b,
    decreases a.len(),
{
    if a.len() > 0 {
        lemma_text_le_antisymmetric(a.skip(1), b.skip(1));
        assert(a =~= seq![a[0]] + a.skip(1));
        assert(b =~= seq![b[0]] + b.skip(1));
    } else {
        assert(a =~= b);
    }
}

/// What stands before a text stands before all that the text stands before.
pub proof fn lemma_text_le_transitive(a: Seq<char>, b: Seq<char>, c: Seq<char>)
    requires
        text_le(a, b),
        text_le(b, c),
    ensures
        text_le(a, c),
    decreases a.len(),
{
    if a.len() > 0 && a[0] == b[0] && b[0] == c[0] {
        lemma_text_le_transitive(a.skip(1), b.skip(1), c.skip(1));
    }
}

/// Of two names one may stand before the other.
pub proof fn lemma_name_le_total(a: Seq<char>, b: Seq<char>)
    ensures
        name_le(a, b) || name_le(b, a),
{
    lemma_text_le_total(sort_key(a).0, sort_key(b).0);
    lemma_text_le_total(sort_key(a).1, sort_key(b).1);
}

/// The order of names is transitive.
pub proof fn lemma_name_le_transitive(a: Seq<char>, b: Seq<char>, c: Seq<char>)
    requires
        name_le(a, b),
        name_le(b, c),
    ensures
        name_le(a, c),
{
    let (ka, kb, kc) = (sort_key(a), sort_key(b), sort_key(c));
    if ka.0 == kb.0 {
        if kb.0 == kc.0 {
            lemma_text_le_transitive(ka.1, kb.1, kc.1);
        }
    } else if kb.0 == kc.0 {
    } else {
        lemma_text_le_transitive(ka.0, kb.0, kc.0);
        if ka.0 == kc.0 {
            lemma_text_le_antisymmetric(ka.0, kb.0);
        }
    }
}

/// The characters of a text.
pub fn chars_of(s: &str) -> (chars: Vec<char>)
    ensures
        chars@ == s@,
{
    let mut chars: Vec<char> = Vec::new();
    for c in it: s.chars()
        invariant
            it.seq() == s@,
            chars@ == s@.take(it.index() as int),
    {
        chars.push(c);
        assert(s@.take(it.index() + 1) == s@.take(it.index() as int).push(c));
    }
    assert(s@.take(s@.len() as int) == s@);
    chars
}

/// The key a name is listed by.
pub struct SortKey {
    lowered: Vec<char>,
    inverted: Vec<char>,
}

impl View for SortKey {
    type V = (Seq<char>, Seq<char>);

    closed spec fn view(&self) -> (Seq<char>, Seq<char>) {
        (self.lowered@, self.inverted@)
    }
}

/// The place where two texts first differ: the length of the shorter one
/// if it begins the other.
fn first_difference(a: &Vec<char>, b: &Vec<char>) -> (i: usize)
    ensures
        i <= a.len(),
        i <= b.len(),
        a@.take(i as int) == b@.take(i as int),
        i < a.len() && i < b.len() ==> a[i as int] != b[i as int],
{
    let mut i: usize = 0;
    while i < a.len() && i < b.len() && a[i] == b[i]
        invariant
            i <= a.len(),
            i <= b.len(),
            a@.take(i as int) == b@.take(i as int),
        decreases a.len() - i,
    {
        assert(a@.take(i + 1) == a@.take(i as int).push(a[i as int]));
        assert(b@.take(i + 1) == b@.take(i as int).push(b[i as int]));
        i += 1;
    }
    i
}

impl SortKey {
    /// The key of `name`.
    pub fn of(name: &str) -> (key: SortKey)
        ensures
            key@ == sort_key(name@),
    {
        let lowered = chars_of(lowercase_text(name).as_str());
        let mut inverted: Vec<char> = Vec::new();
        for c in it: name.chars()
            invariant
                it.seq() == name@,
                inverted@ == case_inverted(name@.take(it.index() as int)),
        {
            proof {
                let i = it.index() as int;
                assert(name@.take(i + 1).drop_last() == name@.take(i));
                assert(name@.take(i + 1).last() == c);
            }
            let piece = if is_lowercase(c) {
                uppercase_char(c)
            } else {
                lowercase_char(c)
            };
            let mut more = chars_of(piece.as_str());
            inverted.append(&mut more);
        }
        assert(name@.take(name@.len() as int) == name@);
        SortKey { lowered, inverted }
    }

    /// Whether this key is `other` or stands before it.
    pub fn le(&self, other: &SortKey) -> (before: bool)
        ensures
            before == key_le(self@, other@),
    {
        let i = first_difference(&self.lowered, &other.lowered);
        proof {
            lemma_text_le_at_difference(self.lowered@, other.lowered@, i as int);
        }
        if i == self.lowered.len() && i == other.lowered.len() {
            let j = first_difference(&self.inverted, &other.inverted);
            proof {
                lemma_text_le_at_difference(self.inverted@, other.inverted@, j as int);
            }
            j == self.inverted.len() || (j < other.inverted.len() && self.inverted[j]
                < other.inverted[j])
        } else {
            i == self.lowered.len() || (i < other.lowered.len() && self.lowered[i]
                < other.lowered[i])
        }
    }
}

} // verus!
