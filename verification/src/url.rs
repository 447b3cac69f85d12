//! Spaces in URLs: written as `%20` on the wire, as a space on disk.

use vstd::prelude::*;
use crate::text::push_char;

verus! {

/// `s` with every space replaced by `%20`.
pub open spec fn spaces_encoded(s: Seq<char>) -> Seq<char>
    decreases s.len(),
{
    if s.len() == 0 {
        Seq::empty()
    } else if s.last() == ' ' {
        spaces_encoded(s.drop_last()) + seq!['%', '2', '0']
    } else {
        spaces_encoded(s.drop_last()).push(s.last())
    }
}

/// Whether `s` begins with `%20`.
pub open spec fn starts_with_escape(s: Seq<char>) -> bool {
    s.len() >= 3 && s[0] == '%' && s[1] == '2' && s[2] == '0'
}

/// `s` with every `%20` replaced by a space, reading from the left.
pub open spec fn spaces_decoded(s: Seq<char>) -> Seq<char>
    decreases s.len(),
{
    if s.len() == 0 {
        Seq::empty()
    } else if starts_with_escape(s) {
        seq![' '] + spaces_decoded(s.skip(3))
    } else {
        seq![s[0]] + spaces_decoded(s.skip(1))
    }
}

/// Replaces every space of `url` by `%20`.
pub fn encode_url_spaces(url: &str) -> (encoded: String)
    ensures
        encoded@ == spaces_encoded(url@),
{
    let mut encoded = String::new();
    for c in it: url.chars()
        invariant
            it.seq() == url@,
            encoded@ == spaces_encoded(url@.take(it.index() as int)),
    {
        proof {
            let i = it.index() as int;
            assert(url@.take(i + 1).drop_last() == url@.take(i));
            assert(url@.take(i + 1).last() == c);
        }
        if c == ' ' {
            push_char(&mut encoded, '%');
            push_char(&mut encoded, '2');
            push_char(&mut encoded, '0');
            assert(encoded@ == spaces_encoded(url@.take(it.index() as int)) + seq!['%', '2', '0']);
        } else {
            push_char(&mut encoded, c);
        }
    }
    assert(url@.take(url@.len() as int) == url@);
    encoded
}

/// What is left to decode when the last `held` characters read were the
/// beginning of an escape.
proof fn lemma_decode_step(s: Seq<char>, i: int, held: int)
    requires
        0 <= i < s.len(),
        0 <= held <= 2,
        held <= i,
        held >= 1 ==> s[i - held] == '%',
        held == 2 ==> s[i - 1] == '2',
    ensures
        held == 0 && s[i] != '%' ==> spaces_decoded(s.skip(i)) == seq![s[i]] + spaces_decoded(
            s.skip(i + 1),
        ),
        held == 1 && s[i] != '2' ==> spaces_decoded(s.skip(i - 1)) == seq!['%'] + spaces_decoded(
            s.skip(i),
        ),
        held == 2 && s[i] != '0' ==> spaces_decoded(s.skip(i - 2)) == seq!['%', '2']
            + spaces_decoded(s.skip(i)),
        held == 2 && s[i] == '0' ==> spaces_decoded(s.skip(i - 2)) == seq![' '] + spaces_decoded(
            s.skip(i + 1),
        ),
{
    if held == 0 {
        assert(s.skip(i).skip(1) == s.skip(i + 1));
    } else if held == 1 {
        assert(s.skip(i - 1).skip(1) == s.skip(i));
        assert(s.skip(i - 1)[1] == s[i]);
    } else {
        let t = s.skip(i - 2);
        assert(t[0] == '%' && t[1] == '2' && t[2] == s[i]);
        assert(t.skip(3) == s.skip(i + 1));
        assert(t.skip(1) == s.skip(i - 1));
        assert(s.skip(i - 1).skip(1) == s.skip(i));
        assert(s.skip(i - 1)[0] == '2');
        if s[i] != '0' {
            assert(spaces_decoded(t) == seq!['%'] + spaces_decoded(s.skip(i - 1)));
            assert(spaces_decoded(s.skip(i - 1)) == seq!['2'] + spaces_decoded(s.skip(i)));
            assert(seq!['%'] + (seq!['2'] + spaces_decoded(s.skip(i))) == seq!['%', '2']
                + spaces_decoded(s.skip(i)));
        }
    }
}

/// What is left to decode at the end of the text.
proof fn lemma_decode_end(s: Seq<char>, held: int)
    requires
        0 <= held <= 2,
        held <= s.len(),
        held >= 1 ==> s[s.len() - held] == '%',
        held == 2 ==> s[s.len() - 1] == '2',
    ensures
        held == 0 ==> spaces_decoded(s.skip(s.len() - held)) == Seq::<char>::empty(),
        held == 1 ==> spaces_decoded(s.skip(s.len() - held)) == seq!['%'],
        held == 2 ==> spaces_decoded(s.skip(s.len() - held)) == seq!['%', '2'],
{
    let n = s.len() as int;
    if held == 1 {
        let t = s.skip(n - 1);
        assert(t.skip(1).len() == 0);
        assert(spaces_decoded(t) == seq![t[0]] + spaces_decoded(t.skip(1)));
    } else if held == 2 {
        let t = s.skip(n - 2);
        let u = t.skip(1);
        assert(u.len() == 1 && u[0] == '2');
        assert(u.skip(1).len() == 0);
        assert(spaces_decoded(u) == seq![u[0]] + spaces_decoded(u.skip(1)));
        assert(spaces_decoded(t) == seq![t[0]] + spaces_decoded(u));
        assert(seq!['%'] + seq!['2'] == seq!['%', '2']);
    }
}

/// Replaces every `%20` of `url` by a space.
pub fn unencode_url_spaces(url: &str) -> (decoded: String)
    ensures
        decoded@ == spaces_decoded(url@),
{
    let mut decoded = String::new();
    // How many characters of an escape the last characters read have spelled.
    let mut held: u8 = 0;
    assert(url@.skip(0) == url@);
    for c in it: url.chars()
        invariant
            it.seq() == url@,
            held <= 2,
            held <= it.index(),
            held >= 1 ==> url@[it.index() - held] == '%',
            held == 2 ==> url@[it.index() - 1] == '2',
            spaces_decoded(url@) == decoded@ + spaces_decoded(url@.skip(it.index() - held)),
    {
        let ghost i = it.index() as int;
        let ghost before = decoded@;
        proof {
            lemma_decode_step(url@, i, held as int);
        }
        if held == 2 && c == '0' {
            push_char(&mut decoded, ' ');
            held = 0;
            assert(before + (seq![' '] + spaces_decoded(url@.skip(i + 1))) == decoded@
                + spaces_decoded(url@.skip(i + 1)));
        } else if held == 1 && c == '2' {
            held = 2;
        } else {
            if held >= 1 {
                push_char(&mut decoded, '%');
            }
            if held == 2 {
                push_char(&mut decoded, '2');
            }
            let ghost flushed = decoded@;
            assert(held == 1 ==> before + (seq!['%'] + spaces_decoded(url@.skip(i))) == flushed
                + spaces_decoded(url@.skip(i)));
            assert(held == 2 ==> before + (seq!['%', '2'] + spaces_decoded(url@.skip(i)))
                == flushed + spaces_decoded(url@.skip(i)));
            assert(spaces_decoded(url@) == flushed + spaces_decoded(url@.skip(i)));
            if c == '%' {
                held = 1;
            } else {
                proof {
                    lemma_decode_step(url@, i, 0);
                }
                push_char(&mut decoded, c);
                held = 0;
                assert(flushed + (seq![c] + spaces_decoded(url@.skip(i + 1))) == decoded@
                    + spaces_decoded(url@.skip(i + 1)));
            }
        }
    }
    let ghost before = decoded@;
    proof {
        lemma_decode_end(url@, held as int);
    }
    if held >= 1 {
        push_char(&mut decoded, '%');
    }
    if held == 2 {
        push_char(&mut decoded, '2');
    }
    assert(decoded@ == before + spaces_decoded(url@.skip(url@.len() - held)));
    decoded
}

} // verus!
