use vstd::prelude::*;
use vstd::string::*;
use vstd::utf8::*;

verus! {

/// Compares two string slices. They are equal exactly when they hold the same
/// characters.
///
/// The comparison runs over the UTF-8 bytes; two strings with the same bytes
/// decode to the same characters, and the other way round.
pub fn str_eq(a: &str, b: &str) -> (same: bool)
    ensures
        same == (a@ == b@),
{
    let x = a.as_bytes();
    let y = b.as_bytes();
    proof {
        encode_utf8_decode_utf8(a@);
        encode_utf8_decode_utf8(b@);
    }
    if x.len() != y.len() {
        return false;
    }
    let mut i: usize = 0;
    while i < x.len()
        invariant
            i <= x.len(),
            x.len() == y.len(),
            x@ == a.spec_bytes(),
            y@ == b.spec_bytes(),
            forall|k: int| 0 <= k < i ==> x@[k] == y@[k],
        decreases x.len() - i,
    {
        if x[i] != y[i] {
            return false;
        }
        i += 1;
    }
    assert(x@ =~= y@);
    true
}

/// The words of `s`: the stretches of characters that the spaces in `s`
/// part, in order. A space at either end of `s`, or next to another space,
/// parts off an empty word, and the empty string holds one empty word.
pub open spec fn words(s: Seq<char>) -> Seq<Seq<char>>
    decreases s.len(),
{
    if s.len() == 0 {
        seq![Seq::empty()]
    } else {
        let before = words(s.drop_last());
        if s.last() == ' ' {
            before.push(Seq::empty())
        } else {
            before.update(before.len() - 1, before.last().push(s.last()))
        }
    }
}

/// A string always holds at least one word.
pub proof fn lemma_words_nonempty(s: Seq<char>)
    ensures
        words(s).len() >= 1,
    decreases s.len(),
{
    if s.len() > 0 {
        lemma_words_nonempty(s.drop_last());
    }
}

/// The characters of each slice of `parts`.
pub open spec fn slice_views(parts: Seq<&str>) -> Seq<Seq<char>> {
    Seq::new(parts.len(), |i: int| parts[i]@)
}

/// Splits `s` at its spaces.
pub fn split_spaces(s: &str) -> (parts: Vec<&str>)
    ensures
        slice_views(parts@) == words(s@),
{
    let total = s.unicode_len();
    let mut parts: Vec<&str> = Vec::new();
    let mut start: usize = 0;
    let mut i: usize = 0;
    proof {
        assert(s@.take(0) == Seq::<char>::empty());
        assert(s@.subrange(0, 0) == Seq::<char>::empty());
        assert(slice_views(parts@).push(Seq::<char>::empty()) == seq![Seq::<char>::empty()]);
    }
    for c in it: s.chars()
        invariant
            i == it.index(),
            it.seq() == s@,
            total == s@.len(),
            start <= i <= total,
            words(s@.take(i as int)) == slice_views(parts@).push(s@.subrange(start as int, i as int)),
    {
        proof {
            let seen = s@.take(i as int);
            let next = s@.take(i + 1);
            assert(next.drop_last() == seen);
            assert(next.last() == c);
            lemma_words_nonempty(seen);
        }
        let ghost before = slice_views(parts@);
        if c == ' ' {
            let word = s.substring_char(start, i);
            parts.push(word);
            start = i + 1;
            assert(slice_views(parts@) == before.push(word@));
        } else {
            assert(s@.subrange(start as int, i + 1) == s@.subrange(start as int, i as int).push(c));
        }
        i += 1;
        assert(s@.subrange(start as int, i as int) == if c == ' ' {
            Seq::<char>::empty()
        } else {
            s@.subrange(start as int, i - 1).push(c)
        });
    }
    let ghost before = slice_views(parts@);
    let word = s.substring_char(start, total);
    parts.push(word);
    assert(slice_views(parts@) == before.push(word@));
    assert(s@.take(total as int) == s@);
    parts
}

/// Whether one of `parts` holds the characters of `word`.
pub fn has_word(parts: &Vec<&str>, word: &str) -> (present: bool)
    ensures
        present == slice_views(parts@).contains(word@),
{
    let mut i: usize = 0;
    while i < parts.len()
        invariant
            i <= parts.len(),
            forall|k: int| 0 <= k < i ==> slice_views(parts@)[k] != word@,
        decreases parts.len() - i,
    {
        if str_eq(parts[i], word) {
            assert(slice_views(parts@)[i as int] == word@);
            return true;
        }
        i += 1;
    }
    false
}

} // verus!
