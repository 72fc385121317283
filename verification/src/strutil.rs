//! Verified text utilities: equality, searching and splitting over the
//! character views of `str` and `String`.

use vstd::prelude::*;
use vstd::string::*;

verus! {

/// Index of the first occurrence of `c` in `s`, or -1 when there is none.
pub open spec fn index_of_char(s: Seq<char>, c: char) -> int
    decreases s.len(),
{
    if s.len() == 0 {
        -1
    } else if s[0] == c {
        0
    } else {
        let r = index_of_char(s.drop_first(), c);
        if r < 0 {
            -1
        } else {
            r + 1
        }
    }
}

/// The pieces of `s` between occurrences of `sep`, in order; an empty `s`
/// gives one empty piece, as `str::split` does.
pub open spec fn split_on(s: Seq<char>, sep: char) -> Seq<Seq<char>>
    decreases s.len(),
{
    if s.len() == 0 {
        seq![s]
    } else if s[0] == sep {
        seq![Seq::<char>::empty()] + split_on(s.drop_first(), sep)
    } else {
        let r = split_on(s.drop_first(), sep);
        seq![seq![s[0]] + r[0]] + r.drop_first()
    }
}

/// The pieces of `s` between occurrences of `sep`, with a trailing empty
/// piece dropped, as `str::split_terminator` does.
pub open spec fn split_terminator_on(s: Seq<char>, sep: char) -> Seq<Seq<char>> {
    let p = split_on(s, sep);
    if p.last().len() == 0 {
        p.drop_last()
    } else {
        p
    }
}

/// A split has at least one piece.
pub proof fn lemma_split_nonempty(s: Seq<char>, sep: char)
    ensures
        split_on(s, sep).len() >= 1,
    decreases s.len(),
{
    if s.len() > 0 {
        lemma_split_nonempty(s.drop_first(), sep);
    }
}

/// `index_of_char` stays in range and points at the first occurrence; it
/// is -1 exactly when the character does not occur.
pub proof fn lemma_index_of_char(s: Seq<char>, c: char)
    ensures
        -1 <= index_of_char(s, c) < s.len(),
        index_of_char(s, c) == -1 ==> forall|i: int| 0 <= i < s.len() ==> s[i] != c,
        index_of_char(s, c) >= 0 ==> s[index_of_char(s, c)] == c && forall|i: int|
            0 <= i < index_of_char(s, c) ==> s[i] != c,
    decreases s.len(),
{
    if s.len() > 0 && s[0] != c {
        lemma_index_of_char(s.drop_first(), c);
        let r = index_of_char(s.drop_first(), c);
        if r >= 0 {
            assert(s[r + 1] == s.drop_first()[r]);
            assert forall|i: int| 0 <= i < r + 1 implies s[i] != c by {
                if i > 0 {
                    assert(s[i] == s.drop_first()[i - 1]);
                }
            }
        } else {
            assert forall|i: int| 0 <= i < s.len() implies s[i] != c by {
                if i > 0 {
                    assert(s[i] == s.drop_first()[i - 1]);
                }
            }
        }
    }
}

/// A position holding `c` with no earlier occurrence is `index_of_char`.
pub proof fn lemma_index_of_char_is(s: Seq<char>, c: char, i: int)
    requires
        0 <= i < s.len(),
        s[i] == c,
        forall|j: int| 0 <= j < i ==> s[j] != c,
    ensures
        index_of_char(s, c) == i,
    decreases s.len(),
{
    if i > 0 {
        assert forall|j: int| 0 <= j < i - 1 implies s.drop_first()[j] != c by {
            assert(s.drop_first()[j] == s[j + 1]);
        }
        assert(s.drop_first()[i - 1] == s[i]);
        lemma_index_of_char_is(s.drop_first(), c, i - 1);
    }
}

/// A split is the piece before the first separator followed by the split
/// of what comes after it; with no separator it is the one whole piece.
pub proof fn lemma_split_unfold(s: Seq<char>, sep: char)
    ensures
        index_of_char(s, sep) == -1 ==> split_on(s, sep) =~= seq![s],
        index_of_char(s, sep) >= 0 ==> split_on(s, sep) =~= seq![
            s.take(index_of_char(s, sep)),
        ] + split_on(s.skip(index_of_char(s, sep) + 1), sep),
    decreases s.len(),
{
    lemma_index_of_char(s, sep);
    if s.len() == 0 {
    } else if s[0] == sep {
        assert(s.take(0) =~= Seq::<char>::empty());
        assert(s.skip(1) =~= s.drop_first());
    } else {
        let rest = s.drop_first();
        lemma_split_unfold(rest, sep);
        lemma_split_nonempty(rest, sep);
        let i = index_of_char(s, sep);
        let r = split_on(rest, sep);
        if i == -1 {
            assert(index_of_char(rest, sep) == -1);
            assert(r =~= seq![rest]);
            assert(seq![s[0]] + rest =~= s);
            assert(split_on(s, sep) =~= seq![s]);
        } else {
            assert(index_of_char(rest, sep) == i - 1);
            assert(r =~= seq![rest.take(i - 1)] + split_on(rest.skip(i), sep));
            assert(r[0] == rest.take(i - 1));
            assert(seq![s[0]] + rest.take(i - 1) =~= s.take(i));
            assert(r.drop_first() =~= split_on(rest.skip(i), sep));
            assert(rest.skip(i) =~= s.skip(i + 1));
        }
    }
}

/// Position of the first occurrence of `c` in `s`, if any.
pub fn find_char(s: &str, c: char) -> (r: Option<usize>)
    ensures
        match r {
            Some(i) => i == index_of_char(s@, c),
            None => index_of_char(s@, c) == -1,
        },
{
    let n = s.unicode_len();
    let mut i: usize = 0;
    while i < n
        invariant
            n == s@.len(),
            i <= n,
            forall|j: int| 0 <= j < i ==> s@[j] != c,
        decreases n - i,
    {
        if s.get_char(i) == c {
            proof {
                lemma_index_of_char_is(s@, c, i as int);
            }
            return Some(i);
        }
        i = i + 1;
    }
    proof {
        lemma_index_of_char(s@, c);
    }
    None
}

/// Whether two texts read the same.
pub fn str_eq(a: &str, b: &str) -> (r: bool)
    ensures
        r == (a@ == b@),
{
    let na = a.unicode_len();
    let nb = b.unicode_len();
    if na != nb {
        return false;
    }
    let mut i: usize = 0;
    while i < na
        invariant
            na == a@.len() == b@.len(),
            i <= na,
            forall|j: int| 0 <= j < i ==> a@[j] == b@[j],
        decreases na - i,
    {
        if a.get_char(i) != b.get_char(i) {
            return false;
        }
        i = i + 1;
    }
    proof {
        assert(a@ =~= b@);
    }
    true
}

/// The pieces of `s` between occurrences of `sep`, as owned text.
pub fn split_string(s: &str, sep: char) -> (r: Vec<String>)
    ensures
        r@.map_values(|t: String| t@) =~= split_on(s@, sep),
{
    let n = s.unicode_len();
    let mut r: Vec<String> = Vec::new();
    let mut start: usize = 0;
    let mut i: usize = 0;
    proof {
        assert(s@.skip(0) =~= s@);
        assert(r@.map_values(|t: String| t@) =~= Seq::<Seq<char>>::empty());
        assert(Seq::<Seq<char>>::empty() + split_on(s@, sep) =~= split_on(s@, sep));
    }
    while i < n
        invariant
            n == s@.len(),
            start <= i <= n,
            split_on(s@, sep) =~= r@.map_values(|t: String| t@) + split_on(s@.skip(start as int), sep),
            forall|j: int| start <= j < i ==> s@[j] != sep,
        decreases n - i,
    {
        if s.get_char(i) == sep {
            let ghost tail = s@.skip(start as int);
            let ghost rv = r@.map_values(|t: String| t@);
            proof {
                assert forall|j: int| 0 <= j < i - start implies tail[j] != sep by {
                    assert(tail[j] == s@[start + j]);
                }
                assert(tail[i - start] == s@[i as int]);
                lemma_index_of_char_is(tail, sep, i - start);
                lemma_split_unfold(tail, sep);
                assert(tail.take(i - start) =~= s@.subrange(start as int, i as int));
                assert(tail.skip(i - start + 1) =~= s@.skip(i as int + 1));
            }
            let piece = s.substring_char(start, i);
            let owned = piece.to_owned();
            r.push(owned);
            proof {
                assert(r@.map_values(|t: String| t@) =~= rv.push(
                    s@.subrange(start as int, i as int),
                ));
                assert(rv.push(s@.subrange(start as int, i as int)) + split_on(
                    s@.skip(i as int + 1),
                    sep,
                ) =~= rv + split_on(tail, sep));
            }
            start = i + 1;
        }
        i = i + 1;
    }
    let ghost tail = s@.skip(start as int);
    let ghost rv = r@.map_values(|t: String| t@);
    proof {
        assert forall|j: int| 0 <= j < tail.len() implies tail[j] != sep by {
            assert(tail[j] == s@[start + j]);
        }
        lemma_index_of_char(tail, sep);
        lemma_split_unfold(tail, sep);
        assert(tail =~= s@.subrange(start as int, n as int));
    }
    let piece = s.substring_char(start, n);
    let owned = piece.to_owned();
    r.push(owned);
    proof {
        assert(r@.map_values(|t: String| t@) =~= rv.push(tail));
        assert(rv.push(tail) =~= rv + seq![tail]);
    }
    r
}

} // verus!
