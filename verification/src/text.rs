//! Character-sequence helpers shared by the PATH and line engines: splitting
//! on a separator, rejoining, counting separators, and substring search.

use vstd::prelude::*;

verus! {

/// The deep view of a vector of strings is the sequence of its elements'
/// views.
pub proof fn lemma_string_views(v: &Vec<String>)
    ensures
        v.deep_view().len() == v@.len(),
        forall|k: int| 0 <= k < v@.len() ==> v.deep_view()[k] == (#[trigger] v@[k])@,
{
}

/// The characters of `s` split at every occurrence of `sep`.
///
/// Every occurrence of `sep` closes the current (possibly empty) segment, so
/// an input without `sep` yields one segment and an empty input yields one
/// empty segment.
pub open spec fn split_on(s: Seq<char>, sep: char) -> Seq<Seq<char>>
    decreases s.len(),
{
    if s.len() == 0 {
        seq![Seq::<char>::empty()]
    } else if s.last() == sep {
        split_on(s.drop_last(), sep).push(Seq::<char>::empty())
    } else {
        let parts = split_on(s.drop_last(), sep);
        parts.update(parts.len() - 1, parts.last().push(s.last()))
    }
}

/// The segments of `parts` joined with `sep` between consecutive segments.
pub open spec fn join_with(parts: Seq<Seq<char>>, sep: char) -> Seq<char>
    decreases parts.len(),
{
    if parts.len() == 0 {
        Seq::<char>::empty()
    } else if parts.len() == 1 {
        parts[0]
    } else {
        join_with(parts.drop_last(), sep) + seq![sep] + parts.last()
    }
}

/// How many times `c` occurs in `s`.
pub open spec fn count_char(s: Seq<char>, c: char) -> int
    decreases s.len(),
{
    if s.len() == 0 {
        0
    } else {
        count_char(s.drop_last(), c) + if s.last() == c {
            1int
        } else {
            0int
        }
    }
}

/// Splitting yields at least one segment.
pub proof fn lemma_split_on_nonempty(s: Seq<char>, sep: char)
    ensures
        split_on(s, sep).len() >= 1,
    decreases s.len(),
{
    if s.len() > 0 {
        lemma_split_on_nonempty(s.drop_last(), sep);
    }
}

/// Splitting yields one segment more than there are separators.
pub proof fn lemma_split_on_len(s: Seq<char>, sep: char)
    ensures
        split_on(s, sep).len() == count_char(s, sep) + 1,
    decreases s.len(),
{
    if s.len() > 0 {
        lemma_split_on_len(s.drop_last(), sep);
        lemma_split_on_nonempty(s.drop_last(), sep);
    }
}

/// The final segment is empty exactly when the input is empty or ends in the
/// separator.
pub proof fn lemma_split_on_last(s: Seq<char>, sep: char)
    ensures
        split_on(s, sep).last().len() == 0 <==> (s.len() == 0 || s.last() == sep),
    decreases s.len(),
{
    if s.len() > 0 && s.last() != sep {
        lemma_split_on_nonempty(s.drop_last(), sep);
    }
}

/// A character absent from the input is absent from every segment.
pub proof fn lemma_split_on_absent(s: Seq<char>, sep: char, c: char)
    requires
        !s.contains(c),
    ensures
        forall|k: int|
            0 <= k < split_on(s, sep).len() ==> !(#[trigger] split_on(s, sep)[k]).contains(c),
    decreases s.len(),
{
    if s.len() > 0 {
        assert(!s.drop_last().contains(c)) by {
            assert(forall|i: int|
                0 <= i < s.drop_last().len() ==> s.drop_last()[i] == s[i] && s[i] != c);
        }
        lemma_split_on_absent(s.drop_last(), sep, c);
        lemma_split_on_nonempty(s.drop_last(), sep);
        let parts = split_on(s.drop_last(), sep);
        if s.last() == sep {
            assert(!Seq::<char>::empty().contains(c));
        } else {
            assert(s.last() != c) by {
                assert(s[s.len() - 1] == s.last());
            }
            let grown = parts.last().push(s.last());
            assert(!grown.contains(c)) by {
                assert(forall|i: int|
                    0 <= i < grown.len() ==> grown[i] == if i < parts.last().len() {
                        parts.last()[i]
                    } else {
                        s.last()
                    });
            }
        }
    }
}

/// Law: rejoining the segments of a split with the same separator reproduces
/// the input exactly.
pub proof fn lemma_split_join(s: Seq<char>, sep: char)
    ensures
        join_with(split_on(s, sep), sep) == s,
    decreases s.len(),
{
    if s.len() == 0 {
        assert(join_with(split_on(s, sep), sep) =~= s);
    } else {
        lemma_split_join(s.drop_last(), sep);
        lemma_split_on_nonempty(s.drop_last(), sep);
        let p = split_on(s.drop_last(), sep);
        if s.last() == sep {
            let q = p.push(Seq::<char>::empty());
            assert(q.drop_last() =~= p);
            assert(join_with(q, sep) =~= s);
        } else {
            let q = p.update(p.len() - 1, p.last().push(s.last()));
            if p.len() == 1 {
                assert(q[0] == p[0].push(s.last()));
                assert(join_with(q, sep) =~= s);
            } else {
                assert(q.drop_last() =~= p.drop_last());
                assert(q.last() == p.last().push(s.last()));
                assert(join_with(q, sep) =~= join_with(p, sep).push(s.last()));
                assert(s.drop_last().push(s.last()) =~= s);
            }
        }
    }
}

/// `pat` occurs in `text` starting at position `i`.
pub open spec fn occurs_at(text: Seq<char>, pat: Seq<char>, i: int) -> bool {
    0 <= i && i + pat.len() <= text.len() && text.subrange(i, i + pat.len()) == pat
}

/// `pat` occurs somewhere in `text` as a contiguous subsequence.
pub open spec fn contains_seq(text: Seq<char>, pat: Seq<char>) -> bool {
    exists|i: int| occurs_at(text, pat, i)
}

/// Whether `keyword` occurs in `text` as a literal, case-sensitive substring.
pub fn contains_keyword(text: &str, keyword: &str) -> (r: bool)
    ensures
        r == contains_seq(text@, keyword@),
{
    let n = text.unicode_len();
    let m = keyword.unicode_len();
    if m == 0 {
        proof {
            assert(occurs_at(text@, keyword@, 0)) by {
                assert(text@.subrange(0, 0) =~= keyword@);
            }
        }
        return true;
    }
    if m > n {
        proof {
            assert(forall|i: int| !occurs_at(text@, keyword@, i));
        }
        return false;
    }
    let mut i: usize = 0;
    while i <= n - m
        invariant
            1 <= m <= n,
            n == text@.len(),
            m == keyword@.len(),
            i <= n - m + 1,
            forall|k: int| 0 <= k < i ==> !occurs_at(text@, keyword@, k),
        decreases n - i,
    {
        let mut j: usize = 0;
        let mut live = true;
        while live && j < m
            invariant
                1 <= m <= n,
                i <= n - m,
                n == text@.len(),
                m == keyword@.len(),
                j <= m,
                live ==> forall|k: int| 0 <= k < j ==> text@[i + k] == keyword@[k],
                !live ==> !occurs_at(text@, keyword@, i as int),
            decreases m - j + (if live {
                1int
            } else {
                0int
            }),
        {
            if text.get_char(i + j) == keyword.get_char(j) {
                j += 1;
            } else {
                proof {
                    assert(text@.subrange(i as int, i + m) != keyword@) by {
                        assert(text@.subrange(i as int, i + m)[j as int] == text@[i + j]);
                    }
                }
                live = false;
            }
        }
        if live {
            proof {
                assert(occurs_at(text@, keyword@, i as int)) by {
                    assert(text@.subrange(i as int, i + m) =~= keyword@);
                }
            }
            return true;
        }
        i += 1;
    }
    proof {
        assert(forall|k: int| occurs_at(text@, keyword@, k) ==> 0 <= k < i);
    }
    false
}

} // verus!
