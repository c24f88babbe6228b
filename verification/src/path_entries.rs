//! The PATH engine: splitting a `PATH` value into its ordered entries and
//! marking, in order, which entries repeat an earlier one.

use vstd::prelude::*;
use crate::text::{split_on, join_with, lemma_split_join, lemma_string_views};
use vstd::string::StrSliceExecFns;

verus! {

/// Splits a `PATH` value strictly on `:`, preserving empty segments and
/// trimming nothing, so an empty input yields one empty entry.
pub fn split_path(path: &str) -> (entries: Vec<String>)
    ensures
        entries.deep_view() == split_on(path@, ':'),
{
    let ghost s = path@;
    let n = path.unicode_len();
    let mut entries: Vec<String> = Vec::new();
    let mut start: usize = 0;
    let mut i: usize = 0;
    while i < n
        invariant
            s == path@,
            n == s.len(),
            start <= i <= n,
            split_on(s.take(i as int), ':').len() == entries.deep_view().len() + 1,
            entries.deep_view() == split_on(s.take(i as int), ':').drop_last(),
            split_on(s.take(i as int), ':').last() == s.subrange(start as int, i as int),
        decreases n - i,
    {
        let ghost parts = split_on(s.take(i as int), ':');
        proof {
            assert(s.take(i + 1).drop_last() =~= s.take(i as int));
            assert(s.take(i + 1).last() == s[i as int]);
        }
        let c = path.get_char(i);
        if c == ':' {
            let segment = path.substring_char(start, i).to_owned();
            let ghost pre_dv = entries.deep_view();
            let ghost pre = entries@;
            proof {
                assert(segment@ == parts.last());
                lemma_string_views(&entries);
            }
            entries.push(segment);
            proof {
                lemma_string_views(&entries);
                assert(entries.deep_view() =~= pre_dv.push(segment@)) by {
                    assert(entries@ == pre.push(segment));
                    assert(forall|k: int|
                        0 <= k < pre.len() ==> entries@[k] == pre[k] && pre_dv[k] == (
                        #[trigger] pre[k])@);
                }
                assert(split_on(s.take(i + 1), ':') =~= parts.push(Seq::<char>::empty()));
                assert(pre_dv.push(segment@) =~= parts);
                assert(parts.push(Seq::<char>::empty()).drop_last() =~= parts);
                assert(s.subrange(i + 1, i + 1) =~= Seq::<char>::empty());
            }
            start = i + 1;
        } else {
            proof {
                let grown = parts.update(parts.len() - 1, parts.last().push(s[i as int]));
                assert(split_on(s.take(i + 1), ':') == grown);
                assert(grown.drop_last() =~= parts.drop_last());
                assert(grown.last() == parts.last().push(s[i as int]));
                assert(s.subrange(start as int, i as int).push(s[i as int]) =~= s.subrange(
                    start as int,
                    i + 1,
                ));
            }
        }
        i += 1;
    }
    proof {
        assert(s.take(n as int) =~= s);
    }
    let last_segment = path.substring_char(start, n).to_owned();
    let ghost pre_dv = entries.deep_view();
    let ghost pre = entries@;
    proof {
        lemma_string_views(&entries);
    }
    entries.push(last_segment);
    proof {
        lemma_string_views(&entries);
        let parts = split_on(s, ':');
        assert(entries.deep_view() =~= pre_dv.push(last_segment@)) by {
            assert(entries@ == pre.push(last_segment));
            assert(forall|k: int|
                0 <= k < pre.len() ==> entries@[k] == pre[k] && pre_dv[k] == (#[trigger] pre[k])@);
        }
        assert(pre_dv.push(last_segment@) =~= parts.drop_last().push(parts.last()));
        assert(parts.drop_last().push(parts.last()) =~= parts);
    }
    entries
}

/// Law: rejoining the entries of a split `PATH` value with `:` reproduces the
/// value exactly, empty segments included.
pub proof fn lemma_path_round_trip(path: Seq<char>)
    ensures
        join_with(split_on(path, ':'), ':') == path,
{
    lemma_split_join(path, ':');
}

/// Entry `i` of `values` repeats an earlier entry with the same characters.
pub open spec fn is_repeat(values: Seq<Seq<char>>, i: int) -> bool {
    exists|j: int| 0 <= j < i && values[j] == values[i]
}

/// The duplicate marks of `values`, in entry order: the first occurrence of a
/// value is unmarked, every later occurrence of the same value is marked.
pub open spec fn repeat_marks(values: Seq<Seq<char>>) -> Seq<bool> {
    Seq::new(values.len(), |i: int| is_repeat(values, i))
}

/// How many marks in `marks` are set.
pub open spec fn count_marked(marks: Seq<bool>) -> int
    decreases marks.len(),
{
    if marks.len() == 0 {
        0
    } else {
        count_marked(marks.drop_last()) + if marks.last() {
            1int
        } else {
            0int
        }
    }
}

/// Classifies each entry, in original order, as first-seen (`false`) or as a
/// repeat of an earlier equal entry (`true`).
pub fn detect_duplicates(entries: &Vec<String>) -> (marks: Vec<bool>)
    ensures
        marks@ == repeat_marks(entries.deep_view()),
        marks@.len() == entries@.len(),
        forall|i: int| 0 <= i < marks@.len() ==> marks@[i] == is_repeat(entries.deep_view(), i),
{
    let ghost values = entries.deep_view();
    let mut marks: Vec<bool> = Vec::new();
    let mut i: usize = 0;
    while i < entries.len()
        invariant
            values == entries.deep_view(),
            values.len() == entries@.len(),
            i <= entries@.len(),
            marks@.len() == i,
            forall|k: int| 0 <= k < i ==> marks@[k] == is_repeat(values, k),
        decreases entries@.len() - i,
    {
        let mut j: usize = 0;
        let mut seen = false;
        while j < i
            invariant
                values == entries.deep_view(),
                values.len() == entries@.len(),
                j <= i < entries@.len(),
                seen <==> exists|k: int| 0 <= k < j && values[k] == values[i as int],
            decreases i - j,
        {
            if entries[j].eq(&entries[i]) {
                proof {
                    assert(values[j as int] == values[i as int]);
                }
                seen = true;
            }
            j += 1;
        }
        marks.push(seen);
        i += 1;
    }
    proof {
        assert(marks@ =~= repeat_marks(values));
    }
    marks
}

/// Counts the duplicate occurrences among the marks: the summary figure of a
/// duplicate report.
pub fn duplicate_count(marks: &Vec<bool>) -> (n: usize)
    ensures
        n == count_marked(marks@),
{
    let mut n: usize = 0;
    let mut i: usize = 0;
    while i < marks.len()
        invariant
            i <= marks@.len(),
            n <= i,
            n == count_marked(marks@.take(i as int)),
        decreases marks@.len() - i,
    {
        proof {
            assert(marks@.take(i + 1).drop_last() =~= marks@.take(i as int));
            assert(marks@.take(i + 1).last() == marks@[i as int]);
        }
        if marks[i] {
            n += 1;
        }
        i += 1;
    }
    proof {
        assert(marks@.take(marks@.len() as int) =~= marks@);
    }
    n
}

/// Law: the number of duplicate occurrences equals the number of entries
/// minus the number of distinct values.
pub proof fn lemma_duplicate_count(values: Seq<Seq<char>>)
    ensures
        count_marked(repeat_marks(values)) == values.len() - values.to_set().len(),
    decreases values.len(),
{
    broadcast use vstd::set::group_set_axioms;
    broadcast use vstd::seq_lib::seq_to_set_is_finite;

    if values.len() == 0 {
        assert(values.to_set() =~= Set::<Seq<char>>::empty());
        assert(repeat_marks(values) =~= Seq::<bool>::empty());
    } else {
        let prefix = values.drop_last();
        let x = values.last();
        lemma_duplicate_count(prefix);
        assert(forall|i: int| 0 <= i < prefix.len() ==> is_repeat(values, i) == is_repeat(prefix, i))
            by {
            assert(forall|i: int, j: int|
                0 <= j < i < prefix.len() ==> values[j] == prefix[j] && values[i] == prefix[i]);
        }
        assert(repeat_marks(values) =~= repeat_marks(prefix).push(
            is_repeat(values, values.len() - 1),
        ));
        assert(count_marked(repeat_marks(values)) == count_marked(repeat_marks(prefix)) + if is_repeat(
            values,
            values.len() - 1,
        ) {
            1int
        } else {
            0int
        }) by {
            assert(repeat_marks(prefix).push(is_repeat(values, values.len() - 1)).drop_last()
                =~= repeat_marks(prefix));
        }
        assert(is_repeat(values, values.len() - 1) <==> prefix.contains(x)) by {
            assert(forall|j: int| 0 <= j < prefix.len() ==> values[j] == prefix[j]);
            assert(values[values.len() - 1] == x);
        }
        assert(values.to_set() =~= prefix.to_set().insert(x)) by {
            assert(forall|a: Seq<char>| prefix.contains(a) ==> values.contains(a)) by {
                assert(forall|j: int| 0 <= j < prefix.len() ==> values[j] == prefix[j]);
            }
            assert(values.contains(x)) by {
                assert(values[values.len() - 1] == x);
            }
            assert(forall|a: Seq<char>| values.contains(a) && a != x ==> prefix.contains(a)) by {
                assert(forall|j: int|
                    0 <= j < values.len() && values[j] != x ==> 0 <= j < prefix.len()
                        && prefix[j] == values[j]);
            }
        }
        assert(prefix.to_set().contains(x) <==> prefix.contains(x));
        vstd::set::axiom_set_insert_len(prefix.to_set(), x);
    }
}

} // verus!
