//! The keyword matcher: filtering indexed lines by literal, case-sensitive
//! substring containment, keeping 1-based line numbers.

use vstd::prelude::*;
use crate::text::{contains_seq, contains_keyword, lemma_string_views};

verus! {

/// One matching line of a search report: its 1-based line number and its
/// text.
pub struct MatchLine {
    pub number: usize,
    pub text: String,
}

/// The matches of `keyword` among `lines`, in line order: for each line
/// containing the keyword, its 1-based number paired with its text.
pub open spec fn match_pairs(lines: Seq<Seq<char>>, keyword: Seq<char>) -> Seq<(int, Seq<char>)>
    decreases lines.len(),
{
    if lines.len() == 0 {
        Seq::<(int, Seq<char>)>::empty()
    } else {
        let rest = match_pairs(lines.drop_last(), keyword);
        if contains_seq(lines.last(), keyword) {
            rest.push((lines.len() as int, lines.last()))
        } else {
            rest
        }
    }
}

/// Filters `lines` by substring containment of `keyword`, pairing each
/// matching line with its 1-based line number. The total match count of the
/// report is the length of the result.
pub fn keyword_matches(lines: &Vec<String>, keyword: &str) -> (found: Vec<MatchLine>)
    ensures
        found@.len() == match_pairs(lines.deep_view(), keyword@).len(),
        forall|k: int|
            0 <= k < found@.len() ==> (#[trigger] found@[k]).number as int == match_pairs(
                lines.deep_view(),
                keyword@,
            )[k].0 && found@[k].text@ == match_pairs(lines.deep_view(), keyword@)[k].1,
{
    let ghost values = lines.deep_view();
    let ghost kw = keyword@;
    let mut found: Vec<MatchLine> = Vec::new();
    let mut i: usize = 0;
    while i < lines.len()
        invariant
            values == lines.deep_view(),
            values.len() == lines@.len(),
            kw == keyword@,
            i <= lines@.len(),
            found@.len() == match_pairs(values.take(i as int), kw).len(),
            forall|k: int|
                0 <= k < found@.len() ==> (#[trigger] found@[k]).number as int == match_pairs(
                    values.take(i as int),
                    kw,
                )[k].0 && found@[k].text@ == match_pairs(values.take(i as int), kw)[k].1,
        decreases lines@.len() - i,
    {
        let ghost pairs = match_pairs(values.take(i as int), kw);
        proof {
            lemma_string_views(lines);
            assert(values.take(i + 1).drop_last() =~= values.take(i as int));
            assert(values.take(i + 1).last() == values[i as int]);
        }
        if contains_keyword(lines[i].as_str(), keyword) {
            found.push(MatchLine { number: i + 1, text: lines[i].clone() });
            proof {
                assert(match_pairs(values.take(i + 1), kw) == pairs.push(
                    ((i + 1) as int, values[i as int]),
                ));
            }
        } else {
            proof {
                assert(match_pairs(values.take(i + 1), kw) == pairs);
            }
        }
        i += 1;
    }
    proof {
        assert(values.take(values.len() as int) =~= values);
    }
    found
}

/// Law: the texts of the matches are exactly the lines that contain the
/// keyword, in order; every match's number names the line it came from, and
/// every containing line is reported.
pub proof fn lemma_matches_are_filter(lines: Seq<Seq<char>>, keyword: Seq<char>)
    ensures
        match_pairs(lines, keyword).map_values(|p: (int, Seq<char>)| p.1) == lines.filter(
            |l: Seq<char>| contains_seq(l, keyword),
        ),
        forall|k: int|
            0 <= k < match_pairs(lines, keyword).len() ==> {
                let p = #[trigger] match_pairs(lines, keyword)[k];
                1 <= p.0 <= lines.len() && lines[p.0 - 1] == p.1 && contains_seq(p.1, keyword)
            },
        forall|j: int|
            0 <= j < lines.len() && contains_seq(#[trigger] lines[j], keyword) ==> exists|k: int|
                0 <= k < match_pairs(lines, keyword).len() && match_pairs(lines, keyword)[k].0 == j
                    + 1,
    decreases lines.len(),
{
    reveal(Seq::filter);
    if lines.len() == 0 {
        assert(match_pairs(lines, keyword).map_values(|p: (int, Seq<char>)| p.1) =~= lines.filter(
            |l: Seq<char>| contains_seq(l, keyword),
        ));
    } else {
        let prefix = lines.drop_last();
        let x = lines.last();
        lemma_matches_are_filter(prefix, keyword);
        let rest = match_pairs(prefix, keyword);
        let full = match_pairs(lines, keyword);
        assert(prefix.filter(|l: Seq<char>| contains_seq(l, keyword)) == rest.map_values(
            |p: (int, Seq<char>)| p.1,
        ));
        if contains_seq(x, keyword) {
            assert(full.map_values(|p: (int, Seq<char>)| p.1) =~= rest.map_values(
                |p: (int, Seq<char>)| p.1,
            ).push(x));
            assert(forall|j: int|
                0 <= j < lines.len() && contains_seq(#[trigger] lines[j], keyword) ==> exists|
                    k: int,
                |
                    0 <= k < full.len() && full[k].0 == j + 1) by {
                assert forall|j: int|
                    0 <= j < lines.len() && contains_seq(#[trigger] lines[j], keyword) implies exists|
                    k: int,
                |
                    0 <= k < full.len() && full[k].0 == j + 1 by {
                    if j < prefix.len() {
                        assert(prefix[j] == lines[j]);
                        let k = choose|k: int| 0 <= k < rest.len() && rest[k].0 == j + 1;
                        assert(full[k].0 == j + 1);
                    } else {
                        assert(full[full.len() - 1].0 == j + 1);
                    }
                }
            }
        } else {
            assert(full.map_values(|p: (int, Seq<char>)| p.1) =~= rest.map_values(
                |p: (int, Seq<char>)| p.1,
            ));
            assert(forall|j: int|
                0 <= j < prefix.len() ==> prefix[j] == #[trigger] lines[j]);
        }
    }
}

} // verus!
