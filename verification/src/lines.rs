//! The line engine: indexing a text into its ordered lines, with line
//! terminators stripped and no phantom line after a trailing newline.

use vstd::prelude::*;
use crate::text::{
    split_on,
    join_with,
    count_char,
    lemma_split_on_nonempty,
    lemma_split_on_len,
    lemma_split_on_last,
    lemma_split_on_absent,
    lemma_split_join,
    lemma_string_views,
};
use vstd::string::StrSliceExecFns;

verus! {

/// `l` with one trailing carriage return removed, if it ends in one.
pub open spec fn strip_cr(l: Seq<char>) -> Seq<char> {
    if l.len() > 0 && l.last() == '\r' {
        l.drop_last()
    } else {
        l
    }
}

/// The lines of `content`: segments between newlines, each stripped of a
/// trailing carriage return, with no empty phantom line after a trailing
/// newline. Empty content has no lines.
pub open spec fn lines_of(content: Seq<char>) -> Seq<Seq<char>> {
    if content.len() == 0 {
        Seq::<Seq<char>>::empty()
    } else {
        let parts = split_on(content, '\n');
        let closed = parts.drop_last().map_values(|l: Seq<char>| strip_cr(l));
        if parts.last().len() == 0 {
            closed
        } else {
            closed.push(parts.last())
        }
    }
}

/// Splits `content` into its lines, in order: the text of line `k + 1` of the
/// content is element `k` of the result.
pub fn index_lines(content: &str) -> (lines: Vec<String>)
    ensures
        lines.deep_view() == lines_of(content@),
{
    let ghost s = content@;
    let n = content.unicode_len();
    let mut lines: Vec<String> = Vec::new();
    let mut start: usize = 0;
    let mut i: usize = 0;
    while i < n
        invariant
            s == content@,
            n == s.len(),
            start <= i <= n,
            split_on(s.take(i as int), '\n').len() == lines.deep_view().len() + 1,
            lines.deep_view() == split_on(s.take(i as int), '\n').drop_last().map_values(
                |l: Seq<char>| strip_cr(l),
            ),
            split_on(s.take(i as int), '\n').last() == s.subrange(start as int, i as int),
        decreases n - i,
    {
        let ghost parts = split_on(s.take(i as int), '\n');
        proof {
            assert(s.take(i + 1).drop_last() =~= s.take(i as int));
            assert(s.take(i + 1).last() == s[i as int]);
        }
        let c = content.get_char(i);
        if c == '\n' {
            let mut end = i;
            if end > start && content.get_char(end - 1) == '\r' {
                end = end - 1;
            }
            let segment = content.substring_char(start, end).to_owned();
            proof {
                assert(segment@ == strip_cr(parts.last())) by {
                    let raw = s.subrange(start as int, i as int);
                    if raw.len() > 0 && raw.last() == '\r' {
                        assert(raw.last() == s[i - 1]);
                        assert(s.subrange(start as int, i - 1) =~= raw.drop_last());
                    }
                }
            }
            let ghost pre_dv = lines.deep_view();
            let ghost pre = lines@;
            proof {
                lemma_string_views(&lines);
            }
            lines.push(segment);
            proof {
                lemma_string_views(&lines);
                assert(lines.deep_view() =~= pre_dv.push(segment@)) by {
                    assert(lines@ == pre.push(segment));
                    assert(forall|k: int|
                        0 <= k < pre.len() ==> lines@[k] == pre[k] && pre_dv[k] == (
                        #[trigger] pre[k])@);
                }
                let grown = parts.push(Seq::<char>::empty());
                assert(split_on(s.take(i + 1), '\n') =~= grown);
                assert(grown.drop_last() =~= parts);
                assert(grown.drop_last().map_values(|l: Seq<char>| strip_cr(l)) =~= parts.drop_last().map_values(
                    |l: Seq<char>| strip_cr(l),
                ).push(strip_cr(parts.last())));
                assert(s.subrange(i + 1, i + 1) =~= Seq::<char>::empty());
            }
            start = i + 1;
        } else {
            proof {
                let grown = parts.update(parts.len() - 1, parts.last().push(s[i as int]));
                assert(split_on(s.take(i + 1), '\n') == grown);
                assert(grown.drop_last() =~= parts.drop_last());
                assert(s.subrange(start as int, i as int).push(s[i as int]) =~= s.subrange(
                    start as int,
                    i + 1,
                ));
            }
        }
        i += 1;
    }
    proof {
        assert(s.take(n as int) =~= s);
    }
    if start < n {
        let segment = content.substring_char(start, n).to_owned();
        let ghost pre_dv = lines.deep_view();
        let ghost pre = lines@;
        proof {
            lemma_string_views(&lines);
        }
        lines.push(segment);
        proof {
            lemma_string_views(&lines);
            assert(lines.deep_view() =~= pre_dv.push(segment@)) by {
                assert(lines@ == pre.push(segment));
                assert(forall|k: int|
                    0 <= k < pre.len() ==> lines@[k] == pre[k] && pre_dv[k] == (
                    #[trigger] pre[k])@);
            }
            let parts = split_on(s, '\n');
            assert(parts.last().len() > 0);
            assert(lines.deep_view() =~= lines_of(s));
        }
    } else {
        proof {
            let parts = split_on(s, '\n');
            if s.len() > 0 {
                assert(parts.last() =~= Seq::<char>::empty());
                assert(lines.deep_view() =~= lines_of(s));
            } else {
                assert(parts.drop_last() =~= Seq::<Seq<char>>::empty());
                assert(lines.deep_view() =~= lines_of(s));
            }
        }
    }
    lines
}

/// Law: the number of lines is the number of newlines, plus one more when the
/// content is non-empty and does not end in a newline.
pub proof fn lemma_line_count(content: Seq<char>)
    ensures
        lines_of(content).len() == count_char(content, '\n') + if content.len() > 0
            && content.last() != '\n' {
            1int
        } else {
            0int
        },
{
    if content.len() > 0 {
        lemma_split_on_len(content, '\n');
        lemma_split_on_nonempty(content, '\n');
        lemma_split_on_last(content, '\n');
    }
}

/// Law: for content free of carriage returns, rejoining the lines with `\n`
/// reproduces the content, up to the one trailing newline that closes the
/// last line.
pub proof fn lemma_lines_join(content: Seq<char>)
    requires
        !content.contains('\r'),
    ensures
        join_with(lines_of(content), '\n') == if content.len() > 0 && content.last() == '\n' {
            content.drop_last()
        } else {
            content
        },
{
    if content.len() == 0 {
    } else {
        let parts = split_on(content, '\n');
        lemma_split_on_nonempty(content, '\n');
        lemma_split_on_len(content, '\n');
        lemma_split_on_last(content, '\n');
        lemma_split_on_absent(content, '\n', '\r');
        lemma_split_join(content, '\n');
        let closed = parts.drop_last().map_values(|l: Seq<char>| strip_cr(l));
        assert(closed =~= parts.drop_last()) by {
            assert(forall|k: int|
                0 <= k < parts.drop_last().len() ==> (#[trigger] parts.drop_last()[k]) == parts[k]
                    && !parts[k].contains('\r'));
            assert(forall|k: int|
                0 <= k < parts.drop_last().len() ==> strip_cr(#[trigger] parts.drop_last()[k])
                    == parts.drop_last()[k]) by {
                assert(forall|l: Seq<char>|
                    #![trigger strip_cr(l)]
                    !l.contains('\r') && l.len() > 0 ==> l.last() != '\r' && l[l.len() - 1]
                        == l.last());
            }
        }
        if parts.last().len() == 0 {
            assert(content.last() == '\n');
            assert(parts.len() >= 2) by {
                if parts.len() < 2 {
                    assert(join_with(parts, '\n') == parts[0]);
                }
            }
            assert(join_with(parts, '\n') == join_with(parts.drop_last(), '\n') + seq!['\n']
                + parts.last());
            assert(join_with(parts.drop_last(), '\n') + seq!['\n'] + parts.last() =~= join_with(
                parts.drop_last(),
                '\n',
            ).push('\n'));
            assert(join_with(lines_of(content), '\n') =~= content.drop_last()) by {
                assert(join_with(parts.drop_last(), '\n').push('\n') == content);
                assert(content.drop_last() =~= join_with(parts.drop_last(), '\n').push(
                    '\n',
                ).drop_last());
            }
        } else {
            assert(content.last() != '\n');
            assert(lines_of(content) =~= parts);
        }
    }
}

} // verus!
