//! Environment reporting: formatting `NAME=value` lines, locating the
//! configuration file under the home directory, and ordering environment
//! variables by name.

use vstd::prelude::*;
use vstd::string::{StringExecFns, StrSliceExecFns};

verus! {

/// Formats one environment variable as the report line `NAME=value`.
pub fn env_line(name: &str, value: &str) -> (line: String)
    ensures
        line@ == name@ + "="@ + value@,
{
    let mut line = name.to_owned();
    line.append("=");
    line.append(value);
    line
}

/// The path of the shell configuration file under the given home directory.
pub fn home_config_path(home: &str) -> (path: String)
    ensures
        path@ == home@ + "/.zshrc"@,
{
    let mut path = home.to_owned();
    path.append("/.zshrc");
    path
}

/// One environment variable: its name and its value.
pub struct EnvVar {
    pub name: String,
    pub value: String,
}

/// Lexicographic order on character sequences by code point: the order in
/// which an environment listing is printed.
pub open spec fn lex_le(a: Seq<char>, b: Seq<char>) -> bool
    decreases a.len(),
{
    if a.len() == 0 {
        true
    } else if b.len() == 0 {
        false
    } else if (a[0] as u32) == (b[0] as u32) {
        lex_le(a.skip(1), b.skip(1))
    } else {
        (a[0] as u32) < (b[0] as u32)
    }
}

/// The order is reflexive.
pub proof fn lemma_lex_le_refl(a: Seq<char>)
    ensures
        lex_le(a, a),
    decreases a.len(),
{
    if a.len() > 0 {
        lemma_lex_le_refl(a.skip(1));
    }
}

/// The order is total: of any two sequences, one is below the other.
pub proof fn lemma_lex_le_total(a: Seq<char>, b: Seq<char>)
    ensures
        lex_le(a, b) || lex_le(b, a),
    decreases a.len(),
{
    if a.len() > 0 && b.len() > 0 && (a[0] as u32) == (b[0] as u32) {
        lemma_lex_le_total(a.skip(1), b.skip(1));
    }
}

/// The order is transitive.
pub proof fn lemma_lex_le_trans(a: Seq<char>, b: Seq<char>, c: Seq<char>)
    requires
        lex_le(a, b),
        lex_le(b, c),
    ensures
        lex_le(a, c),
    decreases a.len(),
{
    if a.len() == 0 {
    } else {
        assert(b.len() > 0);
        assert(c.len() > 0);
        if (a[0] as u32) == (b[0] as u32) && (b[0] as u32) == (c[0] as u32) {
            lemma_lex_le_trans(a.skip(1), b.skip(1), c.skip(1));
        }
    }
}

/// Dropping an equal prefix of both sides leaves the order unchanged.
pub proof fn lemma_lex_le_common_prefix(a: Seq<char>, b: Seq<char>, i: int)
    requires
        0 <= i <= a.len(),
        i <= b.len(),
        forall|k: int| 0 <= k < i ==> (a[k] as u32) == (b[k] as u32),
    ensures
        lex_le(a, b) == lex_le(a.skip(i), b.skip(i)),
    decreases i,
{
    if i == 0 {
        assert(a.skip(0) =~= a);
        assert(b.skip(0) =~= b);
    } else {
        assert((a[0] as u32) == (b[0] as u32));
        lemma_lex_le_common_prefix(a.skip(1), b.skip(1), i - 1);
        assert(a.skip(1).skip(i - 1) =~= a.skip(i));
        assert(b.skip(1).skip(i - 1) =~= b.skip(i));
    }
}

/// Whether `a` comes no later than `b` in the environment listing's order.
pub fn lex_le_exec(a: &str, b: &str) -> (r: bool)
    ensures
        r == lex_le(a@, b@),
{
    let n = a.unicode_len();
    let m = b.unicode_len();
    let mut i: usize = 0;
    while i < n && i < m
        invariant
            i <= n,
            i <= m,
            n == a@.len(),
            m == b@.len(),
            forall|k: int| 0 <= k < i ==> (a@[k] as u32) == (b@[k] as u32),
        decreases n - i,
    {
        let ca = a.get_char(i);
        let cb = b.get_char(i);
        if (ca as u32) != (cb as u32) {
            proof {
                lemma_lex_le_common_prefix(a@, b@, i as int);
                assert(a@.skip(i as int)[0] == a@[i as int]);
                assert(b@.skip(i as int)[0] == b@[i as int]);
            }
            return (ca as u32) < (cb as u32);
        }
        i += 1;
    }
    proof {
        lemma_lex_le_common_prefix(a@, b@, i as int);
        if i == n {
            assert(a@.skip(i as int).len() == 0);
        } else {
            assert(b@.skip(i as int).len() == 0);
            assert(a@.skip(i as int).len() > 0);
        }
    }
    n <= m
}

/// The entries stand in listing order: each name comes no later than every
/// name after it.
pub open spec fn sorted_by_name(entries: Seq<EnvVar>) -> bool {
    forall|i: int, j: int|
        0 <= i < j < entries.len() ==> lex_le(
            (#[trigger] entries[i]).name@,
            (#[trigger] entries[j]).name@,
        )
}

/// Reorders environment variables by name, code point order, keeping exactly
/// the given entries.
pub fn sort_env_vars(entries: Vec<EnvVar>) -> (sorted: Vec<EnvVar>)
    ensures
        sorted_by_name(sorted@),
        sorted@.to_multiset() == entries@.to_multiset(),
        sorted@.len() == entries@.len(),
{
    let ghost all = entries@;
    let mut src = entries;
    let mut sorted: Vec<EnvVar> = Vec::new();
    proof {
        broadcast use vstd::multiset::group_multiset_axioms;

        vstd::seq_lib::to_multiset_len::<EnvVar>(sorted@);
        vstd::multiset::lemma_multiset_empty_len::<EnvVar>(sorted@.to_multiset());
        assert(sorted@.to_multiset().add(src@.to_multiset()) =~= all.to_multiset());
    }
    while src.len() > 0
        invariant
            sorted@.to_multiset().add(src@.to_multiset()) == all.to_multiset(),
            sorted_by_name(sorted@),
            forall|i: int, j: int|
                0 <= i < sorted@.len() && 0 <= j < src@.len() ==> lex_le(
                    (#[trigger] sorted@[i]).name@,
                    (#[trigger] src@[j]).name@,
                ),
        decreases src@.len(),
    {
        let mut m: usize = 0;
        let mut k: usize = 1;
        proof {
            lemma_lex_le_refl(src@[0].name@);
        }
        while k < src.len()
            invariant
                m < k <= src@.len(),
                src@.len() > 0,
                forall|t: int| 0 <= t < k ==> lex_le(src@[m as int].name@, (#[trigger] src@[t]).name@),
            decreases src@.len() - k,
        {
            if !lex_le_exec(src[m].name.as_str(), src[k].name.as_str()) {
                proof {
                    lemma_lex_le_total(src@[m as int].name@, src@[k as int].name@);
                    lemma_lex_le_refl(src@[k as int].name@);
                    assert forall|t: int| 0 <= t < k implies lex_le(
                        src@[k as int].name@,
                        (#[trigger] src@[t]).name@,
                    ) by {
                        lemma_lex_le_trans(src@[k as int].name@, src@[m as int].name@, src@[t].name@);
                    }
                }
                m = k;
            }
            k += 1;
        }
        let ghost pre_src = src@;
        let ghost pre_sorted = sorted@;
        let picked = src.remove(m);
        sorted.push(picked);
        proof {
            broadcast use vstd::multiset::group_multiset_axioms;

            assert(src@ == pre_src.remove(m as int));
            assert(sorted@ == pre_sorted.push(picked));
            assert(pre_src.contains(picked)) by {
                assert(pre_src[m as int] == picked);
            }
            vstd::seq_lib::to_multiset_contains::<EnvVar>(pre_src, picked);
            vstd::seq_lib::to_multiset_build::<EnvVar>(pre_sorted, picked);
            vstd::seq_lib::to_multiset_remove::<EnvVar>(pre_src, m as int);
            assert(sorted@.to_multiset().add(src@.to_multiset()) =~= all.to_multiset());
            assert(forall|j: int|
                0 <= j < src@.len() ==> lex_le(picked.name@, (#[trigger] src@[j]).name@)) by {
                assert(forall|j: int|
                    0 <= j < src@.len() ==> src@[j] == if j < m {
                        pre_src[j]
                    } else {
                        pre_src[j + 1]
                    });
            }
            assert(forall|i: int|
                0 <= i < pre_sorted.len() ==> lex_le(
                    (#[trigger] pre_sorted[i]).name@,
                    picked.name@,
                ));
            assert(sorted_by_name(sorted@)) by {
                assert(forall|i: int|
                    0 <= i < sorted@.len() ==> sorted@[i] == if i < pre_sorted.len() {
                        pre_sorted[i]
                    } else {
                        picked
                    });
            }
        }
    }
    proof {
        broadcast use vstd::multiset::group_multiset_axioms;

        vstd::seq_lib::to_multiset_len::<EnvVar>(src@);
        vstd::multiset::lemma_multiset_empty_len::<EnvVar>(src@.to_multiset());
        assert(sorted@.to_multiset() =~= all.to_multiset());
        vstd::seq_lib::to_multiset_len::<EnvVar>(sorted@);
        vstd::seq_lib::to_multiset_len::<EnvVar>(all);
    }
    sorted
}

} // verus!
