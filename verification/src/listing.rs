//! Turning raw directory entries into a sorted list of flow names.
//!
//! A listing keeps exactly the entries whose filename follows the flow
//! naming convention, strips the extension from each, and returns the
//! recovered names in ascending lexicographic order.

use vstd::prelude::*;
use vstd::relations::sorted_by;

use crate::naming::flow_key;
use crate::naming::flow_stem;
use crate::naming::has_flow_ext;
use crate::naming::lemma_key_has_ext;
use crate::naming::lemma_key_of_stem;
use crate::naming::flow_name_of;
use crate::order::lemma_lex_connected;
use crate::order::lemma_lex_le_transitive;
use crate::order::lex_le;
use crate::order::lex_lt;
use crate::order::str_lt;

verus! {

broadcast use vstd::seq_lib::group_to_multiset_ensures;

/// The views of a sequence of strings.
pub open spec fn seq_views(s: Seq<String>) -> Seq<Seq<char>> {
    s.map_values(|x: String| x@)
}

/// The non-strict lexicographic order as a relation value, for use
/// with `sorted_by`.
pub open spec fn lex_leq() -> spec_fn(Seq<char>, Seq<char>) -> bool {
    |a: Seq<char>, b: Seq<char>| lex_le(a, b)
}

/// The flow names a sequence of directory entries stands for: the stem
/// of each entry that follows the naming convention, in entry order.
pub open spec fn listed_names(es: Seq<Seq<char>>) -> Seq<Seq<char>>
    decreases es.len(),
{
    if es.len() == 0 {
        Seq::empty()
    } else if has_flow_ext(es.last()) {
        listed_names(es.drop_last()).push(flow_stem(es.last()))
    } else {
        listed_names(es.drop_last())
    }
}

/// A name is listed exactly when its filename is among the entries.
pub proof fn lemma_listed_names_membership(es: Seq<Seq<char>>)
    ensures
        forall|n: Seq<char>| #[trigger]
            listed_names(es).contains(n) <==> es.contains(flow_key(n)),
    decreases es.len(),
{
    if es.len() == 0 {
        assert forall|n: Seq<char>| #[trigger]
            listed_names(es).contains(n) <==> es.contains(flow_key(n)) by {
            assert(!es.contains(flow_key(n)));
            assert(!listed_names(es).contains(n));
        }
    } else {
        let rest = es.drop_last();
        lemma_listed_names_membership(rest);
        assert forall|n: Seq<char>| #[trigger]
            listed_names(es).contains(n) <==> es.contains(flow_key(n)) by {
            let ln = listed_names(es);
            let lrest = listed_names(rest);
            if ln.contains(n) {
                let i = choose|i: int| 0 <= i < ln.len() && ln[i] == n;
                if has_flow_ext(es.last()) && i == ln.len() - 1 {
                    lemma_key_of_stem(es.last());
                    assert(es[es.len() - 1] == flow_key(n));
                    assert(es.contains(flow_key(n)));
                } else {
                    assert(lrest[i] == n);
                    assert(lrest.contains(n));
                    let j = choose|j: int| 0 <= j < rest.len() && rest[j] == flow_key(n);
                    assert(es[j] == flow_key(n));
                    assert(es.contains(flow_key(n)));
                }
            }
            if es.contains(flow_key(n)) {
                let j = choose|j: int| 0 <= j < es.len() && es[j] == flow_key(n);
                if j < es.len() - 1 {
                    assert(rest[j] == flow_key(n));
                    assert(rest.contains(flow_key(n)));
                    assert(lrest.contains(n));
                    let i = choose|i: int| 0 <= i < lrest.len() && lrest[i] == n;
                    assert(ln[i] == n);
                    assert(ln.contains(n));
                } else {
                    lemma_key_has_ext(n);
                    assert(es.last() == flow_key(n));
                    assert(ln.last() == n);
                    assert(ln.contains(n));
                }
            }
        }
    }
}

/// Distinct entries list each name at most once.
pub proof fn lemma_listed_names_no_dup(es: Seq<Seq<char>>)
    requires
        es.no_duplicates(),
    ensures
        listed_names(es).no_duplicates(),
    decreases es.len(),
{
    if es.len() > 0 {
        let rest = es.drop_last();
        assert(rest.no_duplicates());
        lemma_listed_names_no_dup(rest);
        if has_flow_ext(es.last()) {
            let stem = flow_stem(es.last());
            lemma_listed_names_membership(rest);
            if listed_names(rest).contains(stem) {
                lemma_key_of_stem(es.last());
                let j = choose|j: int| 0 <= j < rest.len() && rest[j] == flow_key(stem);
                assert(es[j] == es.last());
            }
            assert(listed_names(es) =~= listed_names(rest).push(stem));
        }
    }
}

/// Inserting an element into a sequence inserts it into the multiset
/// of the sequence's elements.
pub proof fn lemma_to_multiset_insert(s: Seq<Seq<char>>, i: int, x: Seq<char>)
    requires
        0 <= i <= s.len(),
    ensures
        s.insert(i, x).to_multiset() == s.to_multiset().insert(x),
{
    let t = s.insert(i, x);
    s.insert_ensures(i, x);
    assert(t.remove(i) =~= s);
    assert(t[i] == x);
    assert(t.contains(x));
    assert(t.to_multiset().count(x) > 0);
    assert(t.to_multiset().remove(x) == s.to_multiset());
    assert forall|y: Seq<char>|
        t.to_multiset().count(y) == s.to_multiset().insert(x).count(y) by {
        if y == x {
            assert(t.to_multiset().remove(x).count(x) == t.to_multiset().count(x) - 1);
        } else {
            assert(t.to_multiset().remove(x).count(y) == t.to_multiset().count(y));
        }
    }
    assert(t.to_multiset() =~= s.to_multiset().insert(x));
}

/// Inserting an element at a position that respects the order keeps a
/// sorted sequence sorted.
pub proof fn lemma_sorted_insert(s: Seq<Seq<char>>, x: Seq<char>, j: int)
    requires
        sorted_by(s, lex_leq()),
        0 <= j <= s.len(),
        forall|m: int| 0 <= m < j ==> !lex_lt(x, #[trigger] s[m]),
        j < s.len() ==> lex_lt(x, s[j]),
    ensures
        sorted_by(s.insert(j, x), lex_leq()),
{
    let t = s.insert(j, x);
    s.insert_ensures(j, x);
    assert forall|p: int, q: int| 0 <= p < q < t.len() implies #[trigger] lex_leq()(t[p], t[q]) by {
        if q < j {
            assert(t[p] == s[p] && t[q] == s[q]);
            assert(lex_leq()(s[p], s[q]));
        } else if p < j && q == j {
            assert(t[p] == s[p] && t[q] == x);
            lemma_lex_connected(x, s[p]);
            assert(lex_le(s[p], x));
        } else if p < j && q > j {
            assert(t[p] == s[p] && t[q] == s[q - 1]);
            assert(lex_leq()(s[p], s[q - 1]));
        } else if p == j {
            assert(t[p] == x && t[q] == s[q - 1]);
            if q - 1 == j {
                assert(lex_le(x, s[j]));
            } else {
                assert(lex_leq()(s[j], s[q - 1]));
                lemma_lex_le_transitive(x, s[j], s[q - 1]);
                assert(lex_le(x, s[q - 1]));
            }
        } else {
            assert(t[p] == s[p - 1] && t[q] == s[q - 1]);
            assert(lex_leq()(s[p - 1], s[q - 1]));
        }
    }
}

/// The position at which `x` is inserted into the sorted sequence
/// `out`: past every element that does not come strictly after `x`.
fn insert_position(x: &str, out: &Vec<String>) -> (j: usize)
    ensures
        j <= out.len(),
        forall|m: int| 0 <= m < j ==> !lex_lt(x@, #[trigger] seq_views(out@)[m]),
        j < out.len() ==> lex_lt(x@, seq_views(out@)[j as int]),
{
    let mut j: usize = 0;
    while j < out.len()
        invariant
            j <= out.len(),
            forall|m: int| 0 <= m < j ==> !lex_lt(x@, #[trigger] seq_views(out@)[m]),
        decreases out.len() - j,
    {
        if str_lt(x, out[j].as_str()) {
            return j;
        }
        j = j + 1;
    }
    j
}

/// Sorts a vector of names into ascending lexicographic order.  The
/// result holds exactly the same names, each as often as before.
pub fn sort_names(names: Vec<String>) -> (r: Vec<String>)
    ensures
        sorted_by(seq_views(r@), lex_leq()),
        seq_views(r@).to_multiset() == seq_views(names@).to_multiset(),
{
    let mut out: Vec<String> = Vec::new();
    let mut k: usize = 0;
    while k < names.len()
        invariant
            k <= names.len(),
            sorted_by(seq_views(out@), lex_leq()),
            seq_views(out@).to_multiset() == seq_views(names@.take(k as int)).to_multiset(),
        decreases names.len() - k,
    {
        let x = names[k].clone();
        let j = insert_position(x.as_str(), &out);
        proof {
            lemma_sorted_insert(seq_views(out@), x@, j as int);
            lemma_to_multiset_insert(seq_views(out@), j as int, x@);
            assert(seq_views(out@.insert(j as int, x)) =~= seq_views(out@).insert(j as int, x@));
            assert(seq_views(names@.take(k as int + 1)) =~= seq_views(names@.take(k as int)).push(
                names@[k as int]@,
            ));
        }
        out.insert(j, x);
        k = k + 1;
    }
    proof {
        assert(names@.take(names@.len() as int) =~= names@);
    }
    out
}

/// Computes the flow names a directory listing stands for: keeps the
/// entries that follow the naming convention, strips the extension
/// from each, and sorts the recovered names into ascending
/// lexicographic order.
pub fn flow_names_from_entries(entries: &Vec<String>) -> (names: Vec<String>)
    ensures
        sorted_by(seq_views(names@), lex_leq()),
        seq_views(names@).to_multiset() == listed_names(seq_views(entries@)).to_multiset(),
{
    let mut stems: Vec<String> = Vec::new();
    let mut i: usize = 0;
    while i < entries.len()
        invariant
            i <= entries.len(),
            seq_views(stems@) == listed_names(seq_views(entries@).take(i as int)),
        decreases entries.len() - i,
    {
        let ghost prefix = seq_views(entries@).take(i as int);
        match flow_name_of(entries[i].as_str()) {
            Some(s) => {
                proof {
                    assert(seq_views(stems@.push(s)) =~= seq_views(stems@).push(s@));
                }
                stems.push(s);
            },
            None => {},
        }
        proof {
            let next = seq_views(entries@).take(i as int + 1);
            assert(next.drop_last() =~= prefix);
            assert(next.last() == entries@[i as int]@);
        }
        i = i + 1;
    }
    proof {
        assert(seq_views(entries@).take(entries@.len() as int) =~= seq_views(entries@));
    }
    sort_names(stems)
}

} // verus!
