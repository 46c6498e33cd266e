//! Lists of named values kept in increasing order of name, each name once,
//! as a map from name to value.

use vstd::prelude::*;

use crate::duplicate::Duplicate;
use crate::text::{lemma_text_less_irreflexive, lemma_text_less_total, lemma_text_less_transitive, text_less, text_less_exec};

verus! {

/// The map from name to value that the entries `entries` give, a later
/// entry replacing an earlier one with the same name.
pub open spec fn named_map_of<V>(entries: Seq<(Seq<char>, V)>) -> Map<Seq<char>, V>
    decreases entries.len(),
{
    if entries.len() == 0 {
        Map::empty()
    } else {
        named_map_of(entries.drop_last()).insert(entries.last().0, entries.last().1)
    }
}

/// The names of `pairs` come in increasing order, each once.
pub open spec fn names_in_order<V>(pairs: Seq<(Seq<char>, V)>) -> bool {
    forall|i: int, j: int| 0 <= i < j < pairs.len() ==> text_less(#[trigger] pairs[i].0, #[trigger] pairs[j].0)
}

/// `pairs` lists the map `m` in increasing order of name, each name once.
pub open spec fn lists_in_order<V>(pairs: Seq<(Seq<char>, V)>, m: Map<Seq<char>, V>) -> bool {
    &&& names_in_order(pairs)
    &&& forall|i: int|
        0 <= i < pairs.len() ==> m.contains_key((#[trigger] pairs[i]).0) && m[pairs[i].0] == pairs[i].1
    &&& forall|k: Seq<char>|
        #[trigger] m.contains_key(k) ==> exists|i: int| 0 <= i < pairs.len() && (#[trigger] pairs[i]).0 == k
}

proof fn lemma_after_position<V>(ov: Seq<(Seq<char>, V)>, p: int, k: Seq<char>)
    requires
        forall|i: int, j: int| 0 <= i < j < ov.len() ==> text_less(#[trigger] ov[i].0, #[trigger] ov[j].0),
        0 <= p < ov.len(),
        text_less(k, ov[p].0),
    ensures
        forall|j: int| p <= j < ov.len() ==> text_less(k, #[trigger] ov[j].0),
{
    assert forall|j: int| p <= j < ov.len() implies text_less(k, #[trigger] ov[j].0) by {
        if j > p {
            assert(text_less(ov[p].0, ov[j].0));
            lemma_text_less_transitive(k, ov[p].0, ov[j].0);
        }
    }
}

/// Puts `value` under `key` in the list `out` of the map `m`, kept in
/// increasing order of name: in place of the value of `key`, or where the
/// order has it.
fn insert_named<V: DeepView>(
    out: &mut Vec<(String, V)>,
    key: String,
    value: V,
    Ghost(m): Ghost<Map<Seq<char>, V::V>>,
)
    requires
        lists_in_order(old(out).deep_view(), m),
    ensures
        lists_in_order(final(out).deep_view(), m.insert(key@, value.deep_view())),
{
    let ghost ov = out.deep_view();
    let ghost k = key@;
    let ghost v = value.deep_view();
    let n = out.len();
    let mut p: usize = 0;
    while p < n && text_less_exec(out[p].0.as_str(), key.as_str())
        invariant
            p <= n,
            n == out@.len(),
            ov == out.deep_view(),
            k == key@,
            forall|j: int| 0 <= j < p ==> text_less(#[trigger] ov[j].0, k),
        decreases n - p,
    {
        assert(ov[p as int] == out@[p as int].deep_view());
        p = p + 1;
    }
    let ghost m2 = m.insert(k, v);
    if p < n && out[p].0 == key {
        assert(ov[p as int] == out@[p as int].deep_view());
        out.set(p, (key, value));
        let ghost nv = out.deep_view();
        assert(nv =~= ov.update(p as int, (k, v)));
        assert forall|i: int| 0 <= i < nv.len() && i != p implies (#[trigger] nv[i]).0 != k by {
            lemma_text_less_irreflexive(k);
            if i < p {
                assert(text_less(ov[i].0, ov[p as int].0));
            } else {
                assert(text_less(ov[p as int].0, ov[i].0));
            }
        }
        assert forall|i: int, j: int| 0 <= i < j < nv.len() implies text_less(
            #[trigger] nv[i].0,
            #[trigger] nv[j].0,
        ) by {
            assert(nv[i].0 == ov[i].0 && nv[j].0 == ov[j].0);
        }
        assert forall|i: int| 0 <= i < nv.len() implies m2.contains_key((#[trigger] nv[i]).0)
            && m2[nv[i].0] == nv[i].1 by {
            if i != p {
                assert(nv[i] == ov[i]);
            }
        }
        assert forall|x: Seq<char>| #[trigger] m2.contains_key(x) implies exists|i: int|
            0 <= i < nv.len() && (#[trigger] nv[i]).0 == x by {
            if x == k {
                assert(nv[p as int].0 == x);
            } else {
                let i = choose|i: int| 0 <= i < ov.len() && (#[trigger] ov[i]).0 == x;
                assert(nv[i] == ov[i]);
            }
        }
    } else {
        proof {
            if p < n {
                assert(ov[p as int] == out@[p as int].deep_view());
                assert(ov[p as int].0 != k);
                assert(!text_less(ov[p as int].0, k));
                lemma_text_less_total(ov[p as int].0, k);
                lemma_after_position(ov, p as int, k);
            }
            lemma_text_less_irreflexive(k);
        }
        out.insert(p, (key, value));
        let ghost nv = out.deep_view();
        assert(nv =~= ov.insert(p as int, (k, v)));
        assert forall|j: int| p <= j < ov.len() implies text_less(k, #[trigger] ov[j].0) by {}
        assert forall|i: int| 0 <= i < ov.len() implies (#[trigger] ov[i]).0 != k by {
            if i < p {
                assert(text_less(ov[i].0, k));
                lemma_text_less_total(ov[i].0, k);
            } else {
                assert(text_less(k, ov[i].0));
            }
        }
        assert forall|i: int, j: int| 0 <= i < j < nv.len() implies text_less(
            #[trigger] nv[i].0,
            #[trigger] nv[j].0,
        ) by {
            if j < p {
                assert(nv[i] == ov[i] && nv[j] == ov[j]);
            } else if j == p {
                assert(nv[i] == ov[i]);
            } else if i < p {
                assert(nv[i] == ov[i] && nv[j] == ov[j - 1]);
                assert(text_less(ov[i].0, ov[j - 1].0));
            } else if i == p {
                assert(nv[j] == ov[j - 1]);
            } else {
                assert(nv[i] == ov[i - 1] && nv[j] == ov[j - 1]);
                assert(text_less(ov[i - 1].0, ov[j - 1].0));
            }
        }
        assert forall|i: int| 0 <= i < nv.len() implies m2.contains_key((#[trigger] nv[i]).0)
            && m2[nv[i].0] == nv[i].1 by {
            if i < p {
                assert(nv[i] == ov[i]);
            } else if i > p {
                assert(nv[i] == ov[i - 1]);
            }
        }
        assert forall|x: Seq<char>| #[trigger] m2.contains_key(x) implies exists|i: int|
            0 <= i < nv.len() && (#[trigger] nv[i]).0 == x by {
            if x == k {
                assert(nv[p as int].0 == x);
            } else {
                let i = choose|i: int| 0 <= i < ov.len() && (#[trigger] ov[i]).0 == x;
                if i < p {
                    assert(nv[i] == ov[i]);
                } else {
                    assert(nv[i + 1] == ov[i]);
                }
            }
        }
    }
}


/// The entries of `entries`, a later entry replacing an earlier one with
/// the same name, listed in increasing order of name, each name once.
pub fn ordered_by_name<V: Duplicate>(entries: &Vec<(String, V)>) -> (res: Vec<(String, V)>)
    ensures
        lists_in_order(res.deep_view(), named_map_of(entries.deep_view())),
{
    let ghost ev = entries.deep_view();
    let mut out: Vec<(String, V)> = Vec::new();
    let n = entries.len();
    assert(ev.take(0) =~= Seq::<(Seq<char>, V::V)>::empty());
    assert(out.deep_view() =~= Seq::<(Seq<char>, V::V)>::empty());
    assert(lists_in_order(out.deep_view(), named_map_of(ev.take(0))));
    for i in 0..n
        invariant
            n == entries@.len(),
            ev == entries.deep_view(),
            lists_in_order(out.deep_view(), named_map_of(ev.take(i as int))),
    {
        assert(ev[i as int] == entries@[i as int].deep_view());
        let key = entries[i].0.clone();
        let value = entries[i].1.duplicate();
        insert_named(&mut out, key, value, Ghost(named_map_of(ev.take(i as int))));
        assert(ev.take(i + 1).drop_last() =~= ev.take(i as int));
        assert(ev.take(i + 1).last() == ev[i as int]);
    }
    assert(ev.take(n as int) =~= ev);
    out
}

} // verus!
