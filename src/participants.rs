use vstd::prelude::*;

use crate::model::texts_view;
use crate::text::{lemma_text_lt_asymmetric, lemma_text_lt_total, text_less, text_lt};

verus! {

/// `pair` holds, in increasing order, the two distinct names that make up
/// `names`: each name of `names` is one of them and both occur.
pub open spec fn is_pair_of(names: Seq<Seq<char>>, pair: Seq<Seq<char>>) -> bool {
    &&& pair.len() == 2
    &&& text_lt(pair[0], pair[1])
    &&& forall|i: int| 0 <= i < names.len() ==> #[trigger] names[i] == pair[0] || names[i] == pair[1]
    &&& names.contains(pair[0])
    &&& names.contains(pair[1])
}

/// The canonical participant list of a one-to-one room: the names sorted,
/// repetitions removed, when exactly two distinct names remain.
pub open spec fn canonical_pair(names: Seq<Seq<char>>) -> Option<Seq<Seq<char>>> {
    if exists|p: Seq<Seq<char>>| is_pair_of(names, p) {
        Some(choose|p: Seq<Seq<char>>| is_pair_of(names, p))
    } else {
        None
    }
}

pub proof fn lemma_pair_unique(names: Seq<Seq<char>>, p: Seq<Seq<char>>, q: Seq<Seq<char>>)
    requires
        is_pair_of(names, p),
        is_pair_of(names, q),
    ensures
        p == q,
{
    lemma_text_lt_asymmetric(p[0], p[1]);
    lemma_text_lt_asymmetric(q[0], q[1]);
    lemma_text_lt_asymmetric(p[0], p[0]);
    lemma_text_lt_asymmetric(q[0], q[0]);
    lemma_text_lt_asymmetric(p[1], p[1]);
    let i0 = choose|i: int| 0 <= i < names.len() && names[i] == p[0];
    let i1 = choose|i: int| 0 <= i < names.len() && names[i] == p[1];
    let j0 = choose|i: int| 0 <= i < names.len() && names[i] == q[0];
    let j1 = choose|i: int| 0 <= i < names.len() && names[i] == q[1];
    assert(names[i0] == q[0] || names[i0] == q[1]);
    assert(names[i1] == q[0] || names[i1] == q[1]);
    assert(names[j0] == p[0] || names[j0] == p[1]);
    assert(names[j1] == p[0] || names[j1] == p[1]);
    assert(p =~= q);
}

/// Two name lists with the same members have the same canonical pair, so
/// `{a, b}` and `{b, a}` name the same one-to-one room.
pub proof fn lemma_canonical_pair_ignores_order(a: Seq<Seq<char>>, b: Seq<Seq<char>>)
    requires
        forall|x: Seq<char>| a.contains(x) <==> b.contains(x),
    ensures
        canonical_pair(a) == canonical_pair(b),
{
    assert forall|p: Seq<Seq<char>>| is_pair_of(a, p) implies is_pair_of(b, p) by {
        assert forall|i: int| 0 <= i < b.len() implies #[trigger] b[i] == p[0] || b[i] == p[1] by {
            assert(b.contains(b[i]));
            assert(a.contains(b[i]));
        }
        assert(b.contains(p[0]));
        assert(b.contains(p[1]));
    }
    assert forall|p: Seq<Seq<char>>| is_pair_of(b, p) implies is_pair_of(a, p) by {
        assert forall|i: int| 0 <= i < a.len() implies #[trigger] a[i] == p[0] || a[i] == p[1] by {
            assert(a.contains(a[i]));
            assert(b.contains(a[i]));
        }
        assert(a.contains(p[0]));
        assert(a.contains(p[1]));
    }
    if exists|p: Seq<Seq<char>>| is_pair_of(a, p) {
        let p = choose|p: Seq<Seq<char>>| is_pair_of(a, p);
        let q = choose|p: Seq<Seq<char>>| is_pair_of(b, p);
        lemma_pair_unique(a, p, q);
    }
}

/// Sorts the names and removes repetitions; gives the result only when
/// exactly two distinct names remain.
pub fn canonical_participants(names: &Vec<String>) -> (r: Option<Vec<String>>)
    ensures
        match r {
            Some(v) => canonical_pair(texts_view(names@)) == Some(texts_view(v@)),
            None => canonical_pair(texts_view(names@)) is None,
        },
{
    let ghost nv = texts_view(names@);
    let mut first: Option<usize> = None;
    let mut second: Option<usize> = None;
    let mut i: usize = 0;
    while i < names.len()
        invariant
            nv == texts_view(names@),
            i <= names@.len(),
            first is None ==> i == 0 && second is None,
            first matches Some(a) ==> a < i && match second {
                None => forall|j: int| 0 <= j < i ==> #[trigger] nv[j] == nv[a as int],
                Some(b) => a < b < i && nv[a as int] != nv[b as int] && forall|j: int|
                    0 <= j < i ==> #[trigger] nv[j] == nv[a as int] || nv[j] == nv[b as int],
            },
        decreases names@.len() - i,
    {
        match first {
            None => {
                first = Some(i);
            },
            Some(a) => {
                if names[i] != names[a] {
                    match second {
                        None => {
                            second = Some(i);
                        },
                        Some(b) => {
                            if names[i] != names[b] {
                                proof {
                                    if exists|p: Seq<Seq<char>>| is_pair_of(nv, p) {
                                        let p = choose|p: Seq<Seq<char>>| is_pair_of(nv, p);
                                        assert(nv[a as int] == p[0] || nv[a as int] == p[1]);
                                        assert(nv[b as int] == p[0] || nv[b as int] == p[1]);
                                        assert(nv[i as int] == p[0] || nv[i as int] == p[1]);
                                    }
                                }
                                return None;
                            }
                        },
                    }
                }
            },
        }
        i = i + 1;
    }
    match (first, second) {
        (Some(a), Some(b)) => {
            let x = names[a].clone();
            let y = names[b].clone();
            proof {
                lemma_text_lt_total(x@, y@);
            }
            let v = if text_less(x.as_str(), y.as_str()) {
                vec![x, y]
            } else {
                vec![y, x]
            };
            proof {
                let pv = texts_view(v@);
                assert(pv[0] == nv[a as int] || pv[0] == nv[b as int]);
                assert(nv.contains(pv[0]));
                assert(nv.contains(pv[1]));
                assert(is_pair_of(nv, pv));
                let q = choose|p: Seq<Seq<char>>| is_pair_of(nv, p);
                lemma_pair_unique(nv, pv, q);
            }
            Some(v)
        },
        _ => {
            proof {
                if exists|p: Seq<Seq<char>>| is_pair_of(nv, p) {
                    let p = choose|p: Seq<Seq<char>>| is_pair_of(nv, p);
                    lemma_text_lt_asymmetric(p[0], p[1]);
                    let i0 = choose|k: int| 0 <= k < nv.len() && nv[k] == p[0];
                    let i1 = choose|k: int| 0 <= k < nv.len() && nv[k] == p[1];
                    assert(nv[i0] == nv[first->0 as int]);
                    assert(nv[i1] == nv[first->0 as int]);
                }
            }
            None
        },
    }
}

} // verus!
