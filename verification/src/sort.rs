//! Texts in lexicographic order of their characters, which is also the order of their
//! UTF-8 bytes.

use vstd::prelude::*;

verus! {

/// `a` comes no later than `b` in lexicographic character order.
pub open spec fn lex_le(a: Seq<char>, b: Seq<char>) -> bool
    decreases a.len(),
{
    if a.len() == 0 {
        true
    } else if b.len() == 0 {
        false
    } else if a[0] != b[0] {
        (a[0] as int) < (b[0] as int)
    } else {
        lex_le(a.drop_first(), b.drop_first())
    }
}

/// Any two texts are ordered one way or the other.
pub proof fn lemma_lex_total(a: Seq<char>, b: Seq<char>)
    ensures
        lex_le(a, b) || lex_le(b, a),
    decreases a.len(),
{
    if a.len() > 0 && b.len() > 0 && a[0] == b[0] {
        lemma_lex_total(a.drop_first(), b.drop_first());
    }
}

/// The order is transitive.
pub proof fn lemma_lex_trans(a: Seq<char>, b: Seq<char>, c: Seq<char>)
    requires
        lex_le(a, b),
        lex_le(b, c),
    ensures
        lex_le(a, c),
    decreases a.len(),
{
    if a.len() > 0 && b.len() > 0 && c.len() > 0 && a[0] == b[0] && b[0] == c[0] {
        lemma_lex_trans(a.drop_first(), b.drop_first(), c.drop_first());
    }
}

/// Whether the texts of `s` are in order.
pub open spec fn sorted(s: Seq<String>) -> bool {
    forall|i: int, j: int| 0 <= i < j < s.len() ==> lex_le((#[trigger] s[i])@, (#[trigger] s[j])@)
}

/// Whether `a` comes no later than `b`.
pub fn text_le(a: &String, b: &String) -> (r: bool)
    ensures
        r == lex_le(a@, b@),
{
    let av = crate::text::chars_of(a.as_str());
    let bv = crate::text::chars_of(b.as_str());
    let mut i: usize = 0;
    proof {
        assert(av@.skip(0) == av@);
        assert(bv@.skip(0) == bv@);
    }
    while i < av.len() && i < bv.len()
        invariant
            i <= av@.len(),
            i <= bv@.len(),
            lex_le(av@, bv@) == lex_le(av@.skip(i as int), bv@.skip(i as int)),
            av@ == a@,
            bv@ == b@,
        decreases av.len() - i,
    {
        if av[i] != bv[i] {
            proof {
                assert(av@.skip(i as int)[0] == av@[i as int]);
                assert(bv@.skip(i as int)[0] == bv@[i as int]);
            }
            return av[i] < bv[i];
        }
        proof {
            assert(av@.skip(i as int).drop_first() == av@.skip(i + 1));
            assert(bv@.skip(i as int).drop_first() == bv@.skip(i + 1));
        }
        i = i + 1;
    }
    i == av.len()
}

/// `perm` reorders `n` items: every index below `n` exactly once.
pub open spec fn is_permutation(perm: Seq<int>, n: int) -> bool {
    &&& perm.len() == n
    &&& forall|k: int| 0 <= k < n ==> 0 <= #[trigger] perm[k] < n
    &&& forall|a: int, b: int| 0 <= a < b < n ==> #[trigger] perm[a] != #[trigger] perm[b]
}

/// `out` holds the items of `v`, reordered.
pub open spec fn reorders(out: Seq<String>, v: Seq<String>) -> bool {
    exists|perm: Seq<int>|
        is_permutation(perm, v.len() as int) && out.len() == v.len() && forall|k: int|
            0 <= k < out.len() ==> out[k] == v[#[trigger] perm[k]]
}

/// `v` sorted into lexicographic order.
pub fn sort_texts(v: &Vec<String>) -> (out: Vec<String>)
    ensures
        sorted(out@),
        reorders(out@, v@),
{
    let mut out: Vec<String> = Vec::new();
    let ghost mut perm: Seq<int> = Seq::empty();
    let mut i: usize = 0;
    while i < v.len()
        invariant
            i <= v@.len(),
            sorted(out@),
            is_permutation(perm, i as int),
            out@.len() == i,
            forall|k: int| 0 <= k < i ==> out@[k] == v@[#[trigger] perm[k]],
        decreases v.len() - i,
    {
        let x = v[i].clone();
        let mut p: usize = 0;
        while p < out.len() && text_le(&out[p], &x)
            invariant
                p <= out@.len(),
                forall|k: int| 0 <= k < p ==> lex_le((#[trigger] out@[k])@, x@),
            decreases out.len() - p,
        {
            p = p + 1;
        }
        let ghost before = out@;
        let ghost pb = perm;
        proof {
            if p < out@.len() {
                assert(!lex_le(out@[p as int]@, x@));
                lemma_lex_total(out@[p as int]@, x@);
                assert forall|k: int| p <= k < out@.len() implies lex_le(x@, (#[trigger] out@[k])@) by {
                    if k > p {
                        lemma_lex_trans(x@, out@[p as int]@, out@[k]@);
                    }
                }
            }
        }
        out.insert(p, x);
        proof {
            perm = pb.insert(p as int, i as int);
            assert forall|a: int, b: int| 0 <= a < b < out@.len() implies lex_le(
                (#[trigger] out@[a])@,
                (#[trigger] out@[b])@,
            ) by {
                if a < p && b < p {
                    assert(out@[a] == before[a] && out@[b] == before[b]);
                } else if a < p && b == p {
                } else if a < p && b > p {
                    assert(out@[a] == before[a] && out@[b] == before[b - 1]);
                } else if a == p {
                    assert(out@[b] == before[b - 1]);
                } else {
                    assert(out@[a] == before[a - 1] && out@[b] == before[b - 1]);
                }
            }
            assert forall|k: int| 0 <= k < i + 1 implies out@[k] == v@[#[trigger] perm[k]] by {
                if k < p {
                    assert(perm[k] == pb[k]);
                } else if k > p {
                    assert(perm[k] == pb[k - 1]);
                }
            }
            assert forall|k: int| 0 <= k < i + 1 implies 0 <= #[trigger] perm[k] < i + 1 by {
                if k < p {
                    assert(perm[k] == pb[k]);
                } else if k > p {
                    assert(perm[k] == pb[k - 1]);
                }
            }
            assert forall|a: int, b: int| 0 <= a < b < i + 1 implies #[trigger] perm[a] != #[trigger] perm[b] by {
                let oa = if a < p { a } else { a - 1 };
                let ob = if b < p { b } else { b - 1 };
                if a != p && b != p {
                    assert(perm[a] == pb[oa] && perm[b] == pb[ob]);
                } else if a == p {
                    assert(perm[b] == pb[ob]);
                } else {
                    assert(perm[a] == pb[oa]);
                }
            }
        }
        i = i + 1;
    }
    out
}

/// Every text comes no later than itself.
pub proof fn lemma_lex_refl(a: Seq<char>)
    ensures
        lex_le(a, a),
    decreases a.len(),
{
    if a.len() > 0 {
        lemma_lex_refl(a.drop_first());
    }
}

/// Two texts each no later than the other are the same.
pub proof fn lemma_lex_antisym(a: Seq<char>, b: Seq<char>)
    requires
        lex_le(a, b),
        lex_le(b, a),
    ensures
        a == b,
    decreases a.len(),
{
    if a.len() > 0 && b.len() > 0 {
        lemma_lex_antisym(a.drop_first(), b.drop_first());
        assert(a =~= seq![a[0]] + a.drop_first());
        assert(b =~= seq![b[0]] + b.drop_first());
    } else {
        assert(a =~= b);
    }
}

/// Pairs of texts in order of their first text, then of their second.
pub open spec fn pair_le(a: (Seq<char>, Seq<char>), b: (Seq<char>, Seq<char>)) -> bool {
    if a.0 == b.0 {
        lex_le(a.1, b.1)
    } else {
        lex_le(a.0, b.0)
    }
}

/// [`pair_le`] as a relation.
pub open spec fn pair_order() -> spec_fn((Seq<char>, Seq<char>), (Seq<char>, Seq<char>)) -> bool {
    |a: (Seq<char>, Seq<char>), b: (Seq<char>, Seq<char>)| pair_le(a, b)
}

/// [`pair_le`] is a total order.
pub proof fn lemma_pair_order_total()
    ensures
        vstd::relations::total_ordering(pair_order()),
{
    let r = pair_order();
    assert forall|a: (Seq<char>, Seq<char>)| #[trigger] r(a, a) by {
        lemma_lex_refl(a.1);
    }
    assert forall|a: (Seq<char>, Seq<char>), b: (Seq<char>, Seq<char>)| #[trigger] r(a, b) && #[trigger] r(b, a) implies a == b by {
        if a.0 == b.0 {
            lemma_lex_antisym(a.1, b.1);
        } else {
            lemma_lex_antisym(a.0, b.0);
        }
    }
    assert forall|a: (Seq<char>, Seq<char>), b: (Seq<char>, Seq<char>), c: (Seq<char>, Seq<char>)|
        #[trigger] r(a, b) && #[trigger] r(b, c) implies r(a, c) by {
        if a.0 == b.0 && b.0 == c.0 {
            lemma_lex_trans(a.1, b.1, c.1);
        } else if a.0 == b.0 {
        } else if b.0 == c.0 {
        } else {
            lemma_lex_trans(a.0, b.0, c.0);
            if a.0 == c.0 {
                lemma_lex_antisym(a.0, b.0);
            }
        }
    }
    assert forall|a: (Seq<char>, Seq<char>), b: (Seq<char>, Seq<char>)| #[trigger] r(a, b) || #[trigger] r(b, a) by {
        lemma_lex_total(a.0, b.0);
        lemma_lex_total(a.1, b.1);
    }
}

/// A pair of texts as values.
pub open spec fn pair_view(p: (String, String)) -> (Seq<char>, Seq<char>) {
    (p.0@, p.1@)
}

/// The pairs of `v` as values.
pub open spec fn pairs_view(v: Seq<(String, String)>) -> Seq<(Seq<char>, Seq<char>)> {
    v.map_values(|p: (String, String)| pair_view(p))
}

/// Whether pair `a` comes no later than pair `b`.
fn pair_le_exec(a: &(String, String), b: &(String, String)) -> (r: bool)
    ensures
        r == pair_le(pair_view(*a), pair_view(*b)),
{
    if crate::text::string_eq(&a.0, &b.0) {
        text_le(&a.1, &b.1)
    } else {
        text_le(&a.0, &b.0)
    }
}

/// `v` sorted by [`pair_le`]: the pairs of `v`, as values, in their one sorted order.
pub fn sort_pairs(v: &Vec<(String, String)>) -> (out: Vec<(String, String)>)
    ensures
        pairs_view(out@) == pairs_view(v@).sort_by(pair_order()),
{
    broadcast use vstd::seq_lib::group_to_multiset_ensures;
    broadcast use vstd::multiset::group_multiset_axioms;
    let mut out: Vec<(String, String)> = Vec::new();
    let mut i: usize = 0;
    proof {
        lemma_pair_order_total();
    }
    while i < v.len()
        invariant
            i <= v@.len(),
            vstd::relations::total_ordering(pair_order()),
            vstd::relations::sorted_by(pairs_view(out@), pair_order()),
            pairs_view(out@).to_multiset() == pairs_view(v@.subrange(0, i as int)).to_multiset(),
        decreases v.len() - i,
    {
        let x = (v[i].0.clone(), v[i].1.clone());
        let mut p: usize = 0;
        while p < out.len() && pair_le_exec(&out[p], &x)
            invariant
                p <= out@.len(),
                forall|k: int| 0 <= k < p ==> pair_le(pair_view(#[trigger] out@[k]), pair_view(x)),
            decreases out.len() - p,
        {
            p = p + 1;
        }
        let ghost before = pairs_view(out@);
        let ghost xv = pair_view(x);
        proof {
            if p < out@.len() {
                assert(before[p as int] == pair_view(out@[p as int]));
                assert(!pair_le(before[p as int], xv));
                lemma_lex_total(before[p as int].0, xv.0);
                lemma_lex_total(before[p as int].1, xv.1);
                assert(pair_le(xv, before[p as int]));
                assert(pair_order()(xv, before[p as int]));
                assert forall|k: int| p <= k < before.len() implies pair_le(xv, #[trigger] before[k]) by {
                    if k > p {
                        assert(pair_order()(before[p as int], before[k]));
                    }
                }
            }
        }
        out.insert(p, x);
        proof {
            let after = pairs_view(out@);
            assert(after =~= before.insert(p as int, xv));
            assert forall|a: int, b: int| 0 <= a < b < after.len() implies #[trigger] pair_order()(after[a], after[b]) by {
                if a < p && b < p {
                } else if a < p && b == p {
                    assert(pair_le(pair_view(out@[a]), xv));
                } else if a < p && b > p {
                    assert(after[b] == before[b - 1]);
                } else if a == p {
                    assert(after[b] == before[b - 1]);
                } else {
                    assert(after[a] == before[a - 1] && after[b] == before[b - 1]);
                }
            }
            assert(after.remove(p as int) =~= before);
            assert(after[p as int] == xv);
            vstd::seq_lib::to_multiset_remove(after, p as int);
            assert(after.to_multiset().remove(xv) =~= before.to_multiset());
            assert(after.contains(xv));
            after.to_multiset_ensures();
            assert(after.to_multiset().count(xv) > 0);
            assert(after.to_multiset() =~= after.to_multiset().remove(xv).insert(xv));
            assert(after.to_multiset() =~= before.to_multiset().insert(xv));
            let vs = pairs_view(v@.subrange(0, i + 1));
            assert(xv == pair_view(v@[i as int]));
            assert(vs =~= pairs_view(v@.subrange(0, i as int)).push(xv));
            vstd::seq_lib::to_multiset_build(pairs_view(v@.subrange(0, i as int)), xv);
        }
        i = i + 1;
    }
    proof {
        assert(v@.subrange(0, v@.len() as int) == v@);
        pairs_view(v@).lemma_sort_by_ensures(pair_order());
        vstd::seq_lib::lemma_sorted_unique(pairs_view(out@), pairs_view(v@).sort_by(pair_order()), pair_order());
    }
    out
}

} // verus!
