//! Grouping keyed items: groups in order of first appearance, and the
//! ordering of groups by size.
use vstd::prelude::*;
use crate::text::{
    char_views, chars_equal, chars_lt, lemma_lex_lt_asym, lemma_lex_lt_total, lemma_lex_lt_trans, lex_lt,
};

verus! {

/// The view of a (key, item) pair.
pub open spec fn pair_views(v: Seq<(Vec<char>, Vec<char>)>) -> Seq<(Seq<char>, Seq<char>)> {
    v.map_values(|p: (Vec<char>, Vec<char>)| (p.0@, p.1@))
}

/// The view of a group: its key and its items.
pub open spec fn group_views(v: Seq<(Vec<char>, Vec<Vec<char>>)>) -> Seq<
    (Seq<char>, Seq<Seq<char>>),
> {
    v.map_values(|g: (Vec<char>, Vec<Vec<char>>)| (g.0@, char_views(g.1@)))
}

/// The keys of `pairs` in order of first appearance.
pub open spec fn first_keys(pairs: Seq<(Seq<char>, Seq<char>)>) -> Seq<Seq<char>>
    decreases pairs.len(),
{
    if pairs.len() == 0 {
        Seq::empty()
    } else {
        let ks = first_keys(pairs.drop_last());
        if ks.contains(pairs.last().0) {
            ks
        } else {
            ks.push(pairs.last().0)
        }
    }
}

/// The items of `pairs` under key `k`, in order.
pub open spec fn members(pairs: Seq<(Seq<char>, Seq<char>)>, k: Seq<char>) -> Seq<Seq<char>>
    decreases pairs.len(),
{
    if pairs.len() == 0 {
        Seq::empty()
    } else {
        let m = members(pairs.drop_last(), k);
        if pairs.last().0 == k {
            m.push(pairs.last().1)
        } else {
            m
        }
    }
}

/// The groups of `pairs`: one per key in order of first appearance, with
/// the key's items in order.
pub open spec fn groups_of(pairs: Seq<(Seq<char>, Seq<char>)>) -> Seq<(Seq<char>, Seq<Seq<char>>)> {
    first_keys(pairs).map_values(|k: Seq<char>| (k, members(pairs, k)))
}

/// Group `a` comes before group `b`: it has more items, or as many and a
/// smaller key.
pub open spec fn ranks_before(a: (Seq<char>, Seq<Seq<char>>), b: (Seq<char>, Seq<Seq<char>>)) -> bool {
    a.1.len() > b.1.len() || (a.1.len() == b.1.len() && lex_lt(a.0, b.0))
}

/// `g` put into `s` before the first group that it ranks before.
pub open spec fn insert_ranked(s: Seq<(Seq<char>, Seq<Seq<char>>)>, g: (Seq<char>, Seq<Seq<char>>)) -> Seq<
    (Seq<char>, Seq<Seq<char>>),
>
    decreases s.len(),
{
    if s.len() == 0 {
        seq![g]
    } else if ranks_before(g, s[0]) {
        seq![g] + s
    } else {
        seq![s[0]] + insert_ranked(s.drop_first(), g)
    }
}

/// The groups ordered by size, largest first, and by key among groups of
/// equal size.
pub open spec fn rank_sort(gs: Seq<(Seq<char>, Seq<Seq<char>>)>) -> Seq<(Seq<char>, Seq<Seq<char>>)>
    decreases gs.len(),
{
    if gs.len() == 0 {
        Seq::empty()
    } else {
        insert_ranked(rank_sort(gs.drop_last()), gs.last())
    }
}

/// The keys of `pairs`, each once, in order of first appearance: every key
/// of `pairs` is listed, nothing else is, and the first pair under an
/// earlier-listed key comes before every pair under a later-listed one.
pub open spec fn keys_in_first_order(pairs: Seq<(Seq<char>, Seq<char>)>, ks: Seq<Seq<char>>) -> bool {
    &&& ks.no_duplicates()
    &&& forall|i: int| 0 <= i < pairs.len() ==> ks.contains(#[trigger] pairs[i].0)
    &&& forall|t: int| 0 <= t < ks.len() ==> exists|i: int| 0 <= i < pairs.len() && pairs[i].0 == #[trigger] ks[t]
    &&& forall|a: int, b: int|
        0 <= a < b < ks.len() ==> exists|p: int|
            0 <= p < pairs.len() && pairs[p].0 == #[trigger] ks[a] && forall|q: int|
                0 <= q < pairs.len() && pairs[q].0 == #[trigger] ks[b] ==> p < q
}

proof fn lemma_first_keys(pairs: Seq<(Seq<char>, Seq<char>)>)
    ensures
        keys_in_first_order(pairs, first_keys(pairs)),
    decreases pairs.len(),
{
    if pairs.len() > 0 {
        let d = pairs.drop_last();
        lemma_first_keys(d);
        let ks = first_keys(d);
        let k = pairs.last().0;
        let n = pairs.len() - 1;
        assert(forall|i: int| 0 <= i < n ==> d[i] == pairs[i]);
        if ks.contains(k) {
            assert forall|a: int, b: int|
                0 <= a < b < ks.len() implies exists|p: int|
                0 <= p < pairs.len() && pairs[p].0 == #[trigger] ks[a] && forall|q: int|
                    0 <= q < pairs.len() && pairs[q].0 == #[trigger] ks[b] ==> p < q by {
                let p = choose|p: int|
                    0 <= p < d.len() && d[p].0 == ks[a] && forall|q: int|
                        0 <= q < d.len() && d[q].0 == #[trigger] ks[b] ==> p < q;
                assert(pairs[p].0 == ks[a]);
            }
            assert forall|t: int| 0 <= t < ks.len() implies exists|i: int|
                0 <= i < pairs.len() && pairs[i].0 == #[trigger] ks[t] by {
                let i = choose|i: int| 0 <= i < d.len() && d[i].0 == ks[t];
                assert(pairs[i].0 == ks[t]);
            }
        } else {
            let nk = ks.push(k);
            assert forall|i: int| 0 <= i < pairs.len() implies nk.contains(#[trigger] pairs[i].0) by {
                if i < n {
                    assert(ks.contains(d[i].0));
                    let t = choose|t: int| 0 <= t < ks.len() && ks[t] == d[i].0;
                    assert(nk[t] == ks[t]);
                } else {
                    assert(nk[ks.len() as int] == k);
                }
            }
            assert forall|t: int| 0 <= t < nk.len() implies exists|i: int|
                0 <= i < pairs.len() && pairs[i].0 == #[trigger] nk[t] by {
                if t < ks.len() {
                    assert(nk[t] == ks[t]);
                    let i = choose|i: int| 0 <= i < d.len() && d[i].0 == ks[t];
                    assert(pairs[i].0 == nk[t]);
                } else {
                    assert(pairs[n].0 == nk[t]);
                }
            }
            assert forall|a: int, b: int|
                0 <= a < b < nk.len() implies exists|p: int|
                0 <= p < pairs.len() && pairs[p].0 == #[trigger] nk[a] && forall|q: int|
                    0 <= q < pairs.len() && pairs[q].0 == #[trigger] nk[b] ==> p < q by {
                assert(nk[a] == ks[a]);
                if b < ks.len() {
                    assert(nk[b] == ks[b]);
                    let p = choose|p: int|
                        0 <= p < d.len() && d[p].0 == ks[a] && forall|q: int|
                            0 <= q < d.len() && d[q].0 == #[trigger] ks[b] ==> p < q;
                    assert(pairs[p].0 == nk[a]);
                    assert forall|q: int| 0 <= q < pairs.len() && pairs[q].0 == #[trigger] nk[b] implies p < q by {
                        if q < n {
                            assert(d[q].0 == ks[b]);
                        }
                    }
                } else {
                    let p = choose|p: int| 0 <= p < d.len() && d[p].0 == ks[a];
                    assert(pairs[p].0 == nk[a]);
                    assert forall|q: int| 0 <= q < pairs.len() && pairs[q].0 == #[trigger] nk[b] implies p < q by {
                        if q < n {
                            assert(ks.contains(d[q].0));
                        }
                    }
                }
            }
        }
    }
}

/// The items under key `k`, in input order.
pub open spec fn items_of(pairs: Seq<(Seq<char>, Seq<char>)>, k: Seq<char>) -> Seq<Seq<char>> {
    pairs.filter(|p: (Seq<char>, Seq<char>)| p.0 == k).map_values(|p: (Seq<char>, Seq<char>)| p.1)
}

proof fn lemma_members_filter(pairs: Seq<(Seq<char>, Seq<char>)>, k: Seq<char>)
    ensures
        members(pairs, k) == items_of(pairs, k),
    decreases pairs.len(),
{
    reveal(Seq::filter);
    if pairs.len() > 0 {
        lemma_members_filter(pairs.drop_last(), k);
        let f = |p: (Seq<char>, Seq<char>)| p.0 == k;
        let g = |p: (Seq<char>, Seq<char>)| p.1;
        let sub = pairs.drop_last().filter(f);
        if f(pairs.last()) {
            assert(sub.push(pairs.last()).map_values(g) == sub.map_values(g).push(pairs.last().1));
        }
    }
}

/// The groups of (key, item) pairs: one group per key, the keys each once in
/// order of first appearance, and each group holding the items under its key
/// in input order.
pub proof fn law_groups_of(pairs: Seq<(Seq<char>, Seq<char>)>)
    ensures
        groups_of(pairs).len() == first_keys(pairs).len(),
        keys_in_first_order(pairs, first_keys(pairs)),
        forall|t: int|
            0 <= t < groups_of(pairs).len() ==> (#[trigger] groups_of(pairs)[t]) == (
                first_keys(pairs)[t],
                items_of(pairs, first_keys(pairs)[t]),
            ),
{
    lemma_first_keys(pairs);
    assert forall|t: int| 0 <= t < groups_of(pairs).len() implies (#[trigger] groups_of(pairs)[t]) == (
        first_keys(pairs)[t],
        items_of(pairs, first_keys(pairs)[t]),
    ) by {
        lemma_members_filter(pairs, first_keys(pairs)[t]);
    }
}

/// Whether `ks` holds `k`.
pub fn holds_key(ks: &Vec<Vec<char>>, k: &Vec<char>) -> (r: bool)
    ensures
        r == char_views(ks@).contains(k@),
{
    let mut i: usize = 0;
    while i < ks.len()
        invariant
            i <= ks.len(),
            forall|j: int| 0 <= j < i ==> ks@[j]@ != k@,
        decreases ks.len() - i,
    {
        if chars_equal(&ks[i], k) {
            assert(char_views(ks@)[i as int] == k@);
            return true;
        }
        i += 1;
    }
    assert forall|j: int| 0 <= j < char_views(ks@).len() implies char_views(ks@)[j] != k@ by {}
    false
}

fn items_under(pairs: &Vec<(Vec<char>, Vec<char>)>, k: &Vec<char>) -> (r: Vec<Vec<char>>)
    ensures
        char_views(r@) == members(pair_views(pairs@), k@),
{
    let ghost ps = pair_views(pairs@);
    let mut r: Vec<Vec<char>> = Vec::new();
    let mut i: usize = 0;
    assert(char_views(r@) == Seq::<Seq<char>>::empty());
    while i < pairs.len()
        invariant
            i <= pairs.len(),
            ps == pair_views(pairs@),
            char_views(r@) == members(ps.take(i as int), k@),
        decreases pairs.len() - i,
    {
        assert(ps.take(i + 1).drop_last() == ps.take(i as int));
        assert(ps.take(i + 1).last() == (pairs@[i as int].0@, pairs@[i as int].1@));
        if chars_equal(&pairs[i].0, k) {
            let ghost before = char_views(r@);
            r.push(pairs[i].1.clone());
            assert(char_views(r@) == before.push(pairs@[i as int].1@));
        }
        i += 1;
    }
    assert(ps.take(pairs.len() as int) == ps);
    r
}

/// Groups the items of `pairs` by key, keys in order of first appearance.
pub fn group_pairs(pairs: &Vec<(Vec<char>, Vec<char>)>) -> (r: Vec<(Vec<char>, Vec<Vec<char>>)>)
    ensures
        group_views(r@) == groups_of(pair_views(pairs@)),
{
    let ghost ps = pair_views(pairs@);
    let mut keys: Vec<Vec<char>> = Vec::new();
    let mut i: usize = 0;
    assert(char_views(keys@) == Seq::<Seq<char>>::empty());
    while i < pairs.len()
        invariant
            i <= pairs.len(),
            ps == pair_views(pairs@),
            char_views(keys@) == first_keys(ps.take(i as int)),
        decreases pairs.len() - i,
    {
        assert(ps.take(i + 1).drop_last() == ps.take(i as int));
        assert(ps.take(i + 1).last() == (pairs@[i as int].0@, pairs@[i as int].1@));
        if !holds_key(&keys, &pairs[i].0) {
            let ghost before = char_views(keys@);
            keys.push(pairs[i].0.clone());
            assert(char_views(keys@) == before.push(pairs@[i as int].0@));
        }
        i += 1;
    }
    assert(ps.take(pairs.len() as int) == ps);
    let ghost ks = first_keys(ps);
    let mut r: Vec<(Vec<char>, Vec<Vec<char>>)> = Vec::new();
    let mut j: usize = 0;
    while j < keys.len()
        invariant
            j <= keys.len(),
            ps == pair_views(pairs@),
            char_views(keys@) == ks,
            group_views(r@) == ks.take(j as int).map_values(
                |k: Seq<char>| (k, members(ps, k)),
            ),
        decreases keys.len() - j,
    {
        let items = items_under(pairs, &keys[j]);
        let ghost before = group_views(r@);
        r.push((keys[j].clone(), items));
        assert(group_views(r@) == before.push((keys@[j as int]@, members(ps, keys@[j as int]@))));
        assert(ks[j as int] == keys@[j as int]@);
        assert(ks.take(j + 1).map_values(|k: Seq<char>| (k, members(ps, k))) == ks.take(
            j as int,
        ).map_values(|k: Seq<char>| (k, members(ps, k))).push((ks[j as int], members(ps, ks[j as int]))));
        j += 1;
    }
    assert(ks.take(keys.len() as int) == ks);
    r
}

proof fn lemma_insert_ranked_at(s: Seq<(Seq<char>, Seq<Seq<char>>)>, g: (Seq<char>, Seq<Seq<char>>), p: int)
    requires
        0 <= p <= s.len(),
        forall|j: int| 0 <= j < p ==> !ranks_before(g, #[trigger] s[j]),
        p < s.len() ==> ranks_before(g, s[p]),
    ensures
        insert_ranked(s, g) == s.insert(p, g),
    decreases p,
{
    if p == 0 {
        if s.len() == 0 {
            assert(s.insert(0, g) == seq![g]);
        } else {
            assert(s.insert(0, g) == seq![g] + s);
        }
    } else {
        assert(!ranks_before(g, s[0]));
        let t = s.drop_first();
        assert forall|j: int| 0 <= j < p - 1 implies !ranks_before(g, #[trigger] t[j]) by {
            assert(t[j] == s[j + 1]);
        }
        lemma_insert_ranked_at(t, g, p - 1);
        assert(seq![s[0]] + t.insert(p - 1, g) == s.insert(p, g));
    }
}

/// Orders groups by size, largest first, and by key among groups of equal
/// size.
pub fn sort_by_rank(gs: Vec<(Vec<char>, Vec<Vec<char>>)>) -> (r: Vec<(Vec<char>, Vec<Vec<char>>)>)
    ensures
        group_views(r@) == rank_sort(group_views(gs@)),
{
    let ghost gv = group_views(gs@);
    let ghost n = gs.len();
    let mut rest = gs;
    let mut sorted: Vec<(Vec<char>, Vec<Vec<char>>)> = Vec::new();
    let mut i: usize = 0;
    assert(group_views(sorted@) == Seq::<(Seq<char>, Seq<Seq<char>>)>::empty());
    assert(gv.skip(0) == gv);
    while rest.len() > 0
        invariant
            i + rest.len() == n,
            gv.len() == n,
            group_views(rest@) == gv.skip(i as int),
            group_views(sorted@) == rank_sort(gv.take(i as int)),
        decreases rest.len(),
    {
        let ghost rv = group_views(rest@);
        let g = rest.remove(0);
        assert(group_views(rest@) == rv.drop_first());
        assert(gv.skip(i as int).drop_first() == gv.skip(i + 1));
        assert(gv.take(i + 1).drop_last() == gv.take(i as int));
        assert(gv.take(i + 1).last() == gv[i as int]);
        let ghost gg = (g.0@, char_views(g.1@));
        assert(gg == rv[0]);
        assert(gg == gv[i as int]);
        let ghost sv = group_views(sorted@);
        let mut p: usize = 0;
        while p < sorted.len() && !(g.1.len() > sorted[p].1.len() || (g.1.len() == sorted[p].1.len()
            && chars_lt(&g.0, &sorted[p].0)))
            invariant
                p <= sorted.len(),
                sv == group_views(sorted@),
                gg == (g.0@, char_views(g.1@)),
                forall|j: int| 0 <= j < p ==> !ranks_before(gg, #[trigger] sv[j]),
            decreases sorted.len() - p,
        {
            assert(sv[p as int] == (sorted@[p as int].0@, char_views(sorted@[p as int].1@)));
            p += 1;
        }
        proof {
            if p < sorted.len() {
                assert(sv[p as int] == (sorted@[p as int].0@, char_views(sorted@[p as int].1@)));
            }
            lemma_insert_ranked_at(sv, gg, p as int);
        }
        sorted.insert(p, g);
        assert(group_views(sorted@) == sv.insert(p as int, gg));
        i += 1;
    }
    assert(gv.take(n as int) == gv);
    sorted
}

/// Group sizes never increase along the sequence.
pub open spec fn by_size_desc(s: Seq<(Seq<char>, Seq<Seq<char>>)>) -> bool {
    forall|i: int, j: int| 0 <= i < j < s.len() ==> s[i].1.len() >= s[j].1.len()
}

/// `a` may stand before `b`: it has more items, or as many and a key that is
/// not above `b`'s.
pub open spec fn in_rank_order(a: (Seq<char>, Seq<Seq<char>>), b: (Seq<char>, Seq<Seq<char>>)) -> bool {
    a.1.len() > b.1.len() || (a.1.len() == b.1.len() && !lex_lt(b.0, a.0))
}

/// Groups ordered by size, largest first, and by key among groups of equal
/// size.
pub open spec fn ranked(s: Seq<(Seq<char>, Seq<Seq<char>>)>) -> bool {
    forall|i: int, j: int| 0 <= i < j < s.len() ==> in_rank_order(#[trigger] s[i], #[trigger] s[j])
}

proof fn lemma_insert_ranked(s: Seq<(Seq<char>, Seq<Seq<char>>)>, g: (Seq<char>, Seq<Seq<char>>))
    requires
        ranked(s),
    ensures
        ranked(insert_ranked(s, g)),
        insert_ranked(s, g).to_multiset() == s.to_multiset().insert(g),
    decreases s.len(),
{
    broadcast use vstd::seq_lib::group_to_multiset_ensures;
    if s.len() == 0 {
        assert(seq![g] == Seq::<(Seq<char>, Seq<Seq<char>>)>::empty().push(g));
    } else if ranks_before(g, s[0]) {
        let r = seq![g] + s;
        assert forall|i: int, j: int| 0 <= i < j < r.len() implies in_rank_order(#[trigger] r[i], #[trigger] r[j]) by {
            if i > 0 {
                assert(r[i] == s[i - 1] && r[j] == s[j - 1]);
            } else {
                assert(r[j] == s[j - 1]);
                lemma_lex_lt_asym(g.0, s[0].0);
                if j > 1 {
                    assert(in_rank_order(s[0], s[j - 1]));
                    if lex_lt(s[j - 1].0, g.0) && g.1.len() == s[j - 1].1.len() {
                        lemma_lex_lt_trans(s[j - 1].0, g.0, s[0].0);
                    }
                }
            }
        }
        assert(r =~= s.insert(0, g));
        vstd::seq_lib::lemma_multiset_commutative(seq![g], s);
    } else {
        let t = s.drop_first();
        assert(ranked(t)) by {
            assert forall|i: int, j: int| 0 <= i < j < t.len() implies in_rank_order(#[trigger] t[i], #[trigger] t[j]) by {
                assert(t[i] == s[i + 1] && t[j] == s[j + 1]);
            }
        }
        lemma_insert_ranked(t, g);
        let u = insert_ranked(t, g);
        let r = seq![s[0]] + u;
        assert forall|i: int, j: int| 0 <= i < j < r.len() implies in_rank_order(#[trigger] r[i], #[trigger] r[j]) by {
            if i > 0 {
                assert(r[i] == u[i - 1] && r[j] == u[j - 1]);
            } else {
                assert(r[j] == u[j - 1]);
                assert(u.to_multiset().count(u[j - 1]) > 0);
                if u[j - 1] != g {
                    assert(t.to_multiset().count(u[j - 1]) > 0);
                    assert(t.contains(u[j - 1]));
                    let k = choose|k: int| 0 <= k < t.len() && t[k] == u[j - 1];
                    assert(s[k + 1] == t[k]);
                    assert(in_rank_order(s[0], s[k + 1]));
                } else {
                    lemma_lex_lt_asym(s[0].0, g.0);
                    if s[0].0 != g.0 {
                        lemma_lex_lt_total(s[0].0, g.0);
                    }
                }
            }
        }
        vstd::seq_lib::lemma_multiset_commutative(seq![s[0]], u);
        vstd::seq_lib::lemma_multiset_commutative(seq![s[0]], t);
        assert(seq![s[0]] + t == s);
    }
}

/// Ordering groups by size keeps every group and puts larger groups first,
/// groups of equal size in key order.
pub proof fn law_rank_sort(gs: Seq<(Seq<char>, Seq<Seq<char>>)>)
    ensures
        ranked(rank_sort(gs)),
        by_size_desc(rank_sort(gs)),
        rank_sort(gs).to_multiset() == gs.to_multiset(),
    decreases gs.len(),
{
    broadcast use vstd::seq_lib::group_to_multiset_ensures;
    if gs.len() > 0 {
        law_rank_sort(gs.drop_last());
        lemma_insert_ranked(rank_sort(gs.drop_last()), gs.last());
        assert(gs.drop_last().push(gs.last()) == gs);
    }
    let r = rank_sort(gs);
    assert forall|i: int, j: int| 0 <= i < j < r.len() implies r[i].1.len() >= r[j].1.len() by {
        assert(in_rank_order(r[i], r[j]));
    }
}

} // verus!
