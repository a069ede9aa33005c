use vstd::prelude::*;
use crate::text::{chars_eq, chars_lt, lemma_seq_lt_total, lemma_seq_lt_trans, seq_lt};

verus! {

/// Occurrences of `id` in `ids`.
pub open spec fn count_id(ids: Seq<Seq<char>>, id: Seq<char>) -> nat
    decreases ids.len(),
{
    if ids.len() == 0 {
        0
    } else {
        count_id(ids.drop_last(), id) + if ids.last() == id { 1nat } else { 0nat }
    }
}

/// `g` lists each distinct id of `ids` once, in ascending order, with its number of
/// occurrences.
pub open spec fn is_grouping(ids: Seq<Seq<char>>, g: Seq<(Seq<char>, usize)>) -> bool {
    &&& forall|i: int, j: int| 0 <= i < j < g.len() ==> seq_lt(#[trigger] g[i].0, #[trigger] g[j].0)
    &&& forall|i: int| 0 <= i < g.len() ==> (#[trigger] g[i]).1 == count_id(ids, g[i].0) && g[i].1 > 0
    &&& forall|k: int| 0 <= k < ids.len() ==> exists|i: int| 0 <= i < g.len() && (#[trigger] g[i]).0 == #[trigger] ids[k]
}

/// View of a grouped count list.
pub open spec fn grouping_view(g: Seq<(String, usize)>) -> Seq<(Seq<char>, usize)> {
    g.map_values(|p: (String, usize)| (p.0@, p.1))
}

proof fn lemma_count_id_bound(ids: Seq<Seq<char>>, id: Seq<char>)
    ensures
        count_id(ids, id) <= ids.len(),
        count_id(ids, id) > 0 ==> exists|k: int| 0 <= k < ids.len() && ids[k] == id,
    decreases ids.len(),
{
    if ids.len() > 0 {
        lemma_count_id_bound(ids.drop_last(), id);
        if count_id(ids.drop_last(), id) > 0 {
            let k = choose|k: int| 0 <= k < ids.drop_last().len() && ids.drop_last()[k] == id;
            assert(ids[k] == id);
        }
    }
}

/// A character vector as a `String`.
pub fn chars_to_string(v: &Vec<char>) -> (s: String)
    ensures
        s@ == v@,
{
    let mut s = String::new();
    let mut i: usize = 0;
    while i < v.len()
        invariant
            i <= v@.len(),
            s@ == v@.take(i as int),
        decreases v@.len() - i,
    {
        crate::text::string_push(&mut s, v[i]);
        assert(v@.take(i + 1) =~= v@.take(i as int).push(v@[i as int]));
        i = i + 1;
    }
    assert(v@.take(v@.len() as int) =~= v@);
    s
}

/// Aggregate rule ids into sorted `(rule_id, count)` pairs.
pub fn group_by_rule(ids: &Vec<Vec<char>>) -> (r: Vec<(String, usize)>)
    ensures
        is_grouping(ids@.map_values(|v: Vec<char>| v@), grouping_view(r@)),
{
    let ghost idv = ids@.map_values(|v: Vec<char>| v@);
    let mut keys: Vec<Vec<char>> = Vec::new();
    let mut counts: Vec<usize> = Vec::new();
    let mut i: usize = 0;
    while i < ids.len()
        invariant
            i <= ids@.len(),
            idv == ids@.map_values(|v: Vec<char>| v@),
            keys@.len() == counts@.len(),
            is_grouping(idv.take(i as int), Seq::new(keys@.len(), |j: int| (keys@[j]@, counts@[j]))),
        decreases ids@.len() - i,
    {
        let id = &ids[i];
        let ghost g = Seq::new(keys@.len(), |j: int| (keys@[j]@, counts@[j]));
        let ghost pre = idv.take(i as int);
        let ghost post = idv.take(i + 1);
        proof {
            assert(post.drop_last() =~= pre);
            assert(post.last() == id@);
            assert(idv[i as int] == id@);
        }
        let mut p: usize = 0;
        while p < keys.len() && chars_lt(&keys[p], id)
            invariant
                p <= keys@.len(),
                keys@.len() == counts@.len(),
                g == Seq::new(keys@.len(), |j: int| (keys@[j]@, counts@[j])),
                forall|j: int| 0 <= j < p ==> seq_lt(#[trigger] keys@[j]@, id@),
            decreases keys@.len() - p,
        {
            p = p + 1;
        }
        let found = p < keys.len() && chars_eq(&keys[p], id);
        proof {
            // After the scan: everything before `p` is smaller, everything from `p` on is larger
            // or equal (only `keys[p]` can be equal).
            assert forall|j: int| p < j < keys@.len() implies seq_lt(id@, #[trigger] keys@[j]@) by {
                assert(seq_lt(g[p as int].0, g[j].0));
                lemma_seq_lt_total(keys@[p as int]@, id@);
                if keys@[p as int]@ == id@ {
                } else {
                    lemma_seq_lt_trans(id@, keys@[p as int]@, keys@[j]@);
                }
            }
            if p < keys@.len() && !found {
                lemma_seq_lt_total(keys@[p as int]@, id@);
            }
            lemma_count_id_bound(pre, id@);
        }
        if found {
            let c = counts[p];
            proof {
                assert(g[p as int].1 == count_id(pre, id@));
                lemma_count_id_bound(pre, id@);
            }
            counts.set(p, c + 1);
            proof {
                let g2 = Seq::new(keys@.len(), |j: int| (keys@[j]@, counts@[j]));
                assert forall|j: int| 0 <= j < g2.len() implies (#[trigger] g2[j]).1 == count_id(post, g2[j].0)
                    && g2[j].1 > 0 by {
                    assert(g2[j].0 == g[j].0);
                    if j != p {
                        lemma_seq_lt_total(g[j].0, id@);
                    }
                }
                assert forall|k: int| 0 <= k < post.len() implies exists|j: int| 0 <= j < g2.len()
                    && (#[trigger] g2[j]).0 == #[trigger] post[k] by {
                    if k < i {
                        assert(post[k] == pre[k]);
                        let j = choose|j: int| 0 <= j < g.len() && (#[trigger] g[j]).0 == pre[k];
                        assert(g2[j].0 == g[j].0);
                    } else {
                        assert(g2[p as int].0 == post[k]);
                    }
                }
                assert forall|a: int, b: int| 0 <= a < b < g2.len() implies seq_lt(#[trigger] g2[a].0, #[trigger] g2[b].0) by {
                    assert(g2[a].0 == g[a].0);
                    assert(g2[b].0 == g[b].0);
                }
            }
        } else {
            proof {
                if count_id(pre, id@) > 0 {
                    let k = choose|k: int| 0 <= k < pre.len() && pre[k] == id@;
                    let j = choose|j: int| 0 <= j < g.len() && (#[trigger] g[j]).0 == pre[k];
                    if j < p {
                        lemma_seq_lt_total(id@, id@);
                    } else if j > p {
                        lemma_seq_lt_total(id@, id@);
                    }
                }
            }
            keys.insert(p, id.clone());
            counts.insert(p, 1);
            proof {
                let g2 = Seq::new(keys@.len(), |j: int| (keys@[j]@, counts@[j]));
                assert forall|j: int| 0 <= j < g2.len() implies (#[trigger] g2[j]).1 == count_id(post, g2[j].0)
                    && g2[j].1 > 0 by {
                    if j < p {
                        assert(g2[j] == g[j]);
                        lemma_seq_lt_total(g[j].0, id@);
                    } else if j > p {
                        assert(g2[j] == g[j - 1]);
                        lemma_seq_lt_total(g[j - 1].0, id@);
                    }
                }
                assert forall|k: int| 0 <= k < post.len() implies exists|j: int| 0 <= j < g2.len()
                    && (#[trigger] g2[j]).0 == #[trigger] post[k] by {
                    if k < i {
                        assert(post[k] == pre[k]);
                        let j = choose|j: int| 0 <= j < g.len() && (#[trigger] g[j]).0 == pre[k];
                        if j < p {
                            assert(g2[j] == g[j]);
                        } else {
                            assert(g2[j + 1] == g[j]);
                        }
                    } else {
                        assert(g2[p as int].0 == post[k]);
                    }
                }
                assert forall|a: int, b: int| 0 <= a < b < g2.len() implies seq_lt(#[trigger] g2[a].0, #[trigger] g2[b].0) by {
                    if b < p {
                        assert(g2[a] == g[a] && g2[b] == g[b]);
                    } else if b == p {
                        assert(g2[a] == g[a]);
                    } else if a < p {
                        assert(g2[a] == g[a] && g2[b] == g[b - 1]);
                        lemma_seq_lt_trans(g[a].0, id@, g[b - 1].0);
                    } else if a == p {
                        assert(g2[b] == g[b - 1]);
                    } else {
                        assert(g2[a] == g[a - 1] && g2[b] == g[b - 1]);
                    }
                }
            }
        }
        i = i + 1;
    }
    let mut out: Vec<(String, usize)> = Vec::new();
    let mut j: usize = 0;
    while j < keys.len()
        invariant
            j <= keys@.len(),
            keys@.len() == counts@.len(),
            grouping_view(out@) == Seq::new(keys@.len(), |t: int| (keys@[t]@, counts@[t])).take(j as int),
        decreases keys@.len() - j,
    {
        let s = chars_to_string(&keys[j]);
        let ghost before = grouping_view(out@);
        out.push((s, counts[j]));
        proof {
            assert(grouping_view(out@) =~= before.push((keys@[j as int]@, counts@[j as int])));
            assert(Seq::new(keys@.len(), |t: int| (keys@[t]@, counts@[t])).take(j + 1) =~= before.push(
                (keys@[j as int]@, counts@[j as int]),
            ));
        }
        j = j + 1;
    }
    proof {
        assert(idv.take(ids@.len() as int) =~= idv);
        assert(Seq::new(keys@.len(), |t: int| (keys@[t]@, counts@[t])).take(keys@.len() as int)
            =~= Seq::new(keys@.len(), |t: int| (keys@[t]@, counts@[t])));
    }
    out
}

}
