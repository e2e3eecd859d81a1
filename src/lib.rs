pub mod chunks;
pub mod counter;

use crate::counter::{
    add_trace, combine, count_of, lists, no_tally, pair_le, Counter, KeyCount, TallyState,
};
use vstd::prelude::*;

verus! {

/// Adds the exact counts of `r` into `l` and returns `l`.
pub fn sum(l: Counter, r: Counter) -> (s: Counter)
    requires
        l.wf(),
        r.wf(),
        forall|k: Seq<char>| count_of(l.counts(), k) + count_of(r.counts(), k) <= u64::MAX,
    ensures
        s.wf(),
        s.capacity() == l.capacity(),
        s.counts() == combine(l.counts(), r.counts()),
        s.threshold() >= l.threshold(),
        l.capacity() == 0 ==> s.candidates() == l.candidates() && s.threshold() == l.threshold(),
        r.counts().len() == 0 ==> s.state() == l.state(),
        exists|p: Seq<(u64, Seq<char>)>, trace: Seq<TallyState>|
            lists(r.counts(), p) && add_trace(l.capacity(), p, trace) && trace[0] == l.state()
                && trace.last() == s.state(),
        l.capacity() > 0 && l.candidates() == l.counts() && l.threshold() == 0 && combine(
            l.counts(),
            r.counts(),
        ).len() < 2 * l.capacity() ==> s.candidates() == s.counts() && s.threshold() == 0,
{
    let mut l = l;
    l.merge(r);
    l
}

/// The exact counts of a list of tallies.
pub open spec fn tallies(parts: Seq<Counter>) -> Seq<Map<Seq<char>, u64>> {
    Seq::new(parts.len(), |i: int| parts[i].counts())
}

/// The total count of `k` over the tallies `ps`.
pub open spec fn total_of(ps: Seq<Map<Seq<char>, u64>>, k: Seq<char>) -> int
    decreases ps.len(),
{
    if ps.len() == 0 {
        0
    } else {
        total_of(ps.drop_last(), k) + count_of(ps.last(), k)
    }
}

/// The combined tally of `ps`: each key of any of them, with its total.
pub open spec fn totals(ps: Seq<Map<Seq<char>, u64>>) -> Map<Seq<char>, u64> {
    Map::new(
        |k: Seq<char>| exists|i: int| 0 <= i < ps.len() && #[trigger] ps[i].contains_key(k),
        |k: Seq<char>| total_of(ps, k) as u64,
    )
}

/// `r` ranks the candidates `c` of a tally bounded to `cap` entries: the
/// `min(cap, |c|)` best entries of `c`, best first (count descending, then key
/// descending), each key once.
pub open spec fn ranks(c: Map<Seq<char>, u64>, cap: nat, r: Seq<KeyCount>) -> bool {
    &&& r.len() == if c.len() <= cap {
        c.len()
    } else {
        cap
    }
    &&& forall|i: int|
        0 <= i < r.len() ==> c.contains_key(#[trigger] r[i].key@) && c[r[i].key@] == r[i].count
    &&& forall|i: int, j: int| 0 <= i < j < r.len() ==> pair_le(#[trigger] r[j].pair(), #[trigger] r[i].pair())
    &&& forall|i: int, j: int| 0 <= i < j < r.len() ==> #[trigger] r[i].key@ != #[trigger] r[j].key@
    &&& forall|k: Seq<char>|
        #[trigger] c.contains_key(k) ==> (exists|i: int| 0 <= i < r.len() && #[trigger] r[i].key@ == k)
            || pair_le((c[k], k), r[r.len() - 1].pair())
}

/// Combines exact per-span tallies into one exact tally, then merges it into a
/// tally bounded to `num` entries and returns that tally's ranking. `num == 0`
/// gives an empty ranking. Every reported count is the key's exact total;
/// while there are fewer than `2 * num` distinct keys no pruning happens and
/// the ranking is the exact top `num`. In any case the ranking is that of a
/// tally bounded to `num` that starts empty and takes one `add` per entry of
/// the totals, in some order.
pub fn top_few(parts: Vec<Counter>, num: usize) -> (r: Vec<KeyCount>)
    requires
        forall|i: int| 0 <= i < parts@.len() ==> (#[trigger] parts@[i]).wf() && parts@[i].capacity() == 0,
        forall|k: Seq<char>| total_of(tallies(parts@), k) <= u64::MAX,
    ensures
        num == 0 ==> r@.len() == 0,
        r@.len() <= num,
        forall|i: int|
            0 <= i < r@.len() ==> totals(tallies(parts@)).contains_key(#[trigger] r@[i].key@)
                && r@[i].count == total_of(tallies(parts@), r@[i].key@),
        forall|i: int, j: int| 0 <= i < j < r@.len() ==> counter::pair_le(#[trigger] r@[j].pair(), #[trigger] r@[i].pair()),
        forall|i: int, j: int| 0 <= i < j < r@.len() ==> #[trigger] r@[i].key@ != #[trigger] r@[j].key@,
        num > 0 && totals(tallies(parts@)).len() < 2 * num ==> r@.len() == (if totals(
            tallies(parts@),
        ).len() < num {
            totals(tallies(parts@)).len()
        } else {
            num as nat
        }) && forall|k: Seq<char>|
            #[trigger] totals(tallies(parts@)).contains_key(k) ==> (exists|i: int|
                0 <= i < r@.len() && #[trigger] r@[i].key@ == k) || counter::pair_le(
                (totals(tallies(parts@))[k], k),
                r@[r@.len() - 1].pair(),
            ),
        num > 0 ==> exists|p: Seq<(u64, Seq<char>)>, trace: Seq<TallyState>|
            lists(totals(tallies(parts@)), p) && add_trace(num as nat, p, trace) && trace[0] == (
                no_tally(),
                no_tally(),
                0u64,
            ) && trace.last().0 == totals(tallies(parts@)) && ranks(trace.last().1, num as nat, r@),
{
    if num == 0 {
        return Vec::new();
    }
    let ghost all = tallies(parts@);
    let ghost n0 = parts@.len();
    let mut parts = parts;
    let mut total = Counter::new(None);
    proof {
        assert(tallies(parts@) =~= all.subrange(0, n0 as int));
    }
    while parts.len() > 0
        invariant
            total.wf(),
            total.capacity() == 0,
            all.len() == n0,
            parts@.len() <= n0,
            forall|i: int| 0 <= i < parts@.len() ==> (#[trigger] parts@[i]).wf() && parts@[i].capacity() == 0,
            forall|k: Seq<char>| total_of(all, k) <= u64::MAX,
            tallies(parts@) == all.subrange(0, parts@.len() as int),
            forall|k: Seq<char>| #[trigger] count_of(total.counts(), k) + total_of(tallies(parts@), k) == total_of(all, k),
            forall|k: Seq<char>| #[trigger] total.counts().contains_key(k) <==> exists|i: int|
                parts@.len() <= i < n0 && #[trigger] all[i].contains_key(k),
        decreases parts@.len(),
    {
        let ghost before = parts@;
        let p = parts.pop().unwrap();
        proof {
            assert(tallies(parts@) =~= tallies(before).drop_last());
            assert(tallies(parts@) =~= all.subrange(0, parts@.len() as int));
            assert(p == before[parts@.len() as int]);
            assert(tallies(before)[parts@.len() as int] == p.counts());
            assert(all.subrange(0, before.len() as int)[parts@.len() as int] == all[parts@.len() as int]);
            assert(p.counts() == all[parts@.len() as int]);
            assert forall|k: Seq<char>| count_of(total.counts(), k) + count_of(p.counts(), k) <= u64::MAX by {
                assert(count_of(total.counts(), k) + total_of(tallies(before), k) == total_of(all, k));
                lemma_total_nonneg(tallies(parts@), k);
            }
        }
        let ghost t0 = total.counts();
        total = sum(total, p);
        proof {
            assert forall|k: Seq<char>| #[trigger] count_of(total.counts(), k) + total_of(tallies(parts@), k) == total_of(all, k) by {
                assert(count_of(t0, k) + total_of(tallies(before), k) == total_of(all, k));
                assert(count_of(total.counts(), k) == count_of(t0, k) + count_of(p.counts(), k));
            }
            assert forall|k: Seq<char>| #[trigger] total.counts().contains_key(k) <==> exists|i: int|
                parts@.len() <= i < n0 && #[trigger] all[i].contains_key(k) by {
                if all[parts@.len() as int].contains_key(k) {
                    assert(p.counts().contains_key(k));
                }
                if t0.contains_key(k) {
                    let i = choose|i: int| before.len() <= i < n0 && #[trigger] all[i].contains_key(k);
                }
            }
        }
    }
    let ghost tot = totals(all);
    proof {
        assert(tallies(parts@) =~= Seq::<Map<Seq<char>, u64>>::empty());
        assert forall|k: Seq<char>| #[trigger] total.counts().contains_key(k) <==> tot.contains_key(k) by {
            if tot.contains_key(k) {
                let i = choose|i: int| 0 <= i < all.len() && #[trigger] all[i].contains_key(k);
            }
        }
        assert forall|k: Seq<char>| #[trigger] total.counts().contains_key(k) implies total.counts()[k] == tot[k] by {
            assert(count_of(total.counts(), k) + total_of(tallies(parts@), k) == total_of(all, k));
        }
        assert(total.counts() =~= tot);
    }
    let mut ranking = Counter::new(Some(num));
    proof {
        assert forall|k: Seq<char>| count_of(ranking.counts(), k) + count_of(total.counts(), k) <= u64::MAX by {
            assert(count_of(total.counts(), k) + total_of(tallies(parts@), k) == total_of(all, k));
        }
        assert(combine(ranking.counts(), total.counts()) =~= tot);
        assert(ranking.candidates() =~= ranking.counts());
    }
    let ghost st0 = ranking.state();
    ranking.merge(total);
    let r = ranking.top();
    proof {
        assert(ranking.counts() == tot);
        assert forall|i: int| 0 <= i < r@.len() implies tot.contains_key(#[trigger] r@[i].key@)
            && r@[i].count == total_of(all, r@[i].key@) by {
            let k = r@[i].key@;
            assert(ranking.counts().contains_key(k));
            assert(count_of(total.counts(), k) + total_of(tallies(parts@), k) == total_of(all, k));
        }
        if tot.len() < 2 * num {
            assert(ranking.ranked() == tot);
        }
        let (p, trace) = choose|p: Seq<(u64, Seq<char>)>, trace: Seq<TallyState>|
            lists(total.counts(), p) && add_trace(num as nat, p, trace) && trace[0] == st0
                && trace.last() == ranking.state();
        assert(st0 == (no_tally(), no_tally(), 0u64));
        assert(trace.last().1 == ranking.ranked());
        assert(ranks(trace.last().1, num as nat, r@));
        assert(lists(tot, p) && add_trace(num as nat, p, trace) && trace[0] == (
            no_tally(),
            no_tally(),
            0u64,
        ) && trace.last().0 == tot && ranks(trace.last().1, num as nat, r@));
    }
    r
}

/// How many of `keys` are `Some(k)`.
pub open spec fn matches_of(keys: Seq<Option<String>>, k: Seq<char>) -> int
    decreases keys.len(),
{
    if keys.len() == 0 {
        0
    } else {
        matches_of(keys.drop_last(), k) + match keys.last() {
            Some(s) => if s@ == k {
                1int
            } else {
                0int
            },
            None => 0int,
        }
    }
}

proof fn lemma_matches_bound(keys: Seq<Option<String>>, k: Seq<char>)
    ensures
        0 <= matches_of(keys, k) <= keys.len(),
    decreases keys.len(),
{
    if keys.len() > 0 {
        lemma_matches_bound(keys.drop_last(), k);
    }
}

/// The exact tally of one span: one for each line's key, where the line has
/// one (`None` is a line that matched no key).
pub fn count_keys(keys: Vec<Option<String>>) -> (c: Counter)
    requires
        keys@.len() <= u64::MAX,
    ensures
        c.wf(),
        c.capacity() == 0,
        forall|k: Seq<char>| #[trigger] count_of(c.counts(), k) == matches_of(keys@, k),
        forall|k: Seq<char>| #[trigger] c.counts().contains_key(k) ==> c.counts()[k] >= 1,
{
    let mut c = Counter::new(None);
    let mut i: usize = 0;
    while i < keys.len()
        invariant
            0 <= i <= keys@.len() <= u64::MAX,
            c.wf(),
            c.capacity() == 0,
            forall|k: Seq<char>| #[trigger] count_of(c.counts(), k) == matches_of(keys@.subrange(0, i as int), k),
            forall|k: Seq<char>| #[trigger] c.counts().contains_key(k) ==> c.counts()[k] >= 1,
        decreases keys@.len() - i,
    {
        let ghost pre = keys@.subrange(0, i as int);
        let ghost next = keys@.subrange(0, i + 1);
        let ghost c0 = c.counts();
        proof {
            assert(next.drop_last() =~= pre);
            assert(next.last() == keys@[i as int]);
        }
        match &keys[i] {
            Some(k) => {
                proof {
                    lemma_matches_bound(keys@.subrange(0, i as int), k@);
                }
                c.add(k.as_str(), 1);
                proof {
                    assert(keys@[i as int] == Some(*k));
                    assert forall|j: Seq<char>| #[trigger] count_of(c.counts(), j) == count_of(c0, j) + if j == k@ {
                        1int
                    } else {
                        0int
                    } by {}
                }
            },
            None => {
                assert(keys@[i as int] is None);
            },
        }
        proof {
            assert forall|k: Seq<char>| #[trigger] count_of(c.counts(), k) == matches_of(next, k) by {
                assert(count_of(c0, k) == matches_of(pre, k));
                assert(matches_of(next, k) == matches_of(pre, k) + match keys@[i as int] {
                    Some(s) => if s@ == k {
                        1int
                    } else {
                        0int
                    },
                    None => 0int,
                });
            }
        }
        i = i + 1;
    }
    proof {
        assert(keys@.subrange(0, keys@.len() as int) =~= keys@);
    }
    c
}

proof fn lemma_total_nonneg(ps: Seq<Map<Seq<char>, u64>>, k: Seq<char>)
    ensures
        total_of(ps, k) >= 0,
    decreases ps.len(),
{
    if ps.len() > 0 {
        lemma_total_nonneg(ps.drop_last(), k);
    }
}

} // verus!
