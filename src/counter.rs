use ahash::AHashMap;
use ahash::RandomState;
use vstd::prelude::*;
use vstd::utf8::encode_utf8;

verus! {

#[verifier::external_type_specification]
#[verifier::external_body]
#[verifier::reject_recursive_types(K)]
#[verifier::reject_recursive_types(V)]
#[verifier::reject_recursive_types(S)]
pub struct ExAHashMap<K, V, S>(AHashMap<K, V, S>);

#[verifier::external_type_specification]
#[verifier::external_body]
pub struct ExRandomState(RandomState);

/// The tally with no keys.
pub open spec fn no_tally() -> Map<Seq<char>, u64> {
    Map::empty()
}

/// What a tally map holds: each key's text and its count.
pub uninterp spec fn tally_of(m: AHashMap<String, u64>) -> Map<Seq<char>, u64>;

/// Relies on `AHashMap::new`: a new map holds nothing.
#[verifier::external_body]
fn tally_new() -> (r: AHashMap<String, u64>)
    ensures
        tally_of(r) == no_tally(),
        tally_of(r).dom().finite(),
{
    AHashMap::new()
}

/// Relies on `AHashMap::get`: the value stored under the key, if any.
#[verifier::external_body]
fn tally_get(m: &AHashMap<String, u64>, key: &str) -> (r: Option<u64>)
    ensures
        tally_of(*m).contains_key(key@) ==> r == Some(tally_of(*m)[key@]),
        !tally_of(*m).contains_key(key@) ==> r is None,
{
    m.get(key).copied()
}

/// Relies on `AHashMap::insert`: the key now maps to the value, the rest stays.
#[verifier::external_body]
fn tally_insert(m: &mut AHashMap<String, u64>, key: String, value: u64)
    ensures
        tally_of(*final(m)) == tally_of(*old(m)).insert(key@, value),
        tally_of(*final(m)).dom().finite(),
{
    m.insert(key, value);
}

/// Relies on `HashMap::len` (through `AHashMap`'s `Deref`): the number of keys.
#[verifier::external_body]
fn tally_len(m: &AHashMap<String, u64>) -> (r: usize)
    ensures
        r == tally_of(*m).len(),
{
    m.len()
}

/// Relies on `HashMap::iter` (through `AHashMap`'s `Deref`): every entry once,
/// in an order that the hasher's random seed decides.
#[verifier::external_body]
fn tally_entries(m: &AHashMap<String, u64>) -> (r: Vec<(u64, String)>)
    ensures
        r@.len() == tally_of(*m).len(),
        forall|i: int|
            0 <= i < r@.len() ==> tally_of(*m).contains_key(#[trigger] r@[i].1@) && tally_of(
                *m,
            )[r@[i].1@] == r@[i].0,
        forall|i: int, j: int| 0 <= i < j < r@.len() ==> r@[i].1@ != r@[j].1@,
        forall|k: Seq<char>|
            tally_of(*m).contains_key(k) ==> exists|i: int| 0 <= i < r@.len() && #[trigger] r@[i].1@ == k,
{
    m.iter().map(|(k, v)| (*v, k.clone())).collect()
}

/// Byte strings in lexicographic order, a proper prefix first.
pub open spec fn bytes_lt(a: Seq<u8>, b: Seq<u8>) -> bool
    decreases a.len(),
{
    if a.len() == 0 {
        b.len() > 0
    } else if b.len() == 0 {
        false
    } else if a[0] != b[0] {
        a[0] < b[0]
    } else {
        bytes_lt(a.drop_first(), b.drop_first())
    }
}

/// The order of keys: that of their UTF-8 bytes.
pub open spec fn key_lt(a: Seq<char>, b: Seq<char>) -> bool {
    bytes_lt(encode_utf8(a), encode_utf8(b))
}

/// `(count, key)` pairs ordered by count, then by key.
pub open spec fn pair_le(a: (u64, Seq<char>), b: (u64, Seq<char>)) -> bool {
    a.0 < b.0 || (a.0 == b.0 && !key_lt(b.1, a.1))
}

/// `x` is one of the items of `s`.
pub open spec fn occurs_in(x: (u64, String), s: Seq<(u64, String)>) -> bool {
    exists|j: int| 0 <= j < s.len() && s[j] == x
}

pub open spec fn pair_view(p: (u64, String)) -> (u64, Seq<char>) {
    (p.0, p.1@)
}

/// Relies on `slice::sort_unstable` on `(u64, String)` pairs: the same pairs,
/// in ascending order of the count, then of the key's bytes.
#[verifier::external_body]
fn sort_pairs(v: &mut Vec<(u64, String)>)
    ensures
        final(v)@.len() == old(v)@.len(),
        forall|i: int| 0 <= i < final(v)@.len() ==> occurs_in(#[trigger] final(v)@[i], old(v)@),
        forall|j: int| 0 <= j < old(v)@.len() ==> occurs_in(#[trigger] old(v)@[j], final(v)@),
        forall|i: int, j: int|
            0 <= i < j < final(v)@.len() ==> pair_le(
                pair_view(#[trigger] final(v)@[i]),
                pair_view(#[trigger] final(v)@[j]),
            ),
{
    v.sort_unstable();
}

/// A key's count in a tally, zero where the key is absent.
pub open spec fn count_of(m: Map<Seq<char>, u64>, k: Seq<char>) -> int {
    if m.contains_key(k) {
        m[k] as int
    } else {
        0
    }
}

/// Two tallies added key by key.
pub open spec fn combine(a: Map<Seq<char>, u64>, b: Map<Seq<char>, u64>) -> Map<Seq<char>, u64> {
    Map::new(
        |k: Seq<char>| a.contains_key(k) || b.contains_key(k),
        |k: Seq<char>| (count_of(a, k) + count_of(b, k)) as u64,
    )
}

/// `s` lists the entries of `m`, each as a `(count, key)` pair.
pub open spec fn lists(m: Map<Seq<char>, u64>, s: Seq<(u64, Seq<char>)>) -> bool {
    &&& s.len() == m.len()
    &&& forall|i: int| 0 <= i < s.len() ==> m.contains_key(#[trigger] s[i].1) && m[s[i].1] == s[i].0
    &&& forall|k: Seq<char>| m.contains_key(k) ==> exists|i: int| 0 <= i < s.len() && #[trigger] s[i].1 == k
}

/// `c` is the `cap`-th largest count in `m`.
pub open spec fn is_cutoff(m: Map<Seq<char>, u64>, cap: nat, c: u64) -> bool {
    exists|s: Seq<(u64, Seq<char>)>|
        lists(m, s) && cap <= s.len() && (forall|i: int, j: int|
            0 <= i < j < s.len() ==> #[trigger] s[i].0 <= #[trigger] s[j].0) && c == s[s.len()
            - cap].0
}

/// The entries of `m` whose count is above `c`.
pub open spec fn above(m: Map<Seq<char>, u64>, c: u64) -> Map<Seq<char>, u64> {
    Map::new(|k: Seq<char>| m.contains_key(k) && m[k] > c, |k: Seq<char>| m[k])
}

pub open spec fn views(v: Seq<(u64, String)>) -> Seq<(u64, Seq<char>)> {
    Seq::new(v.len(), |i: int| pair_view(v[i]))
}

/// Entries of `m` as the tally hands them out, once sorted, list `m` in
/// ascending order.
proof fn lemma_sorted_lists(
    m: Map<Seq<char>, u64>,
    entries: Seq<(u64, String)>,
    sorted: Seq<(u64, String)>,
)
    requires
        entries.len() == m.len(),
        forall|i: int|
            0 <= i < entries.len() ==> m.contains_key(#[trigger] entries[i].1@) && m[entries[i].1@]
                == entries[i].0,
        forall|k: Seq<char>|
            m.contains_key(k) ==> exists|i: int| 0 <= i < entries.len() && #[trigger] entries[i].1@ == k,
        sorted.len() == entries.len(),
        forall|i: int| 0 <= i < sorted.len() ==> occurs_in(#[trigger] sorted[i], entries),
        forall|j: int| 0 <= j < entries.len() ==> occurs_in(#[trigger] entries[j], sorted),
        forall|i: int, j: int|
            0 <= i < j < sorted.len() ==> pair_le(pair_view(#[trigger] sorted[i]), pair_view(#[trigger] sorted[j])),
    ensures
        lists(m, views(sorted)),
        forall|i: int, j: int|
            0 <= i < j < sorted.len() ==> #[trigger] views(sorted)[i].0 <= #[trigger] views(sorted)[j].0,
        forall|i: int, j: int|
            0 <= i < j < sorted.len() ==> pair_le(views(sorted)[i], views(sorted)[j]),
{
    let s = views(sorted);
    assert forall|i: int| 0 <= i < s.len() implies m.contains_key(#[trigger] s[i].1) && m[s[i].1]
        == s[i].0 by {
        assert(occurs_in(sorted[i], entries));
        let j = choose|j: int| 0 <= j < entries.len() && entries[j] == sorted[i];
        assert(m.contains_key(entries[j].1@));
    }
    assert forall|k: Seq<char>| m.contains_key(k) implies exists|i: int|
        0 <= i < s.len() && #[trigger] s[i].1 == k by {
        let j = choose|j: int| 0 <= j < entries.len() && #[trigger] entries[j].1@ == k;
        assert(occurs_in(entries[j], sorted));
        let i = choose|i: int| 0 <= i < sorted.len() && sorted[i] == entries[j];
        assert(s[i].1 == k);
    }
    assert forall|i: int, j: int| 0 <= i < j < sorted.len() implies #[trigger] s[i].0
        <= #[trigger] s[j].0 by {
        assert(pair_le(pair_view(sorted[i]), pair_view(sorted[j])));
    }
    assert forall|i: int, j: int| 0 <= i < j < sorted.len() implies pair_le(s[i], s[j]) by {
        assert(pair_le(pair_view(sorted[i]), pair_view(sorted[j])));
    }
}

/// The entries of a tally in ascending order of count, then key.
fn sorted_entries(m: &AHashMap<String, u64>) -> (r: Vec<(u64, String)>)
    requires
        tally_of(*m).dom().finite(),
    ensures
        lists(tally_of(*m), views(r@)),
        forall|i: int, j: int|
            0 <= i < j < r@.len() ==> #[trigger] views(r@)[i].1 != #[trigger] views(r@)[j].1,
        forall|i: int, j: int|
            0 <= i < j < r@.len() ==> #[trigger] views(r@)[i].0 <= #[trigger] views(r@)[j].0,
        forall|i: int, j: int| 0 <= i < j < r@.len() ==> pair_le(views(r@)[i], views(r@)[j]),
{
    let mut sorted = tally_entries(m);
    let ghost entries = sorted@;
    sort_pairs(&mut sorted);
    proof {
        lemma_sorted_lists(tally_of(*m), entries, sorted@);
        lemma_lists_distinct(tally_of(*m), views(sorted@));
    }
    sorted
}

/// A tally's counts, candidates and threshold.
pub type TallyState = (Map<Seq<char>, u64>, Map<Seq<char>, u64>, u64);

/// What one `add(key, amount)` does to a tally of capacity `cap`, from state
/// `b` to state `a`: the count grows by `amount`; in bounded mode a key whose
/// new total `t` reaches the threshold becomes or stays a candidate at `t`,
/// and when the candidates reach `2 * cap` the threshold rises to the
/// `cap`-th largest count and only the candidates above it stay.
pub open spec fn add_effect(
    cap: nat,
    b: TallyState,
    key: Seq<char>,
    amount: u64,
    a: TallyState,
) -> bool {
    let t = (count_of(b.0, key) + amount) as u64;
    let grown = b.1.insert(key, t);
    &&& a.0 == b.0.insert(key, t)
    &&& a.2 >= b.2
    &&& if cap == 0 || t < b.2 {
        a.1 == b.1 && a.2 == b.2
    } else if grown.len() < 2 * cap {
        a.1 == grown && a.2 == b.2
    } else {
        is_cutoff(grown, cap, a.2) && a.1 == above(grown, a.2)
    }
}

/// `trace` goes from state to state by one `add` for each `(count, key)` of
/// `s`, in order.
pub open spec fn add_trace(cap: nat, s: Seq<(u64, Seq<char>)>, trace: Seq<TallyState>) -> bool {
    &&& trace.len() == s.len() + 1
    &&& forall|i: int|
        0 <= i < s.len() ==> add_effect(cap, #[trigger] trace[i], s[i].1, s[i].0, trace[i + 1])
}

/// A listing of a finite tally names each key once.
proof fn lemma_lists_distinct(m: Map<Seq<char>, u64>, s: Seq<(u64, Seq<char>)>)
    requires
        lists(m, s),
        m.dom().finite(),
    ensures
        forall|i: int, j: int| 0 <= i < j < s.len() ==> #[trigger] s[i].1 != #[trigger] s[j].1,
{
    let ks = Seq::new(s.len(), |i: int| s[i].1);
    assert forall|k: Seq<char>| ks.to_set().contains(k) <==> m.dom().contains(k) by {
        if m.contains_key(k) {
            let i = choose|i: int| 0 <= i < s.len() && #[trigger] s[i].1 == k;
            assert(ks[i] == k);
        }
        if ks.to_set().contains(k) {
            let i = choose|i: int| 0 <= i < ks.len() && ks[i] == k;
            assert(m.contains_key(s[i].1));
        }
    }
    assert(ks.to_set() =~= m.dom());
    ks.lemma_no_dup_set_cardinality();
    assert forall|i: int, j: int| 0 <= i < j < s.len() implies #[trigger] s[i].1 != #[trigger] s[j].1 by {
        assert(ks[i] == s[i].1 && ks[j] == s[j].1);
    }
}

/// A key with its count, as the ranking reports it.
#[derive(Debug, PartialEq, Eq, PartialOrd, Ord)]
pub struct KeyCount {
    pub count: u64,
    pub key: String,
}

impl KeyCount {
    pub open spec fn pair(&self) -> (u64, Seq<char>) {
        (self.count, self.key@)
    }
}

/// A tally of keys, exact (capacity 0) or bounded to about `capacity`
/// ranked candidates.
pub struct Counter {
    counts: AHashMap<String, u64>,
    top: AHashMap<String, u64>,
    threshold: u64,
    num: usize,
}

impl Counter {
    /// The exact count of every key added.
    pub closed spec fn counts(&self) -> Map<Seq<char>, u64> {
        tally_of(self.counts)
    }

    /// The keys still eligible for the ranking, with their counts.
    pub closed spec fn candidates(&self) -> Map<Seq<char>, u64> {
        tally_of(self.top)
    }

    /// The least count that a key needs to become a candidate.
    pub closed spec fn threshold(&self) -> u64 {
        self.threshold
    }

    /// The number of entries that the ranking keeps; 0 in exact mode.
    pub closed spec fn capacity(&self) -> nat {
        self.num as nat
    }

    /// Candidates hold their exact counts, at least the threshold; there are
    /// none in exact mode and fewer than twice the capacity otherwise.
    pub open spec fn wf(&self) -> bool {
        &&& self.counts().dom().finite()
        &&& self.candidates().dom().finite()
        &&& forall|k: Seq<char>| #[trigger]
            self.candidates().contains_key(k) ==> self.counts().contains_key(k)
                && self.candidates()[k] == self.counts()[k] && self.candidates()[k]
                >= self.threshold()
        &&& self.capacity() == 0 ==> self.candidates().len() == 0
        &&& self.capacity() == 0 || self.candidates().len() < 2 * self.capacity()
    }

    /// The tally's counts, candidates and threshold.
    pub open spec fn state(&self) -> TallyState {
        (self.counts(), self.candidates(), self.threshold())
    }

    /// What the ranking is drawn from: every count in exact mode, the
    /// candidates otherwise.
    pub open spec fn ranked(&self) -> Map<Seq<char>, u64> {
        if self.capacity() == 0 {
            self.counts()
        } else {
            self.candidates()
        }
    }

    /// An exact tally for `None` or `Some(0)`, else one bounded to `n` entries.
    pub fn new(num: Option<usize>) -> (r: Self)
        ensures
            r.wf(),
            r.counts() == no_tally(),
            r.candidates() == no_tally(),
            r.capacity() == match num {
                Some(n) => n as nat,
                None => 0,
            },
            r.capacity() > 0 ==> r.threshold() == 0,
    {
        let n = match num {
            Some(n) => n,
            None => 0,
        };
        Counter {
            counts: tally_new(),
            top: tally_new(),
            threshold: if n == 0 {
                u64::MAX
            } else {
                0
            },
            num: n,
        }
    }
}

impl Counter {
    /// Keeps only the candidates above the `capacity`-th largest count, and
    /// raises the threshold to that count.
    fn prune(&mut self)
        requires
            old(self).num > 0,
            old(self).candidates().dom().finite(),
            old(self).candidates().len() == 2 * old(self).num,
            forall|k: Seq<char>| #[trigger]
                old(self).candidates().contains_key(k) ==> old(self).candidates()[k]
                    >= old(self).threshold,
        ensures
            final(self).counts == old(self).counts,
            final(self).num == old(self).num,
            final(self).threshold >= old(self).threshold,
            is_cutoff(old(self).candidates(), old(self).num as nat, final(self).threshold),
            final(self).candidates() == above(old(self).candidates(), final(self).threshold),
            final(self).candidates().dom().finite(),
            final(self).candidates().len() < old(self).candidates().len(),
    {
        let ghost m = self.candidates();
        let sorted = sorted_entries(&self.top);
        let n = sorted.len();
        let cutoff = sorted[n - self.num].0;
        let ghost s = views(sorted@);
        let mut kept = tally_new();
        let mut i: usize = 0;
        while i < n
            invariant
                0 <= i <= n,
                n == sorted@.len(),
                n == s.len(),
                forall|k: int| 0 <= k < n ==> #[trigger] s[k] == pair_view(sorted@[k]),
                lists(m, s),
                tally_of(kept).dom().finite(),
                forall|k: Seq<char>| #[trigger]
                    tally_of(kept).contains_key(k) ==> m.contains_key(k) && m[k] > cutoff
                        && tally_of(kept)[k] == m[k],
                forall|j: int|
                    0 <= j < i && #[trigger] s[j].0 > cutoff ==> tally_of(kept).contains_key(
                        s[j].1,
                    ),
            decreases n - i,
        {
            if sorted[i].0 > cutoff {
                assert(s[i as int] == pair_view(sorted@[i as int]));
                assert(m.contains_key(s[i as int].1));
                tally_insert(&mut kept, sorted[i].1.clone(), sorted[i].0);
            }
            i = i + 1;
        }
        proof {
            let a = above(m, cutoff);
            assert forall|k: Seq<char>| a.contains_key(k) implies tally_of(kept).contains_key(k) by {
                let j = choose|j: int| 0 <= j < s.len() && #[trigger] s[j].1 == k;
            }
            assert(is_cutoff(m, self.num as nat, cutoff));
            assert(tally_of(kept) =~= a);
            // The entry at the cutoff stays out.
            let x = s[n - self.num].1;
            assert(m.contains_key(x) && !tally_of(kept).contains_key(x));
            assert(tally_of(kept).dom().subset_of(m.dom().remove(x)));
            vstd::set_lib::lemma_len_subset(tally_of(kept).dom(), m.dom().remove(x));
            assert(cutoff >= self.threshold);
        }
        self.top = kept;
        self.threshold = cutoff;
    }

    /// Adds `amount` to the count of `key`. In bounded mode the key then
    /// becomes or stays a candidate if its count reaches the threshold, and
    /// the candidates are pruned when they grow to twice the capacity.
    pub fn add(&mut self, key: &str, amount: u64) -> (t: u64)
        requires
            old(self).wf(),
            count_of(old(self).counts(), key@) + amount <= u64::MAX,
        ensures
            final(self).wf(),
            final(self).capacity() == old(self).capacity(),
            t == count_of(old(self).counts(), key@) + amount,
            final(self).counts() == old(self).counts().insert(key@, t),
            add_effect(old(self).capacity(), old(self).state(), key@, amount, final(self).state()),
    {
        let count = match tally_get(&self.counts, key) {
            Some(c) => c + amount,
            None => amount,
        };
        tally_insert(&mut self.counts, key.to_owned(), count);
        if self.num == 0 || count < self.threshold {
            return count;
        }
        let ghost before = self.candidates();
        tally_insert(&mut self.top, key.to_owned(), count);
        proof {
            if before.contains_key(key@) {
                assert(self.candidates().dom() =~= before.dom());
            } else {
                assert(self.candidates().dom() =~= before.dom().insert(key@));
            }
        }
        if tally_len(&self.top) / 2 < self.num {
            return count;
        }
        self.prune();
        count
    }
}

impl Counter {
    /// The ranking: the entries of `ranked()`, best first (count descending,
    /// then key descending), cut to `capacity()` entries in bounded mode.
    pub fn top(&self) -> (r: Vec<KeyCount>)
        requires
            self.wf(),
        ensures
            r@.len() == if self.capacity() == 0 || self.ranked().len() <= self.capacity() {
                self.ranked().len()
            } else {
                self.capacity()
            },
            self.capacity() > 0 ==> r@.len() <= self.capacity(),
            forall|i: int|
                0 <= i < r@.len() ==> self.counts().contains_key(#[trigger] r@[i].key@)
                    && self.counts()[r@[i].key@] == r@[i].count,
            forall|i: int|
                0 <= i < r@.len() ==> self.ranked().contains_key(#[trigger] r@[i].key@)
                    && self.ranked()[r@[i].key@] == r@[i].count,
            forall|i: int, j: int|
                0 <= i < j < r@.len() ==> pair_le(#[trigger] r@[j].pair(), #[trigger] r@[i].pair()),
            forall|i: int, j: int| 0 <= i < j < r@.len() ==> #[trigger] r@[i].key@ != #[trigger] r@[j].key@,
            forall|k: Seq<char>|
                #[trigger] self.ranked().contains_key(k) ==> (exists|i: int|
                    0 <= i < r@.len() && #[trigger] r@[i].key@ == k) || pair_le(
                    (self.ranked()[k], k),
                    r@[r@.len() - 1].pair(),
                ),
    {
        let src = if self.num == 0 {
            &self.counts
        } else {
            &self.top
        };
        let ghost m = tally_of(*src);
        assert(m == self.ranked());
        let sorted = sorted_entries(src);
        let ghost s = views(sorted@);
        let n = sorted.len();
        let take = if self.num == 0 || n <= self.num {
            n
        } else {
            self.num
        };
        let mut r: Vec<KeyCount> = Vec::new();
        let mut i: usize = 0;
        while i < take
            invariant
                0 <= i <= take <= n,
                n == sorted@.len(),
                s == views(sorted@),
                r@.len() == i,
                forall|j: int| 0 <= j < i ==> #[trigger] r@[j].pair() == s[n - 1 - j],
            decreases take - i,
        {
            let e = &sorted[n - 1 - i];
            r.push(KeyCount { count: e.0, key: e.1.clone() });
            i = i + 1;
        }
        proof {
            let out = Seq::new(r@.len(), |i: int| r@[i].pair());
            lemma_reverse_prefix(m, s, out, take as int);
            assert forall|i: int| 0 <= i < r@.len() implies m.contains_key(#[trigger] r@[i].key@)
                && m[r@[i].key@] == r@[i].count by {
                assert(out[i] == r@[i].pair());
                assert(m.contains_key(out[i].1));
            }
            assert forall|i: int| 0 <= i < r@.len() implies self.counts().contains_key(#[trigger] r@[i].key@)
                && self.counts()[r@[i].key@] == r@[i].count by {
                assert(out[i] == r@[i].pair());
                assert(m.contains_key(out[i].1));
            }
            assert forall|i: int, j: int| 0 <= i < j < r@.len() implies pair_le(
                #[trigger] r@[j].pair(),
                #[trigger] r@[i].pair(),
            ) by {
                assert(out[i] == r@[i].pair());
                assert(out[j] == r@[j].pair());
            }
            assert forall|i: int, j: int| 0 <= i < j < r@.len() implies #[trigger] r@[i].key@ != #[trigger] r@[j].key@ by {
                assert(out[i] == r@[i].pair());
                assert(out[j] == r@[j].pair());
                assert(out[i].1 != out[j].1);
            }
            assert forall|k: Seq<char>| #[trigger] m.contains_key(k) implies (exists|i: int|
                0 <= i < r@.len() && #[trigger] r@[i].key@ == k) || pair_le(
                (m[k], k),
                r@[r@.len() - 1].pair(),
            ) by {
                if !(exists|i: int| 0 <= i < out.len() && #[trigger] out[i].1 == k) {
                    assert(pair_le((m[k], k), out[out.len() - 1]));
                } else {
                    let i = choose|i: int| 0 <= i < out.len() && #[trigger] out[i].1 == k;
                    assert(r@[i].key@ == k);
                }
            }
        }
        r
    }

    /// The count of `key`, zero if it was never added.
    pub fn count(&self, key: &str) -> (r: u64)
        ensures
            r == count_of(self.counts(), key@),
    {
        match tally_get(&self.counts, key) {
            Some(c) => c,
            None => 0,
        }
    }

    /// Adds every exact count of `other` into this tally by one `add` per
    /// entry of `other`, in the order in which its map hands them out.
    pub fn merge(&mut self, other: Counter)
        requires
            old(self).wf(),
            other.wf(),
            forall|k: Seq<char>|
                count_of(old(self).counts(), k) + count_of(other.counts(), k) <= u64::MAX,
        ensures
            final(self).wf(),
            final(self).capacity() == old(self).capacity(),
            final(self).counts() == combine(old(self).counts(), other.counts()),
            final(self).threshold() >= old(self).threshold(),
            old(self).capacity() == 0 ==> final(self).candidates() == old(self).candidates()
                && final(self).threshold() == old(self).threshold(),
            other.counts().len() == 0 ==> final(self).state() == old(self).state(),
            exists|s: Seq<(u64, Seq<char>)>, trace: Seq<TallyState>|
                lists(other.counts(), s) && add_trace(old(self).capacity(), s, trace) && trace[0]
                    == old(self).state() && trace.last() == final(self).state(),
            old(self).capacity() > 0 && old(self).candidates() == old(self).counts()
                && old(self).threshold() == 0 && combine(old(self).counts(), other.counts()).len()
                < 2 * old(self).capacity() ==> final(self).candidates() == final(self).counts()
                && final(self).threshold() == 0,
    {
        let ghost a = self.counts();
        let ghost b = other.counts();
        let ghost start = self.state();
        let ghost cap = self.capacity();
        let ghost whole = combine(a, b);
        let ghost unpruned = cap > 0 && self.candidates() == a && self.threshold() == 0
            && whole.len() < 2 * cap;
        proof {
            assert(whole.dom() =~= a.dom().union(b.dom()));
        }
        let entries = tally_entries(&other.counts);
        let ghost es = views(entries@);
        proof {
            lemma_entries_list(b, entries@);
        }
        let n = entries.len();
        let ghost mut trace: Seq<TallyState> = seq![start];
        let mut i: usize = 0;
        while i < n
            invariant
                0 <= i <= n,
                n == entries@.len(),
                es == views(entries@),
                lists(b, es),
                self.wf(),
                self.capacity() == cap,
                cap == old(self).capacity(),
                self.threshold() >= start.2,
                start == old(self).state(),
                a == start.0,
                forall|k: Seq<char>| count_of(a, k) + count_of(b, k) <= u64::MAX,
                forall|j: int|
                    0 <= j < n ==> b.contains_key(#[trigger] entries@[j].1@) && b[entries@[j].1@]
                        == entries@[j].0,
                forall|j1: int, j2: int| 0 <= j1 < j2 < n ==> entries@[j1].1@ != entries@[j2].1@,
                self.counts() == combine(a, b.restrict(done_keys(entries@, i as int))),
                whole == combine(a, b),
                whole.dom().finite(),
                add_trace(cap, es.subrange(0, i as int), trace),
                trace[0] == start,
                trace.last() == self.state(),
                cap == 0 ==> self.candidates() == start.1 && self.threshold() == start.2,
                i == 0 ==> self.state() == start,
                unpruned ==> self.candidates() == self.counts() && self.threshold() == 0,
                unpruned == (cap > 0 && start.1 == a && start.2 == 0 && whole.len() < 2 * cap),
            decreases n - i,
        {
            let ghost before = self.counts();
            let ghost k = entries@[i as int].1@;
            proof {
                assert(!done_keys(entries@, i as int).contains(k));
                assert(count_of(before, k) == count_of(a, k));
            }
            self.add(entries[i].1.as_str(), entries[i].0);
            proof {
                assert(done_keys(entries@, i + 1) =~= done_keys(entries@, i as int).insert(k));
                assert(self.counts() =~= combine(a, b.restrict(done_keys(entries@, i + 1))));
                let old_trace = trace;
                trace = trace.push(self.state());
                assert(es[i as int] == pair_view(entries@[i as int]));
                assert forall|j: int| 0 <= j < i + 1 implies add_effect(
                    cap,
                    #[trigger] trace[j],
                    es.subrange(0, i + 1)[j].1,
                    es.subrange(0, i + 1)[j].0,
                    trace[j + 1],
                ) by {
                    if j < i {
                        assert(es.subrange(0, i + 1)[j] == es.subrange(0, i as int)[j]);
                    }
                }
                if unpruned {
                    assert(self.counts().dom().subset_of(whole.dom()));
                    vstd::set_lib::lemma_len_subset(self.counts().dom(), whole.dom());
                    assert(self.candidates() =~= self.counts());
                }
            }
            i = i + 1;
        }
        proof {
            assert forall|k: Seq<char>| b.contains_key(k) implies done_keys(entries@, n as int).contains(k) by {
                let j = choose|j: int| 0 <= j < es.len() && #[trigger] es[j].1 == k;
                assert(entries@[j].1@ == k);
            }
            assert(b.restrict(done_keys(entries@, n as int)) =~= b);
            assert(es.subrange(0, n as int) =~= es);
            if b.len() == 0 {
                assert(n == 0);
            }
        }
    }
}

/// The entries that a tally hands out list it.
proof fn lemma_entries_list(m: Map<Seq<char>, u64>, e: Seq<(u64, String)>)
    requires
        e.len() == m.len(),
        forall|i: int|
            0 <= i < e.len() ==> m.contains_key(#[trigger] e[i].1@) && m[e[i].1@] == e[i].0,
        forall|k: Seq<char>| m.contains_key(k) ==> exists|i: int| 0 <= i < e.len() && #[trigger] e[i].1@ == k,
    ensures
        lists(m, views(e)),
{
    let s = views(e);
    assert forall|i: int| 0 <= i < s.len() implies m.contains_key(#[trigger] s[i].1) && m[s[i].1] == s[i].0 by {
        assert(m.contains_key(e[i].1@));
    }
    assert forall|k: Seq<char>| m.contains_key(k) implies exists|i: int| 0 <= i < s.len() && #[trigger] s[i].1 == k by {
        let i = choose|i: int| 0 <= i < e.len() && #[trigger] e[i].1@ == k;
        assert(s[i].1 == k);
    }
}

/// The best-first prefix of an ascending listing holds, for each entry of the
/// listed tally, that entry or entries that rank at least as high.
proof fn lemma_reverse_prefix(
    m: Map<Seq<char>, u64>,
    s: Seq<(u64, Seq<char>)>,
    out: Seq<(u64, Seq<char>)>,
    take: int,
)
    requires
        lists(m, s),
        forall|i: int, j: int| 0 <= i < j < s.len() ==> pair_le(s[i], s[j]),
        forall|i: int, j: int| 0 <= i < j < s.len() ==> #[trigger] s[i].1 != #[trigger] s[j].1,
        0 <= take <= s.len(),
        s.len() > 0 ==> take > 0,
        out.len() == take,
        forall|j: int| 0 <= j < take ==> #[trigger] out[j] == s[s.len() - 1 - j],
    ensures
        forall|i: int| 0 <= i < out.len() ==> m.contains_key(#[trigger] out[i].1) && m[out[i].1] == out[i].0,
        forall|i: int, j: int| 0 <= i < j < out.len() ==> pair_le(#[trigger] out[j], #[trigger] out[i]),
        forall|i: int, j: int| 0 <= i < j < out.len() ==> #[trigger] out[i].1 != #[trigger] out[j].1,
        forall|k: Seq<char>|
            #[trigger] m.contains_key(k) ==> (exists|i: int| 0 <= i < out.len() && #[trigger] out[i].1 == k)
                || pair_le((m[k], k), out[out.len() - 1]),
{
    let n = s.len();
    assert forall|i: int| 0 <= i < out.len() implies m.contains_key(#[trigger] out[i].1) && m[out[i].1] == out[i].0 by {
        assert(out[i] == s[n - 1 - i]);
    }
    assert forall|i: int, j: int| 0 <= i < j < out.len() implies pair_le(#[trigger] out[j], #[trigger] out[i]) by {
        assert(out[i] == s[n - 1 - i]);
        assert(out[j] == s[n - 1 - j]);
    }
    assert forall|i: int, j: int| 0 <= i < j < out.len() implies #[trigger] out[i].1 != #[trigger] out[j].1 by {
        assert(out[i] == s[n - 1 - i]);
        assert(out[j] == s[n - 1 - j]);
        assert(s[n - 1 - j].1 != s[n - 1 - i].1);
    }
    assert forall|k: Seq<char>| #[trigger] m.contains_key(k) implies (exists|i: int| 0 <= i < out.len() && #[trigger] out[i].1 == k)
        || pair_le((m[k], k), out[out.len() - 1]) by {
        let j = choose|j: int| 0 <= j < s.len() && #[trigger] s[j].1 == k;
        assert(m[k] == s[j].0);
        if j >= n - take {
            let i = n - 1 - j;
            assert(out[i] == s[j]);
        } else {
            assert(out[take - 1] == s[n - take]);
            assert(pair_le(s[j], s[n - take]));
            assert(s[j] == (m[k], k));
        }
    }
}

/// The keys of the first `i` entries.
pub open spec fn done_keys(e: Seq<(u64, String)>, i: int) -> Set<Seq<char>> {
    Set::new(|k: Seq<char>| exists|j: int| 0 <= j < i && #[trigger] e[j].1@ == k)
}

/// The tally after `add(k, n)` for each `(k, n)` of `calls`, in order.
pub open spec fn after_adds(m: Map<Seq<char>, u64>, calls: Seq<(Seq<char>, u64)>) -> Map<
    Seq<char>,
    u64,
>
    decreases calls.len(),
{
    if calls.len() == 0 {
        m
    } else {
        let prev = after_adds(m, calls.drop_last());
        let (k, n) = calls.last();
        prev.insert(k, (count_of(prev, k) + n) as u64)
    }
}

/// The sum of the amounts that `calls` add to key `k`.
pub open spec fn added_to(calls: Seq<(Seq<char>, u64)>, k: Seq<char>) -> int
    decreases calls.len(),
{
    if calls.len() == 0 {
        0
    } else {
        added_to(calls.drop_last(), k) + if calls.last().0 == k {
            calls.last().1 as int
        } else {
            0
        }
    }
}

/// After any sequence of additions to an exact tally that starts empty, each
/// key's count is the sum of the amounts added to it.
pub proof fn lemma_adds_are_exact(calls: Seq<(Seq<char>, u64)>, k: Seq<char>)
    requires
        forall|j: Seq<char>| added_to(calls, j) <= u64::MAX,
    ensures
        count_of(after_adds(no_tally(), calls), k) == added_to(calls, k),
    decreases calls.len(),
{
    if calls.len() > 0 {
        let prefix = calls.drop_last();
        assert forall|j: Seq<char>| added_to(prefix, j) <= u64::MAX by {
            assert(added_to(calls, j) >= added_to(prefix, j));
        }
        lemma_adds_are_exact(prefix, k);
        lemma_adds_are_exact(prefix, calls.last().0);
    }
}

/// Merging exact tallies is associative: `(a + b) + c` and `a + (b + c)`
/// hold the same counts.
pub proof fn lemma_merge_associative(
    a: Map<Seq<char>, u64>,
    b: Map<Seq<char>, u64>,
    c: Map<Seq<char>, u64>,
)
    requires
        forall|k: Seq<char>| count_of(a, k) + count_of(b, k) + count_of(c, k) <= u64::MAX,
    ensures
        combine(combine(a, b), c) == combine(a, combine(b, c)),
{
    assert(combine(combine(a, b), c) =~= combine(a, combine(b, c)));
}

} // verus!
