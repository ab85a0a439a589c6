//! The bucket array and the operations on it: linear search, insert or
//! update, removal, the expiration sweep, and the entry count.
//!
//! A `Store` is the state behind one map: a fixed array of buckets, each an
//! insertion-ordered sequence of entries with pairwise distinct keys, every
//! entry sitting in the bucket its key routes to. Its mathematical model is
//! the finite map from keys to `(value, expiration)` pairs, reached as
//! `self@`; every operation's contract is stated over that map.
use crate::hashing::{bucket_index, slot_for};
use crate::ttl::{expired_at, is_expired, remaining_nanos, remaining_view, Expiry};
use vstd::prelude::*;
use vstd::string::StringExecFns;

verus! {

broadcast use vstd::seq_lib::group_seq_properties;

/// One record of the store: a key, the value stored under it, and the
/// optional expiration metadata fixed when the key was first inserted.
pub struct Entry<T> {
    pub key: String,
    pub value: T,
    pub expiry: Option<Expiry>,
}

/// The expiration an entry holds after `insert` runs against map state `m`:
/// an existing entry keeps the metadata it already had — its original clock
/// keeps running — while a fresh entry starts its clock at `now`.
pub open spec fn updated_expiry<T>(
    m: Map<Seq<char>, (T, Option<Expiry>)>,
    k: Seq<char>,
    ttl: Option<u64>,
    now: u64,
) -> Option<Expiry> {
    if m.contains_key(k) {
        m[k].1
    } else {
        match ttl {
            Option::None => Option::None,
            Option::Some(t) => Option::Some(Expiry { created_at: now, ttl: t }),
        }
    }
}

/// Map state after one `insert` of `v` under `k` with the given `ttl` at
/// clock reading `now`.
pub open spec fn insert_one<T>(
    m: Map<Seq<char>, (T, Option<Expiry>)>,
    k: Seq<char>,
    v: T,
    ttl: Option<u64>,
    now: u64,
) -> Map<Seq<char>, (T, Option<Expiry>)> {
    m.insert(k, (v, updated_expiry(m, k, ttl, now)))
}

/// Map state after a batch of inserts, applied first to last.
pub open spec fn insert_many_map<T>(
    m: Map<Seq<char>, (T, Option<Expiry>)>,
    ks: Seq<Seq<char>>,
    vs: Seq<T>,
    ttl: Option<u64>,
    now: u64,
) -> Map<Seq<char>, (T, Option<Expiry>)>
    decreases ks.len(),
{
    if ks.len() == 0 || ks.len() != vs.len() {
        m
    } else {
        insert_one(
            insert_many_map(m, ks.drop_last(), vs.drop_last(), ttl, now),
            ks.last(),
            vs.last(),
            ttl,
            now,
        )
    }
}

/// The character sequences of a slice of borrowed keys, in order.
pub open spec fn key_views(ks: Seq<&str>) -> Seq<Seq<char>> {
    Seq::new(ks.len(), |q: int| ks[q]@)
}

/// The entries of `m` whose time-to-live has not elapsed at `now`: the map
/// state a full expiration sweep at `now` leaves behind.
pub open spec fn live<T>(
    m: Map<Seq<char>, (T, Option<Expiry>)>,
    now: u64,
) -> Map<Seq<char>, (T, Option<Expiry>)> {
    Map::new(|k: Seq<char>| m.contains_key(k) && !expired_at(m[k].1, now), |k: Seq<char>| m[k])
}

/// `n` held to the largest value a `usize` count can report.
pub open spec fn counted_len(n: int) -> int {
    if n <= usize::MAX as int {
        n
    } else {
        usize::MAX as int
    }
}

/// The bucket array of one map: the shape is fixed at construction, the
/// buckets grow and shrink as entries come and go.
pub struct Store<T> {
    buckets: Vec<Vec<Entry<T>>>,
}

impl<T> View for Store<T> {
    type V = Map<Seq<char>, (T, Option<Expiry>)>;

    closed spec fn view(&self) -> Map<Seq<char>, (T, Option<Expiry>)> {
        Map::new(
            |k: Seq<char>| self.has_key(k),
            |k: Seq<char>| (self.entry_of(k).value, self.entry_of(k).expiry),
        )
    }
}

impl<T> Store<T> {
    /// How many buckets the store was built with.
    pub closed spec fn num_buckets(self) -> int {
        self.buckets@.len() as int
    }

    /// A bucket is sound for slot `b` of `n` when every entry routes to `b`
    /// and no two entries share a key.
    pub open spec fn bucket_wf(s: Seq<Entry<T>>, b: int, n: int) -> bool {
        &&& forall|i: int| 0 <= i < s.len() ==> bucket_index(#[trigger] s[i].key@, n) == b
        &&& forall|i: int, j: int| 0 <= i < j < s.len() ==> s[i].key@ != s[j].key@
    }

    /// The store's invariant: at least one bucket, and every bucket sound
    /// for its slot.
    pub closed spec fn wf(self) -> bool {
        &&& self.buckets@.len() >= 1
        &&& forall|b: int|
            0 <= b < self.buckets@.len() ==> Self::bucket_wf(
                #[trigger] self.buckets@[b]@,
                b,
                self.buckets@.len() as int,
            )
    }

    /// The bucket the key `k` routes to.
    spec fn bucket_of(self, k: Seq<char>) -> Seq<Entry<T>> {
        self.buckets@[bucket_index(k, self.num_buckets())]@
    }

    /// Whether some entry of `k`'s bucket carries the key `k`.
    spec fn has_key(self, k: Seq<char>) -> bool {
        exists|i: int| 0 <= i < self.bucket_of(k).len() && (#[trigger] self.bucket_of(k)[i].key@)
            == k
    }

    /// The position of `k`'s entry within its bucket.
    spec fn idx_of(self, k: Seq<char>) -> int {
        choose|i: int| 0 <= i < self.bucket_of(k).len() && (#[trigger] self.bucket_of(k)[i].key@)
            == k
    }

    /// The entry stored under `k`.
    spec fn entry_of(self, k: Seq<char>) -> Entry<T> {
        self.bucket_of(k)[self.idx_of(k)]
    }

    /// Number of entries resident in the store, expired or not.
    pub closed spec fn total(self) -> nat {
        Self::total_entries(self.buckets@)
    }

    /// Sum of the bucket lengths.
    spec fn total_entries(bs: Seq<Vec<Entry<T>>>) -> nat
        decreases bs.len(),
    {
        if bs.len() == 0 {
            0
        } else {
            Self::total_entries(bs.drop_last()) + bs.last()@.len()
        }
    }

    /// In a well-formed store, position `i` holding key `k` in `k`'s bucket
    /// is the position the model reads: there is no other.
    proof fn lemma_idx_is(self, k: Seq<char>, i: int)
        requires
            self.wf(),
            0 <= i < self.bucket_of(k).len(),
            self.bucket_of(k)[i].key@ == k,
        ensures
            self.has_key(k),
            self.idx_of(k) == i,
            self@.contains_key(k),
            self@[k] == (self.bucket_of(k)[i].value, self.bucket_of(k)[i].expiry),
    {
        crate::hashing::lemma_bucket_index_range(k, self.num_buckets());
        assert(self.has_key(k));
        let j = self.idx_of(k);
        assert(Self::bucket_wf(
            self.bucket_of(k),
            bucket_index(k, self.num_buckets()),
            self.num_buckets(),
        ));
        if i < j {
            assert(self.bucket_of(k)[i].key@ != self.bucket_of(k)[j].key@);
        } else if j < i {
            assert(self.bucket_of(k)[j].key@ != self.bucket_of(k)[i].key@);
        }
    }

    /// In a well-formed store, a key the model holds is carried by exactly
    /// the entry at its recorded position.
    proof fn lemma_model_key(self, k: Seq<char>)
        requires
            self.wf(),
            self@.contains_key(k),
        ensures
            0 <= self.idx_of(k) < self.bucket_of(k).len(),
            self.bucket_of(k)[self.idx_of(k)].key@ == k,
            self@[k] == (self.entry_of(k).value, self.entry_of(k).expiry),
    {
    }

    /// The set of keys a bucket's entries carry.
    spec fn bucket_keys(s: Seq<Entry<T>>) -> Set<Seq<char>>
        decreases s.len(),
    {
        if s.len() == 0 {
            Set::empty()
        } else {
            Self::bucket_keys(s.drop_last()).insert(s.last().key@)
        }
    }

    /// A bucket's key set is finite and holds exactly the keys its entries
    /// carry.
    proof fn lemma_bucket_keys_membership(s: Seq<Entry<T>>, k: Seq<char>)
        ensures
            Self::bucket_keys(s).finite(),
            Self::bucket_keys(s).contains(k) <==> exists|i: int|
                0 <= i < s.len() && (#[trigger] s[i].key@) == k,
        decreases s.len(),
    {
        if s.len() > 0 {
            Self::lemma_bucket_keys_membership(s.drop_last(), k);
            if Self::bucket_keys(s).contains(k) {
                if k == s.last().key@ {
                    assert(s[s.len() - 1].key@ == k);
                } else {
                    let i = choose|i: int|
                        0 <= i < s.drop_last().len() && (#[trigger] s.drop_last()[i].key@) == k;
                    assert(s[i].key@ == k);
                }
            }
            if exists|i: int| 0 <= i < s.len() && (#[trigger] s[i].key@) == k {
                let i = choose|i: int| 0 <= i < s.len() && (#[trigger] s[i].key@) == k;
                if i < s.len() - 1 {
                    assert(s.drop_last()[i].key@ == k);
                }
            }
        }
    }

    /// In a bucket with pairwise distinct keys, the number of distinct keys
    /// is the number of entries.
    proof fn lemma_bucket_keys_count(s: Seq<Entry<T>>)
        requires
            forall|i: int, j: int| 0 <= i < j < s.len() ==> s[i].key@ != s[j].key@,
        ensures
            Self::bucket_keys(s).finite(),
            Self::bucket_keys(s).len() == s.len(),
        decreases s.len(),
    {
        if s.len() == 0 {
            assert(Self::bucket_keys(s).len() == 0);
        } else {
            let rest = s.drop_last();
            Self::lemma_bucket_keys_count(rest);
            Self::lemma_bucket_keys_membership(rest, s.last().key@);
            assert(!Self::bucket_keys(rest).contains(s.last().key@)) by {
                if exists|i: int| 0 <= i < rest.len() && (#[trigger] rest[i].key@) == s.last().key@ {
                    let i = choose|i: int|
                        0 <= i < rest.len() && (#[trigger] rest[i].key@) == s.last().key@;
                    assert(s[i].key@ != s[s.len() - 1].key@);
                }
            }
        }
    }

    /// A disjoint union of finite sets is as large as the two together.
    proof fn lemma_len_disjoint_union(s1: Set<Seq<char>>, s2: Set<Seq<char>>)
        requires
            s1.finite(),
            s2.finite(),
            s1.disjoint(s2),
        ensures
            s1.union(s2).finite(),
            s1.union(s2).len() == s1.len() + s2.len(),
        decreases s1.len(),
    {
        if s1.is_empty() {
            assert(s1.union(s2) =~= s2);
        } else {
            let a = s1.choose();
            assert(s1.union(s2).remove(a) =~= s1.remove(a).union(s2));
            Self::lemma_len_disjoint_union(s1.remove(a), s2);
            assert(s1.union(s2) =~= s1.union(s2).remove(a).insert(a));
        }
    }

    /// The keys held by the buckets before slot `b`.
    spec fn keys_below(self, b: int) -> Set<Seq<char>>
        decreases b,
    {
        if b <= 0 {
            Set::empty()
        } else {
            self.keys_below(b - 1).union(Self::bucket_keys(self.buckets@[b - 1]@))
        }
    }

    /// A key of the first `b` buckets sits in exactly one of them.
    proof fn lemma_keys_below_membership(self, b: int, k: Seq<char>)
        requires
            0 <= b <= self.buckets@.len(),
        ensures
            self.keys_below(b).contains(k) <==> exists|t: int|
                0 <= t < b && Self::bucket_keys((#[trigger] self.buckets@[t])@).contains(k),
        decreases b,
    {
        if b > 0 {
            self.lemma_keys_below_membership(b - 1, k);
        }
    }

    /// In a well-formed store, the first `b` buckets hold as many distinct
    /// keys as entries, and every one of those keys routes below `b`.
    proof fn lemma_keys_below_count(self, b: int)
        requires
            self.wf(),
            0 <= b <= self.buckets@.len(),
        ensures
            self.keys_below(b).finite(),
            self.keys_below(b).len() == Self::total_entries(self.buckets@.take(b)),
            forall|k: Seq<char>| #[trigger]
                self.keys_below(b).contains(k) ==> 0 <= bucket_index(k, self.num_buckets()) < b,
        decreases b,
    {
        let nn = self.num_buckets();
        if b == 0 {
            assert(self.buckets@.take(0) =~= Seq::<Vec<Entry<T>>>::empty());
        } else {
            self.lemma_keys_below_count(b - 1);
            let s = self.buckets@[b - 1]@;
            assert(Self::bucket_wf(s, b - 1, nn));
            Self::lemma_bucket_keys_count(s);
            assert forall|k: Seq<char>| #[trigger]
                Self::bucket_keys(s).contains(k) implies bucket_index(k, nn) == b - 1 by {
                Self::lemma_bucket_keys_membership(s, k);
                let i = choose|i: int| 0 <= i < s.len() && (#[trigger] s[i].key@) == k;
                assert(bucket_index(s[i].key@, nn) == b - 1);
            }
            assert(self.keys_below(b - 1).disjoint(Self::bucket_keys(s)));
            Self::lemma_len_disjoint_union(self.keys_below(b - 1), Self::bucket_keys(s));
            assert(self.buckets@.take(b).drop_last() =~= self.buckets@.take(b - 1));
            assert(self.buckets@.take(b).last() == self.buckets@[b - 1]);
        }
    }

    /// What `len` reports is the number of distinct keys resident in the
    /// store: the count of entries equals the size of the model's domain.
    pub proof fn lemma_len_is_key_count(self)
        requires
            self.wf(),
        ensures
            self@.dom().finite(),
            self@.dom().len() == self.total(),
    {
        let nn = self.num_buckets();
        let b = self.buckets@.len() as int;
        self.lemma_keys_below_count(b);
        assert forall|k: Seq<char>| #[trigger] self@.dom().contains(k) implies self.keys_below(
            b,
        ).contains(k) by {
            crate::hashing::lemma_bucket_index_range(k, nn);
            let t = bucket_index(k, nn);
            Self::lemma_bucket_keys_membership(self.buckets@[t]@, k);
            self.lemma_keys_below_membership(b, k);
        }
        assert forall|k: Seq<char>| #[trigger] self.keys_below(b).contains(k)
            implies self@.dom().contains(k) by {
            self.lemma_keys_below_membership(b, k);
            let t = choose|t: int|
                0 <= t < b && Self::bucket_keys((#[trigger] self.buckets@[t])@).contains(k);
            Self::lemma_bucket_keys_membership(self.buckets@[t]@, k);
            let i = choose|i: int|
                0 <= i < self.buckets@[t]@.len() && (#[trigger] self.buckets@[t]@[i].key@) == k;
            assert(Self::bucket_wf(self.buckets@[t]@, t, nn));
            assert(bucket_index(k, nn) == t);
            assert(self.has_key(k));
        }
        assert(self@.dom() =~= self.keys_below(b));
        assert(self.buckets@.take(b) =~= self.buckets@);
    }

    /// Creates a store of `n` empty buckets.
    pub fn new(n: usize) -> (r: Store<T>)
        requires
            n >= 1,
        ensures
            r.wf(),
            r.num_buckets() == n,
            r@ == Map::<Seq<char>, (T, Option<Expiry>)>::empty(),
            r.total() == 0,
    {
        let mut buckets: Vec<Vec<Entry<T>>> = Vec::new();
        let mut i: usize = 0;
        while i < n
            invariant
                i == buckets@.len(),
                i <= n,
                forall|b: int| 0 <= b < i ==> (#[trigger] buckets@[b]@).len() == 0,
            decreases n - i,
        {
            buckets.push(Vec::new());
            i = i + 1;
        }
        let r = Store { buckets };
        proof {
            Self::lemma_total_all_empty(r.buckets@);
            assert(r@ =~= Map::<Seq<char>, (T, Option<Expiry>)>::empty());
        }
        r
    }

    /// A sequence of empty buckets holds no entries.
    proof fn lemma_total_all_empty(bs: Seq<Vec<Entry<T>>>)
        requires
            forall|b: int| 0 <= b < bs.len() ==> (#[trigger] bs[b]@).len() == 0,
        ensures
            Self::total_entries(bs) == 0,
        decreases bs.len(),
    {
        if bs.len() > 0 {
            Self::lemma_total_all_empty(bs.drop_last());
        }
    }

    /// Replacing one bucket changes the entry count by the difference of
    /// the bucket lengths.
    proof fn lemma_total_update(bs: Seq<Vec<Entry<T>>>, b: int, nb: Vec<Entry<T>>)
        requires
            0 <= b < bs.len(),
        ensures
            Self::total_entries(bs.update(b, nb)) == Self::total_entries(bs) - bs[b]@.len()
                + nb@.len(),
        decreases bs.len(),
    {
        let upd = bs.update(b, nb);
        if b == bs.len() - 1 {
            assert(upd.drop_last() =~= bs.drop_last());
        } else {
            assert(upd.drop_last() =~= bs.drop_last().update(b, nb));
            Self::lemma_total_update(bs.drop_last(), b, nb);
        }
    }

    /// Counts the entries resident in the store, expired or not, held to
    /// the largest value a `usize` can report.
    pub fn len(&self) -> (r: usize)
        ensures
            r == counted_len(self.total() as int),
    {
        let mut sum: usize = 0;
        let mut i: usize = 0;
        proof {
            assert(self.buckets@.take(0) =~= Seq::<Vec<Entry<T>>>::empty());
        }
        while i < self.buckets.len()
            invariant
                i <= self.buckets@.len(),
                sum == counted_len(Self::total_entries(self.buckets@.take(i as int)) as int),
            decreases self.buckets@.len() - i,
        {
            proof {
                assert(self.buckets@.take(i + 1).drop_last() =~= self.buckets@.take(i as int));
                assert(self.buckets@.take(i + 1).last() == self.buckets@[i as int]);
            }
            sum = sum.saturating_add(self.buckets[i].len());
            i = i + 1;
        }
        proof {
            assert(self.buckets@.take(i as int) =~= self.buckets@);
        }
        sum
    }

    /// The entries an expiration sweep at clock reading `now` keeps.
    pub open spec fn kept_at(now: u64) -> spec_fn(Entry<T>) -> bool {
        |e: Entry<T>| !expired_at(e.expiry, now)
    }

    /// Removes from `bucket` every entry expired at `now`, keeping the
    /// survivors in order, and reports how many left.
    fn sweep_bucket(bucket: &mut Vec<Entry<T>>, now: u64) -> (removed: usize)
        ensures
            final(bucket)@ == old(bucket)@.filter(Self::kept_at(now)),
            removed == old(bucket)@.len() - final(bucket)@.len(),
    {
        let ghost p = Self::kept_at(now);
        let ghost orig = old(bucket)@;
        let orig_len = bucket.len();
        let mut i: usize = 0;
        let ghost mut j: int = 0;
        proof {
            assert(orig.take(0) =~= Seq::<Entry<T>>::empty());
            reveal(Seq::filter);
            assert(orig.take(0).filter(p) =~= Seq::<Entry<T>>::empty());
            assert(bucket@ =~= orig.take(0).filter(p) + orig.skip(0));
        }
        while i < bucket.len()
            invariant
                0 <= j <= orig.len(),
                bucket@ == orig.take(j).filter(p) + orig.skip(j),
                i as int == orig.take(j).filter(p).len(),
                i <= j,
                orig_len == orig.len(),
                p == Self::kept_at(now),
            decreases orig.len() - j,
        {
            proof {
                assert(bucket@.len() == orig.take(j).filter(p).len() + orig.skip(j).len());
                assert(j < orig.len());
                assert(bucket@[i as int] == orig.skip(j)[0]);
                assert(orig.skip(j)[0] == orig[j]);
                assert(orig.take(j + 1).drop_last() =~= orig.take(j));
                assert(orig.take(j + 1).last() == orig[j]);
                reveal(Seq::filter);
            }
            let expired_now = is_expired(&bucket[i].expiry, now);
            proof {
                assert(expired_now == expired_at(orig[j].expiry, now));
                assert(p(orig[j]) == !expired_at(orig[j].expiry, now));
            }
            if expired_now {
                bucket.remove(i);
                proof {
                    assert(!p(orig[j]));
                    assert(orig.take(j + 1).filter(p) == orig.take(j).filter(p));
                    assert(bucket@ =~= orig.take(j + 1).filter(p) + orig.skip(j + 1));
                    j = j + 1;
                }
            } else {
                proof {
                    assert(p(orig[j]));
                    assert(orig.take(j + 1).filter(p) == orig.take(j).filter(p).push(orig[j]));
                    assert(bucket@ =~= orig.take(j + 1).filter(p) + orig.skip(j + 1));
                    j = j + 1;
                }
                i = i + 1;
            }
        }
        proof {
            assert(j == orig.len());
            assert(orig.take(j) =~= orig);
            assert(orig.skip(j) =~= Seq::<Entry<T>>::empty());
            assert(bucket@ =~= orig.filter(p));
        }
        orig_len - bucket.len()
    }

    /// Filtering a bucket that is sound for its slot leaves it sound: the
    /// survivors still route to the slot and still carry distinct keys.
    proof fn lemma_filter_bucket_wf(s: Seq<Entry<T>>, pr: spec_fn(Entry<T>) -> bool, b: int, n: int)
        requires
            Self::bucket_wf(s, b, n),
        ensures
            Self::bucket_wf(s.filter(pr), b, n),
        decreases s.len(),
    {
        reveal(Seq::filter);
        if s.len() > 0 {
            let rest = s.drop_last();
            assert(Self::bucket_wf(rest, b, n));
            Self::lemma_filter_bucket_wf(rest, pr, b, n);
            if pr(s.last()) {
                let out = s.filter(pr);
                assert(out == rest.filter(pr).push(s.last()));
                assert forall|q: int| 0 <= q < out.len() - 1 implies (#[trigger] out[q].key@)
                    != s.last().key@ by {
                    rest.lemma_filter_pred(pr, q);
                    rest.lemma_filter_contains_rev(pr, rest.filter(pr)[q]);
                    let i2 = choose|i2: int| 0 <= i2 < rest.len() && rest[i2] == rest.filter(pr)[q];
                    assert(s[i2] == out[q]);
                    assert(s[i2].key@ != s[s.len() - 1].key@);
                }
            }
        }
    }

    /// In a bucket with distinct keys, the filtered bucket holds an entry
    /// carrying `k` exactly when the original holds one that survives, and
    /// then it is the same entry.
    proof fn lemma_filter_bucket_key(
        s: Seq<Entry<T>>,
        pr: spec_fn(Entry<T>) -> bool,
        b: int,
        n: int,
        k: Seq<char>,
    )
        requires
            Self::bucket_wf(s, b, n),
        ensures
            (exists|q: int|
                0 <= q < s.filter(pr).len() && (#[trigger] s.filter(pr)[q].key@) == k) <==> (exists|
                i: int,
            |
                0 <= i < s.len() && (#[trigger] s[i].key@) == k && pr(s[i])),
            forall|q: int, i: int|
                0 <= q < s.filter(pr).len() && (#[trigger] s.filter(pr)[q].key@) == k && 0 <= i
                    < s.len() && (#[trigger] s[i].key@) == k ==> s.filter(pr)[q] == s[i],
    {
        let out = s.filter(pr);
        if exists|q: int| 0 <= q < out.len() && (#[trigger] out[q].key@) == k {
            let q = choose|q: int| 0 <= q < out.len() && (#[trigger] out[q].key@) == k;
            s.lemma_filter_pred(pr, q);
            s.lemma_filter_contains_rev(pr, out[q]);
            let i = choose|i: int| 0 <= i < s.len() && s[i] == out[q];
            assert(0 <= i < s.len() && s[i].key@ == k && pr(s[i]));
        }
        if exists|i: int| 0 <= i < s.len() && (#[trigger] s[i].key@) == k && pr(s[i]) {
            let i = choose|i: int| 0 <= i < s.len() && (#[trigger] s[i].key@) == k && pr(s[i]);
            s.lemma_filter_contains(pr, i);
            let q = choose|q: int| 0 <= q < out.len() && out[q] == s[i];
            assert(0 <= q < out.len() && out[q].key@ == k);
        }
        assert forall|q: int, i: int|
            0 <= q < out.len() && (#[trigger] out[q].key@) == k && 0 <= i < s.len() && (
            #[trigger] s[i].key@) == k implies out[q] == s[i] by {
            s.lemma_filter_pred(pr, q);
            s.lemma_filter_contains_rev(pr, out[q]);
            let i2 = choose|i2: int| 0 <= i2 < s.len() && s[i2] == out[q];
            if i2 < i {
                assert(s[i2].key@ != s[i].key@);
            } else if i < i2 {
                assert(s[i].key@ != s[i2].key@);
            }
        }
    }

    /// Sweeps every bucket at clock reading `now`, removing each entry
    /// whose time-to-live has elapsed, and counts the removals, held to
    /// the largest value a `usize` can report.
    pub fn expire_at(&mut self, now: u64) -> (r: usize)
        requires
            old(self).wf(),
        ensures
            final(self).wf(),
            final(self).num_buckets() == old(self).num_buckets(),
            final(self)@ == live(old(self)@, now),
            final(self).total() <= old(self).total(),
            r == counted_len(old(self).total() - final(self).total()),
    {
        let ghost p = Self::kept_at(now);
        let ghost obs = old(self).buckets@;
        let mut removed: usize = 0;
        let mut s: usize = 0;
        proof {
            assert(obs.take(0) =~= Seq::<Vec<Entry<T>>>::empty());
            assert(self.buckets@.take(0) =~= Seq::<Vec<Entry<T>>>::empty());
        }
        while s < self.buckets.len()
            invariant
                0 <= s <= obs.len(),
                self.buckets@.len() == obs.len(),
                forall|t: int| 0 <= t < s ==> (#[trigger] self.buckets@[t]@) == obs[t]@.filter(p),
                forall|t: int| s <= t < obs.len() ==> (#[trigger] self.buckets@[t]) == obs[t],
                Self::total_entries(self.buckets@.take(s as int)) <= Self::total_entries(
                    obs.take(s as int),
                ),
                removed == counted_len(
                    Self::total_entries(obs.take(s as int)) - Self::total_entries(
                        self.buckets@.take(s as int),
                    ),
                ),
                p == Self::kept_at(now),
            decreases obs.len() - s,
        {
            let ghost prev = self.buckets@;
            let rb = Self::sweep_bucket(&mut self.buckets[s], now);
            removed = removed.saturating_add(rb);
            proof {
                let t = s as int;
                assert(self.buckets@ =~= prev.update(t, self.buckets@[t]));
                assert(prev.take(t) =~= self.buckets@.take(t));
                assert(obs.take(t + 1).drop_last() =~= obs.take(t));
                assert(obs.take(t + 1).last() == obs[t]);
                assert(self.buckets@.take(t + 1).drop_last() =~= self.buckets@.take(t));
                assert(self.buckets@.take(t + 1).last() == self.buckets@[t]);
            }
            s = s + 1;
        }
        proof {
            assert(obs.take(s as int) =~= obs);
            assert(self.buckets@.take(s as int) =~= self.buckets@);
            let nn = old(self).num_buckets();
            assert forall|bb: int| 0 <= bb < self.buckets@.len() implies Self::bucket_wf(
                #[trigger] self.buckets@[bb]@,
                bb,
                nn,
            ) by {
                assert(Self::bucket_wf(obs[bb]@, bb, nn));
                Self::lemma_filter_bucket_wf(obs[bb]@, p, bb, nn);
            }
            let target = live(old(self)@, now);
            assert forall|k2: Seq<char>| #[trigger] self@.contains_key(k2)
                implies target.contains_key(k2) && self@[k2] == target[k2] by {
                self.lemma_model_key(k2);
                let b = bucket_index(k2, nn);
                crate::hashing::lemma_bucket_index_range(k2, nn);
                Self::lemma_filter_bucket_key(obs[b]@, p, b, nn, k2);
                let i = choose|i: int|
                    0 <= i < obs[b]@.len() && (#[trigger] obs[b]@[i].key@) == k2 && p(obs[b]@[i]);
                old(self).lemma_idx_is(k2, i);
            }
            assert forall|k2: Seq<char>| #[trigger] target.contains_key(k2)
                implies self@.contains_key(k2) by {
                old(self).lemma_model_key(k2);
                let b = bucket_index(k2, nn);
                crate::hashing::lemma_bucket_index_range(k2, nn);
                let i = old(self).idx_of(k2);
                assert(p(obs[b]@[i]));
                Self::lemma_filter_bucket_key(obs[b]@, p, b, nn, k2);
                let q = choose|q: int|
                    0 <= q < obs[b]@.filter(p).len() && (#[trigger] obs[b]@.filter(p)[q].key@)
                        == k2;
                self.lemma_idx_is(k2, q);
            }
            assert(self@ =~= target);
        }
        removed
    }

    /// Scans `bucket` for `key`; the position found carries that key, and a
    /// miss means no position does.
    fn find_in_bucket(bucket: &Vec<Entry<T>>, key: &str) -> (r: Option<usize>)
        ensures
            match r {
                Option::Some(i) => i < bucket@.len() && bucket@[i as int].key@ == key@,
                Option::None => forall|i: int|
                    0 <= i < bucket@.len() ==> (#[trigger] bucket@[i].key@) != key@,
            },
    {
        let mut i: usize = 0;
        while i < bucket.len()
            invariant
                i <= bucket@.len(),
                forall|j: int| 0 <= j < i ==> (#[trigger] bucket@[j].key@) != key@,
            decreases bucket@.len() - i,
        {
            if str_eq(bucket[i].key.as_str(), key) {
                return Option::Some(i);
            }
            i = i + 1;
        }
        Option::None
    }
}

impl<T> Store<T> {
    /// Inserts `value` under `key` at clock reading `now`: a fresh key is
    /// appended to its bucket with a clock started at `now`, while an
    /// existing key keeps both its place and its original expiration and
    /// only has its value replaced.
    pub fn insert_at(&mut self, key: &str, value: T, ttl: Option<u64>, now: u64)
        requires
            old(self).wf(),
        ensures
            final(self).wf(),
            final(self).num_buckets() == old(self).num_buckets(),
            final(self)@ == insert_one(old(self)@, key@, value, ttl, now),
            final(self).total() == old(self).total() + (if old(self)@.contains_key(key@) {
                0int
            } else {
                1int
            }),
    {
        let n = self.buckets.len();
        let idx = slot_for(key, n);
        let pos = Self::find_in_bucket(&self.buckets[idx], key);
        match pos {
            Option::Some(i) => {
                proof {
                    old(self).lemma_idx_is(key@, i as int);
                }
                let bucket = &mut self.buckets[idx];
                let replacement = Entry {
                    key: bucket[i].key.clone(),
                    value,
                    expiry: bucket[i].expiry,
                };
                bucket.set(i, replacement);
                proof {
                    self.lemma_after_replace(*old(self), idx as int, i as int, key@);
                }
            },
            Option::None => {
                proof {
                    if old(self)@.contains_key(key@) {
                        old(self).lemma_model_key(key@);
                    }
                }
                let expiry = match ttl {
                    Option::None => Option::None,
                    Option::Some(t) => Option::Some(Expiry { created_at: now, ttl: t }),
                };
                let owned = String::from_str(key);
                let bucket = &mut self.buckets[idx];
                bucket.push(Entry { key: owned, value, expiry });
                proof {
                    self.lemma_after_append(*old(self), idx as int, key@);
                }
            },
        }
    }

    /// Detaches the entry under `key` and returns its value, whether or
    /// not its time-to-live has elapsed. An absent key leaves the store
    /// unchanged and returns nothing.
    pub fn remove(&mut self, key: &str) -> (r: Option<T>)
        requires
            old(self).wf(),
        ensures
            final(self).wf(),
            final(self).num_buckets() == old(self).num_buckets(),
            r is Some <==> old(self)@.contains_key(key@),
            r matches Some(v) ==> v == old(self)@[key@].0,
            final(self)@ == old(self)@.remove(key@),
            final(self).total() == old(self).total() - (if old(self)@.contains_key(key@) {
                1int
            } else {
                0int
            }),
    {
        let n = self.buckets.len();
        let idx = slot_for(key, n);
        let pos = Self::find_in_bucket(&self.buckets[idx], key);
        match pos {
            Option::None => {
                proof {
                    if old(self)@.contains_key(key@) {
                        old(self).lemma_model_key(key@);
                    }
                    assert(self@ =~= old(self)@.remove(key@));
                }
                Option::None
            },
            Option::Some(i) => {
                proof {
                    old(self).lemma_idx_is(key@, i as int);
                }
                let bucket = &mut self.buckets[idx];
                let detached = bucket.remove(i);
                proof {
                    self.lemma_after_detach(*old(self), idx as int, i as int, key@);
                }
                Option::Some(detached.value)
            },
        }
    }

    /// After detaching the entry at position `i` of slot `b`, the store is
    /// still well formed and its model loses exactly that entry's key.
    proof fn lemma_after_detach(self, o: Self, b: int, i: int, k: Seq<char>)
        requires
            o.wf(),
            0 <= b < o.buckets@.len(),
            self.buckets@ =~= o.buckets@.update(b, self.buckets@[b]),
            0 <= i < o.buckets@[b]@.len(),
            self.buckets@[b]@ =~= o.buckets@[b]@.remove(i),
            o.buckets@[b]@[i].key@ == k,
            bucket_index(k, o.num_buckets()) == b,
        ensures
            self.wf(),
            self.num_buckets() == o.num_buckets(),
            self@ == o@.remove(k),
            self.total() == o.total() - 1,
    {
        let nn = o.num_buckets();
        let ob = o.buckets@[b]@;
        let fb = self.buckets@[b]@;
        ob.remove_ensures(i);
        assert(fb.len() == ob.len() - 1);
        o.lemma_idx_is(k, i);
        assert forall|bb: int| 0 <= bb < self.buckets@.len() implies Self::bucket_wf(
            #[trigger] self.buckets@[bb]@,
            bb,
            nn,
        ) by {
            assert(Self::bucket_wf(o.buckets@[bb]@, bb, nn));
            if bb != b {
                assert(self.buckets@[bb]@ == o.buckets@[bb]@);
            } else {
                assert forall|p: int| 0 <= p < fb.len() implies bucket_index(
                    #[trigger] fb[p].key@,
                    nn,
                ) == bb by {
                    if p < i {
                        assert(fb[p] == ob[p]);
                    } else {
                        assert(fb[p] == ob[p + 1]);
                    }
                }
                assert forall|p: int, q: int| 0 <= p < q < fb.len() implies fb[p].key@
                    != fb[q].key@ by {
                    if p < i {
                        assert(fb[p] == ob[p]);
                    } else {
                        assert(fb[p] == ob[p + 1]);
                    }
                    if q < i {
                        assert(fb[q] == ob[q]);
                    } else {
                        assert(fb[q] == ob[q + 1]);
                    }
                }
            }
        }
        let target = o@.remove(k);
        assert forall|k2: Seq<char>| #[trigger] self@.contains_key(k2) implies target.contains_key(
            k2,
        ) && self@[k2] == target[k2] by {
            self.lemma_model_key(k2);
            let p = self.idx_of(k2);
            if bucket_index(k2, nn) == b {
                if p < i {
                    assert(fb[p] == ob[p]);
                    o.lemma_idx_is(k2, p);
                } else {
                    assert(fb[p] == ob[p + 1]);
                    o.lemma_idx_is(k2, p + 1);
                }
                assert(k2 != k);
            } else {
                o.lemma_idx_is(k2, p);
                assert(k2 != k);
            }
        }
        assert forall|k2: Seq<char>| #[trigger] target.contains_key(k2) implies self@.contains_key(
            k2,
        ) by {
            o.lemma_model_key(k2);
            let p = o.idx_of(k2);
            if bucket_index(k2, nn) == b {
                assert(p != i);
                if p < i {
                    assert(fb[p] == ob[p]);
                    self.lemma_idx_is(k2, p);
                } else {
                    assert(fb[p - 1] == ob[p]);
                    self.lemma_idx_is(k2, p - 1);
                }
            } else {
                self.lemma_idx_is(k2, p);
            }
        }
        assert(self@ =~= target);
        Self::lemma_total_update(o.buckets@, b, self.buckets@[b]);
        assert(self.buckets@ == o.buckets@.update(b, self.buckets@[b]));
    }

    /// After replacing the entry at position `i` of slot `b` with one that
    /// carries the same key, the store is still well formed and its model
    /// has the key bound to the new entry's data.
    proof fn lemma_after_replace(self, o: Self, b: int, i: int, k: Seq<char>)
        requires
            o.wf(),
            0 <= b < o.buckets@.len(),
            self.buckets@ =~= o.buckets@.update(b, self.buckets@[b]),
            0 <= i < o.buckets@[b]@.len(),
            self.buckets@[b]@ =~= o.buckets@[b]@.update(i, self.buckets@[b]@[i]),
            self.buckets@[b]@[i].key@ == o.buckets@[b]@[i].key@,
            o.buckets@[b]@[i].key@ == k,
            bucket_index(k, o.num_buckets()) == b,
        ensures
            self.wf(),
            self.num_buckets() == o.num_buckets(),
            self@ == o@.insert(k, (self.buckets@[b]@[i].value, self.buckets@[b]@[i].expiry)),
            self.total() == o.total(),
    {
        let nn = o.num_buckets();
        let ob = o.buckets@[b]@;
        let fb = self.buckets@[b]@;
        let e = fb[i];
        assert(fb.len() == ob.len());
        assert forall|p: int| 0 <= p < fb.len() implies (#[trigger] fb[p].key@) == ob[p].key@ by {}
        assert forall|bb: int| 0 <= bb < self.buckets@.len() implies Self::bucket_wf(
            #[trigger] self.buckets@[bb]@,
            bb,
            nn,
        ) by {
            assert(Self::bucket_wf(o.buckets@[bb]@, bb, nn));
            if bb != b {
                assert(self.buckets@[bb]@ == o.buckets@[bb]@);
            }
        }
        o.lemma_idx_is(k, i);
        let target = o@.insert(k, (e.value, e.expiry));
        assert forall|k2: Seq<char>| #[trigger] self@.contains_key(k2) implies target.contains_key(
            k2,
        ) && self@[k2] == target[k2] by {
            self.lemma_model_key(k2);
            let p = self.idx_of(k2);
            if bucket_index(k2, nn) == b {
                if p == i {
                    assert(k2 == k);
                } else {
                    assert(k2 != k);
                    o.lemma_idx_is(k2, p);
                }
            } else {
                o.lemma_idx_is(k2, p);
                assert(k2 != k);
            }
        }
        assert forall|k2: Seq<char>| #[trigger] target.contains_key(k2) implies self@.contains_key(
            k2,
        ) by {
            if k2 == k {
                self.lemma_idx_is(k, i);
            } else {
                o.lemma_model_key(k2);
                let p = o.idx_of(k2);
                if bucket_index(k2, nn) == b {
                    assert(fb[p].key@ == k2);
                    self.lemma_idx_is(k2, p);
                } else {
                    self.lemma_idx_is(k2, p);
                }
            }
        }
        assert(self@ =~= target);
        Self::lemma_total_update(o.buckets@, b, self.buckets@[b]);
        assert(self.buckets@ == o.buckets@.update(b, self.buckets@[b]));
    }

    /// After appending an entry with a fresh key `k` to the bucket `k`
    /// routes to, the store is still well formed and its model gains
    /// exactly that binding.
    proof fn lemma_after_append(self, o: Self, b: int, k: Seq<char>)
        requires
            o.wf(),
            0 <= b < o.buckets@.len(),
            self.buckets@ =~= o.buckets@.update(b, self.buckets@[b]),
            self.buckets@[b]@ =~= o.buckets@[b]@.push(self.buckets@[b]@.last()),
            self.buckets@[b]@.last().key@ == k,
            bucket_index(k, o.num_buckets()) == b,
            forall|p: int| 0 <= p < o.buckets@[b]@.len() ==> (#[trigger] o.buckets@[b]@[p].key@)
                != k,
        ensures
            self.wf(),
            self.num_buckets() == o.num_buckets(),
            !o@.contains_key(k),
            self@ == o@.insert(
                k,
                (self.buckets@[b]@.last().value, self.buckets@[b]@.last().expiry),
            ),
            self.total() == o.total() + 1,
    {
        let nn = o.num_buckets();
        let ob = o.buckets@[b]@;
        let fb = self.buckets@[b]@;
        let e = fb.last();
        assert(fb.len() == ob.len() + 1);
        assert forall|p: int| 0 <= p < ob.len() implies (#[trigger] fb[p]) == ob[p] by {}
        if o@.contains_key(k) {
            o.lemma_model_key(k);
        }
        assert forall|bb: int| 0 <= bb < self.buckets@.len() implies Self::bucket_wf(
            #[trigger] self.buckets@[bb]@,
            bb,
            nn,
        ) by {
            assert(Self::bucket_wf(o.buckets@[bb]@, bb, nn));
            if bb != b {
                assert(self.buckets@[bb]@ == o.buckets@[bb]@);
            }
        }
        let target = o@.insert(k, (e.value, e.expiry));
        assert forall|k2: Seq<char>| #[trigger] self@.contains_key(k2) implies target.contains_key(
            k2,
        ) && self@[k2] == target[k2] by {
            self.lemma_model_key(k2);
            let p = self.idx_of(k2);
            if bucket_index(k2, nn) == b && p == fb.len() - 1 {
                assert(k2 == k);
            } else {
                assert(k2 != k);
                o.lemma_idx_is(k2, p);
            }
        }
        assert forall|k2: Seq<char>| #[trigger] target.contains_key(k2) implies self@.contains_key(
            k2,
        ) by {
            if k2 == k {
                self.lemma_idx_is(k, fb.len() - 1);
            } else {
                o.lemma_model_key(k2);
                let p = o.idx_of(k2);
                self.lemma_idx_is(k2, p);
            }
        }
        assert(self@ =~= target);
        Self::lemma_total_update(o.buckets@, b, self.buckets@[b]);
        assert(self.buckets@ == o.buckets@.update(b, self.buckets@[b]));
    }
}

impl<T: Clone> Store<T> {
    /// Inserts every key/value pair at clock reading `now`, first to last,
    /// exactly as `insert_at` would one at a time — values are copied out
    /// of `values`. When the two slices differ in length nothing at all is
    /// inserted and the mismatch is reported instead.
    pub fn insert_many_at(
        &mut self,
        keys: &[&str],
        values: &[T],
        ttl: Option<u64>,
        now: u64,
    ) -> (r: Result<(), crate::MapError>)
        requires
            old(self).wf(),
        ensures
            final(self).wf(),
            final(self).num_buckets() == old(self).num_buckets(),
            r is Ok <==> keys@.len() == values@.len(),
            keys@.len() != values@.len() ==> *final(self) == *old(self),
            keys@.len() == values@.len() ==> exists|w: Seq<T>|
                w.len() == values@.len() && (forall|q: int|
                    0 <= q < w.len() ==> cloned::<T>(values@[q], #[trigger] w[q])) && final(self)@
                    == insert_many_map(
                    old(self)@,
                    key_views(keys@),
                    w,
                    ttl,
                    now,
                ),
    {
        if keys.len() != values.len() {
            return Result::Err(crate::MapError::LengthMismatch);
        }
        let ghost kviews = key_views(keys@);
        let ghost mut w: Seq<T> = Seq::empty();
        let mut i: usize = 0;
        proof {
            assert(kviews.take(0) =~= Seq::<Seq<char>>::empty());
            assert(w.take(0) =~= Seq::<T>::empty());
        }
        while i < keys.len()
            invariant
                i <= keys@.len(),
                keys@.len() == values@.len(),
                kviews == key_views(keys@),
                w.len() == i,
                forall|q: int| 0 <= q < w.len() ==> cloned::<T>(values@[q], #[trigger] w[q]),
                self.wf(),
                self.num_buckets() == old(self).num_buckets(),
                self@ == insert_many_map(old(self)@, kviews.take(i as int), w, ttl, now),
            decreases keys@.len() - i,
        {
            let v = values[i].clone();
            proof {
                assert(cloned::<T>(values@[i as int], v));
            }
            let ghost w0 = w;
            self.insert_at(keys[i], v, ttl, now);
            proof {
                w = w.push(v);
                let t = i as int;
                assert(kviews.take(t + 1).drop_last() =~= kviews.take(t));
                assert(w.drop_last() =~= w0);
                assert(kviews.take(t + 1).last() == kviews[t]);
                assert(kviews[t] == keys@[t]@);
                assert(w.last() == v);
                assert(insert_many_map(old(self)@, kviews.take(t + 1), w, ttl, now) == insert_one(
                    insert_many_map(old(self)@, kviews.take(t), w0, ttl, now),
                    kviews[t],
                    v,
                    ttl,
                    now,
                ));
            }
            i = i + 1;
        }
        proof {
            assert(kviews.take(i as int) =~= kviews);
        }
        Result::Ok(())
    }

    /// Looks `key` up at clock reading `now`. Present, not-expired entries
    /// yield a copy of the value and the time-to-live still left; absent
    /// and soft-expired entries yield nothing, and the store is unchanged
    /// either way.
    pub fn get_at(&self, key: &str, now: u64) -> (r: Option<(T, Option<u64>)>)
        requires
            self.wf(),
        ensures
            r is Some <==> self@.contains_key(key@) && !expired_at(self@[key@].1, now),
            r matches Some(p) ==> cloned::<T>(self@[key@].0, p.0) && p.1 == remaining_view(
                self@[key@].1,
                now,
            ),
    {
        let idx = slot_for(key, self.buckets.len());
        match Self::find_in_bucket(&self.buckets[idx], key) {
            Option::None => {
                proof {
                    if self@.contains_key(key@) {
                        self.lemma_model_key(key@);
                    }
                }
                Option::None
            },
            Option::Some(i) => {
                proof {
                    self.lemma_idx_is(key@, i as int);
                }
                let e = &self.buckets[idx][i];
                if is_expired(&e.expiry, now) {
                    Option::None
                } else {
                    let rem = match &e.expiry {
                        Option::None => Option::None,
                        Option::Some(ex) => Option::Some(remaining_nanos(ex, now)),
                    };
                    Option::Some((e.value.clone(), rem))
                }
            },
        }
    }
}

/// Relies on `str`'s `PartialEq`: two string slices are equal exactly when
/// their character sequences are.
#[verifier::external_body]
fn str_eq(a: &str, b: &str) -> (r: bool)
    ensures
        r == (a@ == b@),
{
    a == b
}

} // verus!
