//! The indexed universe (`DynamicEnum`) and the counting utilities that the
//! statistics are stated with.

use vstd::prelude::*;
use vstd::multiset::Multiset;
use crate::rng::shuffle_ids;
use rand::rngs::SmallRng;

verus! {

/// Number of entries of `s` that satisfy `p`.
pub open spec fn cnt_p<A>(s: Seq<A>, p: spec_fn(A) -> bool) -> int
    decreases s.len(),
{
    if s.len() == 0 {
        0
    } else {
        cnt_p(s.drop_last(), p) + (if p(s.last()) {
            1int
        } else {
            0int
        })
    }
}

pub proof fn lemma_cnt_p_bounds<A>(s: Seq<A>, p: spec_fn(A) -> bool)
    ensures
        0 <= cnt_p(s, p) <= s.len(),
    decreases s.len(),
{
    if s.len() > 0 {
        lemma_cnt_p_bounds(s.drop_last(), p);
    }
}

/// Removing one entry removes exactly its own contribution to the count.
pub proof fn lemma_cnt_p_remove<A>(s: Seq<A>, j: int, p: spec_fn(A) -> bool)
    requires
        0 <= j < s.len(),
    ensures
        cnt_p(s.remove(j), p) == cnt_p(s, p) - (if p(s[j]) {
            1int
        } else {
            0int
        }),
    decreases s.len(),
{
    if j == s.len() - 1 {
        assert(s.remove(j) =~= s.drop_last());
    } else {
        assert(s.remove(j).drop_last() =~= s.drop_last().remove(j));
        assert(s.remove(j).last() == s.last());
        lemma_cnt_p_remove(s.drop_last(), j, p);
    }
}

/// The count depends only on the multiset of entries, not on their order.
pub proof fn lemma_cnt_p_multiset<A>(s: Seq<A>, t: Seq<A>, p: spec_fn(A) -> bool)
    requires
        s.to_multiset() == t.to_multiset(),
    ensures
        cnt_p(s, p) == cnt_p(t, p),
    decreases s.len(),
{
    broadcast use vstd::seq_lib::group_to_multiset_ensures;

    s.to_multiset_ensures();
    t.to_multiset_ensures();
    if s.len() == 0 {
        assert(t.to_multiset().len() == 0);
        assert(t.len() == 0);
    } else {
        let x = s.last();
        assert(s.to_multiset().count(x) > 0);
        assert(t.to_multiset().count(x) > 0);
        assert(t.contains(x));
        let j = choose|j: int| 0 <= j < t.len() && t[j] == x;
        assert(s.drop_last() =~= s.remove(s.len() - 1));
        assert(s.remove(s.len() - 1).to_multiset() == s.to_multiset().remove(x));
        assert(t.remove(j).to_multiset() == t.to_multiset().remove(x));
        lemma_cnt_p_multiset(s.drop_last(), t.remove(j), p);
        lemma_cnt_p_remove(t, j, p);
    }
}

/// When the entries satisfying `p` are exactly the first `r`, the count is `r`.
pub proof fn lemma_cnt_p_prefix<A>(s: Seq<A>, r: int, p: spec_fn(A) -> bool)
    requires
        0 <= r <= s.len(),
        forall|i: int| 0 <= i < r ==> p(#[trigger] s[i]),
        forall|i: int| r <= i < s.len() ==> !p(#[trigger] s[i]),
    ensures
        cnt_p(s, p) == r,
    decreases s.len(),
{
    if s.len() > 0 {
        if r == s.len() {
            lemma_cnt_p_prefix(s.drop_last(), r - 1, p);
        } else {
            lemma_cnt_p_prefix(s.drop_last(), r, p);
        }
    }
}

/// A count equal to the length means every entry satisfies the predicate.
pub proof fn lemma_cnt_p_all<A>(s: Seq<A>, p: spec_fn(A) -> bool)
    requires
        cnt_p(s, p) == s.len(),
    ensures
        forall|i: int| 0 <= i < s.len() ==> p(#[trigger] s[i]),
    decreases s.len(),
{
    if s.len() > 0 {
        lemma_cnt_p_bounds(s.drop_last(), p);
        lemma_cnt_p_all(s.drop_last(), p);
        assert forall|i: int| 0 <= i < s.len() implies p(#[trigger] s[i]) by {
            if i < s.len() - 1 {
                assert(s.drop_last()[i] == s[i]);
            } else {
                assert(s.last() == s[i]);
            }
        }
    }
}

/// Number of `true` entries of a membership indicator.
pub open spec fn cnt_true(s: Seq<bool>) -> int {
    cnt_p(s, |b: bool| b)
}

/// Counts the `true` entries of an indicator vector.
pub fn count_true(v: &Vec<bool>) -> (r: usize)
    ensures
        r == cnt_true(v@),
{
    let mut r: usize = 0;
    let mut i: usize = 0;
    while i < v.len()
        invariant
            0 <= i <= v@.len(),
            r == cnt_p(v@.subrange(0, i as int), |b: bool| b),
            r <= i,
        decreases v@.len() - i,
    {
        proof {
            assert(v@.subrange(0, i + 1).drop_last() =~= v@.subrange(0, i as int));
            assert(v@.subrange(0, i + 1).last() == v@[i as int]);
        }
        if v[i] {
            r = r + 1;
        }
        i = i + 1;
    }
    proof {
        assert(v@.subrange(0, v@.len() as int) =~= v@);
    }
    r
}

/// An indicator `t` over a duplicate-free sequence `arr`, marking the entries
/// that occur in `elts`, has exactly one `true` per element of `elts` that is
/// present in `arr`: its count is the size of the intersection of the two
/// element sets.
pub proof fn lemma_indicator_count<A>(arr: Seq<A>, elts: Seq<A>, t: Seq<bool>)
    requires
        t.len() == arr.len(),
        forall|i: int| 0 <= i < arr.len() ==> t[i] == elts.contains(#[trigger] arr[i]),
        arr.no_duplicates(),
    ensures
        cnt_true(t) == elts.to_set().intersect(arr.to_set()).len(),
    decreases arr.len(),
{
    broadcast use vstd::seq_lib::group_seq_properties;

    if arr.len() == 0 {
        assert(arr.to_set() =~= Set::<A>::empty());
        assert(elts.to_set().intersect(arr.to_set()) =~= Set::<A>::empty());
    } else {
        let x = arr.last();
        let arr2 = arr.drop_last();
        let t2 = t.drop_last();
        assert(forall|i: int|
            0 <= i < arr2.len() ==> t2[i] == elts.contains(#[trigger] arr2[i]));
        lemma_indicator_count(arr2, elts, t2);
        assert(!arr2.contains(x));
        assert(arr.to_set() =~= arr2.to_set().insert(x));
        let e2 = elts.to_set().intersect(arr2.to_set());
        broadcast use vstd::set_lib::group_set_properties;
        if elts.contains(x) {
            assert(elts.to_set().intersect(arr.to_set()) =~= e2.insert(x));
            assert(!e2.contains(x));
            assert(e2.insert(x).len() == e2.len() + 1);
            assert(t.last());
        } else {
            assert(elts.to_set().intersect(arr.to_set()) =~= e2);
            assert(!t.last());
        }
    }
}

/// A bidirectional mapping between a fixed universe of distinct items and the
/// dense positions `0 .. len`.  Position `i` holds item `self@[i]`; because the
/// items are distinct, each item also determines its position.
#[derive(Debug)]
pub struct DynamicEnum<T> {
    idx_to_elt: Vec<T>,
}

impl<T> View for DynamicEnum<T> {
    type V = Seq<T>;

    closed spec fn view(&self) -> Seq<T> {
        self.idx_to_elt@
    }
}

/// Pairwise-distinct identifier views: no two entries read the same.
pub open spec fn distinct_ids(ids: Seq<Seq<char>>) -> bool {
    forall|i: int, j: int| 0 <= i < j < ids.len() ==> ids[i] != ids[j]
}

/// `true` iff `id` occurs among `ids`.
pub open spec fn contains_id(ids: Seq<Seq<char>>, id: Seq<char>) -> bool {
    exists|k: int| 0 <= k < ids.len() && ids[k] == id
}

impl DynamicEnum<String> {
    /// The identifier at each position, as a sequence of character views.
    pub open spec fn ids(self) -> Seq<Seq<char>> {
        self@.map_values(|s: String| s@)
    }

    /// The universe is well formed when its identifiers are distinct.
    pub open spec fn wf(self) -> bool {
        distinct_ids(self.ids())
    }

    /// Builds the universe from the ranking's identifiers.  Duplicate
    /// identifiers are rejected rather than silently collapsed.
    pub fn from(vec: &Vec<String>) -> (r: Option<Self>)
        ensures
            r is Some <==> distinct_ids(vec.deep_view()),
            r is Some ==> r->Some_0.ids() =~= vec.deep_view() && r->Some_0.wf(),
    {
        let n = vec.len();
        let mut i: usize = 0;
        while i < n
            invariant
                0 <= i <= n,
                n == vec@.len(),
                forall|a: int, b: int|
                    0 <= a < b < vec@.len() && b < i ==> vec.deep_view()[a] != vec.deep_view()[b],
            decreases n - i,
        {
            let mut j: usize = 0;
            while j < i
                invariant
                    0 <= j <= i < n,
                    n == vec@.len(),
                    forall|a: int| 0 <= a < j ==> vec.deep_view()[a] != vec.deep_view()[i as int],
                decreases i - j,
            {
                if vec[j] == vec[i] {
                    assert(vec.deep_view()[j as int] == vec.deep_view()[i as int]);
                    assert(!distinct_ids(vec.deep_view()));
                    return None;
                }
                j = j + 1;
            }
            i = i + 1;
        }
        let mut owned: Vec<String> = Vec::new();
        let mut k: usize = 0;
        while k < n
            invariant
                0 <= k <= n,
                n == vec@.len(),
                owned@.len() == k,
                forall|a: int| 0 <= a < k ==> owned@[a] == vec@[a],
            decreases n - k,
        {
            owned.push(vec[k].clone());
            k = k + 1;
        }
        let de = DynamicEnum { idx_to_elt: owned };
        proof {
            assert(de@ =~= vec@);
            assert(de.ids() =~= vec.deep_view());
        }
        Some(de)
    }

    /// Position of `element` in the universe, if present.
    pub fn index_of(&self, element: &String) -> (r: Option<usize>)
        ensures
            match r {
                Some(i) => i < self@.len() && self.ids()[i as int] == element@,
                None => !contains_id(self.ids(), element@),
            },
    {
        let mut i: usize = 0;
        while i < self.idx_to_elt.len()
            invariant
                0 <= i <= self@.len(),
                forall|k: int| 0 <= k < i ==> self.ids()[k] != element@,
            decreases self@.len() - i,
        {
            if self.idx_to_elt[i] == *element {
                return Some(i);
            }
            i = i + 1;
        }
        None
    }

    /// Membership indicator: entry `i` is `true` iff the item at position `i`
    /// belongs to `elements`.  Elements outside the universe have no effect.
    pub fn isin(&self, elements: &Vec<String>) -> (r: Vec<bool>)
        ensures
            r@.len() == self@.len(),
            forall|i: int| 0 <= i < r@.len() ==> r@[i] == contains_id(
                elements.deep_view(),
                self.ids()[i],
            ),
    {
        let n = self.idx_to_elt.len();
        let mut r: Vec<bool> = Vec::new();
        let mut i: usize = 0;
        while i < n
            invariant
                0 <= i <= n,
                n == self@.len(),
                r@.len() == i,
                forall|k: int| 0 <= k < i ==> r@[k] == contains_id(
                    elements.deep_view(),
                    self.ids()[k],
                ),
            decreases n - i,
        {
            let mut found = false;
            let mut j: usize = 0;
            while j < elements.len()
                invariant
                    0 <= j <= elements@.len(),
                    i < self@.len(),
                    found ==> contains_id(elements.deep_view(), self.ids()[i as int]),
                    !found ==> forall|k: int|
                        0 <= k < j ==> elements.deep_view()[k] != self.ids()[i as int],
                decreases elements@.len() - j,
            {
                if elements[j] == self.idx_to_elt[i] {
                    found = true;
                    proof {
                        assert(elements.deep_view()[j as int] == self.ids()[i as int]);
                    }
                }
                j = j + 1;
            }
            r.push(found);
            i = i + 1;
        }
        r
    }

    /// Number of items in the universe.
    pub fn size(&self) -> (r: usize)
        ensures
            r == self@.len(),
    {
        self.idx_to_elt.len()
    }
}

impl DynamicEnum<usize> {
    /// An arrangement is a permutation of the positions `0 .. n`.
    pub open spec fn wf_perm(self, n: int) -> bool {
        &&& self@.len() == n
        &&& self@.no_duplicates()
        &&& forall|i: int| 0 <= i < n ==> self@[i] < n
    }

    /// Wraps an already-built position vector as an arrangement.
    pub fn from_positions(v: Vec<usize>) -> (r: Self)
        ensures
            r@ == v@,
    {
        DynamicEnum { idx_to_elt: v }
    }

    /// The identity arrangement over `0 .. n`.
    pub fn identity(n: usize) -> (r: Self)
        ensures
            r@.len() == n,
            forall|i: int| 0 <= i < n ==> r@[i] == i,
            r.wf_perm(n as int),
    {
        let mut v: Vec<usize> = Vec::new();
        let mut i: usize = 0;
        while i < n
            invariant
                0 <= i <= n,
                v@.len() == i,
                forall|k: int| 0 <= k < i ==> v@[k] == k,
            decreases n - i,
        {
            v.push(i);
            i = i + 1;
        }
        DynamicEnum { idx_to_elt: v }
    }

    /// Applies a random permutation of the positions.  Whatever the generator
    /// returns, the result is again an arrangement of the same positions.
    pub fn shuffle(&mut self, rng: &mut SmallRng)
        ensures
            final(self)@.to_multiset() == old(self)@.to_multiset(),
            final(self)@.len() == old(self)@.len(),
            forall|n: int| old(self).wf_perm(n) ==> final(self).wf_perm(n),
    {
        let ghost pre = self.idx_to_elt@;
        shuffle_ids(&mut self.idx_to_elt, rng);
        proof {
            broadcast use vstd::seq_lib::group_to_multiset_ensures;

            let post = self.idx_to_elt@;
            pre.to_multiset_ensures();
            post.to_multiset_ensures();
            assert forall|n: int| old(self).wf_perm(n) implies self.wf_perm(n) by {
                pre.lemma_multiset_has_no_duplicates();
                post.lemma_multiset_has_no_duplicates_conv();
                assert forall|i: int| 0 <= i < n implies post[i] < n by {
                    assert(post.contains(post[i]));
                    assert(post.to_multiset().count(post[i]) > 0);
                    assert(pre.to_multiset().count(post[i]) > 0);
                    assert(pre.contains(post[i]));
                }
            }
        }
    }

    /// Membership indicator against the current arrangement: entry `i` is
    /// `true` iff the position stored at slot `i` belongs to `elements`.
    pub fn isin(&self, elements: &Vec<usize>) -> (r: Vec<bool>)
        ensures
            r@.len() == self@.len(),
            forall|i: int| 0 <= i < r@.len() ==> r@[i] == elements@.contains(self@[i]),
    {
        let n = self.idx_to_elt.len();
        let mut r: Vec<bool> = Vec::new();
        let mut i: usize = 0;
        while i < n
            invariant
                0 <= i <= n,
                n == self@.len(),
                r@.len() == i,
                forall|k: int| 0 <= k < i ==> r@[k] == elements@.contains(self@[k]),
            decreases n - i,
        {
            let mut found = false;
            let mut j: usize = 0;
            while j < elements.len()
                invariant
                    0 <= j <= elements@.len(),
                    i < self@.len(),
                    found ==> elements@.contains(self@[i as int]),
                    !found ==> forall|k: int| 0 <= k < j ==> elements@[k] != self@[i as int],
                decreases elements@.len() - j,
            {
                if elements[j] == self.idx_to_elt[i] {
                    found = true;
                }
                j = j + 1;
            }
            r.push(found);
            i = i + 1;
        }
        r
    }

    /// The position stored at slot `i` of the arrangement.
    pub fn at(&self, i: usize) -> (r: usize)
        requires
            i < self@.len(),
        ensures
            r == self@[i as int],
    {
        self.idx_to_elt[i]
    }

    /// Number of positions in the arrangement.
    pub fn size(&self) -> (r: usize)
        ensures
            r == self@.len(),
    {
        self.idx_to_elt.len()
    }
}

/// If some entry satisfies the predicate, the count is positive.
pub proof fn lemma_cnt_p_pos<A>(s: Seq<A>, i: int, p: spec_fn(A) -> bool)
    requires
        0 <= i < s.len(),
        p(s[i]),
    ensures
        cnt_p(s, p) >= 1,
    decreases s.len(),
{
    lemma_cnt_p_bounds(s.drop_last(), p);
    if i < s.len() - 1 {
        assert(s.drop_last()[i] == s[i]);
        lemma_cnt_p_pos(s.drop_last(), i, p);
    }
}

/// Two complementary predicates split the sequence.
pub proof fn lemma_cnt_p_complement<A>(s: Seq<A>, p: spec_fn(A) -> bool, q: spec_fn(A) -> bool)
    requires
        forall|i: int| 0 <= i < s.len() ==> (q(#[trigger] s[i]) <==> !p(s[i])),
    ensures
        cnt_p(s, p) + cnt_p(s, q) == s.len(),
    decreases s.len(),
{
    if s.len() > 0 {
        assert(forall|i: int|
            0 <= i < s.drop_last().len() ==> (q(#[trigger] s.drop_last()[i]) <==> !p(
                s.drop_last()[i],
            )));
        lemma_cnt_p_complement(s.drop_last(), p, q);
    }
}

/// A count never shrinks when every counted entry also satisfies the wider
/// predicate.
pub proof fn lemma_cnt_p_subset<A>(s: Seq<A>, p: spec_fn(A) -> bool, q: spec_fn(A) -> bool)
    requires
        forall|i: int| 0 <= i < s.len() && p(#[trigger] s[i]) ==> q(s[i]),
    ensures
        cnt_p(s, p) <= cnt_p(s, q),
    decreases s.len(),
{
    if s.len() > 0 {
        assert(forall|i: int|
            0 <= i < s.drop_last().len() && p(#[trigger] s.drop_last()[i]) ==> q(
                s.drop_last()[i],
            ));
        lemma_cnt_p_subset(s.drop_last(), p, q);
    }
}

/// A duplicate-free sequence of `n` positions below `n` holds every position
/// below `n`.
pub proof fn lemma_full_range(s: Seq<usize>, n: int)
    requires
        s.len() == n,
        s.no_duplicates(),
        forall|i: int| 0 <= i < s.len() ==> (#[trigger] s[i]) < n,
        0 <= n < 0x8000_0000,
    ensures
        forall|x: usize| (x as int) < n ==> s.contains(x),
{
    s.unique_seq_to_set();
    let idseq = Seq::new(n as nat, |i: int| i as usize);
    assert forall|a: int, b: int| 0 <= a < b < idseq.len() implies idseq[a] != idseq[b] by {
        assert(idseq[a] == a as usize);
        assert(idseq[b] == b as usize);
    }
    assert(idseq.no_duplicates());
    idseq.unique_seq_to_set();
    assert forall|x: usize| s.to_set().contains(x) implies idseq.to_set().contains(x) by {
        assert(s.contains(x));
        let i = choose|i: int| 0 <= i < s.len() && s[i] == x;
        assert(idseq[x as int] == x);
        assert(idseq.contains(x));
    }
    vstd::set_lib::lemma_subset_equality(s.to_set(), idseq.to_set());
    assert forall|x: usize| (x as int) < n implies s.contains(x) by {
        assert(idseq[x as int] == x);
        assert(idseq.contains(x));
        assert(idseq.to_set().contains(x));
        assert(s.to_set().contains(x));
    }
}

/// Keys are sorted in nondecreasing order.
pub open spec fn sorted(s: Seq<u64>) -> bool {
    forall|a: int, b: int| 0 <= a < b < s.len() ==> s[a] <= s[b]
}

/// Predicate closures the key-counting statistics are stated with.
pub open spec fn klt_pred(e: u64) -> spec_fn(u64) -> bool {
    |x: u64| x < e
}

pub open spec fn kle_pred(e: u64) -> spec_fn(u64) -> bool {
    |x: u64| x <= e
}

pub open spec fn kge_pred(e: u64) -> spec_fn(u64) -> bool {
    |x: u64| x >= e
}

/// Inserting an entry into a sequence inserts it into the entry multiset.
pub proof fn lemma_seq_insert_multiset<A>(s: Seq<A>, j: int, x: A)
    requires
        0 <= j <= s.len(),
    ensures
        s.insert(j, x).to_multiset() =~= s.to_multiset().insert(x),
{
    broadcast use vstd::seq_lib::group_to_multiset_ensures;
    broadcast use vstd::multiset::group_multiset_axioms;

    let t = s.insert(j, x);
    assert(t[j] == x);
    assert(t.remove(j) =~= s);
    assert(t.remove(j).to_multiset() =~= t.to_multiset().remove(x));
    assert(t.contains(x));
    assert(t.to_multiset().count(x) > 0);
    assert forall|y: A| true implies t.to_multiset().count(y) == s.to_multiset().insert(x).count(
        y,
    ) by {
        if y == x {
            assert(s.to_multiset().count(x) == t.to_multiset().count(x) - 1);
        } else {
            assert(s.to_multiset().count(y) == t.to_multiset().count(y));
        }
    }
}

/// First position whose key exceeds `x` in a sorted vector, by binary search.
pub fn upper_bound(v: &Vec<u64>, x: u64) -> (r: usize)
    requires
        sorted(v@),
    ensures
        r <= v@.len(),
        forall|i: int| 0 <= i < r ==> v@[i] <= x,
        forall|i: int| r <= i < v@.len() ==> v@[i] > x,
{
    let mut lo: usize = 0;
    let mut hi: usize = v.len();
    while lo < hi
        invariant
            0 <= lo <= hi <= v@.len(),
            sorted(v@),
            forall|i: int| 0 <= i < lo ==> v@[i] <= x,
            forall|i: int| hi <= i < v@.len() ==> v@[i] > x,
        decreases hi - lo,
    {
        let mid = lo + (hi - lo) / 2;
        if v[mid] <= x {
            lo = mid + 1;
        } else {
            hi = mid;
        }
    }
    lo
}

/// Number of keys strictly below `e` in a sorted vector, as a partition
/// point found by binary search.
pub fn partition_lt(v: &Vec<u64>, e: u64) -> (r: usize)
    requires
        sorted(v@),
    ensures
        r == cnt_p(v@, klt_pred(e)),
        r <= v@.len(),
{
    let mut lo: usize = 0;
    let mut hi: usize = v.len();
    while lo < hi
        invariant
            0 <= lo <= hi <= v@.len(),
            sorted(v@),
            forall|i: int| 0 <= i < lo ==> v@[i] < e,
            forall|i: int| hi <= i < v@.len() ==> v@[i] >= e,
        decreases hi - lo,
    {
        let mid = lo + (hi - lo) / 2;
        if v[mid] < e {
            lo = mid + 1;
        } else {
            hi = mid;
        }
    }
    proof {
        lemma_cnt_p_prefix(v@, lo as int, klt_pred(e));
    }
    lo
}

/// Number of keys at or below `e` in a sorted vector.
pub fn partition_le(v: &Vec<u64>, e: u64) -> (r: usize)
    requires
        sorted(v@),
    ensures
        r == cnt_p(v@, kle_pred(e)),
        r <= v@.len(),
{
    let r = upper_bound(v, e);
    proof {
        lemma_cnt_p_prefix(v@, r as int, kle_pred(e));
    }
    r
}

/// Sorts the keys ascending; the result holds exactly the input's keys.
pub fn sort_keys(v: &Vec<u64>) -> (r: Vec<u64>)
    ensures
        sorted(r@),
        r@.to_multiset() == v@.to_multiset(),
        r@.len() == v@.len(),
{
    broadcast use vstd::seq_lib::group_to_multiset_ensures;

    let mut out: Vec<u64> = Vec::new();
    let mut i: usize = 0;
    while i < v.len()
        invariant
            0 <= i <= v@.len(),
            sorted(out@),
            out@.len() == i,
            out@.to_multiset() == v@.subrange(0, i as int).to_multiset(),
        decreases v@.len() - i,
    {
        let x = v[i];
        let pos = upper_bound(&out, x);
        let ghost prev = out@;
        out.insert(pos, x);
        proof {
            broadcast use vstd::seq_lib::group_to_multiset_ensures;

            assert(out@ == prev.insert(pos as int, x));
            lemma_seq_insert_multiset(prev, pos as int, x);
            assert(v@.subrange(0, i + 1).drop_last() =~= v@.subrange(0, i as int));
            assert(v@.subrange(0, i + 1) =~= v@.subrange(0, i as int).push(x));
            assert forall|a: int, b: int| 0 <= a < b < out@.len() implies out@[a] <= out@[b] by {
                if b < pos {
                    assert(out@[a] == prev[a] && out@[b] == prev[b]);
                } else if a > pos {
                    assert(out@[a] == prev[a - 1] && out@[b] == prev[b - 1]);
                } else if a == pos {
                    assert(out@[a] == x && out@[b] == prev[b - 1] && prev[b - 1] > x);
                } else if b == pos {
                    assert(out@[a] == prev[a] && out@[b] == x && prev[a] <= x);
                } else {
                    assert(out@[a] == prev[a] && out@[b] == prev[b - 1]);
                    if a < pos && pos < b {
                        assert(prev[a] <= x && x < prev[b - 1]);
                    }
                }
            }
        }
        i = i + 1;
    }
    proof {
        assert(v@.subrange(0, v@.len() as int) =~= v@);
    }
    out
}

/// Stable argsort of the keys: the sorted keys together with the original
/// position of each, a permutation of `0 .. len`.
pub fn argsort(v: &Vec<u64>) -> (r: (Vec<usize>, Vec<u64>))
    ensures
        r.0@.len() == v@.len(),
        r.1@.len() == v@.len(),
        sorted(r.1@),
        r.1@.to_multiset() == v@.to_multiset(),
        forall|k: int| 0 <= k < v@.len() ==> (#[trigger] r.0@[k]) < v@.len() && r.1@[k] == v@[r.0@[k] as int],
        r.0@.no_duplicates(),
{
    broadcast use vstd::seq_lib::group_to_multiset_ensures;

    let mut sidx: Vec<usize> = Vec::new();
    let mut sval: Vec<u64> = Vec::new();
    let mut i: usize = 0;
    while i < v.len()
        invariant
            0 <= i <= v@.len(),
            sidx@.len() == i,
            sval@.len() == i,
            sorted(sval@),
            sval@.to_multiset() == v@.subrange(0, i as int).to_multiset(),
            forall|k: int| 0 <= k < i ==> (#[trigger] sidx@[k]) < i && sval@[k] == v@[sidx@[k] as int],
            sidx@.no_duplicates(),
        decreases v@.len() - i,
    {
        let x = v[i];
        let pos = upper_bound(&sval, x);
        let ghost pv = sval@;
        let ghost pi = sidx@;
        sval.insert(pos, x);
        sidx.insert(pos, i);
        proof {
            broadcast use vstd::seq_lib::group_to_multiset_ensures;

            assert(sval@ == pv.insert(pos as int, x));
            assert(sidx@ == pi.insert(pos as int, i as usize));
            lemma_seq_insert_multiset(pv, pos as int, x);
            assert(v@.subrange(0, i + 1).drop_last() =~= v@.subrange(0, i as int));
            assert(v@.subrange(0, i + 1) =~= v@.subrange(0, i as int).push(x));
            assert forall|a: int, b: int| 0 <= a < b < sval@.len() implies sval@[a] <= sval@[b] by {
                if b < pos {
                    assert(sval@[a] == pv[a] && sval@[b] == pv[b]);
                } else if a > pos {
                    assert(sval@[a] == pv[a - 1] && sval@[b] == pv[b - 1]);
                } else if a == pos {
                    assert(sval@[a] == x && sval@[b] == pv[b - 1] && pv[b - 1] > x);
                } else if b == pos {
                    assert(sval@[a] == pv[a] && sval@[b] == x && pv[a] <= x);
                } else {
                    assert(sval@[a] == pv[a] && sval@[b] == pv[b - 1]);
                    if a < pos && pos < b {
                        assert(pv[a] <= x && x < pv[b - 1]);
                    }
                }
            }
            assert forall|k: int| 0 <= k < i + 1 implies (#[trigger] sidx@[k]) < i + 1
                && sval@[k] == v@[sidx@[k] as int] by {
                if k < pos {
                    assert(sidx@[k] == pi[k] && sval@[k] == pv[k]);
                } else if k == pos {
                    assert(sidx@[k] == i as usize && sval@[k] == x);
                } else {
                    assert(sidx@[k] == pi[k - 1] && sval@[k] == pv[k - 1]);
                }
            }
            assert forall|a: int, b: int|
                0 <= a < b < sidx@.len() implies sidx@[a] != sidx@[b] by {
                if b < pos {
                    assert(sidx@[a] == pi[a] && sidx@[b] == pi[b]);
                } else if a > pos {
                    assert(sidx@[a] == pi[a - 1] && sidx@[b] == pi[b - 1]);
                } else if a == pos {
                    assert(sidx@[a] == i as usize && sidx@[b] == pi[b - 1] && pi[b - 1] < i);
                } else if b == pos {
                    assert(sidx@[a] == pi[a] && sidx@[b] == i as usize && pi[a] < i);
                } else {
                    assert(sidx@[a] == pi[a] && sidx@[b] == pi[b - 1]);
                }
            }
        }
        i = i + 1;
    }
    proof {
        assert(v@.subrange(0, v@.len() as int) =~= v@);
    }
    (sidx, sval)
}

/// Membership law: the indicator a well-formed universe returns for a subset
/// has exactly one mark per distinct subset element present in the universe,
/// so its count is the size of the intersection of the two identifier sets;
/// elements absent from the universe contribute nothing.
pub proof fn lemma_membership_count(u: DynamicEnum<String>, elements: Seq<Seq<char>>, t: Seq<bool>)
    requires
        u.wf(),
        t.len() == u.ids().len(),
        forall|i: int| 0 <= i < t.len() ==> t[i] == contains_id(elements, u.ids()[i]),
    ensures
        cnt_true(t) == elements.to_set().intersect(u.ids().to_set()).len(),
{
    let ids = u.ids();
    assert forall|i: int| 0 <= i < ids.len() implies t[i] == elements.contains(
        #[trigger] ids[i],
    ) by {
        assert(contains_id(elements, ids[i]) == elements.contains(ids[i]));
    }
    assert forall|i: int, j: int|
        0 <= i < ids.len() && 0 <= j < ids.len() && i != j implies ids[i] != ids[j] by {}
    assert(ids.no_duplicates());
    lemma_indicator_count(ids, elements, t);
}

} // verus!
