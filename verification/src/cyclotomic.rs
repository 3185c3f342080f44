//! Cyclotomic integers as dense coefficient vectors, and their Galois
//! conjugates.

use std::collections::HashMap;
use vstd::prelude::*;

use crate::integers::is_unit;
use crate::integers::lemma_unit_seq_first;
use crate::integers::phi;
use crate::integers::unit_group_usize;
use crate::integers::unit_seq;

verus! {

broadcast use vstd::std_specs::hash::group_hash_axioms;

/// The first m assignments of the automorphism sigma_k on coefficient vector
/// c: starting from the all-zero vector of c's length, position (i * k) mod n
/// receives c[i], for each i in [0, m) in turn.
pub open spec fn sigma_prefix(c: Seq<i32>, k: nat, m: nat) -> Seq<i32>
    decreases m,
{
    if m == 0 {
        Seq::new(c.len(), |j: int| 0i32)
    } else {
        sigma_prefix(c, k, (m - 1) as nat).update(((m - 1) * k) % (c.len() as int), c[m - 1])
    }
}

/// The coefficient vector of the Galois automorphism sigma_k applied to c:
/// the root of unity is sent to its k-th power, so the coefficient at i
/// moves to (i * k) mod n.
pub open spec fn sigma(c: Seq<i32>, k: nat) -> Seq<i32> {
    sigma_prefix(c, k, c.len())
}

/// The candidate conjugate vectors of c: sigma_k(c) for every unit k modulo
/// c's length, in ascending order of k.
pub open spec fn candidates(c: Seq<i32>) -> Seq<Seq<i32>> {
    unit_seq(c.len()).map_values(|k: nat| sigma(c, k))
}

/// First-occurrence deduplication: keeps the first appearance of each
/// distinct element and preserves the order of first appearances.
pub open spec fn dedup_first(s: Seq<Seq<i32>>) -> Seq<Seq<i32>>
    decreases s.len(),
{
    if s.len() == 0 {
        Seq::empty()
    } else {
        let d = dedup_first(s.drop_last());
        if d.contains(s.last()) {
            d
        } else {
            d.push(s.last())
        }
    }
}

/// The conjugates of coefficient vector c: the distinct images of c under
/// the Galois group, in first-seen order (ascending order of the unit that
/// first produced each).
pub open spec fn conjugates_of(c: Seq<i32>) -> Seq<Seq<i32>> {
    dedup_first(candidates(c))
}

/// The coefficient vectors of a sequence of cyclotomic integers.
pub open spec fn coeff_views(s: Seq<CyclotomicInteger>) -> Seq<Seq<i32>> {
    s.map_values(|ci: CyclotomicInteger| ci@)
}

proof fn lemma_sigma_prefix_len(c: Seq<i32>, k: nat, m: nat)
    requires
        c.len() >= 1,
    ensures
        sigma_prefix(c, k, m).len() == c.len(),
    decreases m,
{
    if m > 0 {
        lemma_sigma_prefix_len(c, k, (m - 1) as nat);
    }
}

proof fn lemma_sigma_prefix_id(c: Seq<i32>, k: nat, m: nat)
    requires
        c.len() >= 1,
        m <= c.len(),
        k == 1 || (c.len() == 1 && k == 0),
    ensures
        sigma_prefix(c, k, m) == Seq::new(
            c.len(),
            |j: int|
                if j < m {
                    c[j]
                } else {
                    0i32
                },
        ),
    decreases m,
{
    if m == 0 {
        assert(sigma_prefix(c, k, 0) =~= Seq::new(
            c.len(),
            |j: int|
                if j < 0 {
                    c[j]
                } else {
                    0i32
                },
        ));
    } else {
        lemma_sigma_prefix_id(c, k, (m - 1) as nat);
        lemma_sigma_prefix_len(c, k, (m - 1) as nat);
        assert(((m - 1) * k) % (c.len() as int) == m - 1) by {
            if k == 1 {
                vstd::arithmetic::div_mod::lemma_small_mod((m - 1) as nat, c.len());
            }
        }
        assert(sigma_prefix(c, k, m) =~= Seq::new(
            c.len(),
            |j: int|
                if j < m {
                    c[j]
                } else {
                    0i32
                },
        ));
    }
}

proof fn lemma_sigma_prefix_perm(c: Seq<i32>, k: nat, m: nat, i: nat)
    requires
        c.len() >= 1,
        is_unit(k, c.len()),
        i < m,
        m <= c.len(),
    ensures
        sigma_prefix(c, k, m)[((i * k) as int) % (c.len() as int)] == c[i as int],
    decreases m,
{
    let n = c.len() as int;
    lemma_sigma_prefix_len(c, k, (m - 1) as nat);
    vstd::arithmetic::div_mod::lemma_mod_bound((m - 1) * k, n);
    vstd::arithmetic::div_mod::lemma_mod_bound((i * k) as int, n);
    if i == m - 1 {
    } else {
        lemma_sigma_prefix_perm(c, k, (m - 1) as nat, i);
        if ((i * k) as int) % n == ((m - 1) * k) % n {
            crate::integers::lemma_unit_mod_cancel(c.len(), k, i, (m - 1) as nat);
        }
        assert(((i * k) as int) % n != ((m - 1) * k) % n);
    }
}

/// For a unit k, sigma_k acts as a coordinate permutation: the coefficient
/// that stood at i stands at (i * k) mod n afterwards. Since multiplication
/// by a unit cancels, no later assignment overwrites that position.
pub proof fn lemma_sigma_permutes(c: Seq<i32>, k: nat, i: int)
    requires
        c.len() >= 1,
        is_unit(k, c.len()),
        0 <= i < c.len(),
    ensures
        sigma(c, k).len() == c.len(),
        0 <= (i * k) % (c.len() as int) < c.len(),
        sigma(c, k)[(i * k) % (c.len() as int)] == c[i],
{
    lemma_sigma_prefix_len(c, k, c.len());
    vstd::arithmetic::div_mod::lemma_mod_bound(i * k, c.len() as int);
    lemma_sigma_prefix_perm(c, k, c.len(), i as nat);
}

/// The identity automorphism: applying the unit group's least element (1 for
/// a level of 2 or more, 0 for level 1) reproduces the coefficient vector
/// exactly.
pub proof fn lemma_sigma_identity(c: Seq<i32>)
    requires
        c.len() >= 1,
    ensures
        c.len() >= 2 ==> sigma(c, 1) == c,
        c.len() == 1 ==> sigma(c, 0) == c,
        sigma(c, unit_seq(c.len())[0]) == c,
{
    lemma_unit_seq_first(c.len());
    if c.len() >= 2 {
        lemma_sigma_prefix_id(c, 1, c.len());
        assert(Seq::new(
            c.len(),
            |j: int|
                if j < c.len() {
                    c[j]
                } else {
                    0i32
                },
        ) =~= c);
    } else {
        lemma_sigma_prefix_id(c, 0, c.len());
        assert(Seq::new(
            c.len(),
            |j: int|
                if j < c.len() {
                    c[j]
                } else {
                    0i32
                },
        ) =~= c);
    }
}

proof fn lemma_dedup_first_push(s: Seq<Seq<i32>>, x: Seq<i32>)
    ensures
        dedup_first(s.push(x)) == if dedup_first(s).contains(x) {
            dedup_first(s)
        } else {
            dedup_first(s).push(x)
        },
{
    assert(s.push(x).drop_last() =~= s);
    assert(s.push(x).last() == x);
}

proof fn lemma_dedup_first_len(s: Seq<Seq<i32>>)
    ensures
        dedup_first(s).len() <= s.len(),
    decreases s.len(),
{
    if s.len() > 0 {
        lemma_dedup_first_len(s.drop_last());
    }
}

proof fn lemma_dedup_first_head(s: Seq<Seq<i32>>)
    requires
        s.len() >= 1,
    ensures
        dedup_first(s).len() >= 1,
        dedup_first(s)[0] == s[0],
    decreases s.len(),
{
    if s.len() == 1 {
        assert(s.drop_last() =~= Seq::<Seq<i32>>::empty());
        assert(dedup_first(s) =~= Seq::empty().push(s[0]));
    } else {
        lemma_dedup_first_head(s.drop_last());
        assert(s.drop_last()[0] == s[0]);
    }
}

proof fn lemma_dedup_first_distinct(s: Seq<Seq<i32>>)
    ensures
        forall|i: int, j: int|
            0 <= i < j < dedup_first(s).len() ==> dedup_first(s)[i] != dedup_first(s)[j],
    decreases s.len(),
{
    if s.len() > 0 {
        lemma_dedup_first_distinct(s.drop_last());
        let d = dedup_first(s.drop_last());
        if !d.contains(s.last()) {
            assert(forall|i: int| 0 <= i < d.len() ==> d[i] != s.last());
            assert(forall|i: int|
                0 <= i < d.len() ==> #[trigger] dedup_first(s)[i] == d[i]);
        }
    }
}

/// Conjugates are pairwise distinct: deduplication leaves no two equal
/// coefficient vectors in the returned sequence.
pub proof fn lemma_conjugates_distinct(c: Seq<i32>)
    ensures
        forall|i: int, j: int|
            0 <= i < j < conjugates_of(c).len() ==> conjugates_of(c)[i] != conjugates_of(c)[j],
{
    lemma_dedup_first_distinct(candidates(c));
}

/// The dense coefficient at index i that a sparse index-to-value mapping
/// describes: the mapped value where i is a key, and 0 elsewhere.
pub open spec fn sparse_entry(entries: Map<usize, i32>, i: int) -> i32 {
    if entries.dom().contains(i as usize) {
        entries[i as usize]
    } else {
        0i32
    }
}

/// The keys of a sparse mapping that lie below i.
spec fn keys_below(dom: Set<usize>, i: int) -> Set<usize> {
    dom.filter(|k: usize| k < i)
}

proof fn lemma_uncounted_key(dom: Set<usize>, level: int, found: nat)
    requires
        dom.finite(),
        found == keys_below(dom, level).len(),
        found != dom.len(),
    ensures
        exists|k: usize| dom.contains(k) && k >= level,
{
    if !(exists|k: usize| dom.contains(k) && k >= level) {
        assert forall|k: usize| dom.contains(k) implies keys_below(dom, level).contains(k) by {
            assert(!(dom.contains(k) && k >= level));
        }
        assert(dom =~= keys_below(dom, level));
        assert(false);
    }
}

proof fn lemma_key_bound(dom: Set<usize>, level: int, k: usize)
    requires
        dom.finite(),
        dom.contains(k),
        k >= level,
    ensures
        keys_below(dom, level).len() < dom.len(),
{
    dom.lemma_len_filter(|j: usize| j < level);
    assert(!keys_below(dom, level).contains(k));
    assert(keys_below(dom, level).insert(k).subset_of(dom));
    vstd::set_lib::lemma_len_subset(keys_below(dom, level).insert(k), dom);
}

fn vec_eq(a: &Vec<i32>, b: &Vec<i32>) -> (r: bool)
    ensures
        r == (a@ == b@),
{
    if a.len() != b.len() {
        return false;
    }
    let mut i: usize = 0;
    while i < a.len()
        invariant
            a@.len() == b@.len(),
            i <= a@.len(),
            forall|j: int| 0 <= j < i ==> a@[j] == b@[j],
        decreases a@.len() - i,
    {
        if a[i] != b[i] {
            return false;
        }
        i = i + 1;
    }
    proof {
        assert(a@ =~= b@);
    }
    true
}

/// Builds sigma_k(c) by the assignment pass of the conjugate algorithm:
/// position (i * k) mod n of a zeroed vector receives c[i].
fn sigma_vec(c: &Vec<i32>, k: usize) -> (r: Vec<i32>)
    requires
        c@.len() >= 1,
        k < c@.len(),
    ensures
        r@ == sigma(c@, k as nat),
        r@.len() == c@.len(),
{
    let n = c.len();
    let mut v: Vec<i32> = Vec::new();
    while v.len() < n
        invariant
            v@.len() <= n,
            forall|j: int| 0 <= j < v@.len() ==> v@[j] == 0i32,
        decreases n - v@.len(),
    {
        v.push(0);
    }
    proof {
        assert(v@ =~= sigma_prefix(c@, k as nat, 0));
    }
    let mut i: usize = 0;
    while i < n
        invariant
            n == c@.len(),
            k < n,
            v@.len() == n,
            i <= n,
            v@ == sigma_prefix(c@, k as nat, i as nat),
        decreases n - i,
    {
        proof {
            assert((i as int) * (k as int) <= 0xffff_ffff_ffff_ffff * 0xffff_ffff_ffff_ffff)
                by (nonlinear_arith)
                requires
                    0 <= i as int <= 0xffff_ffff_ffff_ffff,
                    0 <= k as int <= 0xffff_ffff_ffff_ffff,
            ;
        }
        let idx = (((i as u128) * (k as u128)) % (n as u128)) as usize;
        v[idx] = c[i];
        i = i + 1;
    }
    proof {
        lemma_sigma_prefix_len(c@, k as nat, c@.len());
    }
    v
}

/// Whether some element of the list already carries the coefficient vector v.
fn contains_coeffs(list: &Vec<CyclotomicInteger>, v: &Vec<i32>) -> (r: bool)
    ensures
        r == coeff_views(list@).contains(v@),
{
    let mut j: usize = 0;
    while j < list.len()
        invariant
            j <= list@.len(),
            forall|t: int| 0 <= t < j ==> coeff_views(list@)[t] != v@,
        decreases list@.len() - j,
    {
        if vec_eq(&list[j].vec, v) {
            assert(coeff_views(list@)[j as int] == v@);
            return true;
        }
        j = j + 1;
    }
    false
}

/// The ways construction or access of a cyclotomic integer can fail.
#[derive(Clone, Copy, Debug, PartialEq, Eq, Structural)]
pub enum CyclotomicError {
    /// A level of 0 was supplied: there are no 0th roots of unity.
    InvalidLevel,
    /// An index at or above the level was named.
    IndexOutOfRange,
}

/// A cyclotomic integer of level n: an integer combination of the n-th roots
/// of unity, held as the dense vector of its n coefficients. Entry i is the
/// coefficient of the i-th power of the root of unity.
#[derive(Debug)]
pub struct CyclotomicInteger {
    vec: Vec<i32>,
}

impl View for CyclotomicInteger {
    type V = Seq<i32>;

    closed spec fn view(&self) -> Seq<i32> {
        self.vec@
    }
}

impl CyclotomicInteger {
    /// Every instance holds at least one coefficient: its level is positive.
    pub open spec fn wf(&self) -> bool {
        self@.len() >= 1
    }

    /// Builds a cyclotomic integer from a dense coefficient vector; the level
    /// is the vector's length. An empty vector names no valid level.
    pub fn from_vec(vec: Vec<i32>) -> (r: Result<Self, CyclotomicError>)
        ensures
            vec@.len() == 0 ==> r is Err && r->Err_0 == CyclotomicError::InvalidLevel,
            vec@.len() >= 1 ==> r is Ok && r->Ok_0@ == vec@ && r->Ok_0.wf(),
    {
        if vec.len() == 0 {
            Err(CyclotomicError::InvalidLevel)
        } else {
            Ok(Self { vec })
        }
    }

    /// Builds a cyclotomic integer of the given level from a sparse
    /// index-to-value mapping, taking ownership of the mapping. Every index
    /// not named by the mapping gets coefficient 0. A level of 0 is invalid,
    /// and every key must lie below the level.
    pub fn from_hashmap(hashmap: HashMap<usize, i32>, level: usize) -> (r: Result<
        Self,
        CyclotomicError,
    >)
        ensures
            level == 0 ==> r is Err && r->Err_0 == CyclotomicError::InvalidLevel,
            level >= 1 && (exists|k: usize| hashmap@.dom().contains(k) && k >= level) ==> r is Err
                && r->Err_0 == CyclotomicError::IndexOutOfRange,
            level >= 1 && (forall|k: usize| hashmap@.dom().contains(k) ==> k < level) ==> r is Ok
                && r->Ok_0.wf() && r->Ok_0@.len() == level && (forall|i: int|
                0 <= i < level ==> r->Ok_0@[i] == sparse_entry(hashmap@, i)),
    {
        if level == 0 {
            return Err(CyclotomicError::InvalidLevel);
        }
        let mut vec: Vec<i32> = Vec::new();
        let mut found: usize = 0;
        let mut i: usize = 0;
        proof {
            assert(keys_below(hashmap@.dom(), 0) =~= Set::<usize>::empty());
        }
        while i < level
            invariant
                i <= level,
                vec@.len() == i,
                found == keys_below(hashmap@.dom(), i as int).len(),
                keys_below(hashmap@.dom(), i as int).finite(),
                found <= i,
                forall|j: int| 0 <= j < i ==> vec@[j] == sparse_entry(hashmap@, j),
            decreases level - i,
        {
            match hashmap.get(&i) {
                Some(v) => {
                    vec.push(*v);
                    found = found + 1;
                },
                None => {
                    vec.push(0);
                },
            }
            proof {
                if hashmap@.dom().contains(i) {
                    assert(keys_below(hashmap@.dom(), i + 1) =~= keys_below(
                        hashmap@.dom(),
                        i as int,
                    ).insert(i));
                } else {
                    assert(keys_below(hashmap@.dom(), i + 1) =~= keys_below(
                        hashmap@.dom(),
                        i as int,
                    ));
                }
            }
            i = i + 1;
        }
        if found != hashmap.len() {
            proof {
                assert(exists|k: usize| hashmap@.dom().contains(k) && k >= level) by {
                    lemma_uncounted_key(hashmap@.dom(), level as int, found as nat);
                }
            }
            return Err(CyclotomicError::IndexOutOfRange);
        }
        proof {
            assert forall|k: usize| hashmap@.dom().contains(k) implies k < level by {
                if k >= level {
                    lemma_key_bound(hashmap@.dom(), level as int, k);
                }
            }
        }
        Ok(Self { vec })
    }

    /// The level: the order of the root of unity, equal to the coefficient
    /// vector's length.
    pub fn level(&self) -> (r: usize)
        ensures
            r == self@.len(),
    {
        self.vec.len()
    }

    /// The coefficient of the i-th power of the root of unity.
    pub fn coefficient_at(&self, i: usize) -> (r: i32)
        requires
            i < self@.len(),
        ensures
            r == self@[i as int],
    {
        self.vec[i]
    }

    /// The support: a freshly built mapping from each index whose coefficient
    /// is nonzero to that coefficient. The instance itself is unchanged.
    pub fn support(&self) -> (m: HashMap<usize, i32>)
        ensures
            forall|k: usize| #[trigger]
                m@.dom().contains(k) <==> (k < self@.len() && self@[k as int] != 0),
            forall|k: usize| m@.dom().contains(k) ==> #[trigger] m@[k] == self@[k as int],
    {
        let mut m: HashMap<usize, i32> = HashMap::new();
        let mut i: usize = 0;
        while i < self.vec.len()
            invariant
                i <= self@.len(),
                forall|k: usize| #[trigger]
                    m@.dom().contains(k) <==> (k < i && self@[k as int] != 0),
                forall|k: usize| m@.dom().contains(k) ==> #[trigger] m@[k] == self@[k as int],
            decreases self@.len() - i,
        {
            let c = self.vec[i];
            if c != 0 {
                m.insert(i, c);
            }
            i = i + 1;
        }
        m
    }

    /// The full set of Galois conjugates: for each unit k modulo the level,
    /// in ascending order, the image of self under sigma_k, with later
    /// duplicates dropped in favour of the first occurrence. The first
    /// element always carries self's own coefficient vector, and the
    /// result's length lies between 1 and euler_phi(level).
    pub fn conjugates(&self) -> (r: Vec<CyclotomicInteger>)
        requires
            self.wf(),
        ensures
            coeff_views(r@) == conjugates_of(self@),
            r@.len() >= 1,
            r@[0]@ == self@,
            r@.len() <= phi(self@.len()),
            forall|j: int|
                0 <= j < r@.len() ==> (#[trigger] r@[j]).wf() && r@[j]@.len() == self@.len(),
    {
        let n = self.vec.len();
        let ghost c = self@;
        let galois = unit_group_usize(n);
        let mut out: Vec<CyclotomicInteger> = Vec::new();
        let mut t: usize = 0;
        proof {
            assert(unit_seq(n as nat).take(0).map_values(|u: nat| sigma(c, u))
                =~= Seq::<Seq<i32>>::empty());
            assert(coeff_views(out@) =~= Seq::<Seq<i32>>::empty());
        }
        while t < galois.len()
            invariant
                n == c.len(),
                n >= 1,
                self@ == c,
                galois@.map_values(|x: usize| x as nat) == unit_seq(n as nat),
                forall|j: int| 0 <= j < galois@.len() ==> galois@[j] < n,
                t <= galois@.len(),
                coeff_views(out@) == dedup_first(
                    unit_seq(n as nat).take(t as int).map_values(|u: nat| sigma(c, u)),
                ),
                forall|j: int| 0 <= j < out@.len() ==> (#[trigger] out@[j])@.len() == n,
            decreases galois@.len() - t,
        {
            let k = galois[t];
            proof {
                assert(unit_seq(n as nat)[t as int] == galois@.map_values(|x: usize| x as nat)[
                    t as int
                ]);
            }
            let cv = sigma_vec(&self.vec, k);
            let ghost prev = unit_seq(n as nat).take(t as int).map_values(|u: nat| sigma(c, u));
            let ghost prev_views = coeff_views(out@);
            let dup = contains_coeffs(&out, &cv);
            if !dup {
                out.push(CyclotomicInteger { vec: cv });
                proof {
                    assert(coeff_views(out@) =~= prev_views.push(sigma(c, k as nat)));
                }
            }
            proof {
                lemma_dedup_first_push(prev, sigma(c, k as nat));
                assert(unit_seq(n as nat).take(t + 1) =~= unit_seq(n as nat).take(t as int).push(
                    unit_seq(n as nat)[t as int],
                ));
                assert(unit_seq(n as nat).take(t + 1).map_values(|u: nat| sigma(c, u)) =~= prev.push(
                    sigma(c, k as nat),
                ));
            }
            t = t + 1;
        }
        proof {
            assert(unit_seq(n as nat).take(galois@.len() as int) =~= unit_seq(n as nat));
            assert(coeff_views(out@) == dedup_first(candidates(c)));
            lemma_unit_seq_first(n as nat);
            lemma_sigma_identity(c);
            lemma_dedup_first_head(candidates(c));
            lemma_dedup_first_len(candidates(c));
            assert(candidates(c)[0] == sigma(c, unit_seq(c.len())[0]));
            assert(out@[0]@ == coeff_views(out@)[0]);
        }
        out
    }
}

} // verus!
