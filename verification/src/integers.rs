//! Number theory underlying the Galois action: greatest common divisors,
//! Euler's totient, and enumeration of the unit group modulo n.

use vstd::prelude::*;

verus! {

/// Greatest common divisor by Euclid's rule:
/// `gcd_nat(a, 0) == a`, and otherwise `gcd_nat(a, b) == gcd_nat(b, a % b)`.
pub open spec fn gcd_nat(a: nat, b: nat) -> nat
    decreases b,
{
    if b == 0 {
        a
    } else {
        gcd_nat(b, a % b)
    }
}

/// A unit modulo n: a residue in [0, n) coprime to n.
/// By this rule 0 is a unit modulo 1, since `gcd_nat(0, 1) == 1`.
pub open spec fn is_unit(k: nat, n: nat) -> bool {
    k < n && gcd_nat(k, n) == 1
}

/// The units modulo n that lie in [0, m), in strictly increasing order.
pub open spec fn units_below(n: nat, m: nat) -> Seq<nat>
    decreases m,
{
    if m == 0 {
        Seq::empty()
    } else {
        units_below(n, (m - 1) as nat) + if is_unit((m - 1) as nat, n) {
            seq![(m - 1) as nat]
        } else {
            Seq::empty()
        }
    }
}

/// The unit group modulo n, as the increasing sequence of its residues.
pub open spec fn unit_seq(n: nat) -> Seq<nat> {
    units_below(n, n)
}

/// Euler's totient: the order of the unit group modulo n.
pub open spec fn phi(n: nat) -> nat {
    unit_seq(n).len()
}

/// Greatest common divisor of two machine integers.
pub fn gcd(a: u64, b: u64) -> (r: u64)
    ensures
        r == gcd_nat(a as nat, b as nat),
    decreases b,
{
    if b == 0 {
        a
    } else {
        gcd(b, a % b)
    }
}

/// Euler totient function: the number of residues in [0, n) coprime to n.
pub fn euler_phi(n: u32) -> (r: u32)
    requires
        n >= 1,
    ensures
        r == phi(n as nat),
{
    let mut res: u32 = 0;
    let mut i: u32 = 0;
    while i < n
        invariant
            i <= n,
            res == units_below(n as nat, i as nat).len(),
            res <= i,
        decreases n - i,
    {
        if gcd(i as u64, n as u64) == 1 {
            res = res + 1;
        }
        i = i + 1;
    }
    res
}

/// The invertible residues modulo n, as reduced representatives in [0, n),
/// in strictly increasing order. Its length is `euler_phi(n)`.
pub fn invertible_mod(n: u32) -> (r: Vec<u32>)
    requires
        n >= 1,
    ensures
        r@.map_values(|x: u32| x as nat) == unit_seq(n as nat),
        r@.len() == phi(n as nat),
{
    let mut res: Vec<u32> = Vec::new();
    let mut i: u32 = 0;
    while i < n
        invariant
            i <= n,
            res@.map_values(|x: u32| x as nat) == units_below(n as nat, i as nat),
        decreases n - i,
    {
        if gcd(i as u64, n as u64) == 1 {
            res.push(i);
        }
        i = i + 1;
        proof {
            assert(res@.map_values(|x: u32| x as nat) =~= units_below(n as nat, i as nat));
        }
    }
    res
}

/// The unit group modulo n with usize residues, for levels of arbitrary size.
pub(crate) fn unit_group_usize(n: usize) -> (r: Vec<usize>)
    requires
        n >= 1,
    ensures
        r@.map_values(|x: usize| x as nat) == unit_seq(n as nat),
        r@.len() == phi(n as nat),
        forall|j: int| 0 <= j < r@.len() ==> r@[j] < n,
{
    let mut res: Vec<usize> = Vec::new();
    let mut i: usize = 0;
    while i < n
        invariant
            i <= n,
            res@.map_values(|x: usize| x as nat) == units_below(n as nat, i as nat),
            forall|j: int| 0 <= j < res@.len() ==> res@[j] < n,
        decreases n - i,
    {
        if gcd(i as u64, n as u64) == 1 {
            res.push(i);
        }
        i = i + 1;
        proof {
            assert(res@.map_values(|x: usize| x as nat) =~= units_below(n as nat, i as nat));
        }
    }
    res
}

proof fn lemma_gcd_nat_one(n: nat)
    ensures
        gcd_nat(1, n) == 1,
{
    if n == 0 {
    } else if n == 1 {
        assert(1nat % 1nat == 0);
        assert(gcd_nat(1, 1) == gcd_nat(1, 0));
    } else {
        assert(1nat % n == 1) by {
            vstd::arithmetic::div_mod::lemma_small_mod(1, n);
        }
        assert(n % 1nat == 0);
        assert(gcd_nat(1, n) == gcd_nat(n, 1));
        assert(gcd_nat(n, 1) == gcd_nat(1, 0));
    }
}

proof fn lemma_gcd_nat_zero(n: nat)
    requires
        n >= 1,
    ensures
        gcd_nat(0, n) == n,
{
    assert(0nat % n == 0);
    assert(gcd_nat(0, n) == gcd_nat(n, 0));
}

proof fn lemma_units_below_head(n: nat, m: nat)
    requires
        n >= 2,
        m >= 2,
    ensures
        units_below(n, m).len() >= 1,
        units_below(n, m)[0] == 1nat,
    decreases m,
{
    if m == 2 {
        lemma_gcd_nat_zero(n);
        lemma_gcd_nat_one(n);
        assert(units_below(n, 0) =~= Seq::<nat>::empty());
        assert(!is_unit(0, n));
        assert(units_below(n, 1) =~= Seq::<nat>::empty());
        assert(units_below(n, 2) =~= seq![1nat]);
    } else {
        lemma_units_below_head(n, (m - 1) as nat);
    }
}

/// Bezout coefficients for a and b: x * a + y * b == gcd(a, b).
spec fn is_bezout_pair(x: int, y: int, a: nat, b: nat) -> bool {
    x * a + y * b == gcd_nat(a, b)
}

proof fn lemma_bezout(a: nat, b: nat)
    ensures
        exists|x: int, y: int| #[trigger] is_bezout_pair(x, y, a, b),
    decreases b,
{
    if b == 0 {
        assert(1int * a + 0int * b == a);
        assert(is_bezout_pair(1, 0, a, b));
    } else {
        lemma_bezout(b, a % b);
        let (x, y): (int, int) = choose|x: int, y: int| #[trigger] is_bezout_pair(x, y, b, a % b);
        vstd::arithmetic::div_mod::lemma_fundamental_div_mod(a as int, b as int);
        let q = a as int / b as int;
        let r = (a % b) as int;
        let g = gcd_nat(b, a % b) as int;
        assert(y * a + (x - y * q) * b == g) by (nonlinear_arith)
            requires
                x * b + y * r == g,
                a == b * q + r,
        ;
        assert(is_bezout_pair(y, x - y * q, a, b));
    }
}

/// A residue coprime to n cancels: multiplication by k modulo n sends
/// distinct residues of [0, n) to distinct residues.
pub proof fn lemma_unit_mod_cancel(n: nat, k: nat, i1: nat, i2: nat)
    requires
        n >= 1,
        gcd_nat(k, n) == 1,
        i1 < n,
        i2 < n,
        (i1 * k) % n == (i2 * k) % n,
    ensures
        i1 == i2,
{
    lemma_bezout(k, n);
    let (x, y): (int, int) = choose|x: int, y: int| #[trigger] is_bezout_pair(x, y, k, n);
    let ni = n as int;
    vstd::arithmetic::div_mod::lemma_fundamental_div_mod((i1 * k) as int, ni);
    vstd::arithmetic::div_mod::lemma_fundamental_div_mod((i2 * k) as int, ni);
    let q1 = (i1 * k) as int / ni;
    let q2 = (i2 * k) as int / ni;
    let r = ((i1 * k) % n) as int;
    let d = i1 as int - i2 as int;
    let s = x * (q1 - q2) + y * d;
    assert(d == ni * s) by (nonlinear_arith)
        requires
            x * k + y * ni == 1,
            i1 * k == ni * q1 + r,
            i2 * k == ni * q2 + r,
            d == i1 - i2,
            s == x * (q1 - q2) + y * d,
    ;
    assert(s == 0) by (nonlinear_arith)
        requires
            d == ni * s,
            -ni < d < ni,
            ni >= 1,
    ;
}

proof fn lemma_units_below_props(n: nat, m: nat)
    ensures
        forall|i: int|
            0 <= i < units_below(n, m).len() ==> is_unit(#[trigger] units_below(n, m)[i], n)
                && units_below(n, m)[i] < m,
        forall|i: int, j: int|
            0 <= i < j < units_below(n, m).len() ==> units_below(n, m)[i] < units_below(n, m)[j],
        forall|k: nat| is_unit(k, n) && k < m ==> units_below(n, m).contains(k),
    decreases m,
{
    if m > 0 {
        lemma_units_below_props(n, (m - 1) as nat);
        let prev = units_below(n, (m - 1) as nat);
        let s = units_below(n, m);
        if is_unit((m - 1) as nat, n) {
            assert(s[s.len() - 1] == (m - 1) as nat);
        }
        assert forall|k: nat| is_unit(k, n) && k < m implies s.contains(k) by {
            if k < m - 1 {
                let i = choose|i: int| 0 <= i < prev.len() && prev[i] == k;
                assert(s[i] == k);
            } else {
                assert(s[s.len() - 1] == k);
            }
        }
    }
}

/// The unit group sequence lists exactly the residues coprime to n, each
/// once, in strictly increasing order.
pub proof fn lemma_unit_seq_sorted(n: nat)
    ensures
        forall|i: int|
            0 <= i < unit_seq(n).len() ==> is_unit(#[trigger] unit_seq(n)[i], n),
        forall|i: int, j: int|
            0 <= i < j < unit_seq(n).len() ==> unit_seq(n)[i] < unit_seq(n)[j],
        forall|k: nat| is_unit(k, n) ==> unit_seq(n).contains(k),
{
    lemma_units_below_props(n, n);
}

/// The unit group modulo n is never empty, and its first (least) element is
/// the identity exponent: 1 for n >= 2, and 0 for n == 1.
pub proof fn lemma_unit_seq_first(n: nat)
    requires
        n >= 1,
    ensures
        unit_seq(n).len() >= 1,
        phi(n) >= 1,
        unit_seq(n)[0] == if n == 1 {
            0nat
        } else {
            1nat
        },
{
    if n == 1 {
        lemma_gcd_nat_one(1);
        assert(0nat % 1nat == 0);
        assert(gcd_nat(0, 1) == gcd_nat(1, 0));
        assert(is_unit(0, 1));
        assert(units_below(1, 0) =~= Seq::<nat>::empty());
        assert(units_below(1, 1) =~= seq![0nat]);
    } else {
        lemma_units_below_head(n, n);
    }
}

} // verus!
