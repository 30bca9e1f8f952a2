use vstd::arithmetic::div_mod::*;
use vstd::arithmetic::mul::*;
use vstd::arithmetic::power2::*;
use vstd::prelude::*;

verus! {

/// The length of a block of order `k`.
pub open spec fn block_len(k: int) -> int {
    pow2(k as nat) as int
}

/// The offset of the other half of the block of twice the length that holds the
/// block of order `k` at `o`.
pub open spec fn buddy_of(o: int, k: int) -> int {
    if (o / block_len(k)) % 2 == 0 {
        o + block_len(k)
    } else {
        o - block_len(k)
    }
}

/// Whether the block of order `k` at `o` holds address `a`.
pub open spec fn holds(o: int, k: int, a: int) -> bool {
    o <= a < o + block_len(k)
}

/// Whether the block of order `k` at `o` holds address `a` (the same as `holds`,
/// under the name that contracts outside the allocator use).
pub open spec fn covers_range(o: int, k: int, a: int) -> bool {
    holds(o, k, a)
}

pub proof fn lemma_len_double(k: int)
    requires
        k >= 0,
    ensures
        block_len(k) > 0,
        block_len(k + 1) == 2 * block_len(k),
{
    lemma_pow2_pos(k as nat);
    lemma_pow2_unfold((k + 1) as nat);
}

pub proof fn lemma_len_grows(k: int, l: int)
    requires
        0 <= k <= l,
    ensures
        block_len(k) <= block_len(l),
        block_len(l) % block_len(k) == 0,
{
    lemma_pow2_pos(k as nat);
    lemma_pow2_adds(k as nat, (l - k) as nat);
    lemma_pow2_pos((l - k) as nat);
    let m = block_len(k);
    let r = block_len(l - k);
    assert(block_len(l) == m * r);
    lemma_mul_increases(r, m);
    lemma_mod_multiples_basic(r, m);
    lemma_mul_is_commutative(m, r);
}

/// Halving an aligned block of order `k + 1` at `o` gives two aligned buddies.
pub proof fn lemma_split(o: int, k: int)
    requires
        k >= 0,
        o >= 0,
        o % block_len(k + 1) == 0,
    ensures
        o % block_len(k) == 0,
        (o + block_len(k)) % block_len(k) == 0,
        buddy_of(o, k) == o + block_len(k),
        buddy_of(o + block_len(k), k) == o,
{
    lemma_len_double(k);
    let m = block_len(k);
    let q = o / (2 * m);
    lemma_fundamental_div_mod(o, 2 * m);
    assert(o == (2 * q) * m) by (nonlinear_arith)
        requires
            o == (2 * m) * q + o % (2 * m),
            o % (2 * m) == 0,
    ;
    lemma_div_multiples_vanish(2 * q, m);
    lemma_mul_is_commutative(2 * q, m);
    lemma_mod_multiples_basic(2 * q, m);
    assert(o + m == (2 * q + 1) * m) by (nonlinear_arith)
        requires
            o == (2 * q) * m,
    ;
    lemma_div_multiples_vanish(2 * q + 1, m);
    lemma_mod_multiples_basic(2 * q + 1, m);
    lemma_mul_is_commutative(2 * q + 1, m);
}

/// An aligned block of order `k` at `o` and its buddy make up the aligned block of
/// order `k + 1` at the lower of their offsets.
pub proof fn lemma_merge(o: int, k: int)
    requires
        k >= 0,
        o >= 0,
        o % block_len(k) == 0,
    ensures
        buddy_of(o, k) >= 0,
        buddy_of(o, k) % block_len(k) == 0,
        buddy_of(buddy_of(o, k), k) == o,
        ({
            let p = if o < buddy_of(o, k) {
                o
            } else {
                buddy_of(o, k)
            };
            &&& p % block_len(k + 1) == 0
            &&& forall|a: int|
                holds(p, k + 1, a) <==> (holds(o, k, a) || holds(buddy_of(o, k), k, a))
        }),
{
    lemma_len_double(k);
    let m = block_len(k);
    let j = o / m;
    lemma_fundamental_div_mod(o, m);
    lemma_mul_is_commutative(m, j);
    assert(o == j * m);
    lemma_div_pos_is_pos(o, m);
    if j % 2 == 0 {
        let i = j / 2;
        assert(o == i * (2 * m)) by (nonlinear_arith)
            requires
                o == j * m,
                j == 2 * i,
        ;
        lemma_mod_multiples_basic(i, 2 * m);
        lemma_split(o, k);
    } else {
        let i = j / 2;
        let b = o - m;
        assert(b == i * (2 * m)) by (nonlinear_arith)
            requires
                o == j * m,
                j == 2 * i + 1,
                b == o - m,
        ;
        assert(b >= 0) by (nonlinear_arith)
            requires
                b == i * (2 * m),
                i >= 0,
                m > 0,
        ;
        lemma_mod_multiples_basic(i, 2 * m);
        lemma_split(b, k);
    }
}

/// An aligned block of a higher order that holds an aligned block of order `k`
/// also holds that block's buddy.
pub proof fn lemma_buddy_inside(o2: int, k2: int, a: int, k: int)
    requires
        0 <= k < k2,
        o2 >= 0,
        a >= 0,
        o2 % block_len(k2) == 0,
        a % block_len(k) == 0,
        holds(o2, k2, a),
    ensures
        holds(o2, k2, buddy_of(a, k)),
{
    lemma_len_double(k);
    let m = block_len(k);
    lemma_pow2_adds((k + 1) as nat, (k2 - k - 1) as nat);
    let r = block_len(k2 - k - 1);
    lemma_pow2_pos((k2 - k - 1) as nat);
    let big = block_len(k2);
    assert(big == (2 * m) * r);
    let t = o2 / big;
    lemma_fundamental_div_mod(o2, big);
    assert(o2 == big * t);
    let j = a / m;
    lemma_fundamental_div_mod(a, m);
    assert(a == m * j);
    lemma_div_pos_is_pos(o2, big);
    lemma_div_pos_is_pos(a, m);
    let i = j / 2;
    lemma_fundamental_div_mod(j, 2);
    // the pair of buddies at indices 2i and 2i + 1 lies inside [t r, (t + 1) r) pairs
    assert(t * r <= i < t * r + r) by (nonlinear_arith)
        requires
            o2 == (2 * m) * r * t,
            a == m * j,
            o2 <= a < o2 + (2 * m) * r,
            j == 2 * i + j % 2,
            0 <= j % 2 < 2,
            m > 0,
            r > 0,
    ;
    let b = buddy_of(a, k);
    assert(b == (2 * i) * m || b == (2 * i + 1) * m) by (nonlinear_arith)
        requires
            j == 2 * i + j % 2,
            0 <= j % 2 < 2,
            a == m * j,
            b == (if j % 2 == 0 {
                a + m
            } else {
                a - m
            }),
    ;
    assert(o2 <= b < o2 + big) by (nonlinear_arith)
        requires
            b == (2 * i) * m || b == (2 * i + 1) * m,
            t * r <= i < t * r + r,
            o2 == (2 * m) * r * t,
            big == (2 * m) * r,
            m > 0,
    ;
}

/// Two aligned blocks of one order that share an address are the same block.
pub proof fn lemma_same_order(o: int, a: int, k: int, x: int)
    requires
        k >= 0,
        o % block_len(k) == 0,
        a % block_len(k) == 0,
        holds(o, k, x),
        holds(a, k, x),
    ensures
        o == a,
{
    lemma_len_double(k);
    let m = block_len(k);
    lemma_fundamental_div_mod(o, m);
    lemma_fundamental_div_mod(a, m);
    let i = o / m;
    let j = a / m;
    assert(o == m * i && a == m * j);
    assert(i == j) by (nonlinear_arith)
        requires
            o == m * i,
            a == m * j,
            o <= x < o + m,
            a <= x < a + m,
            m > 0,
    ;
}

/// An aligned block that starts inside the arena of order `max` ends inside it.
pub proof fn lemma_inside_arena(p: int, k: int, max: int)
    requires
        0 <= k <= max,
        0 <= p < block_len(max),
        p % block_len(k) == 0,
    ensures
        p + block_len(k) <= block_len(max),
{
    lemma_len_grows(k, max);
    lemma_len_double(k);
    let m = block_len(max);
    let q = block_len(k);
    lemma_fundamental_div_mod(p, q);
    lemma_fundamental_div_mod(m, q);
    let t = p / q;
    let u = m / q;
    assert(p == q * t);
    assert(m == q * u);
    assert(t < u) by (nonlinear_arith)
        requires
            p == q * t,
            m == q * u,
            p < m,
            q > 0,
    ;
    assert(p + q <= m) by (nonlinear_arith)
        requires
            p == q * t,
            m == q * u,
            t < u,
            q > 0,
    ;
}

} // verus!
