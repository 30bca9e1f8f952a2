use crate::buddy_math::{
    block_len, buddy_of, holds, lemma_buddy_inside, lemma_inside_arena, lemma_len_double,
    lemma_len_grows, lemma_merge, lemma_same_order, lemma_split,
};
use vstd::prelude::*;

verus! {

/// A block: its offset and its order.
pub type Block = (int, int);

pub open spec fn covers(b: Block, a: int) -> bool {
    holds(b.0, b.1, a)
}

/// The block is aligned to its length, of an order in `[min, max]`, and inside
/// the arena of length `2^max`.
pub open spec fn block_ok(b: Block, min: int, max: int) -> bool {
    &&& min <= b.1 <= max
    &&& b.0 >= 0
    &&& b.0 % block_len(b.1) == 0
    &&& b.0 + block_len(b.1) <= block_len(max)
}

/// Whether the free lists, indexed by order, hold `b`.
pub open spec fn is_free(lists: Seq<Seq<usize>>, b: Block) -> bool {
    &&& 0 <= b.1 < lists.len()
    &&& exists|i: int| 0 <= i < lists[b.1].len() && lists[b.1][i] as int == b.0
}

/// Whether `b` is free, handed out, or held by an operation in progress.
pub open spec fn present(
    lists: Seq<Seq<usize>>,
    handed: Set<Block>,
    held: Set<Block>,
    b: Block,
) -> bool {
    is_free(lists, b) || handed.contains(b) || held.contains(b)
}

/// The state invariant of the buddy allocator. The free, handed-out and held
/// blocks tile the arena: `owner` names, for each address, the one block that
/// holds it. No two free blocks are buddies.
pub open spec fn tiling(
    lists: Seq<Seq<usize>>,
    handed: Set<Block>,
    held: Set<Block>,
    owner: spec_fn(int) -> Block,
    min: int,
    max: int,
) -> bool {
    &&& 0 <= min <= max
    &&& block_len(max) <= usize::MAX
    &&& lists.len() == max + 1
    &&& forall|k: int, i: int|
        0 <= k < lists.len() && 0 <= i < lists[k].len() ==> block_ok(
            (#[trigger] lists[k][i] as int, k),
            min,
            max,
        )
    &&& forall|k: int, i: int, j: int|
        0 <= k < lists.len() && 0 <= i < j < lists[k].len() ==> #[trigger] lists[k][i]
            != #[trigger] lists[k][j]
    &&& forall|b: Block| #[trigger] handed.contains(b) ==> block_ok(b, min, max) && !is_free(lists, b)
    &&& forall|b: Block| #[trigger]
        held.contains(b) ==> block_ok(b, min, max) && !is_free(lists, b) && !handed.contains(b)
    &&& forall|a: int|
        0 <= a < block_len(max) ==> present(lists, handed, held, #[trigger] owner(a)) && covers(
            owner(a),
            a,
        )
    &&& forall|b: Block, a: int|
        present(lists, handed, held, b) && #[trigger] covers(b, a) ==> owner(a) == b
    &&& forall|b: Block|
        #[trigger] is_free(lists, b) && b.1 < max ==> !is_free(lists, (buddy_of(b.0, b.1), b.1))
}

pub proof fn lemma_present_ok(
    lists: Seq<Seq<usize>>,
    handed: Set<Block>,
    held: Set<Block>,
    owner: spec_fn(int) -> Block,
    min: int,
    max: int,
    b: Block,
)
    requires
        tiling(lists, handed, held, owner, min, max),
        present(lists, handed, held, b),
    ensures
        block_ok(b, min, max),
{
    if is_free(lists, b) {
        let i = choose|i: int| 0 <= i < lists[b.1].len() && lists[b.1][i] as int == b.0;
        assert(block_ok((lists[b.1][i] as int, b.1), min, max));
    }
}

/// Two different present blocks share no address.
pub proof fn lemma_present_disjoint(
    lists: Seq<Seq<usize>>,
    handed: Set<Block>,
    held: Set<Block>,
    owner: spec_fn(int) -> Block,
    min: int,
    max: int,
    b1: Block,
    b2: Block,
    a: int,
)
    requires
        tiling(lists, handed, held, owner, min, max),
        present(lists, handed, held, b1),
        present(lists, handed, held, b2),
        covers(b1, a),
        covers(b2, a),
    ensures
        b1 == b2,
{
}

/// Takes the first free block of order `c` out of its list, to be held.
pub proof fn lemma_take(
    lists: Seq<Seq<usize>>,
    handed: Set<Block>,
    owner: spec_fn(int) -> Block,
    min: int,
    max: int,
    c: int,
)
    requires
        tiling(lists, handed, Set::empty(), owner, min, max),
        0 <= c <= max,
        lists[c].len() > 0,
    ensures
        tiling(
            lists.update(c, lists[c].subrange(1, lists[c].len() as int)),
            handed,
            set![(lists[c][0] as int, c)],
            owner,
            min,
            max,
        ),
{
    let b = (lists[c][0] as int, c);
    let l2 = lists.update(c, lists[c].subrange(1, lists[c].len() as int));
    let held = set![b];
    assert forall|x: Block| is_free(l2, x) implies is_free(lists, x) && x != b by {
        let i = choose|i: int| 0 <= i < l2[x.1].len() && l2[x.1][i] as int == x.0;
        if x.1 == c {
            assert(lists[c][i + 1] == l2[c][i]);
            assert(lists[c][0] != lists[c][i + 1]);
        } else {
            assert(l2[x.1] == lists[x.1]);
            assert(l2[x.1][i] == lists[x.1][i]);
        }
    }
    assert forall|x: Block| is_free(lists, x) implies is_free(l2, x) || x == b by {
        let i = choose|i: int| 0 <= i < lists[x.1].len() && lists[x.1][i] as int == x.0;
        if x.1 == c && i > 0 {
            assert(l2[c][i - 1] == lists[c][i]);
        } else if x.1 != c {
            assert(l2[x.1] == lists[x.1]);
            assert(l2[x.1][i] == lists[x.1][i]);
        }
    }
    assert forall|x: Block| present(lists, handed, Set::empty(), x) <==> present(l2, handed, held, x) by {
    }
    assert(block_ok((lists[c][0] as int, c), min, max));
    assert forall|k: int, i: int| 0 <= k < l2.len() && 0 <= i < l2[k].len() implies block_ok(
        (#[trigger] l2[k][i] as int, k),
        min,
        max,
    ) by {
        if k == c {
            assert(l2[k][i] == lists[k][i + 1]);
        }
    }
    assert forall|k: int, i: int, j: int|
        0 <= k < l2.len() && 0 <= i < j < l2[k].len() implies #[trigger] l2[k][i]
        != #[trigger] l2[k][j] by {
        if k == c {
            assert(l2[k][i] == lists[k][i + 1] && l2[k][j] == lists[k][j + 1]);
        }
    }
}

/// The owner map after the held block of order `s + 1` at `off` is halved.
pub open spec fn split_owner(owner: spec_fn(int) -> Block, off: int, s: int) -> spec_fn(
    int,
) -> Block {
    |a: int|
        if off + block_len(s) <= a < off + 2 * block_len(s) {
            (off + block_len(s), s)
        } else if off <= a < off + block_len(s) {
            (off, s)
        } else {
            owner(a)
        }
}

/// Halves the held block of order `s + 1` at `off`: the upper half joins the free
/// list of order `s`, the lower half is held.
pub proof fn lemma_split_step(
    lists: Seq<Seq<usize>>,
    handed: Set<Block>,
    owner: spec_fn(int) -> Block,
    min: int,
    max: int,
    off: int,
    s: int,
)
    requires
        tiling(lists, handed, set![(off, s + 1)], owner, min, max),
        min <= s,
        off + block_len(s) <= usize::MAX,
    ensures
        tiling(
            lists.update(s, lists[s].push((off + block_len(s)) as usize)),
            handed,
            set![(off, s)],
            split_owner(owner, off, s),
            min,
            max,
        ),
{
    let h = (off, s + 1);
    let lo = (off, s);
    let hi = (off + block_len(s), s);
    let l2 = lists.update(s, lists[s].push((off + block_len(s)) as usize));
    let held = set![h];
    let held2 = set![lo];
    let o2 = split_owner(owner, off, s);
    assert(held.contains(h));
    assert(block_ok(h, min, max));
    lemma_len_double(s);
    lemma_split(off, s);
    assert(covers(h, off) && covers(lo, off) && covers(hi, off + block_len(s)) && covers(
        h,
        off + block_len(s),
    ));
    assert(l2[s] == lists[s].push((off + block_len(s)) as usize));
    assert forall|x: Block| is_free(l2, x) <==> (is_free(lists, x) || x == hi) by {
        if is_free(l2, x) {
            let i = choose|i: int| 0 <= i < l2[x.1].len() && l2[x.1][i] as int == x.0;
            if x.1 == s && i < lists[s].len() {
                assert(lists[s][i] == l2[s][i]);
            } else if x.1 != s {
                assert(l2[x.1] == lists[x.1]);
                assert(l2[x.1][i] == lists[x.1][i]);
            }
        }
        if is_free(lists, x) {
            let i = choose|i: int| 0 <= i < lists[x.1].len() && lists[x.1][i] as int == x.0;
            if x.1 == s {
                assert(lists[s][i] == l2[s][i]);
            } else {
                assert(l2[x.1] == lists[x.1]);
                assert(l2[x.1][i] == lists[x.1][i]);
            }
        }
        if x == hi {
            assert(l2[s][lists[s].len() as int] as int == hi.0);
        }
    }
    // nothing present but the held block meets its range
    assert forall|x: Block, a: int|
        present(lists, handed, held, x) && x != h && covers(x, a) implies !covers(h, a) by {
        if covers(h, a) {
            assert(owner(a) == x);
            assert(owner(a) == h);
        }
    }
    assert(!is_free(lists, lo)) by {
        if is_free(lists, lo) {
            assert(owner(off) == lo);
            assert(owner(off) == h);
        }
    }
    assert(!is_free(lists, hi)) by {
        if is_free(lists, hi) {
            assert(owner(off + block_len(s)) == hi);
            assert(owner(off + block_len(s)) == h);
        }
    }
    assert(!handed.contains(lo)) by {
        if handed.contains(lo) {
            assert(owner(off) == lo);
            assert(owner(off) == h);
        }
    }
    assert(!handed.contains(hi)) by {
        if handed.contains(hi) {
            assert(owner(off + block_len(s)) == hi);
            assert(owner(off + block_len(s)) == h);
        }
    }
    assert forall|x: Block| present(l2, handed, held2, x) <==> (present(lists, handed, held, x) && x
        != h || x == lo || x == hi) by {
        assert(!is_free(lists, h));
    }
    assert forall|k: int, i: int| 0 <= k < l2.len() && 0 <= i < l2[k].len() implies block_ok(
        (#[trigger] l2[k][i] as int, k),
        min,
        max,
    ) by {
        if k == s && i < lists[s].len() {
            assert(l2[k][i] == lists[k][i]);
        }
    }
    assert forall|k: int, i: int, j: int|
        0 <= k < l2.len() && 0 <= i < j < l2[k].len() implies #[trigger] l2[k][i]
        != #[trigger] l2[k][j] by {
        if k == s {
            if j == lists[s].len() {
                assert(l2[k][i] == lists[k][i]);
                assert(is_free(lists, (lists[k][i] as int, s)));
            } else {
                assert(l2[k][i] == lists[k][i] && l2[k][j] == lists[k][j]);
            }
        }
    }
    assert forall|a: int| 0 <= a < block_len(max) implies present(
        l2,
        handed,
        held2,
        #[trigger] o2(a),
    ) && covers(o2(a), a) by {
        if !covers(h, a) {
            assert(owner(a) != h);
        }
    }
    assert forall|b: Block, a: int| present(l2, handed, held2, b) && #[trigger] covers(b, a) implies o2(
        a,
    ) == b by {
        if b != lo && b != hi {
            assert(owner(a) == b);
        }
    }
    assert forall|b: Block| #[trigger] is_free(l2, b) && b.1 < max implies !is_free(
        l2,
        (buddy_of(b.0, b.1), b.1),
    ) by {
        if b == hi {
            assert(buddy_of(hi.0, s) == off);
        } else {
            assert(is_free(lists, b));
            let bb = (buddy_of(b.0, b.1), b.1);
            if bb == hi {
                lemma_present_ok(lists, handed, held, owner, min, max, b);
                lemma_merge(b.0, b.1);
                assert(b.0 == buddy_of(hi.0, s));
            }
        }
    }
}

/// Hands the held block out.
pub proof fn lemma_finish_alloc(
    lists: Seq<Seq<usize>>,
    handed: Set<Block>,
    owner: spec_fn(int) -> Block,
    min: int,
    max: int,
    b: Block,
)
    requires
        tiling(lists, handed, set![b], owner, min, max),
    ensures
        tiling(lists, handed.insert(b), Set::empty(), owner, min, max),
{
    assert(set![b].contains(b));
    assert forall|x: Block| present(lists, handed.insert(b), Set::empty(), x) <==> present(
        lists,
        handed,
        set![b],
        x,
    ) by {}
}

/// Takes back a handed-out block, to be held.
pub proof fn lemma_start_free(
    lists: Seq<Seq<usize>>,
    handed: Set<Block>,
    owner: spec_fn(int) -> Block,
    min: int,
    max: int,
    b: Block,
)
    requires
        tiling(lists, handed, Set::empty(), owner, min, max),
        handed.contains(b),
    ensures
        tiling(lists, handed.remove(b), set![b], owner, min, max),
{
    assert forall|x: Block| present(lists, handed.remove(b), set![b], x) <==> present(
        lists,
        handed,
        Set::empty(),
        x,
    ) by {}
}

/// The owner map after the held block and its buddy are joined into the block
/// of order `k + 1` at `p`.
pub open spec fn merge_owner(owner: spec_fn(int) -> Block, p: int, k: int) -> spec_fn(
    int,
) -> Block {
    |a: int|
        if p <= a < p + block_len(k + 1) {
            (p, k + 1)
        } else {
            owner(a)
        }
}

/// Joins the held block of order `k` at `o` with its free buddy, which stands at
/// position `pos` of the list of order `k`.
pub proof fn lemma_merge_step(
    lists: Seq<Seq<usize>>,
    handed: Set<Block>,
    owner: spec_fn(int) -> Block,
    min: int,
    max: int,
    o: int,
    k: int,
    pos: int,
)
    requires
        tiling(lists, handed, set![(o, k)], owner, min, max),
        k < max,
        0 <= pos < lists[k].len(),
        lists[k][pos] as int == buddy_of(o, k),
    ensures
        ({
            let b = buddy_of(o, k);
            let p = if o < b {
                o
            } else {
                b
            };
            tiling(
                lists.update(k, lists[k].remove(pos)),
                handed,
                set![(p, k + 1)],
                merge_owner(owner, p, k),
                min,
                max,
            )
        }),
{
    let h = (o, k);
    let bo = buddy_of(o, k);
    let bb = (bo, k);
    let p = if o < bo {
        o
    } else {
        bo
    };
    let n = (p, k + 1);
    let l2 = lists.update(k, lists[k].remove(pos));
    let held = set![h];
    let held2 = set![n];
    let o2 = merge_owner(owner, p, k);
    assert(held.contains(h));
    assert(block_ok(h, min, max));
    assert(covers(h, o));
    lemma_merge(o, k);
    lemma_len_double(k);
    lemma_len_grows(k + 1, max);
    assert(is_free(lists, bb));
    assert(block_ok(bb, min, max));
    // the joined block lies inside the arena
    assert(p + block_len(k + 1) <= block_len(max)) by {
        let m = block_len(max);
        let q = block_len(k + 1);
        vstd::arithmetic::div_mod::lemma_fundamental_div_mod(p, q);
        vstd::arithmetic::div_mod::lemma_fundamental_div_mod(m, q);
        let t = p / q;
        let u = m / q;
        assert(p == q * t);
        assert(m == q * u);
        assert(p < m);
        assert(t < u) by (nonlinear_arith)
            requires
                p == q * t,
                m == q * u,
                p < m,
                q > 0,
        ;
        assert(p + q <= m) by (nonlinear_arith)
            requires
                p == q * t,
                m == q * u,
                t < u,
                q > 0,
        ;
    }
    assert forall|x: Block| is_free(l2, x) <==> (is_free(lists, x) && x != bb) by {
        if is_free(l2, x) {
            let i = choose|i: int| 0 <= i < l2[x.1].len() && l2[x.1][i] as int == x.0;
            if x.1 == k {
                if i < pos {
                    assert(l2[k][i] == lists[k][i]);
                    assert(lists[k][i] != lists[k][pos]);
                } else {
                    assert(l2[k][i] == lists[k][i + 1]);
                    assert(lists[k][i + 1] != lists[k][pos]);
                }
            } else {
                assert(l2[x.1] == lists[x.1]);
                assert(l2[x.1][i] == lists[x.1][i]);
            }
        }
        if is_free(lists, x) && x != bb {
            let i = choose|i: int| 0 <= i < lists[x.1].len() && lists[x.1][i] as int == x.0;
            if x.1 == k {
                if i < pos {
                    assert(l2[k][i] == lists[k][i]);
                } else {
                    assert(i != pos);
                    assert(l2[k][i - 1] == lists[k][i]);
                }
            } else {
                assert(l2[x.1] == lists[x.1]);
                assert(l2[x.1][i] == lists[x.1][i]);
            }
        }
    }
    assert forall|x: Block, a: int|
        present(lists, handed, held, x) && x != h && x != bb && covers(x, a) implies !covers(n, a) by {
        if covers(n, a) {
            assert(owner(a) == x);
            if covers(h, a) {
                assert(owner(a) == h);
            } else {
                assert(covers(bb, a));
                assert(owner(a) == bb);
            }
        }
    }
    assert(!present(lists, handed, held, n)) by {
        if present(lists, handed, held, n) {
            assert(covers(n, o));
            assert(owner(o) == n);
            assert(owner(o) == h);
        }
    }
    assert forall|x: Block| present(l2, handed, held2, x) <==> (present(lists, handed, held, x) && x
        != h && x != bb || x == n) by {}
    assert forall|k2: int, i: int| 0 <= k2 < l2.len() && 0 <= i < l2[k2].len() implies block_ok(
        (#[trigger] l2[k2][i] as int, k2),
        min,
        max,
    ) by {
        if k2 == k {
            if i < pos {
                assert(l2[k2][i] == lists[k2][i]);
            } else {
                assert(l2[k2][i] == lists[k2][i + 1]);
            }
        }
    }
    assert forall|k2: int, i: int, j: int|
        0 <= k2 < l2.len() && 0 <= i < j < l2[k2].len() implies #[trigger] l2[k2][i]
        != #[trigger] l2[k2][j] by {
        if k2 == k {
            let i2 = if i < pos {
                i
            } else {
                i + 1
            };
            let j2 = if j < pos {
                j
            } else {
                j + 1
            };
            assert(l2[k2][i] == lists[k2][i2] && l2[k2][j] == lists[k2][j2]);
        }
    }
    assert forall|a: int| 0 <= a < block_len(max) implies present(
        l2,
        handed,
        held2,
        #[trigger] o2(a),
    ) && covers(o2(a), a) by {
        if !covers(n, a) {
            assert(!covers(h, a));
            assert(!covers(bb, a));
            assert(owner(a) != h && owner(a) != bb);
        }
    }
    assert forall|b: Block, a: int| present(l2, handed, held2, b) && #[trigger] covers(b, a) implies o2(
        a,
    ) == b by {
        if b != n {
            assert(owner(a) == b);
        }
    }
    assert forall|b: Block| #[trigger] is_free(l2, b) && b.1 < max implies !is_free(
        l2,
        (buddy_of(b.0, b.1), b.1),
    ) by {
        assert(is_free(lists, b));
    }
}

/// Puts the held block of order `k` at `o` on its free list, which it may join
/// when its buddy is not free there.
pub proof fn lemma_place_held(
    lists: Seq<Seq<usize>>,
    handed: Set<Block>,
    owner: spec_fn(int) -> Block,
    min: int,
    max: int,
    o: int,
    k: int,
)
    requires
        tiling(lists, handed, set![(o, k)], owner, min, max),
        k == max || !is_free(lists, (buddy_of(o, k), k)),
    ensures
        tiling(lists.update(k, lists[k].push(o as usize)), handed, Set::empty(), owner, min, max),
{
    let h = (o, k);
    assert(set![h].contains(h));
    assert(block_ok(h, min, max));
    let l2 = lists.update(k, lists[k].push(o as usize));
    assert(l2[k] == lists[k].push(o as usize));
    assert forall|x: Block| is_free(l2, x) <==> (is_free(lists, x) || x == h) by {
        if is_free(l2, x) {
            let i = choose|i: int| 0 <= i < l2[x.1].len() && l2[x.1][i] as int == x.0;
            if x.1 == k && i < lists[k].len() {
                assert(lists[k][i] == l2[k][i]);
            } else if x.1 != k {
                assert(l2[x.1] == lists[x.1]);
                assert(l2[x.1][i] == lists[x.1][i]);
            }
        }
        if is_free(lists, x) {
            let i = choose|i: int| 0 <= i < lists[x.1].len() && lists[x.1][i] as int == x.0;
            if x.1 == k {
                assert(lists[k][i] == l2[k][i]);
            } else {
                assert(l2[x.1] == lists[x.1]);
                assert(l2[x.1][i] == lists[x.1][i]);
            }
        }
        if x == h {
            assert(l2[k][lists[k].len() as int] as int == o);
        }
    }
    assert forall|x: Block| present(l2, handed, Set::empty(), x) <==> present(
        lists,
        handed,
        set![h],
        x,
    ) by {}
    assert forall|k2: int, i: int| 0 <= k2 < l2.len() && 0 <= i < l2[k2].len() implies block_ok(
        (#[trigger] l2[k2][i] as int, k2),
        min,
        max,
    ) by {
        if k2 == k && i < lists[k].len() {
            assert(l2[k2][i] == lists[k2][i]);
        }
    }
    assert forall|k2: int, i: int, j: int|
        0 <= k2 < l2.len() && 0 <= i < j < l2[k2].len() implies #[trigger] l2[k2][i]
        != #[trigger] l2[k2][j] by {
        if k2 == k {
            if j == lists[k].len() {
                assert(l2[k2][i] == lists[k2][i]);
                assert(is_free(lists, (lists[k2][i] as int, k)));
            } else {
                assert(l2[k2][i] == lists[k2][i] && l2[k2][j] == lists[k2][j]);
            }
        }
    }
    assert forall|b: Block| #[trigger] is_free(l2, b) && b.1 < max implies !is_free(
        l2,
        (buddy_of(b.0, b.1), b.1),
    ) by {
        let bb = (buddy_of(b.0, b.1), b.1);
        if b != h {
            lemma_present_ok(lists, handed, set![h], owner, min, max, b);
        }
        lemma_merge(b.0, b.1);
        lemma_len_double(b.1);
        if b == h {
            assert(!is_free(lists, bb));
            assert(bb != h);
        } else if bb == h {
            assert(b.0 == buddy_of(o, k));
        }
    }
}

/// With nothing handed out or held, no list below the top order holds a block
/// of order `k` or less.
proof fn lemma_no_small_free(
    lists: Seq<Seq<usize>>,
    owner: spec_fn(int) -> Block,
    min: int,
    max: int,
    k: int,
)
    requires
        tiling(lists, Set::empty(), Set::empty(), owner, min, max),
        0 <= k < max,
    ensures
        forall|j: int| 0 <= j <= k ==> #[trigger] lists[j].len() == 0,
    decreases k,
{
    if k > 0 {
        lemma_no_small_free(lists, owner, min, max, k - 1);
    }
    if lists[k].len() > 0 {
        let b = (lists[k][0] as int, k);
        assert(block_ok(b, min, max));
        assert(is_free(lists, b));
        lemma_merge(b.0, k);
        lemma_len_double(k);
        let a = buddy_of(b.0, k);
        let p = if b.0 < a {
            b.0
        } else {
            a
        };
        lemma_inside_arena(p, k + 1, max);
        assert(holds(p, k + 1, a));
        let c = owner(a);
        assert(present(lists, Set::empty(), Set::empty(), c) && covers(c, a));
        assert(is_free(lists, c));
        lemma_present_ok(lists, Set::empty(), Set::empty(), owner, min, max, c);
        if c.1 < k {
            let i = choose|i: int| 0 <= i < lists[c.1].len() && lists[c.1][i] as int == c.0;
            assert(lists[c.1].len() == 0);
        } else if c.1 == k {
            lemma_same_order(c.0, a, k, a);
            assert(!is_free(lists, (a, k)));
        } else {
            lemma_buddy_inside(c.0, c.1, a, k);
            assert(covers(c, b.0));
            assert(covers(b, b.0));
            assert(owner(b.0) == c);
            assert(owner(b.0) == b);
        }
    }
}

/// Once every block has been given back, the whole arena is one free block of the
/// top order: the lists below it are empty and the top list holds offset 0 alone.
pub proof fn lemma_all_free(
    lists: Seq<Seq<usize>>,
    owner: spec_fn(int) -> Block,
    min: int,
    max: int,
)
    requires
        tiling(lists, Set::empty(), Set::empty(), owner, min, max),
    ensures
        lists[max] == seq![0usize],
        forall|j: int| 0 <= j < max ==> #[trigger] lists[j].len() == 0,
{
    if max > 0 {
        lemma_no_small_free(lists, owner, min, max, max - 1);
    }
    lemma_len_double(max);
    let c = owner(0);
    assert(present(lists, Set::empty(), Set::empty(), c) && covers(c, 0));
    lemma_present_ok(lists, Set::empty(), Set::empty(), owner, min, max, c);
    let i0 = choose|i: int| 0 <= i < lists[c.1].len() && lists[c.1][i] as int == c.0;
    assert(c.1 == max) by {
        if c.1 < max {
            assert(lists[c.1].len() == 0);
        }
    }
    assert forall|i: int| 0 <= i < lists[max].len() implies lists[max][i] == 0usize by {
        assert(block_ok((lists[max][i] as int, max), min, max));
    }
    assert(lists[max].len() == 1) by {
        if lists[max].len() > 1 {
            assert(lists[max][0] == 0usize && lists[max][1] == 0usize);
        }
    }
    assert(lists[max] =~= seq![0usize]);
}

} // verus!
