//! The adaptive Huffman tree of LZHUF (Okumura/Yoshizaki): its state, the
//! rules by which it changes, the invariant every reachable tree keeps, and
//! the executable tree.
use vstd::prelude::*;
use crate::bits::{bit_at, Bits};

verus! {

/// Number of symbols: 256 literals and 58 match lengths.
pub const N_CHAR: usize = 314;
/// Number of tree nodes.
pub const T: usize = 627;
/// Index of the root node.
pub const ROOT: usize = 626;
/// Root frequency at which the tree is rebuilt with halved counts.
pub const MAX_FREQ: u32 = 0x8000;

/// The tree as plain sequences.  `son[j] >= T` marks node `j` as the leaf of
/// symbol `son[j] - T`; otherwise node `j` has the children `son[j]` and
/// `son[j] + 1`.  `prnt` maps nodes and leaf codes (`s + T`) to their parent.
pub struct HuffModel {
    pub freq: Seq<u32>,
    pub prnt: Seq<usize>,
    pub son: Seq<usize>,
}

// ---------------------------------------------------------------------------
// What a valid tree is
// ---------------------------------------------------------------------------

pub open spec fn shape_ok(m: HuffModel) -> bool {
    &&& m.freq.len() == T + 1
    &&& m.prnt.len() == T + N_CHAR
    &&& m.son.len() == T
}

pub open spec fn is_leaf(m: HuffModel, j: int) -> bool {
    m.son[j] >= T
}

/// Node `j` is a leaf with a code in range, or an inner node whose children
/// lie below it; either way its children point back to it.
pub open spec fn node_ok(m: HuffModel, j: int) -> bool {
    if m.son[j] >= T {
        &&& m.son[j] < T + N_CHAR
        &&& m.prnt[m.son[j] as int] == j
    } else {
        &&& m.son[j] + 1 < j
        &&& m.prnt[m.son[j] as int] == j
        &&& m.prnt[m.son[j] + 1] == j
    }
}

/// The weight of an inner node is the sum of the weights of its children.
pub open spec fn sum_ok(m: HuffModel, j: int) -> bool {
    m.son[j] >= T || m.freq[j] == m.freq[m.son[j] as int] + m.freq[m.son[j] + 1]
}

/// Node `x` (below the root) is a child of its recorded parent.
pub open spec fn parent_ok(m: HuffModel, x: int) -> bool {
    let p = m.prnt[x] as int;
    &&& p < T
    &&& m.son[p] < T
    &&& (m.son[p] == x || m.son[p] + 1 == x)
}

/// Symbol `s` sits in the leaf its code points to.
pub open spec fn sym_ok(m: HuffModel, s: int) -> bool {
    let p = m.prnt[s + T] as int;
    p < T && m.son[p] == s + T
}

/// Weights never decrease from node to node (the sentinel at `T` included).
pub open spec fn sorted(m: HuffModel) -> bool {
    forall|a: int, b: int| 0 <= a <= b <= T ==> #[trigger] m.freq[a] <= #[trigger] m.freq[b]
}

/// Weight a node leaf_partutes to the total of the leaf weights.
pub open spec fn leaf_part(m: HuffModel, x: int) -> int {
    if m.son[x] >= T {
        m.freq[x] as int
    } else {
        0
    }
}

/// Sum of the weights of the leaf nodes among the first `n` nodes.
pub open spec fn leaf_sum(m: HuffModel, n: int) -> int
    decreases n,
{
    if n <= 0 {
        0
    } else {
        leaf_sum(m, n - 1) + leaf_part(m, n - 1)
    }
}

/// Current weight (count) of symbol `s`.
pub open spec fn weight(m: HuffModel, s: int) -> int {
    m.freq[m.prnt[s + T] as int] as int
}

/// Everything that holds of every tree the decoder can reach.
pub open spec fn wf(m: HuffModel) -> bool {
    &&& shape_ok(m)
    &&& m.freq[T as int] == 0xFFFF
    &&& sorted(m)
    &&& forall|j: int| 0 <= j < T ==> #[trigger] m.freq[j] >= 1
    &&& forall|j: int| 0 <= j < T ==> #[trigger] node_ok(m, j)
    &&& forall|j: int| 0 <= j < T ==> #[trigger] sum_ok(m, j)
    &&& forall|x: int| 0 <= x < ROOT ==> #[trigger] parent_ok(m, x)
    &&& m.prnt[ROOT as int] == 0
    &&& m.son[ROOT as int] < T
    &&& forall|s: int| 0 <= s < N_CHAR ==> #[trigger] sym_ok(m, s)
    &&& m.freq[ROOT as int] <= MAX_FREQ
    &&& leaf_sum(m, T as int) == m.freq[ROOT as int]
}

// ---------------------------------------------------------------------------
// How the tree changes: one count update
// ---------------------------------------------------------------------------

/// First node at or after `l` whose successor's weight is not below `k`.
pub open spec fn find_l(freq: Seq<u32>, k: int, l: int) -> int
    decreases T - l,
{
    if 0 <= l < T && k > freq[l + 1] {
        find_l(freq, k, l + 1)
    } else {
        l
    }
}

/// Raise the weight of node `c` by one and, if that breaks the order, swap
/// node `c` with the last node `l` of the old weight.  Returns the new tree
/// and the node whose weight is raised next.
pub open spec fn upd_iter(m: HuffModel, c: int) -> (HuffModel, int) {
    let k = m.freq[c] + 1;
    let freq1 = m.freq.update(c, k as u32);
    if k > m.freq[c + 1] {
        let l = find_l(freq1, k, c + 1);
        let freq2 = freq1.update(c, freq1[l]).update(l, k as u32);
        let i = m.son[c];
        let p1 = m.prnt.update(i as int, l as usize);
        let p2 = if i < T { p1.update(i + 1, l as usize) } else { p1 };
        let j = m.son[l];
        let son1 = m.son.update(l, i);
        let p3 = p2.update(j as int, c as usize);
        let p4 = if j < T { p3.update(j + 1, c as usize) } else { p3 };
        let son2 = son1.update(c, j);
        let m2 = HuffModel { freq: freq2, prnt: p4, son: son2 };
        (m2, m2.prnt[l] as int)
    } else {
        let m1 = HuffModel { freq: freq1, prnt: m.prnt, son: m.son };
        (m1, m1.prnt[c] as int)
    }
}

/// Repeat `upd_iter` from node `c` up to the root.
pub open spec fn upd_loop(m: HuffModel, c: int) -> HuffModel
    decreases T - c,
{
    let (m2, c2) = upd_iter(m, c);
    if c < 0 || c >= T || c2 <= c || c2 >= T {
        m2
    } else {
        upd_loop(m2, c2)
    }
}

/// Count one occurrence of symbol `sym`, rebuilding first at the limit.
pub open spec fn upd(m: HuffModel, sym: int) -> HuffModel {
    let m0 = if m.freq[ROOT as int] == MAX_FREQ {
        reconst(m)
    } else {
        m
    };
    upd_loop(m0, m0.prnt[sym + T] as int)
}

// ---------------------------------------------------------------------------
// How the tree changes: the rebuild with halved counts
// ---------------------------------------------------------------------------

/// One step of the compaction at node `i`.
pub open spec fn compact_next(m: HuffModel, i: int, j: int) -> (HuffModel, int) {
    if m.son[i] >= T {
        let m2 = HuffModel {
            freq: m.freq.update(j, ((m.freq[i] + 1) / 2) as u32),
            prnt: m.prnt,
            son: m.son.update(j, m.son[i]),
        };
        (m2, j + 1)
    } else {
        (m, j)
    }
}

/// Move the leaves to the front, in order, with halved (rounded up) weights.
pub open spec fn compact(m: HuffModel, i: int, j: int) -> (HuffModel, int)
    decreases T - i,
{
    if i < 0 || i >= T {
        (m, j)
    } else {
        let (m2, j2) = compact_next(m, i, j);
        compact(m2, i + 1, j2)
    }
}

/// Highest position `<= k` whose weight is at most `f` (-1 if none).
pub open spec fn search(freq: Seq<u32>, f: int, k: int) -> int
    decreases k + 1,
{
    if k < 0 {
        k
    } else if f < freq[k] {
        search(freq, f, k - 1)
    } else {
        k
    }
}

/// `s` with the entries at `k + 1 ..= j` taken from one position lower.
pub open spec fn shift_up<A>(s: Seq<A>, k: int, j: int) -> Seq<A> {
    Seq::new(s.len(), |x: int| if k < x <= j { s[x - 1] } else { s[x] })
}

/// One step of the rebuild: join nodes `i` and `i + 1` into a new node and
/// insert it, by weight, among the nodes `< j`.
pub open spec fn build_step(m: HuffModel, i: int, j: int) -> HuffModel {
    let f = m.freq[i] + m.freq[i + 1];
    let freq1 = m.freq.update(j, f as u32);
    let k = search(freq1, f, j - 1) + 1;
    let freq2 = shift_up(freq1, k, j);
    let son2 = shift_up(m.son, k, j);
    HuffModel { freq: freq2.update(k, f as u32), prnt: m.prnt, son: son2.update(k, i as usize) }
}

pub open spec fn build(m: HuffModel, i: int, j: int) -> HuffModel
    decreases T - j,
{
    if j >= T {
        m
    } else {
        build(build_step(m, i, j), i + 2, j + 1)
    }
}

/// Point every child back at its parent.
pub open spec fn relink(m: HuffModel, i: int) -> HuffModel
    decreases T - i,
{
    if i < 0 || i >= T {
        m
    } else {
        let k = m.son[i];
        let p1 = m.prnt.update(k as int, i as usize);
        let p2 = if k < T { p1.update(k + 1, i as usize) } else { p1 };
        relink(HuffModel { freq: m.freq, prnt: p2, son: m.son }, i + 1)
    }
}

pub open spec fn reconst(m: HuffModel) -> HuffModel {
    let m1 = compact(m, 0, 0).0;
    relink(build(m1, 0, N_CHAR as int), 0)
}

} // verus!

verus! {

// ---------------------------------------------------------------------------
// Proofs: one count update keeps the tree valid
// ---------------------------------------------------------------------------

/// The state in the middle of an update: node `c` is next to be raised; if it
/// is an inner node it is already one short of the sum of its children.
pub open spec fn upd_inv(m: HuffModel, c: int) -> bool {
    &&& shape_ok(m)
    &&& m.freq[T as int] == 0xFFFF
    &&& sorted(m)
    &&& forall|j: int| 0 <= j < T ==> #[trigger] m.freq[j] >= 1
    &&& forall|j: int| 0 <= j < T ==> #[trigger] node_ok(m, j)
    &&& forall|j: int| 0 <= j < T && j != c ==> #[trigger] sum_ok(m, j)
    &&& (m.son[c] < T ==> m.freq[c] + 1 == m.freq[m.son[c] as int] + m.freq[m.son[c] + 1])
    &&& forall|x: int| 0 <= x < ROOT ==> #[trigger] parent_ok(m, x)
    &&& m.prnt[ROOT as int] == 0
    &&& m.son[ROOT as int] < T
    &&& forall|s: int| 0 <= s < N_CHAR ==> #[trigger] sym_ok(m, s)
    &&& 0 <= c < T
    &&& m.freq[ROOT as int] < MAX_FREQ
    &&& leaf_sum(m, T as int) == m.freq[ROOT as int] + (if m.son[c] < T { 1int } else { 0int })
}

pub proof fn lemma_find_l(freq: Seq<u32>, k: int, l: int)
    requires
        0 <= l <= T,
        freq.len() == T + 1,
    ensures
        l <= find_l(freq, k, l) <= T,
        forall|x: int| l < x <= find_l(freq, k, l) ==> k > #[trigger] freq[x],
        find_l(freq, k, l) < T ==> k <= freq[find_l(freq, k, l) + 1],
    decreases T - l,
{
    if 0 <= l < T && k > freq[l + 1] {
        lemma_find_l(freq, k, l + 1);
    }
}

/// Changing the leaf parts of two nodes changes the leaf sum by the
/// difference of those parts.
pub proof fn lemma_leaf_sum_two(m: HuffModel, m2: HuffModel, n: int, a: int, b: int)
    requires
        0 <= n,
        a != b,
        forall|x: int| 0 <= x < n && x != a && x != b ==> leaf_part(m2, x) == leaf_part(m, x),
    ensures
        leaf_sum(m2, n) == leaf_sum(m, n) + (if 0 <= a < n {
            leaf_part(m2, a) - leaf_part(m, a)
        } else {
            0
        }) + (if 0 <= b < n {
            leaf_part(m2, b) - leaf_part(m, b)
        } else {
            0
        }),
    decreases n,
{
    if n > 0 {
        lemma_leaf_sum_two(m, m2, n - 1, a, b);
    }
}

/// The order is kept and the sentinel bounds every weight.
pub proof fn lemma_sorted_facts(m: HuffModel, a: int, b: int)
    requires
        shape_ok(m),
        sorted(m),
        0 <= a <= b <= T,
    ensures
        m.freq[a] <= m.freq[b],
{
}

/// Raising node `c` without a swap.
pub proof fn lemma_upd_iter_noswap(m: HuffModel, c: int)
    requires
        upd_inv(m, c),
        m.freq[c] + 1 <= m.freq[c + 1],
    ensures
        ({
            let (m2, c2) = upd_iter(m, c);
            if c == ROOT {
                wf(m2) && c2 == 0
            } else {
                c < c2 < T && upd_inv(m2, c2)
            }
        }),
{
    let k = m.freq[c] + 1;
    let (m2, c2) = upd_iter(m, c);
    assert(m2.freq == m.freq.update(c, k as u32));
    assert(m2.son == m.son && m2.prnt == m.prnt);
    assert(sorted(m2)) by {
        assert forall|a: int, b: int| 0 <= a <= b <= T implies #[trigger] m2.freq[a]
            <= #[trigger] m2.freq[b] by {
            lemma_sorted_facts(m, a, b);
            if a == c && b != c {
                lemma_sorted_facts(m, c + 1, b);
            }
            if b == c && a != c {
            }
        }
    }
    lemma_leaf_sum_two(m, m2, T as int, c, T as int);
    if c == ROOT {
        assert(node_ok(m, c));
        assert forall|j: int| 0 <= j < T implies #[trigger] sum_ok(m2, j) by {
            assert(node_ok(m, j));
            if j != c {
                assert(sum_ok(m, j));
                if m.son[j] < T {
                    assert(m.son[j] != c && m.son[j] + 1 != c);
                }
            }
        }
        assert forall|j: int| 0 <= j < T implies #[trigger] m2.freq[j] >= 1 by {
            assert(m.freq[j] >= 1);
        }
        assert forall|j: int| 0 <= j < T implies #[trigger] node_ok(m2, j) by {
            assert(node_ok(m, j));
        }
        assert forall|x: int| 0 <= x < ROOT implies #[trigger] parent_ok(m2, x) by {
            assert(parent_ok(m, x));
        }
        assert forall|s: int| 0 <= s < N_CHAR implies #[trigger] sym_ok(m2, s) by {
            assert(sym_ok(m, s));
        }
    } else {
        assert(parent_ok(m, c));
        let p = m.prnt[c] as int;
        assert(node_ok(m, p));
        assert(c2 == p);
        assert(sum_ok(m, p));
        assert(node_ok(m, c));
        assert forall|j: int| 0 <= j < T && j != c2 implies #[trigger] sum_ok(m2, j) by {
            assert(node_ok(m, j));
            if j != c {
                assert(sum_ok(m, j));
                if m.son[j] < T {
                    assert(m.son[j] != c && m.son[j] + 1 != c);
                }
            }
        }
        assert forall|j: int| 0 <= j < T implies #[trigger] m2.freq[j] >= 1 by {
            assert(m.freq[j] >= 1);
        }
        assert forall|j: int| 0 <= j < T implies #[trigger] node_ok(m2, j) by {
            assert(node_ok(m, j));
        }
        assert forall|x: int| 0 <= x < ROOT implies #[trigger] parent_ok(m2, x) by {
            assert(parent_ok(m, x));
        }
        assert forall|s: int| 0 <= s < N_CHAR implies #[trigger] sym_ok(m2, s) by {
            assert(sym_ok(m, s));
        }
    }
}

} // verus!

verus! {

/// Raising node `c` with a swap against the last node `l` of its old weight.
#[verifier::rlimit(60)]
pub proof fn lemma_upd_iter_swap(m: HuffModel, c: int)
    requires
        upd_inv(m, c),
        m.freq[c] + 1 > m.freq[c + 1],
    ensures
        ({
            let (m2, c2) = upd_iter(m, c);
            c < ROOT && c < c2 < T && upd_inv(m2, c2)
        }),
{
    let k = m.freq[c] + 1;
    let freq1 = m.freq.update(c, k as u32);
    assert(c + 1 <= T);
    lemma_find_l(freq1, k, c + 1);
    let l = find_l(freq1, k, c + 1);
    // every node from c to l had the old weight of c
    assert forall|x: int| c <= x <= l implies #[trigger] m.freq[x] == k - 1 by {
        lemma_sorted_facts(m, c, x);
        if x > c + 1 {
            assert(freq1[x] == m.freq[x]);
        }
    }
    assert(l < T) by {
        if l == T {
            assert(m.freq[T as int] == k - 1);
        }
    }
    assert(c < ROOT) by {
        if c == ROOT {
            assert(m.freq[c + 1] == 0xFFFF);
        }
    }
    assert(parent_ok(m, c));
    let pc = m.prnt[c] as int;
    assert(node_ok(m, pc));
    assert(sum_ok(m, pc));
    assert(m.freq[m.son[pc] as int] >= 1 && m.freq[m.son[pc] + 1] >= 1);
    assert(m.freq[pc] >= k);
    assert(l < pc) by {
        if pc <= l {
            assert(m.freq[pc] == k - 1);
        }
    }
    assert(l < ROOT);
    assert(parent_ok(m, l));
    let pl = m.prnt[l] as int;
    assert(node_ok(m, pl));
    assert(sum_ok(m, pl));
    assert(l < pl);
    let i = m.son[c] as int;
    let j = m.son[l] as int;
    assert(node_ok(m, c));
    assert(node_ok(m, l));
    assert(sum_ok(m, l));
    assert(m.freq[l] == k - 1);
    // the children of l lie below c
    assert(j < T ==> j + 1 < c) by {
        if j < T {
            assert(m.freq[j] >= 1 && m.freq[j + 1] >= 1);
            if j + 1 >= c {
                lemma_sorted_facts(m, c, j + 1);
            }
        }
    }
    assert(i < T ==> i + 1 < c);
    // the two families are disjoint
    assert(i != j);
    assert(i < T ==> i + 1 != j);
    assert(j < T ==> j + 1 != i);
    assert(i < T && j < T ==> i + 1 != j + 1);
    let (m2, c2) = upd_iter(m, c);
    let p1 = m.prnt.update(i, l as usize);
    let p2 = if i < T { p1.update(i + 1, l as usize) } else { p1 };
    let p3 = p2.update(j, c as usize);
    let p4 = if j < T { p3.update(j + 1, c as usize) } else { p3 };
    assert(m2.prnt == p4);
    assert(m2.son == m.son.update(l, i as usize).update(c, j as usize));
    assert(m2.freq == freq1.update(c, freq1[l]).update(l, k as u32));
    // prnt changed exactly at the children of c and l
    assert forall|y: int|
        0 <= y < T + N_CHAR && y != i && !(i < T && y == i + 1) && y != j && !(j < T && y == j
            + 1) implies #[trigger] m2.prnt[y] == m.prnt[y] by {}
    assert(m2.prnt[i] == l);
    assert(i < T ==> m2.prnt[i + 1] == l);
    assert(m2.prnt[j] == c);
    assert(j < T ==> m2.prnt[j + 1] == c);
    assert(m2.freq[c] == k - 1);
    assert(m2.freq[l] == k);
    assert forall|x: int| 0 <= x <= T && x != l implies #[trigger] m2.freq[x] == m.freq[x] by {}
    assert(m2.prnt[l] == m.prnt[l]);
    assert(c2 == pl);
    // order
    assert(sorted(m2)) by {
        assert forall|a: int, b: int| 0 <= a <= b <= T implies #[trigger] m2.freq[a]
            <= #[trigger] m2.freq[b] by {
            lemma_sorted_facts(m, a, b);
            if a == l && b != l {
                lemma_sorted_facts(m, l + 1, b);
            }
            if b == l && a != l {
                lemma_sorted_facts(m, a, l);
            }
        }
    }
    assert forall|x: int| 0 <= x < T implies #[trigger] m2.freq[x] >= 1 by {
        assert(m.freq[x] >= 1);
    }
    assert forall|x: int| 0 <= x < T implies #[trigger] node_ok(m2, x) by {
        assert(node_ok(m, x));
        if x != c && x != l {
            let s = m.son[x] as int;
            assert(s != i && s != j);
            assert(i < T ==> s != i + 1);
            assert(j < T ==> s != j + 1);
            if s < T {
                assert(s + 1 != i && s + 1 != j);
                assert(i < T ==> s + 1 != i + 1);
                assert(j < T ==> s + 1 != j + 1);
            }
        }
    }
    assert forall|x: int| 0 <= x < T && x != pl implies #[trigger] sum_ok(m2, x) by {
        assert(node_ok(m, x));
        if x != c && x != l {
            assert(sum_ok(m, x));
            let s = m.son[x] as int;
            if s < T {
                assert(s != l && s + 1 != l);
            }
        }
        if x == l && i < T {
            assert(m2.freq[i] == m.freq[i] && m2.freq[i + 1] == m.freq[i + 1]);
        }
        if x == c && j < T {
            assert(m2.freq[j] == m.freq[j] && m2.freq[j + 1] == m.freq[j + 1]);
        }
    }
    assert(m2.son[pl] == m.son[pl]);
    assert(m2.son[pl] < T) by {
        assert(parent_ok(m, l));
    }
    assert forall|x: int| 0 <= x < ROOT implies #[trigger] parent_ok(m2, x) by {
        assert(parent_ok(m, x));
        let p = m.prnt[x] as int;
        assert(node_ok(m, p));
        if x == i || (i < T && x == i + 1) {
        } else if x == j || (j < T && x == j + 1) {
        } else {
            assert(m2.prnt[x] == m.prnt[x]);
            assert(p != c && p != l);
        }
    }
    assert forall|s: int| 0 <= s < N_CHAR implies #[trigger] sym_ok(m2, s) by {
        assert(sym_ok(m, s));
        let y = s + T;
        let p = m.prnt[y] as int;
        assert(node_ok(m, p));
        if y == i {
        } else if y == j {
        } else {
            assert(m2.prnt[y] == m.prnt[y]);
            assert(p != c && p != l);
        }
    }
    assert(m2.prnt[ROOT as int] == 0);
    assert(m2.son[ROOT as int] == m.son[ROOT as int]);
    lemma_leaf_sum_two(m, m2, T as int, c, l);
}

/// One step of an update.
pub proof fn lemma_upd_iter(m: HuffModel, c: int)
    requires
        upd_inv(m, c),
    ensures
        ({
            let (m2, c2) = upd_iter(m, c);
            if c == ROOT {
                wf(m2) && c2 == 0
            } else {
                c < c2 < T && upd_inv(m2, c2)
            }
        }),
{
    if m.freq[c] + 1 <= m.freq[c + 1] {
        lemma_upd_iter_noswap(m, c);
    } else {
        lemma_upd_iter_swap(m, c);
    }
}

/// The whole walk up to the root ends in a valid tree.
pub proof fn lemma_upd_loop(m: HuffModel, c: int)
    requires
        upd_inv(m, c),
    ensures
        wf(upd_loop(m, c)),
    decreases T - c,
{
    lemma_upd_iter(m, c);
    let (m2, c2) = upd_iter(m, c);
    if c != ROOT {
        lemma_upd_loop(m2, c2);
    }
}

/// A valid tree below the rebuild limit is ready for an update of any symbol.
pub proof fn lemma_upd_start(m: HuffModel, sym: int)
    requires
        wf(m),
        m.freq[ROOT as int] < MAX_FREQ,
        0 <= sym < N_CHAR,
    ensures
        upd_inv(m, m.prnt[sym + T] as int),
{
    assert(sym_ok(m, sym));
    let c = m.prnt[sym + T] as int;
    assert forall|j: int| 0 <= j < T && j != c implies #[trigger] sum_ok(m, j) by {}
}

} // verus!

verus! {

// ---------------------------------------------------------------------------
// Proofs: the rebuild yields a valid tree below the limit
// ---------------------------------------------------------------------------

/// Sum of `freq[a..b]`.
pub open spec fn fsum(freq: Seq<u32>, a: int, b: int) -> int
    decreases b - a,
{
    if a >= b {
        0
    } else {
        freq[a] as int + fsum(freq, a + 1, b)
    }
}

pub proof fn lemma_fsum_back(freq: Seq<u32>, a: int, b: int)
    requires
        a <= b,
    ensures
        fsum(freq, a, b + 1) == fsum(freq, a, b) + freq[b] as int,
    decreases b - a,
{
    if a < b {
        lemma_fsum_back(freq, a + 1, b);
    } else {
        assert(fsum(freq, a + 1, b + 1) == 0);
    }
}

pub proof fn lemma_fsum_congr(f1: Seq<u32>, f2: Seq<u32>, a: int, b: int)
    requires
        forall|x: int| a <= x < b ==> f1[x] == f2[x],
    ensures
        fsum(f1, a, b) == fsum(f2, a, b),
    decreases b - a,
{
    if a < b {
        lemma_fsum_congr(f1, f2, a + 1, b);
    }
}

pub proof fn lemma_fsum_shift(f_old: Seq<u32>, f_new: Seq<u32>, a: int, b: int)
    requires
        forall|x: int| a <= x < b ==> f_new[x + 1] == f_old[x],
    ensures
        fsum(f_new, a + 1, b + 1) == fsum(f_old, a, b),
    decreases b - a,
{
    if a < b {
        lemma_fsum_shift(f_old, f_new, a + 1, b);
    }
}

/// Inserting `v` at position `kk` of the range `[a, j)` adds `v` to its sum.
pub proof fn lemma_fsum_insert(f_old: Seq<u32>, f_new: Seq<u32>, a: int, kk: int, j: int)
    requires
        a <= kk <= j,
        forall|x: int| a <= x < kk ==> f_new[x] == f_old[x],
        forall|x: int| kk < x <= j ==> f_new[x] == f_old[x - 1],
    ensures
        fsum(f_new, a, j + 1) == fsum(f_old, a, j) + f_new[kk] as int,
    decreases kk - a,
{
    if a < kk {
        lemma_fsum_insert(f_old, f_new, a + 1, kk, j);
    } else {
        lemma_fsum_shift(f_old, f_new, kk, j);
    }
}

pub proof fn lemma_fsum_elem(freq: Seq<u32>, a: int, b: int, x: int)
    requires
        a <= x < b,
    ensures
        freq[x] as int <= fsum(freq, a, b),
    decreases b - a,
{
    if a < x {
        lemma_fsum_elem(freq, a + 1, b, x);
    }
    lemma_fsum_nonneg(freq, a + 1, b);
}

pub proof fn lemma_fsum_nonneg(freq: Seq<u32>, a: int, b: int)
    ensures
        fsum(freq, a, b) >= 0,
    decreases b - a,
{
    if a < b {
        lemma_fsum_nonneg(freq, a + 1, b);
    }
}

/// Leaf sums agree where the leaf parts agree.
pub proof fn lemma_leaf_sum_congr(m: HuffModel, m2: HuffModel, n: int)
    requires
        forall|x: int| 0 <= x < n ==> leaf_part(m2, x) == leaf_part(m, x),
    ensures
        leaf_sum(m2, n) == leaf_sum(m, n),
    decreases n,
{
    if n > 0 {
        lemma_leaf_sum_congr(m, m2, n - 1);
    }
}

/// Inserting an inner node at position `kk` leaves the leaf sum unchanged.
pub proof fn lemma_leaf_sum_insert(m: HuffModel, m3: HuffModel, kk: int, n: int)
    requires
        0 <= kk < n,
        forall|x: int| 0 <= x < kk ==> leaf_part(m3, x) == leaf_part(m, x),
        leaf_part(m3, kk) == 0,
        forall|x: int| kk < x < n ==> leaf_part(m3, x) == leaf_part(m, x - 1),
    ensures
        leaf_sum(m3, n) == leaf_sum(m, n - 1),
    decreases n,
{
    if n - 1 > kk {
        lemma_leaf_sum_insert(m, m3, kk, n - 1);
    } else {
        lemma_leaf_sum_congr(m, m3, kk);
    }
}

/// Over a prefix of leaves the leaf sum is the plain sum of weights.
pub proof fn lemma_leaf_sum_all_leaves(m: HuffModel, n: int)
    requires
        0 <= n,
        forall|x: int| 0 <= x < n ==> m.son[x] >= T,
    ensures
        leaf_sum(m, n) == fsum(m.freq, 0, n),
    decreases n,
{
    if n > 0 {
        lemma_leaf_sum_all_leaves(m, n - 1);
        lemma_fsum_back(m.freq, 0, n - 1);
    }
}

pub proof fn lemma_search(freq: Seq<u32>, f: int, k: int)
    requires
        -1 <= k,
    ensures
        -1 <= search(freq, f, k) <= k,
        forall|x: int| search(freq, f, k) < x <= k ==> f < #[trigger] freq[x],
        search(freq, f, k) >= 0 ==> freq[search(freq, f, k)] <= f,
    decreases k + 1,
{
    if k >= 0 && f < freq[k] {
        lemma_search(freq, f, k - 1);
    }
}

/// Value `v` occurs in `s`.
pub open spec fn seq_has(s: Seq<usize>, v: int) -> bool {
    exists|x: int| 0 <= x < s.len() && s[x] == v
}

/// A duplicate-free sequence that lies in, and covers, `[lo, lo + n)` has
/// length `n`.
pub proof fn lemma_pigeon(s: Seq<usize>, lo: int, n: int)
    requires
        0 <= lo,
        0 <= n,
        s.no_duplicates(),
        forall|x: int| 0 <= x < s.len() ==> lo <= #[trigger] s[x] < lo + n,
        forall|v: int| lo <= v < lo + n ==> #[trigger] seq_has(s, v),
    ensures
        s.len() == n,
{
    let t = s.map_values(|v: usize| v as int);
    assert(t.no_duplicates()) by {
        assert forall|a: int, b: int| 0 <= a < t.len() && 0 <= b < t.len() && a != b implies t[a]
            != t[b] by {
            assert(s[a] != s[b]);
        }
    }
    t.unique_seq_to_set();
    vstd::set_lib::lemma_int_range(lo, lo + n);
    assert(t.to_set() =~= vstd::set_lib::set_int_range(lo, lo + n)) by {
        assert forall|v: int| t.to_set().contains(v) implies lo <= v < lo + n by {
            let x = choose|x: int| 0 <= x < t.len() && t[x] == v;
            assert(lo <= s[x] < lo + n);
        }
        assert forall|v: int| lo <= v < lo + n implies t.to_set().contains(v) by {
            assert(seq_has(s, v));
            let x = choose|x: int| 0 <= x < s.len() && s[x] == v;
            assert(t[x] == v);
            assert(t.contains(v));
        }
    }
}

} // verus!

verus! {

/// State of the compaction after scanning nodes `< i` and placing `j` leaves.
pub open spec fn compact_inv(m0: HuffModel, m: HuffModel, i: int, j: int) -> bool {
    &&& shape_ok(m)
    &&& m.prnt == m0.prnt
    &&& 0 <= j <= i <= T
    &&& forall|x: int| i <= x <= T ==> #[trigger] m.freq[x] == m0.freq[x]
    &&& forall|x: int| i <= x < T ==> #[trigger] m.son[x] == m0.son[x]
    &&& forall|y: int|
        0 <= y < j ==> T <= #[trigger] m.son[y] < T + N_CHAR && 1 <= m.freq[y] && 2 * m.freq[y]
            <= m0.freq[i] + 1 && m0.prnt[m.son[y] as int] < i
    &&& forall|a: int, b: int| 0 <= a <= b < j ==> #[trigger] m.freq[a] <= #[trigger] m.freq[b]
    &&& forall|a: int, b: int| 0 <= a < b < j ==> #[trigger] m.son[a] != #[trigger] m.son[b]
    &&& forall|s: int|
        0 <= s < N_CHAR && m0.prnt[s + T] < i ==> #[trigger] seq_has(m.son.subrange(0, j), s + T)
    &&& 2 * fsum(m.freq, 0, j) <= leaf_sum(m0, i) + j
}

pub proof fn lemma_compact_step(m0: HuffModel, m: HuffModel, i: int, j: int)
    requires
        wf(m0),
        compact_inv(m0, m, i, j),
        i < T,
    ensures
        compact_inv(m0, compact_next(m, i, j).0, i + 1, compact_next(m, i, j).1),
{
    {
        assert(node_ok(m0, i));
        lemma_sorted_facts(m0, i, i + 1);
        if m.son[i] >= T {
            let v = ((m.freq[i] + 1) / 2) as u32;
            let m2 = HuffModel {
                freq: m.freq.update(j, v),
                prnt: m.prnt,
                son: m.son.update(j, m.son[i]),
            };
            assert(m0.freq[i] >= 1);
            assert(m0.freq[i] <= m0.freq[T as int]) by {
                lemma_sorted_facts(m0, i, T as int);
            }
            assert forall|y: int| 0 <= y < j + 1 implies T <= #[trigger] m2.son[y] < T + N_CHAR
                && 1 <= m2.freq[y] && 2 * m2.freq[y] <= m0.freq[i + 1] + 1 && m0.prnt[m2.son[y] as int]
                < i + 1 by {
                if y < j {
                    assert(T <= m.son[y]);
                } else {
                    assert(m.son[i] == m0.son[i]);
                    assert(m.freq[i] == m0.freq[i]);
                }
            }
            assert forall|a: int, b: int| 0 <= a <= b < j + 1 implies #[trigger] m2.freq[a]
                <= #[trigger] m2.freq[b] by {
                if b == j && a < j {
                    assert(T <= m.son[a]);
                    assert(2 * m.freq[a] <= m0.freq[i] + 1);
                }
            }
            assert forall|a: int, b: int| 0 <= a < b < j + 1 implies #[trigger] m2.son[a]
                != #[trigger] m2.son[b] by {
                if b == j {
                    assert(T <= m.son[a]);
                    assert(m0.prnt[m.son[a] as int] < i);
                }
            }
            assert forall|s: int| 0 <= s < N_CHAR && m0.prnt[s + T] < i + 1 implies #[trigger] seq_has(
                m2.son.subrange(0, j + 1),
                s + T,
            ) by {
                if m0.prnt[s + T] == i {
                    assert(sym_ok(m0, s));
                    assert(m2.son.subrange(0, j + 1)[j] == s + T);
                } else {
                    assert(seq_has(m.son.subrange(0, j), s + T));
                    let x = choose|x: int| 0 <= x < j && m.son.subrange(0, j)[x] == s + T;
                    assert(m2.son.subrange(0, j + 1)[x] == s + T);
                }
            }
            lemma_fsum_congr(m.freq, m2.freq, 0, j);
            lemma_fsum_back(m2.freq, 0, j);
            assert(compact_inv(m0, m2, i + 1, j + 1));
        } else {
            assert forall|s: int| 0 <= s < N_CHAR && m0.prnt[s + T] < i + 1 implies #[trigger] seq_has(
                m.son.subrange(0, j),
                s + T,
            ) by {
                assert(sym_ok(m0, s));
            }
            assert(compact_inv(m0, m, i + 1, j));
        }
    }
}

pub proof fn lemma_compact(m0: HuffModel, m: HuffModel, i: int, j: int)
    requires
        wf(m0),
        compact_inv(m0, m, i, j),
    ensures
        compact_inv(m0, compact(m, i, j).0, T as int, compact(m, i, j).1),
    decreases T - i,
{
    if i < T {
        lemma_compact_step(m0, m, i, j);
        let (m2, j2) = compact_next(m, i, j);
        lemma_compact(m0, m2, i + 1, j2);
    }
}

/// After compaction exactly the `N_CHAR` leaves sit at the front.
pub proof fn lemma_compact_done(m0: HuffModel)
    requires
        wf(m0),
    ensures
        compact(m0, 0, 0).1 == N_CHAR,
        compact_inv(m0, compact(m0, 0, 0).0, T as int, N_CHAR as int),
        2 * fsum(compact(m0, 0, 0).0.freq, 0, N_CHAR as int) <= MAX_FREQ + N_CHAR,
{
    assert(compact_inv(m0, m0, 0, 0));
    lemma_compact(m0, m0, 0, 0);
    let (mc, jc) = compact(m0, 0, 0);
    let s = mc.son.subrange(0, jc);
    assert(s.no_duplicates()) by {
        assert forall|a: int, b: int| 0 <= a < s.len() && 0 <= b < s.len() && a != b implies s[a]
            != s[b] by {
            if a < b {
                assert(mc.son[a] != mc.son[b]);
            } else {
                assert(mc.son[b] != mc.son[a]);
            }
        }
    }
    assert forall|x: int| 0 <= x < s.len() implies T <= #[trigger] s[x] < T + N_CHAR by {
        assert(T <= mc.son[x] < T + N_CHAR);
    }
    assert forall|v: int| T <= v < T + N_CHAR implies #[trigger] seq_has(s, v) by {
        assert(sym_ok(m0, v - T));
        assert(seq_has(mc.son.subrange(0, jc), (v - T) + T));
    }
    lemma_pigeon(s, T as int, N_CHAR as int);
}

} // verus!

verus! {

/// Node `x` during the rebuild: a leaf, or an inner node whose (even) left
/// child has already been joined (`< i`), which lies below it, and whose
/// weight is the sum of its children.
pub open spec fn build_node_ok(m: HuffModel, x: int, i: int) -> bool {
    if m.son[x] >= T {
        m.son[x] < T + N_CHAR
    } else {
        &&& m.son[x] % 2 == 0
        &&& m.son[x] + 1 < i
        &&& m.son[x] + 1 < x
        &&& m.freq[x] == m.freq[m.son[x] as int] + m.freq[m.son[x] + 1]
    }
}

/// State of the rebuild before joining nodes `i` and `i + 1` into node `j`;
/// `s_tot` is the total (halved) weight.
pub open spec fn build_inv(m: HuffModel, i: int, j: int, s_tot: int) -> bool {
    &&& shape_ok(m)
    &&& m.freq[T as int] == 0xFFFF
    &&& N_CHAR <= j <= T
    &&& i == 2 * (j - N_CHAR)
    &&& forall|a: int, b: int| 0 <= a <= b < j ==> #[trigger] m.freq[a] <= #[trigger] m.freq[b]
    &&& forall|x: int| 0 <= x < j ==> 1 <= #[trigger] m.freq[x] <= s_tot
    &&& forall|x: int| 0 <= x < j ==> #[trigger] build_node_ok(m, x, i)
    &&& forall|a: int, b: int| 0 <= a < b < j ==> #[trigger] m.son[a] != #[trigger] m.son[b]
    &&& forall|s: int| 0 <= s < N_CHAR ==> #[trigger] seq_has(m.son.subrange(0, j), s + T)
    &&& forall|e: int| 0 <= e < i && e % 2 == 0 ==> #[trigger] seq_has(m.son.subrange(0, j), e)
    &&& fsum(m.freq, i, j) == s_tot
    &&& leaf_sum(m, j) == s_tot
    &&& (j == T ==> m.son[ROOT as int] < T)
    &&& s_tot < MAX_FREQ
}

#[verifier::rlimit(80)]
pub proof fn lemma_build_step(m: HuffModel, i: int, j: int, s_tot: int)
    requires
        build_inv(m, i, j, s_tot),
        j < T,
    ensures
        build_inv(build_step(m, i, j), i + 2, j + 1, s_tot),
{
    assert(i + 1 <= j - 1);
    let f = m.freq[i] + m.freq[i + 1];
    assert(m.freq[i] >= 1 && m.freq[i + 1] >= 1);
    assert(fsum(m.freq, i + 1, j) == m.freq[i + 1] + fsum(m.freq, i + 2, j));
    assert(fsum(m.freq, i, j) == m.freq[i] + fsum(m.freq, i + 1, j));
    lemma_fsum_nonneg(m.freq, i + 2, j);
    assert(f <= s_tot);
    let freq1 = m.freq.update(j, f as u32);
    lemma_search(freq1, f, j - 1);
    let r = search(freq1, f, j - 1);
    assert(r >= i + 1) by {
        if r < i + 1 {
            assert(f < freq1[i + 1]);
        }
    }
    let kk = r + 1;
    let m3 = build_step(m, i, j);
    assert(m3.freq == shift_up(freq1, kk, j).update(kk, f as u32));
    assert(m3.son == shift_up(m.son, kk, j).update(kk, i as usize));
    assert(m3.prnt == m.prnt);
    assert(i + 2 <= kk <= j);
    // where each new position came from
    assert forall|x: int| 0 <= x < kk implies #[trigger] m3.freq[x] == m.freq[x] && m3.son[x]
        == m.son[x] by {}
    assert(m3.freq[kk] == f && m3.son[kk] == i);
    assert forall|x: int| kk < x <= j implies #[trigger] m3.freq[x] == m.freq[x - 1] && m3.son[x]
        == m.son[x - 1] by {}
    assert(m3.freq[T as int] == 0xFFFF);
    assert(shape_ok(m3));
    // all nodes kept so far are heavier than f from position kk on
    assert forall|x: int| kk <= x < j implies f < #[trigger] m.freq[x] by {
        assert(f < freq1[x]);
    }
    assert(m.freq[r] <= f) by {
        assert(freq1[r] <= f);
    }
    assert forall|a: int, b: int| 0 <= a <= b < j + 1 implies #[trigger] m3.freq[a]
        <= #[trigger] m3.freq[b] by {
        if a < kk && b < kk {
            assert(m.freq[a] <= m.freq[b]);
        } else if a < kk && b == kk {
            assert(m.freq[a] <= m.freq[r]);
        } else if a < kk {
            assert(m.freq[a] <= m.freq[b - 1]);
        } else if a == kk && b > kk {
            assert(f < m.freq[b - 1]);
        } else if a > kk {
            assert(m.freq[a - 1] <= m.freq[b - 1]);
        }
    }
    assert forall|x: int| 0 <= x < j + 1 implies 1 <= #[trigger] m3.freq[x] <= s_tot by {
        if x < kk {
            assert(1 <= m.freq[x] <= s_tot);
        } else if x > kk {
            assert(1 <= m.freq[x - 1] <= s_tot);
        }
    }
    assert forall|x: int| 0 <= x < j + 1 implies #[trigger] build_node_ok(m3, x, i + 2) by {
        if x < kk {
            assert(build_node_ok(m, x, i));
            if m.son[x] < T {
                assert(m3.freq[m.son[x] as int] == m.freq[m.son[x] as int]);
                assert(m3.freq[m.son[x] + 1] == m.freq[m.son[x] + 1]);
            }
        } else if x > kk {
            assert(build_node_ok(m, x - 1, i));
            if m.son[x - 1] < T {
                assert(m3.freq[m.son[x - 1] as int] == m.freq[m.son[x - 1] as int]);
                assert(m3.freq[m.son[x - 1] + 1] == m.freq[m.son[x - 1] + 1]);
            }
        } else {
            assert(m3.freq[i] == m.freq[i] && m3.freq[i + 1] == m.freq[i + 1]);
        }
    }
    // the new left child i differs from every existing child pointer
    assert forall|x: int| 0 <= x < j implies #[trigger] m.son[x] != i by {
        assert(build_node_ok(m, x, i));
    }
    assert forall|a: int, b: int| 0 <= a < b < j + 1 implies #[trigger] m3.son[a]
        != #[trigger] m3.son[b] by {
        if a < kk && b < kk {
            assert(m.son[a] != m.son[b]);
        } else if a < kk && b == kk {
            assert(m.son[a] != i);
        } else if a < kk {
            assert(m.son[a] != m.son[b - 1]);
        } else if a == kk {
            assert(m.son[b - 1] != i);
        } else {
            assert(m.son[a - 1] != m.son[b - 1]);
        }
    }
    let sub = m.son.subrange(0, j);
    let sub3 = m3.son.subrange(0, j + 1);
    assert forall|v: int| #[trigger] seq_has(sub, v) implies seq_has(sub3, v) by {
        let x = choose|x: int| 0 <= x < sub.len() && sub[x] == v;
        if x < kk {
            assert(sub3[x] == v);
        } else {
            assert(sub3[x + 1] == v);
        }
    }
    assert forall|s: int| 0 <= s < N_CHAR implies #[trigger] seq_has(m3.son.subrange(0, j + 1), s + T) by {
        assert(seq_has(sub, s + T));
    }
    assert forall|e: int| 0 <= e < i + 2 && e % 2 == 0 implies #[trigger] seq_has(
        m3.son.subrange(0, j + 1),
        e,
    ) by {
        if e < i {
            assert(seq_has(sub, e));
        } else {
            assert(e == i);
            assert(sub3[kk] == e);
        }
    }
    // sums
    lemma_fsum_insert(m.freq, m3.freq, i + 2, kk, j);
    assert(fsum(m3.freq, i + 2, j + 1) == s_tot);
    assert forall|x: int| 0 <= x < kk implies leaf_part(m3, x) == leaf_part(m, x) by {}
    assert forall|x: int| kk < x < j + 1 implies leaf_part(m3, x) == leaf_part(m, x - 1) by {}
    lemma_leaf_sum_insert(m, m3, kk, j + 1);
    if j + 1 == T {
        assert(kk == ROOT);
    }
}

pub proof fn lemma_build(m: HuffModel, i: int, j: int, s_tot: int)
    requires
        build_inv(m, i, j, s_tot),
    ensures
        build_inv(build(m, i, j), ROOT as int, T as int, s_tot),
        build(m, i, j).prnt == m.prnt,
    decreases T - j,
{
    if j < T {
        lemma_build_step(m, i, j, s_tot);
        lemma_build(build_step(m, i, j), i + 2, j + 1, s_tot);
    }
}

} // verus!

verus! {

pub open spec fn relink_inv(mb: HuffModel, m: HuffModel, i: int) -> bool {
    &&& m.freq == mb.freq
    &&& m.son == mb.son
    &&& m.prnt.len() == mb.prnt.len()
    &&& 0 <= i <= T
    &&& forall|y: int|
        0 <= y < i ==> m.prnt[#[trigger] m.son[y] as int] == y && (m.son[y] < T ==> m.prnt[m.son[y]
            + 1] == y)
    &&& m.prnt[ROOT as int] == mb.prnt[ROOT as int]
}

pub proof fn lemma_relink(mb: HuffModel, m: HuffModel, i: int, s_tot: int)
    requires
        build_inv(mb, ROOT as int, T as int, s_tot),
        mb.prnt.len() == T + N_CHAR,
        relink_inv(mb, m, i),
    ensures
        relink_inv(mb, relink(m, i), T as int),
    decreases T - i,
{
    if i < T {
        let k = m.son[i];
        assert(build_node_ok(mb, i, ROOT as int));
        let p1 = m.prnt.update(k as int, i as usize);
        let p2 = if k < T { p1.update(k + 1, i as usize) } else { p1 };
        let m2 = HuffModel { freq: m.freq, prnt: p2, son: m.son };
        assert forall|y: int| 0 <= y < i + 1 implies m2.prnt[#[trigger] m2.son[y] as int] == y && (
        m2.son[y] < T ==> m2.prnt[m2.son[y] + 1] == y) by {
            if y < i {
                assert(mb.son[y] != mb.son[i]);
                assert(build_node_ok(mb, y, ROOT as int));
            }
        }
        assert(relink_inv(mb, m2, i + 1));
        lemma_relink(mb, m2, i + 1, s_tot);
    }
}

/// The rebuild turns a valid tree at the limit into a valid tree below it.
pub proof fn lemma_reconst(m: HuffModel)
    requires
        wf(m),
    ensures
        wf(reconst(m)),
        reconst(m).freq[ROOT as int] < MAX_FREQ,
{
    lemma_compact_done(m);
    let mc = compact(m, 0, 0).0;
    let s_tot = fsum(mc.freq, 0, N_CHAR as int);
    assert forall|x: int| 0 <= x < N_CHAR implies 1 <= #[trigger] mc.freq[x] <= s_tot by {
        assert(T <= mc.son[x]);
        lemma_fsum_elem(mc.freq, 0, N_CHAR as int, x);
    }
    assert forall|x: int| 0 <= x < N_CHAR implies #[trigger] build_node_ok(mc, x, 0) by {
        assert(T <= mc.son[x]);
    }
    assert forall|s: int| 0 <= s < N_CHAR implies #[trigger] seq_has(
        mc.son.subrange(0, N_CHAR as int),
        s + T,
    ) by {
        assert(sym_ok(m, s));
    }
    assert forall|x: int| 0 <= x < N_CHAR implies mc.son[x] >= T by {
        assert(T <= mc.son[x]);
    }
    lemma_leaf_sum_all_leaves(mc, N_CHAR as int);
    assert(build_inv(mc, 0, N_CHAR as int, s_tot));
    lemma_build(mc, 0, N_CHAR as int, s_tot);
    let mb = build(mc, 0, N_CHAR as int);
    assert(relink_inv(mb, mb, 0));
    lemma_relink(mb, mb, 0, s_tot);
    let mr = relink(mb, 0);
    assert(mr == reconst(m));
    assert(mr.freq[ROOT as int] == s_tot) by {
        assert(fsum(mb.freq, ROOT as int, T as int) == mb.freq[ROOT as int] + fsum(
            mb.freq,
            T as int,
            T as int,
        ));
    }
    assert(sorted(mr)) by {
        assert forall|a: int, b: int| 0 <= a <= b <= T implies #[trigger] mr.freq[a]
            <= #[trigger] mr.freq[b] by {
            if b < T {
                assert(mb.freq[a] <= mb.freq[b]);
            } else if a < T {
                assert(mb.freq[a] <= s_tot);
            }
        }
    }
    assert forall|j: int| 0 <= j < T implies #[trigger] mr.freq[j] >= 1 by {
        assert(1 <= mb.freq[j]);
    }
    assert forall|j: int| 0 <= j < T implies #[trigger] node_ok(mr, j) by {
        assert(build_node_ok(mb, j, ROOT as int));
        assert(mr.prnt[mr.son[j] as int] == j);
    }
    assert forall|j: int| 0 <= j < T implies #[trigger] sum_ok(mr, j) by {
        assert(build_node_ok(mb, j, ROOT as int));
    }
    assert forall|x: int| 0 <= x < ROOT implies #[trigger] parent_ok(mr, x) by {
        let e = x - x % 2;
        assert(seq_has(mb.son.subrange(0, T as int), e));
        let y = choose|y: int| 0 <= y < T && mb.son.subrange(0, T as int)[y] == e;
        assert(mr.son[y] == e);
        assert(mr.prnt[mr.son[y] as int] == y);
    }
    assert forall|s: int| 0 <= s < N_CHAR implies #[trigger] sym_ok(mr, s) by {
        assert(seq_has(mb.son.subrange(0, T as int), s + T));
        let y = choose|y: int| 0 <= y < T && mb.son.subrange(0, T as int)[y] == s + T;
        assert(mr.son[y] == s + T);
        assert(mr.prnt[mr.son[y] as int] == y);
    }
    lemma_leaf_sum_congr(mb, mr, T as int);
}

/// One update of a valid tree gives a valid tree.
pub proof fn lemma_upd(m: HuffModel, sym: int)
    requires
        wf(m),
        0 <= sym < N_CHAR,
    ensures
        wf(upd(m, sym)),
{
    let m0 = if m.freq[ROOT as int] == MAX_FREQ {
        lemma_reconst(m);
        reconst(m)
    } else {
        m
    };
    lemma_upd_start(m0, sym);
    lemma_upd_loop(m0, m0.prnt[sym + T] as int);
}

} // verus!

verus! {

// ---------------------------------------------------------------------------
// The initial tree
// ---------------------------------------------------------------------------

/// All symbols as leaves of weight 1 in nodes `0 .. N_CHAR`.
pub open spec fn init_leaves() -> HuffModel {
    HuffModel {
        freq: Seq::new((T + 1) as nat, |x: int| if x < N_CHAR { 1u32 } else { 0u32 }),
        prnt: Seq::new((T + N_CHAR) as nat, |x: int| if x >= T { (x - T) as usize } else { 0usize }),
        son: Seq::new(T as nat, |x: int| if x < N_CHAR { (x + T) as usize } else { 0usize }),
    }
}

/// Join nodes `i, i + 1` into node `j`.
pub open spec fn init_next(m: HuffModel, i: int, j: int) -> HuffModel {
    HuffModel {
        freq: m.freq.update(j, (m.freq[i] + m.freq[i + 1]) as u32),
        prnt: m.prnt.update(i, j as usize).update(i + 1, j as usize),
        son: m.son.update(j, i as usize),
    }
}

/// Join pairs of nodes for `j = N_CHAR ..= ROOT`.
pub open spec fn init_join(m: HuffModel, i: int, j: int) -> HuffModel
    decreases T - j,
{
    if j >= T {
        m
    } else {
        init_join(init_next(m, i, j), i + 2, j + 1)
    }
}

/// The tree the decoder starts from.
pub open spec fn init_model() -> HuffModel {
    let m = init_join(init_leaves(), 0, N_CHAR as int);
    HuffModel {
        freq: m.freq.update(T as int, 0xFFFFu32),
        prnt: m.prnt.update(ROOT as int, 0usize),
        son: m.son,
    }
}

pub open spec fn init_inv(m: HuffModel, i: int, j: int) -> bool {
    &&& shape_ok(m)
    &&& N_CHAR <= j <= T
    &&& i == 2 * (j - N_CHAR)
    &&& forall|a: int, b: int| 0 <= a <= b < j ==> #[trigger] m.freq[a] <= #[trigger] m.freq[b]
    &&& forall|x: int| 0 <= x < j ==> 1 <= #[trigger] m.freq[x] <= N_CHAR
    &&& forall|x: int|
        0 <= x < N_CHAR ==> #[trigger] m.son[x] == x + T && m.prnt[x + T] == x && m.freq[x] == 1
    &&& forall|x: int|
        N_CHAR <= x < j ==> #[trigger] m.son[x] == 2 * (x - N_CHAR) && m.freq[x] == m.freq[2 * (x
            - N_CHAR)] + m.freq[2 * (x - N_CHAR) + 1]
    &&& forall|y: int| 0 <= y < i ==> #[trigger] m.prnt[y] == N_CHAR + y / 2
    &&& m.prnt[ROOT as int] == 0
    &&& fsum(m.freq, i, j) == N_CHAR
    &&& leaf_sum(m, j) == N_CHAR
}

pub proof fn lemma_init_step(m: HuffModel, i: int, j: int)
    requires
        init_inv(m, i, j),
        j < T,
    ensures
        init_inv(init_next(m, i, j), i + 2, j + 1),
{
    {
        let f = m.freq[i] + m.freq[i + 1];
        assert(fsum(m.freq, i + 1, j) == m.freq[i + 1] + fsum(m.freq, i + 2, j));
        assert(fsum(m.freq, i, j) == m.freq[i] + fsum(m.freq, i + 1, j));
        lemma_fsum_nonneg(m.freq, i + 2, j);
        let m2 = HuffModel {
            freq: m.freq.update(j, f as u32),
            prnt: m.prnt.update(i, j as usize).update(i + 1, j as usize),
            son: m.son.update(j, i as usize),
        };
        assert(f >= m.freq[j - 1]) by {
            if j - 1 >= N_CHAR {
                assert(m.son[j - 1] == 2 * (j - 1 - N_CHAR));
                assert(m.freq[i - 2] <= m.freq[i]);
                assert(m.freq[i - 1] <= m.freq[i + 1]);
            } else {
                assert(m.son[j - 1] == j - 1 + T);
                assert(m.freq[i] >= 1);
            }
        }
        assert forall|a: int, b: int| 0 <= a <= b < j + 1 implies #[trigger] m2.freq[a]
            <= #[trigger] m2.freq[b] by {
            if b == j && a < j {
                assert(m.freq[a] <= m.freq[j - 1]);
            } else if b < j {
                assert(m.freq[a] <= m.freq[b]);
            }
        }
        assert forall|x: int| 0 <= x < j + 1 implies 1 <= #[trigger] m2.freq[x] <= N_CHAR by {
            if x < j {
                assert(1 <= m.freq[x]);
            }
        }
        assert forall|x: int| 0 <= x < N_CHAR implies #[trigger] m2.son[x] == x + T && m2.prnt[x
            + T] == x && m2.freq[x] == 1 by {
            assert(m.son[x] == x + T);
        }
        assert forall|x: int| N_CHAR <= x < j + 1 implies #[trigger] m2.son[x] == 2 * (x - N_CHAR)
            && m2.freq[x] == m2.freq[2 * (x - N_CHAR)] + m2.freq[2 * (x - N_CHAR) + 1] by {
            if x < j {
                assert(m.son[x] == 2 * (x - N_CHAR));
            }
        }
        assert forall|y: int| 0 <= y < i + 2 implies #[trigger] m2.prnt[y] == N_CHAR + y / 2 by {
            if y < i {
                assert(m.prnt[y] == N_CHAR + y / 2);
            }
        }
        lemma_fsum_congr(m.freq, m2.freq, i + 2, j);
        lemma_fsum_back(m2.freq, i + 2, j);
        assert forall|x: int| 0 <= x < j implies leaf_part(m2, x) == leaf_part(m, x) by {}
        lemma_leaf_sum_congr(m, m2, j);
        assert(leaf_part(m2, j) == 0);
        assert(init_inv(m2, i + 2, j + 1));
    }
}

pub proof fn lemma_init_join(m: HuffModel, i: int, j: int)
    requires
        init_inv(m, i, j),
    ensures
        init_inv(init_join(m, i, j), ROOT as int, T as int),
    decreases T - j,
{
    if j < T {
        lemma_init_step(m, i, j);
        lemma_init_join(init_next(m, i, j), i + 2, j + 1);
    }
}

pub proof fn lemma_init_wf()
    ensures
        wf(init_model()),
        init_model().freq[ROOT as int] == N_CHAR,
{
    let m0 = init_leaves();
    assert forall|x: int| 0 <= x < N_CHAR implies m0.son[x] >= T by {}
    lemma_leaf_sum_all_leaves(m0, N_CHAR as int);
    assert(fsum(m0.freq, 0, N_CHAR as int) == N_CHAR) by {
        lemma_fsum_ones(m0.freq, 0, N_CHAR as int);
    }
    assert(init_inv(m0, 0, N_CHAR as int));
    lemma_init_join(m0, 0, N_CHAR as int);
    let mj = init_join(m0, 0, N_CHAR as int);
    let m = init_model();
    assert(fsum(mj.freq, ROOT as int, T as int) == mj.freq[ROOT as int] + fsum(
        mj.freq,
        T as int,
        T as int,
    ));
    assert(m.freq[ROOT as int] == N_CHAR);
    assert(sorted(m)) by {
        assert forall|a: int, b: int| 0 <= a <= b <= T implies #[trigger] m.freq[a]
            <= #[trigger] m.freq[b] by {
            if b < T {
                assert(mj.freq[a] <= mj.freq[b]);
            } else if a < T {
                assert(mj.freq[a] <= N_CHAR);
            }
        }
    }
    assert forall|j: int| 0 <= j < T implies #[trigger] m.freq[j] >= 1 by {
        assert(1 <= mj.freq[j]);
    }
    assert forall|j: int| 0 <= j < T implies #[trigger] node_ok(m, j) && sum_ok(m, j) by {
        if j < N_CHAR {
            assert(mj.son[j] == j + T);
        } else {
            assert(mj.son[j] == 2 * (j - N_CHAR));
            assert(mj.prnt[2 * (j - N_CHAR)] == N_CHAR + (2 * (j - N_CHAR)) / 2);
            assert(mj.prnt[2 * (j - N_CHAR) + 1] == N_CHAR + (2 * (j - N_CHAR) + 1) / 2);
        }
    }
    assert forall|j: int| 0 <= j < T implies #[trigger] sum_ok(m, j) by {
        assert(node_ok(m, j) && sum_ok(m, j));
    }
    assert forall|x: int| 0 <= x < ROOT implies #[trigger] parent_ok(m, x) by {
        assert(mj.prnt[x] == N_CHAR + x / 2);
        assert(mj.son[N_CHAR + x / 2] == 2 * (x / 2));
    }
    assert forall|s: int| 0 <= s < N_CHAR implies #[trigger] sym_ok(m, s) by {
        assert(mj.son[s] == s + T);
    }
    assert(mj.son[ROOT as int] == 2 * (ROOT - N_CHAR));
    lemma_leaf_sum_congr(mj, m, T as int);
}

pub proof fn lemma_fsum_ones(freq: Seq<u32>, a: int, b: int)
    requires
        a <= b,
        forall|x: int| a <= x < b ==> freq[x] == 1,
    ensures
        fsum(freq, a, b) == b - a,
    decreases b - a,
{
    if a < b {
        lemma_fsum_ones(freq, a + 1, b);
    }
}

} // verus!

verus! {

// ---------------------------------------------------------------------------
// Decoding one symbol
// ---------------------------------------------------------------------------

/// Walk down from the child pair at `c`, one bit per level, until a leaf code
/// (`>= T`) is reached.  Returns the leaf code and the next bit position.
pub open spec fn walk(son: Seq<usize>, data: Seq<u8>, p: int, c: int) -> (int, int)
    decreases c,
{
    if c < 0 || c >= T {
        (c, p)
    } else {
        let c2 = son[c + bit_at(data, p) as int] as int;
        if c2 >= T || c2 >= c {
            (c2, p + 1)
        } else {
            walk(son, data, p + 1, c2)
        }
    }
}

/// Decode one symbol from bit `p` and count it.  Returns the symbol, the
/// updated tree and the next bit position.
pub open spec fn decode_char_spec(m: HuffModel, data: Seq<u8>, p: int) -> (int, HuffModel, int) {
    let (leaf, p2) = walk(m.son, data, p, m.son[ROOT as int] as int);
    let sym = leaf - T;
    (sym, upd(m, sym), p2)
}

pub proof fn lemma_walk(m: HuffModel, data: Seq<u8>, p: int, c: int)
    requires
        wf(m),
        0 <= c,
        c < T ==> c + 1 < T,
        c >= T ==> c < T + N_CHAR,
    ensures
        T <= walk(m.son, data, p, c).0 < T + N_CHAR,
        walk(m.son, data, p, c).1 >= p,
        c < T ==> walk(m.son, data, p, c).1 > p,
    decreases c,
{
    if c < T {
        let x = c + bit_at(data, p) as int;
        crate::bits::lemma_bit_at_range(data, p);
        assert(node_ok(m, x));
        let c2 = m.son[x] as int;
        if c2 < T {
            lemma_walk(m, data, p + 1, c2);
        }
    }
}

/// What one decoded symbol satisfies: it is a symbol, the tree stays valid
/// and at least one bit was read.
pub proof fn lemma_decode_char(m: HuffModel, data: Seq<u8>, p: int)
    requires
        wf(m),
    ensures
        0 <= decode_char_spec(m, data, p).0 < N_CHAR,
        wf(decode_char_spec(m, data, p).1),
        decode_char_spec(m, data, p).2 > p,
{
    assert(node_ok(m, ROOT as int));
    lemma_walk(m, data, p, m.son[ROOT as int] as int);
    lemma_upd(m, walk(m.son, data, p, m.son[ROOT as int] as int).0 - T);
}

// ---------------------------------------------------------------------------
// The executable tree
// ---------------------------------------------------------------------------

pub struct Huff {
    pub freq: Vec<u32>,
    pub prnt: Vec<usize>,
    pub son: Vec<usize>,
}

impl View for Huff {
    type V = HuffModel;

    open spec fn view(&self) -> HuffModel {
        HuffModel { freq: self.freq@, prnt: self.prnt@, son: self.son@ }
    }
}

impl Huff {
    /// The initial tree: every symbol has weight 1.
    pub fn new() -> (h: Self)
        ensures
            h@ == init_model(),
            wf(h@),
    {
        let mut freq: Vec<u32> = vec![0u32; T + 1];
        let mut prnt: Vec<usize> = vec![0usize; T + N_CHAR];
        let mut son: Vec<usize> = vec![0usize; T];
        let ghost lv = init_leaves();
        for i in 0..N_CHAR
            invariant
                freq@.len() == T + 1 && prnt@.len() == T + N_CHAR && son@.len() == T,
                forall|x: int| 0 <= x <= T ==> #[trigger] freq@[x] == if x < i { 1u32 } else { 0u32 },
                forall|x: int| 0 <= x < T ==> #[trigger] son@[x] == if x < i { (x + T) as usize } else { 0usize },
                forall|x: int|
                    0 <= x < T + N_CHAR ==> #[trigger] prnt@[x] == if T <= x < T + i { (x - T) as usize } else { 0usize },
        {
            freq.set(i, 1);
            son.set(i, i + T);
            prnt.set(i + T, i);
        }
        let mut h = Huff { freq, prnt, son };
        assert(h@.freq =~= lv.freq);
        assert(h@.son =~= lv.son);
        assert(h@.prnt =~= lv.prnt);
        let mut i: usize = 0;
        let mut j: usize = N_CHAR;
        proof {
            assert forall|x: int| 0 <= x < N_CHAR implies lv.son[x] >= T by {}
            lemma_leaf_sum_all_leaves(lv, N_CHAR as int);
            lemma_fsum_ones(lv.freq, 0, N_CHAR as int);
        }
        while j <= ROOT
            invariant
                init_inv(h@, i as int, j as int),
                init_join(h@, i as int, j as int) == init_join(lv, 0, N_CHAR as int),
            decreases T - j,
        {
            proof {
                lemma_init_step(h@, i as int, j as int);
            }
            let f = h.freq[i] + h.freq[i + 1];
            h.freq.set(j, f);
            h.son.set(j, i);
            h.prnt.set(i, j);
            h.prnt.set(i + 1, j);
            i = i + 2;
            j = j + 1;
        }
        h.freq.set(T, 0xFFFF);
        h.prnt.set(ROOT, 0);
        proof {
            lemma_init_wf();
        }
        h
    }
}

} // verus!

verus! {

impl Huff {
    /// Rebuild the tree with every symbol weight halved, rounding up
    /// (`update` does so when the root reaches the limit).
    pub fn reconst(&mut self)
        requires
            wf(old(self)@),
        ensures
            final(self)@ == reconst(old(self)@),
            wf(final(self)@),
            final(self)@.freq[ROOT as int] < MAX_FREQ,
            forall|s: int|
                0 <= s < N_CHAR ==> #[trigger] weight(final(self)@, s) == (weight(old(self)@, s) + 1) / 2,
    {
        let ghost m0 = self@;
        proof {
            lemma_reconst_weights(m0);
            lemma_reconst(m0);
            lemma_compact_done(m0);
            assert(compact_inv(m0, m0, 0, 0));
        }
        // leaves to the front, halved
        let mut j: usize = 0;
        let mut i: usize = 0;
        while i < T
            invariant
                compact_inv(m0, self@, i as int, j as int),
                compact(self@, i as int, j as int) == compact(m0, 0, 0),
                wf(m0),
            decreases T - i,
        {
            proof {
                lemma_compact_step(m0, self@, i as int, j as int);
                assert(self@.freq[i as int] == m0.freq[i as int]);
                lemma_sorted_facts(m0, i as int, ROOT as int);
            }
            if self.son[i] >= T {
                let v = (self.freq[i] + 1) / 2;
                self.freq.set(j, v);
                let s = self.son[i];
                self.son.set(j, s);
                j = j + 1;
            }
            i = i + 1;
        }
        let ghost mc = self@;
        let ghost s_tot = fsum(mc.freq, 0, N_CHAR as int);
        proof {
            assert(j == N_CHAR);
            assert forall|x: int| 0 <= x < N_CHAR implies 1 <= #[trigger] mc.freq[x] <= s_tot by {
                assert(T <= mc.son[x]);
                lemma_fsum_elem(mc.freq, 0, N_CHAR as int, x);
            }
            assert forall|x: int| 0 <= x < N_CHAR implies #[trigger] build_node_ok(mc, x, 0) by {
                assert(T <= mc.son[x]);
            }
            assert forall|s: int| 0 <= s < N_CHAR implies #[trigger] seq_has(
                mc.son.subrange(0, N_CHAR as int),
                s + T,
            ) by {
                assert(sym_ok(m0, s));
            }
            assert forall|x: int| 0 <= x < N_CHAR implies mc.son[x] >= T by {
                assert(T <= mc.son[x]);
            }
            lemma_leaf_sum_all_leaves(mc, N_CHAR as int);
            assert(build_inv(mc, 0, N_CHAR as int, s_tot));
        }
        // join pairs and insert them by weight
        let mut i: usize = 0;
        let mut j: usize = N_CHAR;
        while j < T
            invariant
                build_inv(self@, i as int, j as int, s_tot),
                build(self@, i as int, j as int) == build(mc, 0, N_CHAR as int),
                self@.prnt == mc.prnt,
            decreases T - j,
        {
            proof {
                lemma_build_step(self@, i as int, j as int, s_tot);
                assert(self@.freq[i as int] <= s_tot);
                assert(self@.freq[i + 1] <= s_tot);
            }
            let ghost mb = self@;
            let f = self.freq[i] + self.freq[i + 1];
            self.freq.set(j, f);
            let ghost freq1 = self.freq@;
            proof {
                lemma_search(freq1, f as int, j - 1);
                assert(freq1[i + 1] <= f);
            }
            let ghost r = search(freq1, f as int, j - 1);
            assert(r >= i + 1) by {
                if r < i + 1 {
                    assert(f < freq1[i + 1]);
                }
            }
            let mut k: usize = j - 1;
            while f < self.freq[k]
                invariant
                    self.freq@ == freq1,
                    r <= k <= j - 1,
                    r >= 1,
                    search(freq1, f as int, k as int) == r,
                    freq1.len() == T + 1,
                    j < T,
                decreases k,
            {
                proof {
                    assert(search(freq1, f as int, k as int) == search(freq1, f as int, k - 1));
                    lemma_search(freq1, f as int, k - 1);
                }
                k = k - 1;
            }
            let k = k + 1;
            let mut q: usize = j;
            while q > k
                invariant
                    k <= q <= j < T,
                    self.freq@.len() == T + 1,
                    self.son@.len() == T,
                    self.prnt@ == mb.prnt,
                    forall|x: int| 0 <= x <= T ==> #[trigger] self.freq@[x] == if q < x <= j {
                        freq1[x - 1]
                    } else {
                        freq1[x]
                    },
                    forall|x: int| 0 <= x < T ==> #[trigger] self.son@[x] == if q < x <= j {
                        mb.son[x - 1]
                    } else {
                        mb.son[x]
                    },
                decreases q,
            {
                let fv = self.freq[q - 1];
                self.freq.set(q, fv);
                let sv = self.son[q - 1];
                self.son.set(q, sv);
                q = q - 1;
            }
            self.freq.set(k, f);
            self.son.set(k, i);
            proof {
                assert(self.freq@ =~= build_step(mb, i as int, j as int).freq);
                assert(self.son@ =~= build_step(mb, i as int, j as int).son);
            }
            i = i + 2;
            j = j + 1;
        }
        let ghost mb = self@;
        proof {
            assert(relink_inv(mb, mb, 0));
        }
        // point the children back at their parents
        let mut i: usize = 0;
        while i < T
            invariant
                build_inv(mb, ROOT as int, T as int, s_tot),
                mb.prnt.len() == T + N_CHAR,
                relink_inv(mb, self@, i as int),
                relink(self@, i as int) == relink(mb, 0),
            decreases T - i,
        {
            proof {
                assert(build_node_ok(mb, i as int, ROOT as int));
            }
            let k = self.son[i];
            self.prnt.set(k, i);
            if k < T {
                self.prnt.set(k + 1, i);
            }
            proof {
                let p1 = mb.prnt;
                assert(relink_inv(mb, self@, i + 1)) by {
                    assert forall|y: int| 0 <= y < i + 1 implies self@.prnt[#[trigger] self@.son[y] as int]
                        == y && (self@.son[y] < T ==> self@.prnt[self@.son[y] + 1] == y) by {
                        if y < i {
                            assert(mb.son[y] != mb.son[i as int]);
                            assert(build_node_ok(mb, y, ROOT as int));
                        }
                    }
                }
            }
            i = i + 1;
        }
    }
}

} // verus!

verus! {

impl Huff {
    /// Count one occurrence of symbol `sym`.
    pub fn update(&mut self, sym: usize)
        requires
            wf(old(self)@),
            sym < N_CHAR,
        ensures
            final(self)@ == upd(old(self)@, sym as int),
            wf(final(self)@),
            forall|s: int|
                0 <= s < N_CHAR ==> #[trigger] weight(final(self)@, s) == (if old(self)@.freq[ROOT as int]
                    == MAX_FREQ {
                    (weight(old(self)@, s) + 1) / 2
                } else {
                    weight(old(self)@, s)
                }) + (if s == sym { 1int } else { 0int }),
            old(self)@.freq[ROOT as int] < MAX_FREQ ==> final(self)@.freq[ROOT as int] == old(
                self,
            )@.freq[ROOT as int] + 1,
    {
        proof {
            lemma_upd(self@, sym as int);
            lemma_count_weights(self@, sym as int);
        }
        if self.freq[ROOT] == MAX_FREQ {
            self.reconst();
        }
        let ghost ms = self@;
        proof {
            lemma_upd_start(ms, sym as int);
        }
        let mut c = self.prnt[sym + T];
        let ghost c0 = c as int;
        loop
            invariant_except_break
                upd_inv(self@, c as int),
                upd_loop(self@, c as int) == upd_loop(ms, c0),
            ensures
                self@ == upd_loop(ms, c0),
            decreases T - c,
        {
            let ghost mb = self@;
            let ghost cb = c as int;
            proof {
                lemma_upd_iter(mb, cb);
                assert(node_ok(mb, cb));
                lemma_sorted_facts(mb, cb, ROOT as int);
            }
            let k = self.freq[c] + 1;
            self.freq.set(c, k);
            let ghost freq1 = self.freq@;
            let mut l = c + 1;
            if k > self.freq[l] {
                proof {
                    lemma_find_l(freq1, k as int, l as int);
                }
                while k > self.freq[l + 1]
                    invariant
                        self.freq@ == freq1,
                        freq1.len() == T + 1,
                        freq1[T as int] == 0xFFFF,
                        k <= MAX_FREQ,
                        c < l < T,
                        find_l(freq1, k as int, l as int) == find_l(freq1, k as int, cb + 1),
                    decreases T - l,
                {
                    l = l + 1;
                }
                let ghost lf = l as int;
                assert(node_ok(mb, lf));
                let fl = self.freq[l];
                self.freq.set(c, fl);
                self.freq.set(l, k);
                let i = self.son[c];
                self.prnt.set(i, l);
                if i < T {
                    self.prnt.set(i + 1, l);
                }
                let j = self.son[l];
                self.son.set(l, i);
                self.prnt.set(j, c);
                if j < T {
                    self.prnt.set(j + 1, c);
                }
                self.son.set(c, j);
                c = l;
            }
            c = self.prnt[c];
            proof {
                let (m2, c2) = upd_iter(mb, cb);
                assert(self@.freq =~= m2.freq);
                assert(self@.son =~= m2.son);
                assert(self@.prnt =~= m2.prnt);
            }
            if c == 0 {
                break;
            }
        }
    }

    /// Decode the next symbol from `bits` and count it.
    pub fn decode_char(&mut self, bits: &mut Bits) -> (c: usize)
        requires
            wf(old(self)@),
            old(bits).ok(),
        ensures
            wf(final(self)@),
            final(bits).ok(),
            final(bits).data@ == old(bits).data@,
            c < N_CHAR,
            (c as int, final(self)@, final(bits).at@) == decode_char_spec(
                old(self)@,
                old(bits).data@,
                old(bits).at@,
            ),
    {
        let ghost m = self@;
        let ghost data = bits.data@;
        let ghost p0 = bits.at@;
        proof {
            assert(node_ok(m, ROOT as int));
            lemma_walk(m, data, p0, m.son[ROOT as int] as int);
        }
        let mut c = self.son[ROOT];
        while c < T
            invariant
                wf(m),
                self@ == m,
                bits.ok(),
                bits.data@ == data,
                c < T ==> c + 1 < T,
                c >= T ==> c < T + N_CHAR,
                walk(m.son, data, bits.at@, c as int) == walk(m.son, data, p0, m.son[ROOT as int] as int),
            decreases (if c < T { c + 1 } else { 0 }),
        {
            let ghost pb = bits.at@;
            let b = bits.get1();
            let x = c + b as usize;
            proof {
                assert(node_ok(m, x as int));
            }
            c = self.son[x];
        }
        let sym = c - T;
        self.update(sym);
        sym
    }
}

} // verus!

verus! {

// ---------------------------------------------------------------------------
// Symbol weights: an update counts the symbol once, a rebuild halves
// ---------------------------------------------------------------------------

/// One step of an update raises the weight of the symbol whose leaf is node
/// `c`, keeps every other weight, raises the root only at the root, and
/// continues at an inner node.
proof fn lemma_upd_iter_weights(m: HuffModel, c: int)
    requires
        upd_inv(m, c),
    ensures
        ({
            let (m2, c2) = upd_iter(m, c);
            &&& forall|s: int|
                0 <= s < N_CHAR ==> #[trigger] weight(m2, s) == weight(m, s) + (if m.son[c] == s + T {
                    1int
                } else {
                    0int
                })
            &&& m2.freq[ROOT as int] == m.freq[ROOT as int] + (if c == ROOT { 1int } else { 0int })
            &&& (c != ROOT ==> m2.son[c2] < T)
        }),
{
    let k = m.freq[c] + 1;
    let freq1 = m.freq.update(c, k as u32);
    let (m2, c2) = upd_iter(m, c);
    assert(node_ok(m, c));
    if k <= m.freq[c + 1] {
        assert forall|s: int| 0 <= s < N_CHAR implies #[trigger] weight(m2, s) == weight(m, s) + (if m.son[c]
            == s + T {
            1int
        } else {
            0int
        }) by {
            assert(sym_ok(m, s));
        }
        if c != ROOT {
            assert(parent_ok(m, c));
        }
    } else {
        lemma_upd_iter_swap(m, c);
        lemma_find_l(freq1, k, c + 1);
        let l = find_l(freq1, k, c + 1);
        assert forall|x: int| c <= x <= l implies #[trigger] m.freq[x] == k - 1 by {
            lemma_sorted_facts(m, c, x);
            if x > c + 1 {
                assert(freq1[x] == m.freq[x]);
            }
        }
        assert(l < T) by {
            if l == T {
                assert(m.freq[T as int] == k - 1);
            }
        }
        assert(c < ROOT) by {
            if c == ROOT {
                assert(m.freq[c + 1] == 0xFFFF);
            }
        }
        assert(parent_ok(m, c));
        let pc = m.prnt[c] as int;
        assert(node_ok(m, pc));
        assert(sum_ok(m, pc));
        assert(m.freq[m.son[pc] as int] >= 1 && m.freq[m.son[pc] + 1] >= 1);
        assert(l < pc) by {
            if pc <= l {
                assert(m.freq[pc] == k - 1);
            }
        }
        assert(parent_ok(m, l));
        assert(node_ok(m, l));
        let pl = m.prnt[l] as int;
        assert(node_ok(m, pl));
        assert(l < pl);
        let i = m.son[c] as int;
        let j = m.son[l] as int;
        assert(i != j);
        assert(m2.freq == freq1.update(c, freq1[l]).update(l, k as u32));
        assert(m2.son == m.son.update(l, i as usize).update(c, j as usize));
        assert forall|s: int| 0 <= s < N_CHAR implies #[trigger] weight(m2, s) == weight(m, s) + (if m.son[c]
            == s + T {
            1int
        } else {
            0int
        }) by {
            assert(sym_ok(m, s));
            let p = m.prnt[s + T] as int;
            if s + T == i {
                assert(m2.prnt[s + T] == l);
            } else if s + T == j {
                assert(m2.prnt[s + T] == c);
            } else {
                assert(i < T ==> i + 1 < c);
                assert(m2.prnt[s + T] == m.prnt[s + T]);
                assert(p != c && p != l);
            }
        }
        assert(m2.freq[ROOT as int] == m.freq[ROOT as int]);
        assert(c2 == pl);
        assert(m2.son[c2] == m.son[pl]);
    }
}

/// The walk up from node `c` raises the weight of the symbol whose leaf is
/// `c` and the root by one and keeps every other weight.
proof fn lemma_upd_loop_weights(m: HuffModel, c: int)
    requires
        upd_inv(m, c),
    ensures
        forall|s: int|
            0 <= s < N_CHAR ==> #[trigger] weight(upd_loop(m, c), s) == weight(m, s) + (if m.son[c] == s
                + T {
                1int
            } else {
                0int
            }),
        upd_loop(m, c).freq[ROOT as int] == m.freq[ROOT as int] + 1,
    decreases T - c,
{
    lemma_upd_iter(m, c);
    lemma_upd_iter_weights(m, c);
    let (m2, c2) = upd_iter(m, c);
    if c != ROOT {
        lemma_upd_loop_weights(m2, c2);
        assert forall|s: int| 0 <= s < N_CHAR implies #[trigger] weight(upd_loop(m, c), s) == weight(m, s)
            + (if m.son[c] == s + T {
            1int
        } else {
            0int
        }) by {
            assert(weight(upd_loop(m2, c2), s) == weight(m2, s));
        }
    }
}

/// Counting symbol `sym` below the rebuild limit raises its weight and the
/// root count by one and keeps every other weight.
pub proof fn lemma_upd_weights(m: HuffModel, sym: int)
    requires
        wf(m),
        m.freq[ROOT as int] < MAX_FREQ,
        0 <= sym < N_CHAR,
    ensures
        weight(upd(m, sym), sym) == weight(m, sym) + 1,
        forall|s: int| 0 <= s < N_CHAR && s != sym ==> #[trigger] weight(upd(m, sym), s) == weight(m, s),
        upd(m, sym).freq[ROOT as int] == m.freq[ROOT as int] + 1,
{
    lemma_upd_start(m, sym);
    assert(sym_ok(m, sym));
    let c = m.prnt[sym + T] as int;
    lemma_upd_loop_weights(m, c);
    assert(weight(upd(m, sym), sym) == weight(m, sym) + 1);
}

} // verus!

verus! {

/// Symbol `s` has a leaf among the first `n` nodes of `m` whose weight is
/// its weight in `m0` halved, rounding up.
pub open spec fn halved_leaf(m0: HuffModel, m: HuffModel, s: int, n: int) -> bool {
    exists|y: int|
        0 <= y < n && #[trigger] m.son[y] == s + T && m.freq[y] == (weight(m0, s) + 1) / 2
}

proof fn lemma_compact_weights(m0: HuffModel, m: HuffModel, i: int, j: int)
    requires
        wf(m0),
        compact_inv(m0, m, i, j),
        forall|s: int| 0 <= s < N_CHAR && m0.prnt[s + T] < i ==> #[trigger] halved_leaf(m0, m, s, j),
    ensures
        forall|s: int| 0 <= s < N_CHAR ==> #[trigger] halved_leaf(m0, compact(m, i, j).0, s, compact(m, i, j).1),
    decreases T - i,
{
    if i < T {
        lemma_compact_step(m0, m, i, j);
        let (m2, j2) = compact_next(m, i, j);
        assert(node_ok(m0, i));
        assert forall|s: int| 0 <= s < N_CHAR && m0.prnt[s + T] < i + 1 implies #[trigger] halved_leaf(
            m0,
            m2,
            s,
            j2,
        ) by {
            assert(sym_ok(m0, s));
            if m0.prnt[s + T] == i {
                assert(m.son[i] == m0.son[i] && m.freq[i] == m0.freq[i]);
                assert(m2.son[j] == s + T);
            } else {
                assert(halved_leaf(m0, m, s, j));
                let y = choose|y: int|
                    0 <= y < j && #[trigger] m.son[y] == s + T && m.freq[y] == (weight(m0, s) + 1) / 2;
                assert(m2.son[y] == s + T);
            }
        }
        lemma_compact_weights(m0, m2, i + 1, j2);
        assert(compact(m, i, j) == compact(m2, i + 1, j2));
    } else {
        assert forall|s: int| 0 <= s < N_CHAR implies #[trigger] halved_leaf(m0, m, s, j) by {
            assert(sym_ok(m0, s));
        }
    }
}

proof fn lemma_build_weights(m0: HuffModel, m: HuffModel, i: int, j: int)
    requires
        m.son.len() == T,
        m.freq.len() == T + 1,
        0 <= j <= T,
        forall|s: int| 0 <= s < N_CHAR ==> #[trigger] halved_leaf(m0, m, s, j),
    ensures
        forall|s: int| 0 <= s < N_CHAR ==> #[trigger] halved_leaf(m0, build(m, i, j), s, T as int),
    decreases T - j,
{
    if j < T {
        let f = m.freq[i] + m.freq[i + 1];
        let freq1 = m.freq.update(j, f as u32);
        lemma_search(freq1, f, j - 1);
        let kk = search(freq1, f, j - 1) + 1;
        let m3 = build_step(m, i, j);
        assert forall|s: int| 0 <= s < N_CHAR implies #[trigger] halved_leaf(m0, m3, s, j + 1) by {
            assert(halved_leaf(m0, m, s, j));
            let y = choose|y: int|
                0 <= y < j && #[trigger] m.son[y] == s + T && m.freq[y] == (weight(m0, s) + 1) / 2;
            let s2 = shift_up(m.son, kk, j);
            let f2 = shift_up(freq1, kk, j);
            assert(m3.son == s2.update(kk, i as usize));
            assert(m3.freq == f2.update(kk, f as u32));
            assert(freq1[y] == m.freq[y]);
            if y < kk {
                assert(s2[y] == m.son[y] && f2[y] == freq1[y]);
                assert(m3.son[y] == s + T);
            } else {
                assert(s2[y + 1] == m.son[y] && f2[y + 1] == freq1[y]);
                assert(m3.son[y + 1] == s + T);
            }
        }
        assert(m3.son.len() == T && m3.freq.len() == T + 1);
        lemma_build_weights(m0, m3, i + 2, j + 1);
        assert(build(m, i, j) == build(m3, i + 2, j + 1));
    }
}

proof fn lemma_relink_keeps(m: HuffModel, i: int)
    ensures
        relink(m, i).son == m.son,
        relink(m, i).freq == m.freq,
    decreases T - i,
{
    if 0 <= i < T {
        let k = m.son[i];
        let p1 = m.prnt.update(k as int, i as usize);
        let p2 = if k < T { p1.update(k + 1, i as usize) } else { p1 };
        lemma_relink_keeps(HuffModel { freq: m.freq, prnt: p2, son: m.son }, i + 1);
    }
}

/// The rebuild halves every symbol weight, rounding up.
pub proof fn lemma_reconst_weights(m: HuffModel)
    requires
        wf(m),
    ensures
        forall|s: int| 0 <= s < N_CHAR ==> #[trigger] weight(reconst(m), s) == (weight(m, s) + 1) / 2,
{
    lemma_reconst(m);
    lemma_compact_done(m);
    assert(compact_inv(m, m, 0, 0));
    lemma_compact_weights(m, m, 0, 0);
    let mc = compact(m, 0, 0).0;
    lemma_build_weights(m, mc, 0, N_CHAR as int);
    let mb = build(mc, 0, N_CHAR as int);
    lemma_relink_keeps(mb, 0);
    let mr = reconst(m);
    assert forall|s: int| 0 <= s < N_CHAR implies #[trigger] weight(mr, s) == (weight(m, s) + 1) / 2 by {
        assert(halved_leaf(m, mb, s, T as int));
        let y = choose|y: int|
            0 <= y < T && #[trigger] mb.son[y] == s + T && mb.freq[y] == (weight(m, s) + 1) / 2;
        assert(mr.son[y] == s + T);
        assert(node_ok(mr, y));
    }
}

} // verus!

verus! {

/// Counting symbol `sym` (rebuilding first at the limit): the symbol's
/// weight rises by one over its weight after the rebuild, every other
/// weight is kept (or halved by the rebuild), and below the limit the root
/// count rises by one.
pub proof fn lemma_count_weights(m: HuffModel, sym: int)
    requires
        wf(m),
        0 <= sym < N_CHAR,
    ensures
        forall|s: int|
            0 <= s < N_CHAR ==> #[trigger] weight(upd(m, sym), s) == (if m.freq[ROOT as int] == MAX_FREQ {
                (weight(m, s) + 1) / 2
            } else {
                weight(m, s)
            }) + (if s == sym { 1int } else { 0int }),
        m.freq[ROOT as int] < MAX_FREQ ==> upd(m, sym).freq[ROOT as int] == m.freq[ROOT as int] + 1,
{
    if m.freq[ROOT as int] == MAX_FREQ {
        lemma_reconst(m);
        lemma_reconst_weights(m);
        let m0 = reconst(m);
        lemma_upd_weights(m0, sym);
        assert(upd(m, sym) == upd(m0, sym));
    } else {
        lemma_upd_weights(m, sym);
    }
}

} // verus!
