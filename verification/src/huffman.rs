use vstd::prelude::*;

use vstd::pervasive::unreached;

use crate::book::book_view;
use crate::book::codes_wf;
use crate::book::is_prefix_of;
use crate::book::lemma_prefix_chain;
use crate::book::lemma_sym_count_at_least_one;
use crate::book::lemma_sym_count_at_least_two;
use crate::book::lemma_sym_count_concat;
use crate::book::lemma_sym_count_positive_in_book;
use crate::book::sym_count;
use crate::book::sym_in_book;
use crate::book::syms_unique;
use crate::book::CodeEntry;

verus! {

/// Number of values a symbol can take: offsets and lengths are bounded by a
/// 16-bit window, and literal bytes with the sentinel fit below 256.
pub const ALPHABET: usize = 65536;

/// A Huffman tree: a leaf carries a symbol, an internal node two subtrees.
/// The tree only lives inside the codebook builder; the codebook is what the
/// rest of the pipeline sees.
pub enum HTree {
    Leaf(u16),
    Node(Box<HTree>, Box<HTree>),
}

/// How often `v` occurs in the symbol sequence.
pub open spec fn count_of(syms: Seq<u16>, v: u16) -> int
    decreases syms.len(),
{
    if syms.len() == 0 {
        0
    } else {
        count_of(syms.drop_last(), v) + if syms.last() == v {
            1int
        } else {
            0int
        }
    }
}

/// Counts are not negative, and a symbol of the sequence has a positive
/// count.
pub proof fn lemma_count_of_bounds(syms: Seq<u16>, v: u16)
    ensures
        0 <= count_of(syms, v) <= syms.len(),
        (exists|k: int| 0 <= k < syms.len() && syms[k] == v) ==> count_of(syms, v) >= 1,
    decreases syms.len(),
{
    if syms.len() > 0 {
        lemma_count_of_bounds(syms.drop_last(), v);
        if exists|k: int| 0 <= k < syms.len() && syms[k] == v {
            let k = choose|k: int| 0 <= k < syms.len() && syms[k] == v;
            if k < syms.len() - 1 {
                assert(syms.drop_last()[k] == v);
            }
        }
    }
}

/// Sum of a table of counts.
pub open spec fn sum_counts(counts: Seq<u64>) -> int
    decreases counts.len(),
{
    if counts.len() == 0 {
        0
    } else {
        sum_counts(counts.drop_last()) + counts.last()
    }
}

/// Replacing one cell changes the sum by the difference.
pub proof fn lemma_sum_counts_update(counts: Seq<u64>, k: int, x: u64)
    requires
        0 <= k < counts.len(),
    ensures
        sum_counts(counts.update(k, x)) == sum_counts(counts) - counts[k] + x,
    decreases counts.len(),
{
    if k == counts.len() - 1 {
        assert(counts.update(k, x).drop_last() =~= counts.drop_last());
    } else {
        assert(counts.update(k, x).drop_last() =~= counts.drop_last().update(k, x));
        lemma_sum_counts_update(counts.drop_last(), k, x);
    }
}

/// Every cell is bounded by the sum.
pub proof fn lemma_sum_counts_cell(counts: Seq<u64>, k: int)
    requires
        0 <= k < counts.len(),
    ensures
        counts[k] <= sum_counts(counts),
        sum_counts(counts) >= 0,
    decreases counts.len(),
{
    if counts.len() > 0 {
        if k == counts.len() - 1 {
            lemma_sum_counts_nonneg(counts.drop_last());
        } else {
            lemma_sum_counts_cell(counts.drop_last(), k);
        }
    }
}

/// Sums of counts are not negative.
pub proof fn lemma_sum_counts_nonneg(counts: Seq<u64>)
    ensures
        sum_counts(counts) >= 0,
    decreases counts.len(),
{
    if counts.len() > 0 {
        lemma_sum_counts_nonneg(counts.drop_last());
    }
}

/// The codes a depth-first walk of the tree assigns under a given prefix:
/// left appends a 0 bit, right a 1 bit, and each leaf receives the
/// accumulated path.
pub open spec fn tree_codes(t: HTree, prefix: Seq<bool>) -> Seq<(u16, Seq<bool>)>
    decreases t,
{
    match t {
        HTree::Leaf(s) => seq![(s, prefix)],
        HTree::Node(z, o) => tree_codes(*z, prefix.push(false)) + tree_codes(
            *o,
            prefix.push(true),
        ),
    }
}

/// How often a symbol occurs among the leaves of a tree.
pub open spec fn tree_sym_count(t: HTree, v: u16) -> int
    decreases t,
{
    match t {
        HTree::Leaf(s) => if s == v {
            1int
        } else {
            0int
        },
        HTree::Node(z, o) => tree_sym_count(*z, v) + tree_sym_count(*o, v),
    }
}

/// The facts the codebook needs from a depth-first code assignment: at least
/// one code, every code extends the prefix (strictly, under an internal
/// node), no code is a prefix of another, and the codes carry exactly the
/// tree's leaf symbols.
pub proof fn lemma_tree_codes_props(t: HTree, prefix: Seq<bool>)
    ensures
        tree_codes(t, prefix).len() >= 1,
        forall|k: int|
            0 <= k < tree_codes(t, prefix).len() ==> is_prefix_of(
                prefix,
                (#[trigger] tree_codes(t, prefix)[k]).1,
            ),
        t is Node ==> forall|k: int|
            0 <= k < tree_codes(t, prefix).len() ==> (#[trigger] tree_codes(t, prefix)[k]).1.len()
                > prefix.len(),
        forall|k1: int, k2: int|
            0 <= k1 < tree_codes(t, prefix).len() && 0 <= k2 < tree_codes(t, prefix).len() && k1
                != k2 ==> !is_prefix_of(
                (#[trigger] tree_codes(t, prefix)[k1]).1,
                (#[trigger] tree_codes(t, prefix)[k2]).1,
            ),
        forall|v: u16| sym_count(tree_codes(t, prefix), v) == tree_sym_count(t, v),
    decreases t,
{
    match t {
        HTree::Leaf(s) => {
            let codes = tree_codes(t, prefix);
            assert(codes =~= seq![(s, prefix)]);
            assert(is_prefix_of(prefix, prefix)) by {
                assert(prefix =~= prefix.take(prefix.len() as int));
            }
            assert forall|v: u16| sym_count(codes, v) == tree_sym_count(t, v) by {
                assert(codes.last() == (s, prefix));
                assert(codes.drop_last() =~= Seq::<(u16, Seq<bool>)>::empty());
                assert(sym_count(codes.drop_last(), v) == 0);
            }
        },
        HTree::Node(z, o) => {
            let p0 = prefix.push(false);
            let p1 = prefix.push(true);
            let zc = tree_codes(*z, p0);
            let oc = tree_codes(*o, p1);
            lemma_tree_codes_props(*z, p0);
            lemma_tree_codes_props(*o, p1);
            assert(is_prefix_of(prefix, p0)) by {
                assert(prefix =~= p0.take(prefix.len() as int));
            }
            assert(is_prefix_of(prefix, p1)) by {
                assert(prefix =~= p1.take(prefix.len() as int));
            }
            let codes = tree_codes(t, prefix);
            assert(codes == zc + oc);
            assert forall|k: int| 0 <= k < codes.len() implies is_prefix_of(
                prefix,
                (#[trigger] codes[k]).1,
            ) && codes[k].1.len() > prefix.len() by {
                if k < zc.len() {
                    assert(codes[k] == zc[k]);
                    lemma_prefix_chain(prefix, p0, zc[k].1);
                } else {
                    assert(codes[k] == oc[k - zc.len()]);
                    lemma_prefix_chain(prefix, p1, oc[k - zc.len()].1);
                }
            }
            assert forall|k1: int, k2: int|
                0 <= k1 < codes.len() && 0 <= k2 < codes.len() && k1 != k2 implies !is_prefix_of(
                (#[trigger] codes[k1]).1,
                (#[trigger] codes[k2]).1,
            ) by {
                let pl = prefix.len() as int;
                if k1 < zc.len() && k2 < zc.len() {
                    assert(codes[k1] == zc[k1] && codes[k2] == zc[k2]);
                } else if k1 >= zc.len() && k2 >= zc.len() {
                    assert(codes[k1] == oc[k1 - zc.len()] && codes[k2] == oc[k2 - zc.len()]);
                } else {
                    let (c1, c2) = (codes[k1].1, codes[k2].1);
                    // The two codes part ways right after the shared prefix.
                    assert(c1[pl] != c2[pl]) by {
                        if k1 < zc.len() {
                            assert(c1.take(p0.len() as int) == p0 && c2.take(p1.len() as int)
                                == p1);
                            assert(c1[pl] == p0[pl] && c2[pl] == p1[pl]);
                        } else {
                            assert(c1.take(p1.len() as int) == p1 && c2.take(p0.len() as int)
                                == p0);
                            assert(c1[pl] == p1[pl] && c2[pl] == p0[pl]);
                        }
                    }
                    if is_prefix_of(c1, c2) {
                        assert(c1[pl] == c2.take(c1.len() as int)[pl]);
                        assert(false);
                    }
                }
            }
            assert forall|v: u16| sym_count(codes, v) == tree_sym_count(t, v) by {
                lemma_sym_count_concat(zc, oc, v);
                assert(sym_count(zc, v) == tree_sym_count(*z, v));
                assert(sym_count(oc, v) == tree_sym_count(*o, v));
            }
        },
    }
}

/// The starting worklist of the builder: one leaf per symbol with a nonzero
/// count, in ascending symbol order, paired with its count as weight.
pub open spec fn spec_init_forest(counts: Seq<u64>) -> Seq<(u64, HTree)>
    decreases counts.len(),
{
    if counts.len() == 0 {
        Seq::empty()
    } else {
        spec_init_forest(counts.drop_last()) + if counts.last() > 0 {
            seq![(counts.last(), HTree::Leaf((counts.len() - 1) as u16))]
        } else {
            Seq::empty()
        }
    }
}

/// Total weight of a worklist.
pub open spec fn forest_weight(wl: Seq<(u64, HTree)>) -> int
    decreases wl.len(),
{
    if wl.len() == 0 {
        0
    } else {
        forest_weight(wl.drop_last()) + wl.last().0
    }
}

/// How often a symbol occurs among all leaves of a worklist.
pub open spec fn forest_sym_count(wl: Seq<(u64, HTree)>, v: u16) -> int
    decreases wl.len(),
{
    if wl.len() == 0 {
        0
    } else {
        forest_sym_count(wl.drop_last(), v) + tree_sym_count(wl.last().1, v)
    }
}

/// Weight decomposes over removal of one entry.
pub proof fn lemma_forest_weight_remove(wl: Seq<(u64, HTree)>, k: int)
    requires
        0 <= k < wl.len(),
    ensures
        forest_weight(wl) == wl[k].0 + forest_weight(wl.remove(k)),
    decreases wl.len(),
{
    if k == wl.len() - 1 {
        assert(wl.remove(k) =~= wl.drop_last());
    } else {
        assert(wl.remove(k).drop_last() =~= wl.drop_last().remove(k));
        assert(wl.remove(k).last() == wl.last());
        lemma_forest_weight_remove(wl.drop_last(), k);
    }
}

/// Weights are not negative.
pub proof fn lemma_forest_weight_nonneg(wl: Seq<(u64, HTree)>)
    ensures
        forest_weight(wl) >= 0,
    decreases wl.len(),
{
    if wl.len() > 0 {
        lemma_forest_weight_nonneg(wl.drop_last());
    }
}

/// Leaf-symbol counts decompose over removal of one entry.
pub proof fn lemma_forest_sym_count_remove(wl: Seq<(u64, HTree)>, k: int, v: u16)
    requires
        0 <= k < wl.len(),
    ensures
        forest_sym_count(wl, v) == tree_sym_count(wl[k].1, v) + forest_sym_count(wl.remove(k), v),
    decreases wl.len(),
{
    if k == wl.len() - 1 {
        assert(wl.remove(k) =~= wl.drop_last());
    } else {
        assert(wl.remove(k).drop_last() =~= wl.drop_last().remove(k));
        assert(wl.remove(k).last() == wl.last());
        lemma_forest_sym_count_remove(wl.drop_last(), k, v);
    }
}

/// Appending one entry adds its weight and its leaf symbols.
pub proof fn lemma_forest_push(wl: Seq<(u64, HTree)>, e: (u64, HTree))
    ensures
        forest_weight(wl.push(e)) == forest_weight(wl) + e.0,
        forall|v: u16|
            #[trigger] forest_sym_count(wl.push(e), v) == forest_sym_count(wl, v) + tree_sym_count(
                e.1,
                v,
            ),
{
    assert(wl.push(e).drop_last() =~= wl);
}

/// What the starting worklist looks like: its weight is the total count, its
/// entries are single leaves, and each symbol with a nonzero count appears
/// exactly once.
pub proof fn lemma_init_forest_props(counts: Seq<u64>)
    requires
        counts.len() <= ALPHABET,
    ensures
        forest_weight(spec_init_forest(counts)) == sum_counts(counts),
        forall|k: int|
            0 <= k < spec_init_forest(counts).len() ==> (#[trigger] spec_init_forest(
                counts,
            )[k]).1 is Leaf,
        forall|k: int|
            0 <= k < spec_init_forest(counts).len() ==> (#[trigger] spec_init_forest(
                counts,
            )[k]).0 >= 1,
        forall|v: u16|
            #[trigger] forest_sym_count(spec_init_forest(counts), v) == if 0 <= v < counts.len()
                && counts[v as int] > 0 {
                1int
            } else {
                0int
            },
    decreases counts.len(),
{
    if counts.len() > 0 {
        lemma_init_forest_props(counts.drop_last());
        let pre = spec_init_forest(counts.drop_last());
        let whole = spec_init_forest(counts);
        if counts.last() > 0 {
            let e = (counts.last(), HTree::Leaf((counts.len() - 1) as u16));
            assert(whole =~= pre.push(e));
            lemma_forest_push(pre, e);
        } else {
            assert(whole =~= pre);
        }
    }
}

/// Index of the first entry with the minimum weight.
pub open spec fn first_min_idx(wl: Seq<(u64, HTree)>) -> int
    decreases wl.len(),
{
    if wl.len() <= 1 {
        0
    } else {
        let k = first_min_idx(wl.drop_last());
        if wl.last().0 < wl[k].0 {
            wl.len() - 1
        } else {
            k
        }
    }
}

/// `first_min_idx` is in range, minimal, and earlier entries are strictly
/// heavier.
pub proof fn lemma_first_min_idx_props(wl: Seq<(u64, HTree)>)
    requires
        wl.len() >= 1,
    ensures
        0 <= first_min_idx(wl) < wl.len(),
        forall|j: int| 0 <= j < wl.len() ==> (#[trigger] wl[j]).0 >= wl[first_min_idx(wl)].0,
        forall|j: int| 0 <= j < first_min_idx(wl) ==> (#[trigger] wl[j]).0 > wl[first_min_idx(
            wl,
        )].0,
    decreases wl.len(),
{
    if wl.len() > 1 {
        lemma_first_min_idx_props(wl.drop_last());
        let k = first_min_idx(wl.drop_last());
        let m = first_min_idx(wl);
        assert forall|j: int| 0 <= j < wl.len() implies (#[trigger] wl[j]).0 >= wl[m].0 by {
            if j < wl.len() - 1 {
                assert(wl.drop_last()[j] == wl[j]);
                assert(wl.drop_last()[k] == wl[k]);
            }
        }
        assert forall|j: int| 0 <= j < m implies (#[trigger] wl[j]).0 > wl[m].0 by {
            assert(wl.drop_last()[j] == wl[j]);
            assert(wl.drop_last()[k] == wl[k]);
        }
    }
}

/// One step of the builder: take out the two lightest entries (ties resolved
/// by position, the earlier entry first) and append an internal node that
/// combines them, weighted by their sum.
pub open spec fn spec_combine_step(wl: Seq<(u64, HTree)>) -> Seq<(u64, HTree)> {
    let k1 = first_min_idx(wl);
    let e1 = wl[k1];
    let r1 = wl.remove(k1);
    let k2 = first_min_idx(r1);
    let e2 = r1[k2];
    let r2 = r1.remove(k2);
    r2.push((((e1.0 + e2.0) as u64), HTree::Node(Box::new(e1.1), Box::new(e2.1))))
}

/// Run the builder until a single tree remains.
pub open spec fn spec_combine(wl: Seq<(u64, HTree)>) -> (u64, HTree)
    decreases wl.len(),
    when wl.len() >= 1
    via spec_combine_decreases
{
    if wl.len() == 1 {
        wl[0]
    } else {
        spec_combine(spec_combine_step(wl))
    }
}

#[via_fn]
proof fn spec_combine_decreases(wl: Seq<(u64, HTree)>) {
    if wl.len() > 1 {
        lemma_first_min_idx_props(wl);
        lemma_first_min_idx_props(wl.remove(first_min_idx(wl)));
    }
}

/// The count table of a symbol sequence, one cell per possible symbol.
pub open spec fn spec_counts(syms: Seq<u16>) -> Seq<u64> {
    Seq::new(ALPHABET as nat, |v: int| count_of(syms, v as u16) as u64)
}

/// The symbol of a leaf.
pub open spec fn leaf_sym(t: HTree) -> u16 {
    match t {
        HTree::Leaf(s) => s,
        HTree::Node(_, _) => 0,
    }
}

/// The codebook `build_codebook` derives from a symbol sequence: no entries
/// for an empty alphabet, a forced one-bit code for a singleton alphabet,
/// and otherwise the depth-first code assignment of the combined tree.
pub open spec fn spec_book(syms: Seq<u16>) -> Seq<(u16, Seq<bool>)> {
    let init = spec_init_forest(spec_counts(syms));
    if init.len() == 0 {
        Seq::empty()
    } else if init.len() == 1 {
        seq![(leaf_sym(init[0].1), seq![false])]
    } else {
        tree_codes(spec_combine(init).1, Seq::empty())
    }
}

/// Count how often each possible symbol occurs.
#[verifier::loop_isolation(false)]
fn count_symbols(syms: &Vec<u16>) -> (counts: Vec<u64>)
    ensures
        counts@.len() == ALPHABET,
        forall|v: u16| counts@[v as int] as int == count_of(syms@, v),
        sum_counts(counts@) == syms@.len(),
{
    let mut counts: Vec<u64> = Vec::new();
    let mut v: usize = 0;
    while v < ALPHABET
        invariant
            counts@.len() == v,
            v <= ALPHABET,
            sum_counts(counts@) == 0,
            forall|j: int| 0 <= j < v ==> counts@[j] == 0,
        decreases ALPHABET - v,
    {
        proof {
            assert(counts@.push(0u64).drop_last() =~= counts@);
        }
        counts.push(0);
        v += 1;
    }
    proof {
        assert(syms@.take(0) =~= Seq::<u16>::empty());
    }
    let mut i: usize = 0;
    while i < syms.len()
        invariant
            i <= syms@.len(),
            counts@.len() == ALPHABET,
            forall|v: u16| counts@[v as int] as int == count_of(syms@.take(i as int), v),
            sum_counts(counts@) == i,
        decreases syms@.len() - i,
    {
        let s = syms[i];
        let c = counts[s as usize];
        proof {
            lemma_sum_counts_cell(counts@, s as int);
        }
        let ghost prev = counts@;
        counts.set(s as usize, c + 1);
        proof {
            lemma_sum_counts_update(prev, s as int, (c + 1) as u64);
            assert(syms@.take(i + 1).drop_last() =~= syms@.take(i as int));
            assert(syms@.take(i + 1).last() == syms@[i as int]);
            assert forall|v: u16| counts@[v as int] as int == count_of(syms@.take(i + 1), v) by {
                assert(count_of(syms@.take(i + 1), v) == count_of(syms@.take(i as int), v) + if s
                    == v {
                    1int
                } else {
                    0int
                });
            }
        }
        i += 1;
    }
    proof {
        assert(syms@.take(syms@.len() as int) =~= syms@);
    }
    counts
}

/// Turn the count table into the starting worklist.
#[verifier::loop_isolation(false)]
fn init_worklist(counts: &Vec<u64>) -> (wl: Vec<(u64, HTree)>)
    ensures
        wl@ == spec_init_forest(counts@),
{
    let mut wl: Vec<(u64, HTree)> = Vec::new();
    let mut v: usize = 0;
    proof {
        assert(counts@.take(0) =~= Seq::<u64>::empty());
    }
    while v < counts.len()
        invariant
            v <= counts@.len(),
            wl@ == spec_init_forest(counts@.take(v as int)),
        decreases counts@.len() - v,
    {
        proof {
            assert(counts@.take(v + 1).drop_last() =~= counts@.take(v as int));
            assert(counts@.take(v + 1).last() == counts@[v as int]);
        }
        if counts[v] > 0 {
            let e = (counts[v], HTree::Leaf(v as u16));
            proof {
                assert(wl@.push(e) =~= wl@ + seq![e]);
            }
            wl.push(e);
        } else {
            proof {
                assert(wl@ + Seq::<(u64, HTree)>::empty() =~= wl@);
            }
        }
        v += 1;
    }
    proof {
        assert(counts@.take(counts@.len() as int) =~= counts@);
    }
    wl
}

/// Index of the first entry with the smallest weight.
#[verifier::loop_isolation(false)]
fn min_freq_idx(wl: &Vec<(u64, HTree)>) -> (k: usize)
    requires
        wl@.len() >= 1,
    ensures
        k as int == first_min_idx(wl@),
{
    let mut k: usize = 0;
    let mut j: usize = 1;
    while j < wl.len()
        invariant
            1 <= j <= wl@.len(),
            k < j,
            forall|x: int| 0 <= x < j ==> (#[trigger] wl@[x]).0 >= wl@[k as int].0,
            forall|x: int| 0 <= x < k ==> (#[trigger] wl@[x]).0 > wl@[k as int].0,
        decreases wl@.len() - j,
    {
        if wl[j].0 < wl[k].0 {
            k = j;
        }
        j += 1;
    }
    proof {
        lemma_first_min_idx_props(wl@);
        let m = first_min_idx(wl@);
        if m < k {
            assert(wl@[m].0 > wl@[k as int].0);
            assert(wl@[m].0 >= wl@[k as int].0);
            assert(false);
        }
        if k < m {
            assert(wl@[k as int].0 > wl@[m].0);
            assert(false);
        }
    }
    k
}

/// An element-for-element copy of a bit vector.
#[verifier::loop_isolation(false)]
fn copy_bits(bits: &Vec<bool>) -> (r: Vec<bool>)
    ensures
        r@ == bits@,
{
    let mut r: Vec<bool> = Vec::new();
    let mut i: usize = 0;
    while i < bits.len()
        invariant
            i <= bits@.len(),
            r@ == bits@.take(i as int),
        decreases bits@.len() - i,
    {
        proof {
            assert(bits@.take(i as int).push(bits@[i as int]) =~= bits@.take(i + 1));
        }
        r.push(bits[i]);
        i += 1;
    }
    proof {
        assert(bits@.take(bits@.len() as int) =~= bits@);
    }
    r
}

/// Depth-first walk of the tree, appending one codebook entry per leaf.
fn collect_codes(t: &HTree, prefix: &mut Vec<bool>, out: &mut Vec<CodeEntry>)
    ensures
        final(prefix)@ == old(prefix)@,
        book_view(final(out)@) == book_view(old(out)@) + tree_codes(*t, old(prefix)@),
    decreases *t,
{
    match t {
        HTree::Leaf(s) => {
            let code = copy_bits(prefix);
            let e = CodeEntry { symbol: *s, code };
            out.push(e);
            proof {
                assert(book_view(out@) =~= book_view(out@.drop_last()) + tree_codes(
                    *t,
                    prefix@,
                ));
            }
        },
        HTree::Node(z, o) => {
            let ghost p = prefix@;
            let ghost b0 = out@;
            prefix.push(false);
            collect_codes(&**z, prefix, out);
            let _ = prefix.pop();
            proof {
                assert(p.push(false).drop_last() =~= p);
            }
            prefix.push(true);
            collect_codes(&**o, prefix, out);
            let _ = prefix.pop();
            proof {
                assert(p.push(true).drop_last() =~= p);
                assert(book_view(out@) =~= book_view(b0) + tree_codes(*t, p));
            }
        },
    }
}

/// Build the canonical codebook for a symbol sequence.
///
/// One leaf per distinct symbol enters a worklist in ascending symbol order;
/// the two lightest entries (ties broken by position, earlier first) are
/// repeatedly combined, the combined node joining at the end of the list; the
/// codebook reads the final tree depth first, 0 for left, 1 for right. A
/// singleton alphabet is forced to a one-bit code, and an empty sequence
/// yields an empty codebook. The result is prefix-free, has no zero-length
/// code, maps each symbol at most once, and covers exactly the symbols that
/// occur in the input.
#[verifier::loop_isolation(false)]
#[verifier::rlimit(60)]
pub fn build_codebook(syms: &Vec<u16>) -> (book: Vec<CodeEntry>)
    ensures
        book_view(book@) == spec_book(syms@),
        codes_wf(book_view(book@)),
        syms_unique(book_view(book@)),
        forall|v: u16| sym_in_book(book_view(book@), v) <==> count_of(syms@, v) > 0,
        syms@.len() == 0 ==> book@.len() == 0,
{
    let total = syms.len();
    let counts = count_symbols(syms);
    proof {
        assert(syms@.len() == total);
        assert forall|j: int| 0 <= j < ALPHABET implies counts@[j] == spec_counts(syms@)[j] by {
            let v = j as u16;
            assert(counts@[v as int] as int == count_of(syms@, v));
            lemma_count_of_bounds(syms@, v);
        }
        assert(counts@ =~= spec_counts(syms@));
        lemma_init_forest_props(counts@);
    }
    let mut wl = init_worklist(&counts);
    let ghost init = wl@;

    if wl.len() == 0 {
        let book: Vec<CodeEntry> = Vec::new();
        proof {
            assert(book_view(book@) =~= Seq::<(u16, Seq<bool>)>::empty());
            assert forall|v: u16| !(count_of(syms@, v) > 0) by {
                assert(forest_sym_count(init, v) == 0);
            }
        }
        return book;
    }
    if wl.len() == 1 {
        let (_f, t) = wl.remove(0);
        proof {
            assert(init[0].1 is Leaf);
        }
        match t {
            HTree::Leaf(s) => {
                let mut code: Vec<bool> = Vec::new();
                code.push(false);
                let mut book: Vec<CodeEntry> = Vec::new();
                book.push(CodeEntry { symbol: s, code });
                proof {
                    assert(book_view(book@) =~= seq![(s, seq![false])]);
                    assert(book_view(book@)[0].1.len() == 1);
                    assert forall|v: u16| sym_in_book(book_view(book@), v) <==> count_of(
                        syms@,
                        v,
                    ) > 0 by {
                        assert(init.drop_last() =~= Seq::<(u64, HTree)>::empty());
                        assert(forest_sym_count(Seq::<(u64, HTree)>::empty(), v) == 0);
                        assert(init.last() == init[0]);
                        assert(forest_sym_count(init, v) == tree_sym_count(init[0].1, v));
                        if count_of(syms@, v) > 0 {
                            assert(book_view(book@)[0].0 == v);
                        }
                        if sym_in_book(book_view(book@), v) {
                            let i = choose|i: int|
                                0 <= i < book_view(book@).len() && (#[trigger] book_view(
                                    book@,
                                )[i]).0 == v;
                            assert(v == s);
                        }
                    }
                    assert(syms@.len() > 0) by {
                        assert(forest_weight(init) == syms@.len());
                        assert(init[0].0 >= 1);
                        lemma_forest_weight_remove(init, 0);
                        lemma_forest_weight_nonneg(init.remove(0));
                    }
                }
                return book;
            },
            HTree::Node(_, _) => {
                proof {
                    assert(false);
                }
                unreached()
            },
        }
    }

    while wl.len() >= 2
        invariant
            wl@.len() >= 1,
            spec_combine(wl@) == spec_combine(init),
            forest_weight(wl@) == syms@.len(),
            forall|v: u16|
                #[trigger] forest_sym_count(wl@, v) == if count_of(syms@, v) > 0 {
                    1int
                } else {
                    0int
                },
            wl@.len() >= 2 || wl@[0].1 is Node,
        decreases wl@.len(),
    {
        let ghost w0 = wl@;
        let k1 = min_freq_idx(&wl);
        proof {
            lemma_first_min_idx_props(w0);
        }
        let (f1, t1) = wl.remove(k1);
        let ghost w1 = wl@;
        let k2 = min_freq_idx(&wl);
        proof {
            lemma_first_min_idx_props(w1);
            lemma_forest_weight_remove(w0, k1 as int);
            lemma_forest_weight_remove(w1, k2 as int);
            lemma_forest_weight_nonneg(w1.remove(k2 as int));
        }
        let (f2, t2) = wl.remove(k2);
        proof {
            assert(forest_weight(w0) == f1 + forest_weight(w1));
            assert(forest_weight(w1) == f2 + forest_weight(w1.remove(k2 as int)));
            assert(f1 as int + f2 as int <= syms@.len());
            assert(syms@.len() <= usize::MAX);
        }
        let f = f1 + f2;
        let e = (f, HTree::Node(Box::new(t1), Box::new(t2)));
        wl.push(e);
        proof {
            assert(wl@ == spec_combine_step(w0));
            assert(spec_combine(w0) == spec_combine(spec_combine_step(w0)));
            lemma_forest_push(w1.remove(k2 as int), e);
            assert forall|v: u16|
                #[trigger] forest_sym_count(wl@, v) == if count_of(syms@, v) > 0 {
                    1int
                } else {
                    0int
                } by {
                lemma_forest_sym_count_remove(w0, k1 as int, v);
                lemma_forest_sym_count_remove(w1, k2 as int, v);
            }
        }
    }

    let ghost pre = wl@;
    let (_f, tree) = wl.remove(0);
    proof {
        assert(spec_combine(init).1 == tree);
        assert(tree is Node);
        lemma_tree_codes_props(tree, Seq::<bool>::empty());
    }
    let mut prefix: Vec<bool> = Vec::new();
    let mut book: Vec<CodeEntry> = Vec::new();
    collect_codes(&tree, &mut prefix, &mut book);
    proof {
        let bv = book_view(book@);
        assert(bv =~= tree_codes(tree, Seq::<bool>::empty()));
        assert forall|v: u16| sym_count(bv, v) == if count_of(syms@, v) > 0 {
            1int
        } else {
            0int
        } by {
            assert(pre.drop_last() =~= Seq::<(u64, HTree)>::empty());
            assert(forest_sym_count(Seq::<(u64, HTree)>::empty(), v) == 0);
            assert(pre.last() == pre[0]);
            assert(forest_sym_count(pre, v) == tree_sym_count(tree, v));
        }
        assert forall|i: int, j: int|
            0 <= i < bv.len() && 0 <= j < bv.len() && i != j implies (#[trigger] bv[i]).0 != (
        #[trigger] bv[j]).0 by {
            let v = bv[i].0;
            if bv[j].0 == v {
                if i < j {
                    lemma_sym_count_at_least_two(bv, i, j, v);
                } else {
                    lemma_sym_count_at_least_two(bv, j, i, v);
                }
            }
        }
        assert forall|v: u16| sym_in_book(bv, v) <==> count_of(syms@, v) > 0 by {
            if sym_in_book(bv, v) {
                let i = choose|i: int| 0 <= i < bv.len() && (#[trigger] bv[i]).0 == v;
                lemma_sym_count_at_least_one(bv, i, v);
            }
            if count_of(syms@, v) > 0 {
                lemma_sym_count_positive_in_book(bv, v);
            }
        }
        assert(syms@.len() > 0) by {
            lemma_tree_codes_props(tree, Seq::<bool>::empty());
            assert(bv.len() >= 1);
            assert(sym_count(bv, bv[0].0) >= 1) by {
                lemma_sym_count_at_least_one(bv, 0, bv[0].0);
            }
            lemma_count_of_bounds(syms@, bv[0].0);
        }
    }
    book
}

} // verus!
