//! Corpus organisation: size terciles, evenly spread samples, and pruning of
//! a corpus directory down to a limit after dropping duplicate contents.
//!
//! Files are handled by their position in the caller's listing; the caller
//! does the directory work and hands in sizes and contents.
use vstd::prelude::*;

use sha2::Digest;

use crate::text::same_bytes;

verus! {

/// Order of two listed files by size, ties broken by listing position: the
/// order that a stable sort by size produces.
pub open spec fn size_key_lt(sizes: Seq<u64>, a: usize, b: usize) -> bool {
    sizes[a as int] < sizes[b as int] || (sizes[a as int] == sizes[b as int] && a < b)
}

/// `order` lists every position of `sizes` once, smallest file first, and
/// files of equal size in listing order.
pub open spec fn is_size_order(sizes: Seq<u64>, order: Seq<usize>) -> bool {
    &&& order.len() == sizes.len()
    &&& forall|k: int| 0 <= k < order.len() ==> #[trigger] order[k] < sizes.len()
    &&& forall|k: int, l: int|
        0 <= k < l < order.len() ==> size_key_lt(sizes, #[trigger] order[k], #[trigger] order[l])
}

/// The positions of the files, sorted by size, stably.
pub fn sort_by_size(sizes: &Vec<u64>) -> (order: Vec<usize>)
    ensures
        is_size_order(sizes@, order@),
{
    let n = sizes.len();
    let mut order: Vec<usize> = Vec::new();
    let mut i: usize = 0;
    while i < n
        invariant
            n == sizes@.len(),
            i <= n,
            order@.len() == i,
            forall|k: int| 0 <= k < order@.len() ==> #[trigger] order@[k] < i,
            forall|k: int, l: int|
                0 <= k < l < order@.len() ==> size_key_lt(
                    sizes@,
                    #[trigger] order@[k],
                    #[trigger] order@[l],
                ),
        decreases n - i,
    {
        let si = sizes[i];
        let mut lo: usize = 0;
        let mut hi: usize = order.len();
        while lo < hi
            invariant
                n == sizes@.len(),
                i < n,
                si == sizes@[i as int],
                lo <= hi <= order@.len(),
                forall|k: int| 0 <= k < order@.len() ==> #[trigger] order@[k] < i,
                forall|k: int, l: int|
                    0 <= k < l < order@.len() ==> size_key_lt(
                        sizes@,
                        #[trigger] order@[k],
                        #[trigger] order@[l],
                    ),
                forall|k: int| 0 <= k < lo ==> sizes@[#[trigger] order@[k] as int] <= si,
                forall|k: int| hi <= k < order@.len() ==> sizes@[#[trigger] order@[k] as int] > si,
            decreases hi - lo,
        {
            let mid = lo + (hi - lo) / 2;
            if sizes[order[mid]] <= si {
                assert forall|k: int| 0 <= k <= mid implies sizes@[#[trigger] order@[k] as int]
                    <= si by {
                    if k < mid {
                        assert(size_key_lt(sizes@, order@[k], order@[mid as int]));
                    }
                }
                lo = mid + 1;
            } else {
                assert forall|k: int| mid <= k < order@.len() implies sizes@[#[trigger] order@[k] as int]
                    > si by {
                    if k > mid {
                        assert(size_key_lt(sizes@, order@[mid as int], order@[k]));
                    }
                }
                hi = mid;
            }
        }
        let ghost old_order = order@;
        order.insert(lo, i);
        assert forall|k: int, l: int|
            0 <= k < l < order@.len() implies size_key_lt(
            sizes@,
            #[trigger] order@[k],
            #[trigger] order@[l],
        ) by {
            if l < lo {
                assert(order@[k] == old_order[k] && order@[l] == old_order[l]);
            } else if l == lo {
                assert(order@[k] == old_order[k]);
            } else if k < lo {
                assert(order@[k] == old_order[k] && order@[l] == old_order[l - 1]);
            } else if k == lo {
                assert(order@[l] == old_order[l - 1]);
            } else {
                assert(order@[k] == old_order[k - 1] && order@[l] == old_order[l - 1]);
            }
        }
        i = i + 1;
    }
    order
}

proof fn lemma_size_order_covers(sizes: Seq<u64>, order: Seq<usize>, i: usize)
    requires
        is_size_order(sizes, order),
        i < sizes.len(),
    ensures
        order.contains(i),
{
    let oi = order.map_values(|x: usize| x as int);
    let n = sizes.len() as int;
    assert forall|k: int, l: int| 0 <= k < oi.len() && 0 <= l < oi.len() && k != l implies oi[k]
        != oi[l] by {
        if k < l {
            assert(size_key_lt(sizes, order[k], order[l]));
        } else {
            assert(size_key_lt(sizes, order[l], order[k]));
        }
    }
    assert(oi.no_duplicates());
    oi.unique_seq_to_set();
    vstd::set_lib::lemma_int_range(0, n);
    vstd::seq_lib::seq_to_set_is_finite(oi);
    assert(oi.to_set().subset_of(vstd::set_lib::set_int_range(0, n))) by {
        assert forall|x: int| oi.to_set().contains(x) implies vstd::set_lib::set_int_range(
            0,
            n,
        ).contains(x) by {
            assert(oi.contains(x));
            let k = choose|k: int| 0 <= k < oi.len() && oi[k] == x;
            assert(order[k] < sizes.len());
        }
    }
    vstd::set_lib::lemma_subset_equality(oi.to_set(), vstd::set_lib::set_int_range(0, n));
    assert(vstd::set_lib::set_int_range(0, n).contains(i as int));
    assert(oi.to_set().contains(i as int));
    assert(oi.contains(i as int));
    let k = choose|k: int| 0 <= k < oi.len() && oi[k] == i as int;
    assert(order[k] == i);
}

/// Law: the size order of a listing is unique, so `sort_by_size` and the
/// functions built on it are determined by their contracts.
pub proof fn size_order_is_unique(sizes: Seq<u64>, o1: Seq<usize>, o2: Seq<usize>)
    requires
        is_size_order(sizes, o1),
        is_size_order(sizes, o2),
    ensures
        o1 == o2,
{
    assert forall|k: int| 0 <= k < o1.len() implies o1[k] == o2[k] by {
        lemma_size_order_same_up_to(sizes, o1, o2, k);
    }
    assert(o1 =~= o2);
}

proof fn lemma_size_order_same_up_to(sizes: Seq<u64>, o1: Seq<usize>, o2: Seq<usize>, k: int)
    requires
        is_size_order(sizes, o1),
        is_size_order(sizes, o2),
        0 <= k < o1.len(),
    ensures
        forall|j: int| 0 <= j <= k ==> o1[j] == o2[j],
    decreases k,
{
    if k > 0 {
        lemma_size_order_same_up_to(sizes, o1, o2, k - 1);
    }
    let a = o1[k];
    let b = o2[k];
    if a != b {
        lemma_size_order_covers(sizes, o2, a);
        lemma_size_order_covers(sizes, o1, b);
        let m = choose|m: int| 0 <= m < o2.len() && o2[m] == a;
        let m1 = choose|m: int| 0 <= m < o1.len() && o1[m] == b;
        if m < k {
            assert(o1[m] == o2[m]);
            assert(size_key_lt(sizes, o1[m], o1[k]));
        } else {
            assert(m > k);
            assert(size_key_lt(sizes, b, a));
            if m1 < k {
                assert(o2[m1] == o1[m1]);
                assert(size_key_lt(sizes, o2[m1], o2[k]));
            } else {
                assert(m1 > k);
                assert(size_key_lt(sizes, a, b));
            }
        }
    }
}

/// The two cut positions of `n` size-sorted files: `floor(n * 0.33)` and
/// `floor(n * 0.66)`, computed exactly as `n * 33 / 100` and `n * 66 / 100`.
pub open spec fn cut33(n: int) -> int {
    n * 33 / 100
}

/// See `cut33`.
pub open spec fn cut66(n: int) -> int {
    n * 66 / 100
}

proof fn lemma_cut(n: int, q: int, r: int, pct: int)
    requires
        0 <= n,
        0 <= pct <= 100,
        q == n / 100,
        r == n % 100,
    ensures
        n * pct / 100 == q * pct + r * pct / 100,
        0 <= r * pct / 100 <= pct,
        n * pct / 100 <= n,
{
    assert(n == q * 100 + r && 0 <= r < 100) by (nonlinear_arith)
        requires
            q == n / 100,
            r == n % 100,
            n >= 0,
    ;
    assert(n * pct == (q * pct) * 100 + r * pct) by (nonlinear_arith)
        requires
            n == q * 100 + r,
    ;
    assert(0 <= r * pct < 100 * 100) by (nonlinear_arith)
        requires
            0 <= r < 100,
            0 <= pct <= 100,
    ;
    assert(((q * pct) * 100 + r * pct) / 100 == q * pct + (r * pct) / 100) by (nonlinear_arith)
        requires
            0 <= r * pct,
    ;
    assert(0 <= r * pct / 100 <= pct) by (nonlinear_arith)
        requires
            0 <= r < 100,
            0 <= pct <= 100,
    ;
    assert(n * pct / 100 <= n) by (nonlinear_arith)
        requires
            0 <= n,
            0 <= pct <= 100,
    ;
}

/// The size-tercile cuts of `n` files: `(cut33(n), cut66(n))`.
pub fn tercile_cuts(n: usize) -> (cuts: (usize, usize))
    ensures
        cuts.0 == cut33(n as int),
        cuts.1 == cut66(n as int),
        cuts.0 * 100 <= n * 33 < (cuts.0 + 1) * 100,
        cuts.1 * 100 <= n * 66 < (cuts.1 + 1) * 100,
{
    let q = n / 100;
    let r = n % 100;
    proof {
        lemma_cut(n as int, q as int, r as int, 33);
        lemma_cut(n as int, q as int, r as int, 66);
    }
    (q * 33 + r * 33 / 100, q * 66 + r * 66 / 100)
}

/// The size class of a corpus file.
#[derive(Clone, Copy, Debug, PartialEq, Eq, Structural)]
pub enum SizeBin {
    Small,
    Medium,
    Large,
}

/// The class of the file at position `rank` of `n` size-sorted files: small up
/// to and including `cut33(n)`, medium up to and including `cut66(n)`, large after.
pub open spec fn bin_for_rank_spec(rank: int, n: int) -> SizeBin {
    if rank <= cut33(n) {
        SizeBin::Small
    } else if rank <= cut66(n) {
        SizeBin::Medium
    } else {
        SizeBin::Large
    }
}

/// The class of the file at position `rank` of `n` size-sorted files.
pub fn bin_for_rank(rank: usize, n: usize) -> (b: SizeBin)
    ensures
        b == bin_for_rank_spec(rank as int, n as int),
        (b == SizeBin::Small) <==> rank * 100 <= n * 33,
        (b == SizeBin::Medium) <==> n * 33 < rank * 100 && rank * 100 <= n * 66,
        (b == SizeBin::Large) <==> n * 66 < rank * 100,
{
    let (c33, c66) = tercile_cuts(n);
    if rank <= c33 {
        SizeBin::Small
    } else if rank <= c66 {
        SizeBin::Medium
    } else {
        SizeBin::Large
    }
}

/// `plan` lists the files of `sizes` in size order, each with the class of its rank.
pub open spec fn is_size_bin_plan(sizes: Seq<u64>, plan: Seq<(usize, SizeBin)>) -> bool {
    &&& plan.len() == sizes.len()
    &&& is_size_order(sizes, plan.map_values(|p: (usize, SizeBin)| p.0))
    &&& forall|k: int|
        0 <= k < plan.len() ==> #[trigger] plan[k].1 == bin_for_rank_spec(k, sizes.len() as int)
}

/// Rank of a size class: small, medium, large.
pub open spec fn bin_order(b: SizeBin) -> int {
    match b {
        SizeBin::Small => 0,
        SizeBin::Medium => 1,
        SizeBin::Large => 2,
    }
}

/// Law: in a size order, sizes never decrease.
pub proof fn size_order_is_sorted(sizes: Seq<u64>, order: Seq<usize>, k: int, l: int)
    requires
        is_size_order(sizes, order),
        0 <= k <= l < order.len(),
    ensures
        sizes[order[k] as int] <= sizes[order[l] as int],
{
    if k < l {
        assert(size_key_lt(sizes, order[k], order[l]));
    }
}

/// Law: size classes follow file sizes. A strictly smaller file is never in
/// a larger class than a bigger one, the smallest file is small, and with at
/// least three files the largest is large.
pub proof fn size_bins_follow_sizes(sizes: Seq<u64>, plan: Seq<(usize, SizeBin)>, k: int, l: int)
    requires
        is_size_bin_plan(sizes, plan),
        0 <= k < plan.len(),
        0 <= l < plan.len(),
    ensures
        sizes[plan[k].0 as int] < sizes[plan[l].0 as int] ==> bin_order(plan[k].1) <= bin_order(
            plan[l].1,
        ),
        plan[0].1 == SizeBin::Small,
        plan.len() >= 3 ==> plan[plan.len() - 1].1 == SizeBin::Large,
{
    let n = sizes.len() as int;
    let order = plan.map_values(|p: (usize, SizeBin)| p.0);
    assert(plan[k].1 == bin_for_rank_spec(k, n));
    assert(plan[l].1 == bin_for_rank_spec(l, n));
    assert(plan[0].1 == bin_for_rank_spec(0, n));
    assert(plan[n - 1].1 == bin_for_rank_spec(n - 1, n));
    lemma_cut(n, n / 100, n % 100, 33);
    lemma_cut(n, n / 100, n % 100, 66);
    assert(cut33(n) <= cut66(n)) by (nonlinear_arith)
        requires
            n >= 0,
    ;
    if sizes[plan[k].0 as int] < sizes[plan[l].0 as int] {
        if l < k {
            assert(order[l] == plan[l].0 && order[k] == plan[k].0);
            assert(size_key_lt(sizes, order[l], order[k]));
        }
    }
    if n >= 3 {
        assert(cut66(n) < n - 1) by (nonlinear_arith)
            requires
                n >= 3,
        ;
    }
}

/// Why a corpus cannot be binned.
#[derive(Clone, Copy, Debug, PartialEq, Eq, Structural)]
pub enum BinError {
    /// The corpus directory holds no file.
    NoCorpusFiles,
}

/// Assigns every corpus file to a size class: the files in size order (stably),
/// each with the class of its rank. Refused for an empty corpus.
pub fn plan_size_bins(sizes: &Vec<u64>) -> (r: Result<Vec<(usize, SizeBin)>, BinError>)
    ensures
        r is Err <==> sizes@.len() == 0,
        r matches Err(e) ==> e == BinError::NoCorpusFiles,
        r matches Ok(plan) ==> is_size_bin_plan(sizes@, plan@),
{
    if sizes.len() == 0 {
        return Err(BinError::NoCorpusFiles);
    }
    let order = sort_by_size(sizes);
    let n = order.len();
    let mut plan: Vec<(usize, SizeBin)> = Vec::new();
    let mut k: usize = 0;
    while k < n
        invariant
            n == order@.len(),
            n == sizes@.len(),
            k <= n,
            plan@.len() == k,
            forall|j: int| 0 <= j < k ==> #[trigger] plan@[j] == (order@[j], bin_for_rank_spec(j, n as int)),
        decreases n - k,
    {
        plan.push((order[k], bin_for_rank(k, n)));
        k = k + 1;
    }
    assert(plan@.map_values(|p: (usize, SizeBin)| p.0) =~= order@);
    Ok(plan)
}


/// Number of evenly spread picks from a run of `len` files taken every `step`
/// files while fewer than `max` picks exist in all (`have` so far): one pick
/// for each start position below `len`, as many as there is room for.
pub open spec fn even_pick_count(len: int, step: int, have: int, max: int) -> int {
    let fit = (len + step - 1) / step;
    let room = if max > have {
        max - have
    } else {
        0
    };
    if fit < room {
        fit
    } else {
        room
    }
}

/// `picks` extended with evenly spread positions of the run `[lo, lo + len)`:
/// with `step = max(1, len / per_bin)`, the positions `lo, lo + step, ...`
/// below `lo + len`, stopping once `picks` holds `max` positions.
pub open spec fn push_even_spec(picks: Seq<usize>, lo: int, len: int, per_bin: int, max: int) -> Seq<
    usize,
> {
    if len <= 0 {
        picks
    } else {
        let step = if len / per_bin > 1 {
            len / per_bin
        } else {
            1
        };
        picks + Seq::new(
            even_pick_count(len, step, picks.len() as int, max) as nat,
            |j: int| (lo + j * step) as usize,
        )
    }
}

/// Positions, in size order, of the files that a sample of at most
/// `max_files` of `n` size-sorted files takes: evenly spread picks from the
/// small, then the medium, then the large tercile, `max(1, max_files / 3)`
/// per tercile as the spacing goes, and no more than `max_files` in all.
pub open spec fn sample_positions_spec(n: int, max_files: int) -> Seq<usize> {
    if n <= 0 {
        Seq::empty()
    } else {
        let c33 = cut33(n);
        let c66 = cut66(n);
        let per_bin = if max_files / 3 > 1 {
            max_files / 3
        } else {
            1
        };
        let small_end = if c33 < n - 1 {
            c33
        } else {
            n - 1
        };
        let medium_end = if c66 < n - 1 {
            c66
        } else {
            n - 1
        };
        let a = push_even_spec(Seq::empty(), 0, small_end + 1, per_bin, max_files);
        let b = if c66 > c33 {
            push_even_spec(a, c33 + 1, medium_end - c33, per_bin, max_files)
        } else {
            a
        };
        if c66 + 1 < n {
            push_even_spec(b, c66 + 1, n - (c66 + 1), per_bin, max_files)
        } else {
            b
        }
    }
}

proof fn lemma_fit(j: int, step: int, len: int)
    requires
        step >= 1,
        len >= 0,
        j >= 0,
    ensures
        (j * step < len) == (j < (len + step - 1) / step),
{
    let f = (len + step - 1) / step;
    assert(f * step <= len + step - 1 && len + step - 1 < f * step + step) by (nonlinear_arith)
        requires
            step >= 1,
            f == (len + step - 1) / step,
            len >= 0,
    ;
    if j < f {
        assert(j * step <= (f - 1) * step) by (nonlinear_arith)
            requires
                j <= f - 1,
                step >= 1,
        ;
        assert((f - 1) * step == f * step - step) by (nonlinear_arith);
    } else {
        assert(j * step >= f * step) by (nonlinear_arith)
            requires
                j >= f,
                step >= 1,
        ;
    }
}

/// Appends to `picks` what `push_even_spec` adds for the run `[lo, lo + len)`.
fn push_even(picks: &mut Vec<usize>, lo: usize, len: usize, per_bin: usize, max: usize)
    requires
        per_bin >= 1,
        lo + len <= usize::MAX,
    ensures
        final(picks)@ == push_even_spec(old(picks)@, lo as int, len as int, per_bin as int, max as int),
{
    if len == 0 {
        return;
    }
    let step = if len / per_bin > 1 {
        len / per_bin
    } else {
        1
    };
    let ghost base = picks@;
    let ghost cnt = even_pick_count(len as int, step as int, base.len() as int, max as int);
    let mut i: usize = 0;
    let mut j: usize = 0;
    proof {
        assert(len / per_bin <= len) by (nonlinear_arith)
            requires
                per_bin >= 1,
                len >= 0,
        ;
        lemma_fit(0, step as int, len as int);
    }
    while i < len && picks.len() < max
        invariant_except_break
            i == j * step,
            (j * step < len) == (j < (len + step - 1) / (step as int)),
        invariant
            1 <= step <= len,
            lo + len <= usize::MAX,
            j <= cnt,
            picks@ == base + Seq::new(j as nat, |t: int| (lo + t * step) as usize),
            cnt == even_pick_count(len as int, step as int, base.len() as int, max as int),
        ensures
            j == cnt,
            picks@ == base + Seq::new(j as nat, |t: int| (lo + t * step) as usize),
        decreases len - i,
    {
        proof {
            lemma_fit(j as int, step as int, len as int);
        }
        picks.push(lo + i);
        assert(picks@ =~= base + Seq::new((j + 1) as nat, |t: int| (lo + t * step) as usize));
        j = j + 1;
        if i >= len - step {
            proof {
                assert(j * step == i + step) by (nonlinear_arith)
                    requires
                        i == (j - 1) * step,
                ;
                lemma_fit(j as int, step as int, len as int);
            }
            break;
        }
        i = i + step;
        assert(i == j * step) by (nonlinear_arith)
            requires
                i == (j - 1) * step + step,
        ;
        proof {
            lemma_fit(j as int, step as int, len as int);
        }
    }
    assert(picks@ =~= push_even_spec(base, lo as int, len as int, per_bin as int, max as int));
}

/// Positions, in size order, of the files that a sample of at most
/// `max_files` of `n` size-sorted files takes (`sample_positions_spec`).
pub fn sample_positions(n: usize, max_files: usize) -> (picks: Vec<usize>)
    ensures
        picks@ == sample_positions_spec(n as int, max_files as int),
        picks@.len() <= max_files,
        forall|k: int, l: int| 0 <= k < l < picks@.len() ==> #[trigger] picks@[k] < #[trigger] picks@[l],
        forall|k: int| 0 <= k < picks@.len() ==> #[trigger] picks@[k] < n,
        n > 0 ==> small_pick_count(n as int, max_files as int) <= picks@.len(),
        n > 0 ==> forall|j: int|
            0 <= j < small_pick_count(n as int, max_files as int) ==> #[trigger] picks@[j] as int
                == j * sample_step(small_run_len(n as int), max_files as int),
{
    proof {
        sample_is_bounded(n as int, max_files as int);
        if n > 0 {
            sample_starts_with_small_tercile(n as int, max_files as int);
        }
    }
    let mut picks: Vec<usize> = Vec::new();
    if n == 0 {
        return picks;
    }
    let (c33, c66) = tercile_cuts(n);
    proof {
        lemma_cut(n as int, n as int / 100, n as int % 100, 33);
        lemma_cut(n as int, n as int / 100, n as int % 100, 66);
    }
    let per_bin = if max_files / 3 > 1 {
        max_files / 3
    } else {
        1
    };
    let small_end = if c33 < n - 1 {
        c33
    } else {
        n - 1
    };
    let medium_end = if c66 < n - 1 {
        c66
    } else {
        n - 1
    };
    push_even(&mut picks, 0, small_end + 1, per_bin, max_files);
    if c66 > c33 {
        push_even(&mut picks, c33 + 1, medium_end - c33, per_bin, max_files);
    }
    if c66 + 1 < n {
        push_even(&mut picks, c66 + 1, n - (c66 + 1), per_bin, max_files);
    }
    picks
}


/// The SHA-256 digest of `data`, as the `sha2` crate computes it.
pub uninterp spec fn sha256_spec(data: Seq<u8>) -> Seq<u8>;

/// `sha2::Sha256::digest`: the SHA-256 digest of `data`, as a byte vector.
/// Trusted: the result is `sha256_spec` of the input bytes, nothing more is claimed.
#[verifier::external_body]
fn sha256_digest(data: &[u8]) -> (d: Vec<u8>)
    ensures
        d@ == sha256_spec(data@),
{
    sha2::Sha256::digest(data).to_vec()
}

/// Position `i` holds the first occurrence of its value in `s`.
pub open spec fn is_first_occurrence(s: Seq<Seq<u8>>, i: int) -> bool {
    forall|j: int| 0 <= j < i ==> s[j] != s[i]
}

/// The positions of `s` that hold the first occurrence of their value, in order.
pub open spec fn first_occurrences(s: Seq<Seq<u8>>) -> Seq<usize>
    decreases s.len(),
{
    if s.len() == 0 {
        Seq::empty()
    } else {
        let p = first_occurrences(s.drop_last());
        if is_first_occurrence(s, s.len() - 1) {
            p.push((s.len() - 1) as usize)
        } else {
            p
        }
    }
}

/// The byte strings of a list of byte vectors.
pub open spec fn byte_views(v: Seq<Vec<u8>>) -> Seq<Seq<u8>> {
    v.map_values(|b: Vec<u8>| b@)
}

/// The digests of a list of file contents.
pub open spec fn content_digests(contents: Seq<Vec<u8>>) -> Seq<Seq<u8>> {
    contents.map_values(|c: Vec<u8>| sha256_spec(c@))
}

/// Law: deduplication keeps exactly the first file of each content, in
/// listing order; no two kept files share a digest, and every digest of the
/// listing is kept once.
pub proof fn first_occurrences_law(s: Seq<Seq<u8>>)
    requires
        s.len() <= usize::MAX,
    ensures
        forall|k: int|
            0 <= k < first_occurrences(s).len() ==> {
                &&& #[trigger] first_occurrences(s)[k] < s.len()
                &&& is_first_occurrence(s, first_occurrences(s)[k] as int)
            },
        forall|i: int|
            0 <= i < s.len() && is_first_occurrence(s, i) ==> first_occurrences(s).contains(
                i as usize,
            ),
        forall|k: int, l: int|
            0 <= k < l < first_occurrences(s).len() ==> s[#[trigger] first_occurrences(s)[k] as int]
                != s[#[trigger] first_occurrences(s)[l] as int],
        forall|i: int|
            0 <= i < s.len() ==> exists|k: int|
                0 <= k < first_occurrences(s).len() && #[trigger] s[i] == s[
                    #[trigger] first_occurrences(s)[k] as int],
{
    lemma_first_occurrences_facts(s);
    let r = first_occurrences(s);
    assert forall|k: int, l: int| 0 <= k < l < r.len() implies s[#[trigger] r[k] as int] != s[#[trigger] r[l] as int] by {
        assert(r[k] < r[l]);
        assert(is_first_occurrence(s, r[l] as int));
    }
    assert forall|i: int| 0 <= i < s.len() implies exists|k: int|
        0 <= k < r.len() && #[trigger] s[i] == s[#[trigger] r[k] as int] by {
        let f = lemma_first_index_of(s, i);
        assert(r.contains(f as usize));
        let k = choose|k: int| 0 <= k < r.len() && r[k] == f as usize;
        assert(s[r[k] as int] == s[i]);
    }
}

/// The first position holding the value at position `i`.
proof fn lemma_first_index_of(s: Seq<Seq<u8>>, i: int) -> (f: int)
    requires
        0 <= i < s.len(),
    ensures
        0 <= f <= i,
        s[f] == s[i],
        is_first_occurrence(s, f),
    decreases i,
{
    if is_first_occurrence(s, i) {
        i
    } else {
        let j = choose|j: int| 0 <= j < i && s[j] == s[i];
        let f = lemma_first_index_of(s, j);
        f
    }
}

proof fn lemma_first_occurrences_facts(s: Seq<Seq<u8>>)
    requires
        s.len() <= usize::MAX,
    ensures
        forall|k: int|
            0 <= k < first_occurrences(s).len() ==> {
                &&& #[trigger] first_occurrences(s)[k] < s.len()
                &&& is_first_occurrence(s, first_occurrences(s)[k] as int)
            },
        forall|i: int|
            0 <= i < s.len() && is_first_occurrence(s, i) ==> first_occurrences(s).contains(
                i as usize,
            ),
        forall|k: int, l: int|
            0 <= k < l < first_occurrences(s).len() ==> #[trigger] first_occurrences(s)[k]
                < #[trigger] first_occurrences(s)[l],
    decreases s.len(),
{
    if s.len() > 0 {
        let t = s.drop_last();
        lemma_first_occurrences_facts(t);
        let p = first_occurrences(t);
        let last = s.len() - 1;
        assert forall|i: int| 0 <= i < t.len() implies #[trigger] is_first_occurrence(t, i)
            == is_first_occurrence(s, i) by {
            if is_first_occurrence(t, i) {
                assert forall|j: int| 0 <= j < i implies s[j] != s[i] by {
                    assert(t[j] == s[j] && t[i] == s[i]);
                }
            }
            if is_first_occurrence(s, i) {
                assert forall|j: int| 0 <= j < i implies t[j] != t[i] by {
                    assert(t[j] == s[j] && t[i] == s[i]);
                }
            }
        }
        let r = first_occurrences(s);
        if is_first_occurrence(s, last) {
            assert(r == p.push(last as usize));
        } else {
            assert(r == p);
        }
        assert forall|k: int| 0 <= k < r.len() implies {
            &&& #[trigger] r[k] < s.len()
            &&& is_first_occurrence(s, r[k] as int)
        } by {
            if k < p.len() {
                assert(r[k] == p[k]);
                assert(is_first_occurrence(t, p[k] as int));
            }
        }
        assert forall|i: int| 0 <= i < s.len() && is_first_occurrence(s, i) implies r.contains(
            i as usize,
        ) by {
            if i < last {
                assert(is_first_occurrence(t, i));
                assert(p.contains(i as usize));
                let k = choose|k: int| 0 <= k < p.len() && p[k] == i as usize;
                assert(r[k] == i as usize);
            } else {
                assert(r[r.len() - 1] == i as usize);
            }
        }
        assert forall|k: int, l: int| 0 <= k < l < r.len() implies #[trigger] r[k]
            < #[trigger] r[l] by {
            if l < p.len() {
                assert(r[k] == p[k] && r[l] == p[l]);
            } else {
                assert(r[k] == p[k]);
                assert(p[k] < t.len());
            }
        }
    }
}

/// Positions of the first occurrence of each digest, in order: what keeping
/// the first file of each content hash keeps.
pub fn first_by_digest(digests: &Vec<Vec<u8>>) -> (firsts: Vec<usize>)
    ensures
        firsts@ == first_occurrences(byte_views(digests@)),
        forall|k: int, l: int|
            0 <= k < l < firsts@.len() ==> #[trigger] firsts@[k] < #[trigger] firsts@[l],
        forall|k: int|
            0 <= k < firsts@.len() ==> #[trigger] firsts@[k] < digests@.len() && forall|j: int|
                0 <= j < firsts@[k] ==> (#[trigger] digests@[j])@ != digests@[firsts@[k] as int]@,
        forall|i: int|
            0 <= i < digests@.len() && !(#[trigger] firsts@.contains(i as usize)) ==> exists|j: int|
                0 <= j < i && (#[trigger] digests@[j])@ == digests@[i]@,
{
    let ghost d = byte_views(digests@);
    let n = digests.len();
    let mut firsts: Vec<usize> = Vec::new();
    let mut i: usize = 0;
    while i < n
        invariant
            n == digests@.len(),
            d == byte_views(digests@),
            i <= n,
            firsts@ == first_occurrences(d.take(i as int)),
        decreases n - i,
    {
        let ghost t = d.take(i as int + 1);
        assert(t.drop_last() =~= d.take(i as int));
        let mut j: usize = 0;
        while j < i && !same_bytes(&digests[j], &digests[i])
            invariant
                n == digests@.len(),
                d == byte_views(digests@),
                j <= i < n,
                t == d.take(i as int + 1),
                forall|k: int| 0 <= k < j ==> d[k] != d[i as int],
            decreases i - j,
        {
            j = j + 1;
        }
        if j < i {
            assert(d[j as int] == d[i as int]);
            assert(t[j as int] == t[i as int]);
            assert(!is_first_occurrence(t, i as int));
        } else {
            assert(is_first_occurrence(t, i as int));
            firsts.push(i);
        }
        i = i + 1;
    }
    assert(d.take(n as int) =~= d);
    proof {
        lemma_first_occurrences_facts(d);
        assert forall|k: int| 0 <= k < firsts@.len() implies #[trigger] firsts@[k] < digests@.len()
            && forall|j: int|
            0 <= j < firsts@[k] ==> (#[trigger] digests@[j])@ != digests@[firsts@[k] as int]@ by {
            assert(is_first_occurrence(d, firsts@[k] as int));
            assert forall|j: int| 0 <= j < firsts@[k] implies (#[trigger] digests@[j])@
                != digests@[firsts@[k] as int]@ by {
                assert(d[j] != d[firsts@[k] as int]);
            }
        }
        assert forall|i: int|
            0 <= i < digests@.len() && !(#[trigger] firsts@.contains(i as usize)) implies exists|j: int|
            0 <= j < i && (#[trigger] digests@[j])@ == digests@[i]@ by {
            assert(!is_first_occurrence(d, i));
            let j = choose|j: int| 0 <= j < i && d[j] == d[i];
            assert(digests@[j]@ == d[j]);
        }
    }
    firsts
}

/// The SHA-256 digest of each file content, in order.
pub fn digests_of(contents: &Vec<Vec<u8>>) -> (digests: Vec<Vec<u8>>)
    ensures
        byte_views(digests@) == content_digests(contents@),
{
    let n = contents.len();
    let mut digests: Vec<Vec<u8>> = Vec::new();
    let mut i: usize = 0;
    while i < n
        invariant
            n == contents@.len(),
            i <= n,
            digests@.len() == i,
            forall|k: int| 0 <= k < i ==> (#[trigger] digests@[k])@ == sha256_spec(contents@[k]@),
        decreases n - i,
    {
        digests.push(sha256_digest(contents[i].as_slice()));
        i = i + 1;
    }
    assert(byte_views(digests@) =~= content_digests(contents@));
    digests
}

/// Positions of the files whose contents hash to a digest that no earlier
/// file has: the files that survive dropping duplicate contents, in order.
pub fn unique_by_content(contents: &Vec<Vec<u8>>) -> (firsts: Vec<usize>)
    ensures
        firsts@ == first_occurrences(content_digests(contents@)),
        forall|k: int, l: int|
            0 <= k < l < firsts@.len() ==> #[trigger] firsts@[k] < #[trigger] firsts@[l],
        forall|k: int|
            0 <= k < firsts@.len() ==> #[trigger] firsts@[k] < contents@.len() && forall|j: int|
                0 <= j < firsts@[k] ==> sha256_spec((#[trigger] contents@[j])@) != sha256_spec(
                    contents@[firsts@[k] as int]@,
                ),
        forall|i: int|
            0 <= i < contents@.len() && !(#[trigger] firsts@.contains(i as usize)) ==> exists|j: int|
                0 <= j < i && sha256_spec((#[trigger] contents@[j])@) == sha256_spec(
                    contents@[i]@,
                ),
{
    let digests = digests_of(contents);
    let firsts = first_by_digest(&digests);
    proof {
        assert(digests@.len() == contents@.len()) by {
            assert(byte_views(digests@).len() == content_digests(contents@).len());
        }
        assert forall|j: int| 0 <= j < digests@.len() implies #[trigger] digests@[j]@ == sha256_spec(
            contents@[j]@,
        ) by {
            assert(byte_views(digests@)[j] == content_digests(contents@)[j]);
        }
        assert forall|k: int| 0 <= k < firsts@.len() implies #[trigger] firsts@[k] < contents@.len()
            && forall|j: int|
            0 <= j < firsts@[k] ==> sha256_spec((#[trigger] contents@[j])@) != sha256_spec(
                contents@[firsts@[k] as int]@,
            ) by {
            assert forall|j: int| 0 <= j < firsts@[k] implies sha256_spec(
                (#[trigger] contents@[j])@,
            ) != sha256_spec(contents@[firsts@[k] as int]@) by {
                assert(digests@[j]@ != digests@[firsts@[k] as int]@);
                assert(digests@[j]@ == sha256_spec(contents@[j]@));
                assert(digests@[firsts@[k] as int]@ == sha256_spec(contents@[firsts@[k] as int]@));
            }
        }
        assert forall|i: int|
            0 <= i < contents@.len() && !(#[trigger] firsts@.contains(i as usize)) implies exists|j: int|
            0 <= j < i && sha256_spec((#[trigger] contents@[j])@) == sha256_spec(contents@[i]@) by {
            let j = choose|j: int| 0 <= j < i && (#[trigger] digests@[j])@ == digests@[i]@;
            assert(digests@[j]@ == sha256_spec(contents@[j]@));
            assert(digests@[i]@ == sha256_spec(contents@[i]@));
        }
    }
    firsts
}

/// Positions, in size order, that pruning `n` files down to `keep_limit`
/// keeps: all of them when they fit, else every `n / keep_limit`-th from the
/// smallest, `keep_limit` of them.
pub open spec fn kept_positions_spec(n: int, keep_limit: int) -> Seq<usize> {
    if n <= keep_limit {
        Seq::new(n as nat, |p: int| p as usize)
    } else {
        Seq::new(keep_limit as nat, |j: int| (j * (n / keep_limit)) as usize)
    }
}

/// The outcome of pruning `n` size-sorted files.
pub struct PrunePlan {
    /// Positions kept, ascending.
    pub keep: Vec<usize>,
    /// Positions removed, ascending: every other position below `n`.
    pub remove: Vec<usize>,
    /// The count that pruning reports: `n` when nothing had to go, else `keep_limit`.
    pub reported: usize,
}

/// Which of `n` size-sorted, duplicate-free files pruning to `keep_limit`
/// keeps and removes. With more files than the limit, a limit of 0 is a
/// division by zero, which the requirement rules out.
pub fn prune_plan(n: usize, keep_limit: usize) -> (plan: PrunePlan)
    requires
        n <= keep_limit || keep_limit > 0,
    ensures
        plan.keep@ == kept_positions_spec(n as int, keep_limit as int),
        forall|k: int, l: int|
            0 <= k < l < plan.remove@.len() ==> #[trigger] plan.remove@[k]
                < #[trigger] plan.remove@[l],
        forall|k: int| 0 <= k < plan.remove@.len() ==> #[trigger] plan.remove@[k] < n,
        forall|p: usize|
            p < n ==> (#[trigger] plan.remove@.contains(p) <==> !plan.keep@.contains(p)),
        plan.reported == if n <= keep_limit {
            n
        } else {
            keep_limit
        },
        n <= keep_limit ==> plan.keep@.len() == n && forall|j: int|
            0 <= j < n ==> #[trigger] plan.keep@[j] as int == j,
        n > keep_limit ==> plan.keep@.len() == keep_limit && forall|j: int|
            0 <= j < keep_limit ==> #[trigger] plan.keep@[j] as int == j * (n as int
                / keep_limit as int),
        n > keep_limit ==> forall|j: int|
            0 <= j < keep_limit - 1 ==> #[trigger] plan.keep@[j + 1] - plan.keep@[j] == n as int
                / keep_limit as int,
{
    proof {
        if n > keep_limit {
            prune_keeps_evenly_spaced(n as int, keep_limit as int);
        }
    }
    let mut keep: Vec<usize> = Vec::new();
    let mut remove: Vec<usize> = Vec::new();
    if n <= keep_limit {
        let mut p: usize = 0;
        while p < n
            invariant
                p <= n,
                keep@ == Seq::new(p as nat, |q: int| q as usize),
            decreases n - p,
        {
            keep.push(p);
            assert(keep@ =~= Seq::new((p + 1) as nat, |q: int| q as usize));
            p = p + 1;
        }
        assert forall|p: usize| p < n implies (#[trigger] remove@.contains(p) <==> !keep@.contains(p)) by {
            assert(keep@[p as int] == p);
        }
        return PrunePlan { keep, remove, reported: n };
    }
    let step = n / keep_limit;
    proof {
        assert(step >= 1 && step * keep_limit <= n) by (nonlinear_arith)
            requires
                step == n / keep_limit,
                n > keep_limit > 0,
        ;
    }
    let mut j: usize = 0;
    while j < keep_limit
        invariant
            step == n / keep_limit,
            step >= 1,
            step * keep_limit <= n,
            keep_limit > 0,
            j <= keep_limit,
            keep@ == Seq::new(j as nat, |t: int| (t * step) as usize),
        decreases keep_limit - j,
    {
        proof {
            assert(j * step < n) by (nonlinear_arith)
                requires
                    j < keep_limit,
                    step * keep_limit <= n,
                    step >= 1,
            ;
        }
        keep.push(j * step);
        assert(keep@ =~= Seq::new((j + 1) as nat, |t: int| (t * step) as usize));
        j = j + 1;
    }
    let mut p: usize = 0;
    let mut next: usize = 0;
    while p < n
        invariant
            keep_limit > 0,
            step >= 1,
            step * keep_limit <= n,
            keep@ == Seq::new(keep_limit as nat, |t: int| (t * step) as usize),
            keep@.len() == keep_limit,
            p <= n,
            next <= keep_limit,
            next < keep_limit ==> p <= next * step,
            next == keep_limit || p <= next * step,
            forall|t: int| 0 <= t < next ==> (#[trigger] (t * step)) < p,
            forall|k: int, l: int|
                0 <= k < l < remove@.len() ==> #[trigger] remove@[k] < #[trigger] remove@[l],
            forall|k: int| 0 <= k < remove@.len() ==> #[trigger] remove@[k] < p,
            forall|q: usize| q < p ==> (#[trigger] remove@.contains(q) <==> !keep@.contains(q)),
        decreases n - p,
    {
        proof {
            if next < keep_limit {
                assert(next * step < n) by (nonlinear_arith)
                    requires
                        next < keep_limit,
                        step * keep_limit <= n,
                        step >= 1,
                ;
            }
        }
        if next < keep_limit && p == next * step {
            proof {
                assert forall|k: int| 0 <= k < remove@.len() implies remove@[k] != p by {}
                assert(keep@[next as int] == p);
            }
            next = next + 1;
            proof {
                if next < keep_limit {
                    assert(next * step == (next - 1) * step + step) by (nonlinear_arith);
                }
            }
        } else {
            proof {
                assert forall|t: int| 0 <= t < keep_limit implies keep@[t] != p by {
                    assert(t * step < n) by (nonlinear_arith)
                        requires
                            0 <= t < keep_limit,
                            step * keep_limit <= n,
                            step >= 1,
                    ;
                    if t < next {
                        assert(t * step < p);
                    } else {
                        assert(t * step >= next * step) by (nonlinear_arith)
                            requires
                                t >= next,
                                step >= 1,
                        ;
                    }
                }
            }
            let ghost old_remove = remove@;
            remove.push(p);
            assert forall|q: usize| q < p implies (#[trigger] remove@.contains(q)
                <==> old_remove.contains(q)) by {
                if old_remove.contains(q) {
                    let k = choose|k: int| 0 <= k < old_remove.len() && old_remove[k] == q;
                    assert(remove@[k] == q);
                }
                if remove@.contains(q) {
                    let k = choose|k: int| 0 <= k < remove@.len() && remove@[k] == q;
                    assert(k < old_remove.len());
                    assert(old_remove[k] == q);
                }
            }
            assert(remove@[remove@.len() - 1] == p);
        }
        p = p + 1;
    }
    PrunePlan { keep, remove, reported: keep_limit }
}


/// Law: pruning `n` files to `keep_limit` keeps `min(n, keep_limit)` distinct
/// positions, ascending, all below `n`.
pub proof fn prune_keeps_limit(n: int, keep_limit: int)
    requires
        0 <= n,
        0 <= keep_limit,
        n <= keep_limit || keep_limit > 0,
    ensures
        kept_positions_spec(n, keep_limit).len() == if n <= keep_limit {
            n
        } else {
            keep_limit
        },
        n <= usize::MAX ==> forall|k: int|
            0 <= k < kept_positions_spec(n, keep_limit).len() ==> #[trigger] kept_positions_spec(
                n,
                keep_limit,
            )[k] < n,
        n <= usize::MAX ==> forall|k: int, l: int|
            0 <= k < l < kept_positions_spec(n, keep_limit).len() ==> #[trigger] kept_positions_spec(
                n,
                keep_limit,
            )[k] < #[trigger] kept_positions_spec(n, keep_limit)[l],
{
    if n > keep_limit && n <= usize::MAX {
        let step = n / keep_limit;
        let s = kept_positions_spec(n, keep_limit);
        assert(step >= 1 && step * keep_limit <= n) by (nonlinear_arith)
            requires
                step == n / keep_limit,
                n > keep_limit > 0,
        ;
        assert forall|k: int| 0 <= k < s.len() implies #[trigger] s[k] < n by {
            assert(0 <= k * step < n) by (nonlinear_arith)
                requires
                    0 <= k < keep_limit,
                    step * keep_limit <= n,
                    step >= 1,
            ;
        }
        assert forall|k: int, l: int| 0 <= k < l < s.len() implies #[trigger] s[k] < #[trigger] s[l] by {
            assert(0 <= k * step < l * step < n) by (nonlinear_arith)
                requires
                    0 <= k < l < keep_limit,
                    step * keep_limit <= n,
                    step >= 1,
            ;
        }
    }
}

/// Law: with more files than the limit, pruning keeps `keep_limit` files
/// spaced exactly `floor(n / keep_limit)` apart from the smallest: the kept
/// position `j` is `j * s`, where `s` is the one step with
/// `s * keep_limit <= n < (s + 1) * keep_limit`.
pub proof fn prune_keeps_evenly_spaced(n: int, keep_limit: int)
    requires
        0 < keep_limit < n <= usize::MAX,
    ensures
        kept_positions_spec(n, keep_limit).len() == keep_limit,
        (n / keep_limit) * keep_limit <= n < (n / keep_limit + 1) * keep_limit,
        n / keep_limit >= 1,
        forall|j: int|
            0 <= j < keep_limit ==> #[trigger] kept_positions_spec(n, keep_limit)[j] as int == j * (
            n / keep_limit),
        forall|j: int|
            0 <= j < keep_limit - 1 ==> #[trigger] kept_positions_spec(n, keep_limit)[j + 1]
                - kept_positions_spec(n, keep_limit)[j] == n / keep_limit,
{
    let s = n / keep_limit;
    assert(s * keep_limit <= n < (s + 1) * keep_limit && s >= 1) by (nonlinear_arith)
        requires
            s == n / keep_limit,
            0 < keep_limit < n,
    ;
    let kp = kept_positions_spec(n, keep_limit);
    assert forall|j: int| 0 <= j < keep_limit implies #[trigger] kp[j] as int == j * s by {
        assert(0 <= j * s < n) by (nonlinear_arith)
            requires
                0 <= j < keep_limit,
                s * keep_limit <= n,
                s >= 1,
        ;
    }
    assert forall|j: int| 0 <= j < keep_limit - 1 implies #[trigger] kp[j + 1] - kp[j] == s by {
        assert(kp[j] as int == j * s);
        assert(kp[j + 1] as int == (j + 1) * s);
        assert((j + 1) * s == j * s + s) by (nonlinear_arith);
    }
}

/// Strictly ascending.
pub open spec fn ascending(s: Seq<usize>) -> bool {
    forall|k: int, l: int| 0 <= k < l < s.len() ==> #[trigger] s[k] < #[trigger] s[l]
}

proof fn lemma_push_even_props(picks: Seq<usize>, lo: int, len: int, per_bin: int, max: int)
    requires
        per_bin >= 1,
        0 <= lo,
        lo + len <= usize::MAX,
        ascending(picks),
        forall|k: int| 0 <= k < picks.len() ==> #[trigger] picks[k] < lo,
    ensures
        ascending(push_even_spec(picks, lo, len, per_bin, max)),
        push_even_spec(picks, lo, len, per_bin, max).len() <= if picks.len() > max {
            picks.len() as int
        } else {
            max
        },
        forall|k: int|
            0 <= k < push_even_spec(picks, lo, len, per_bin, max).len() ==> #[trigger] push_even_spec(
                picks,
                lo,
                len,
                per_bin,
                max,
            )[k] < lo + (if len > 0 {
                len
            } else {
                0
            }),
{
    if len > 0 {
        let step = if len / per_bin > 1 {
            len / per_bin
        } else {
            1
        };
        let cnt = even_pick_count(len, step, picks.len() as int, max);
        let r = push_even_spec(picks, lo, len, per_bin, max);
        assert(cnt >= 0) by (nonlinear_arith)
            requires
                step >= 1,
                len > 0,
                cnt == even_pick_count(len, step, picks.len() as int, max),
        ;
        assert forall|k: int| 0 <= k < r.len() implies #[trigger] r[k] < lo + len by {
            if k >= picks.len() {
                let j = k - picks.len();
                lemma_fit(j, step, len);
            }
        }
        assert forall|k: int, l: int| 0 <= k < l < r.len() implies #[trigger] r[k] < #[trigger] r[l] by {
            if k >= picks.len() {
                let a = k - picks.len();
                let b = l - picks.len();
                lemma_fit(b, step, len);
                assert(0 <= a * step < b * step < len) by (nonlinear_arith)
                    requires
                        0 <= a < b < cnt,
                        step >= 1,
                        (b * step) < len,
                ;
            } else if l >= picks.len() {
                let b = l - picks.len();
                lemma_fit(b, step, len);
                assert(0 <= b * step) by (nonlinear_arith)
                    requires
                        b >= 0,
                        step >= 1,
                ;
            }
        }
    }
}

/// Law: a sample takes at most `max_files` files, each once, in size order,
/// all among the `n` files.
pub proof fn sample_is_bounded(n: int, max_files: int)
    requires
        0 <= n <= usize::MAX,
        0 <= max_files,
    ensures
        sample_positions_spec(n, max_files).len() <= max_files,
        ascending(sample_positions_spec(n, max_files)),
        forall|k: int|
            0 <= k < sample_positions_spec(n, max_files).len() ==> #[trigger] sample_positions_spec(
                n,
                max_files,
            )[k] < n,
{
    if n > 0 {
        lemma_cut(n, n / 100, n % 100, 33);
        lemma_cut(n, n / 100, n % 100, 66);
        assert(cut33(n) <= cut66(n)) by (nonlinear_arith)
            requires
                n >= 0,
        ;
        let c33 = cut33(n);
        let c66 = cut66(n);
        let per_bin = if max_files / 3 > 1 {
            max_files / 3
        } else {
            1
        };
        let small_end = if c33 < n - 1 {
            c33
        } else {
            n - 1
        };
        let medium_end = if c66 < n - 1 {
            c66
        } else {
            n - 1
        };
        let e: Seq<usize> = Seq::empty();
        lemma_push_even_props(e, 0, small_end + 1, per_bin, max_files);
        let a = push_even_spec(e, 0, small_end + 1, per_bin, max_files);
        let b = if c66 > c33 {
            lemma_push_even_props(a, c33 + 1, medium_end - c33, per_bin, max_files);
            push_even_spec(a, c33 + 1, medium_end - c33, per_bin, max_files)
        } else {
            a
        };
        if c66 + 1 < n {
            assert forall|k: int| 0 <= k < b.len() implies #[trigger] b[k] < c66 + 1 by {
                if c66 > c33 {
                } else {
                    assert(a[k] < small_end + 1);
                }
            }
            lemma_push_even_props(b, c66 + 1, n - (c66 + 1), per_bin, max_files);
        }
    }
}


/// The number of files in the small tercile of `n` files that a sample
/// walks: positions `0..=min(floor(n * 0.33), n - 1)`.
pub open spec fn small_run_len(n: int) -> int {
    (if n * 33 / 100 < n - 1 {
        n * 33 / 100
    } else {
        n - 1
    }) + 1
}

/// The spacing of the picks in a run of `len` files when a sample takes up to
/// `max_files`: `max(1, len / max(1, max_files / 3))`.
pub open spec fn sample_step(len: int, max_files: int) -> int {
    let per_bin = if max_files / 3 > 1 {
        max_files / 3
    } else {
        1
    };
    if len / per_bin > 1 {
        len / per_bin
    } else {
        1
    }
}

/// How many picks a sample takes from the small tercile of `n` files: one
/// per multiple of the step inside the tercile, at most `max_files`.
pub open spec fn small_pick_count(n: int, max_files: int) -> int {
    let len = small_run_len(n);
    let step = sample_step(len, max_files);
    let fit = (len + step - 1) / step;
    if fit < max_files {
        fit
    } else {
        max_files
    }
}

/// Law: a sample of a non-empty corpus starts at the smallest file and walks
/// the small tercile in equal steps: its first picks are `0, s, 2 s, ...`
/// with `s = sample_step(small_run_len(n), max_files)`, one for each multiple
/// of `s` inside the tercile, as many as `max_files` allows.
pub proof fn sample_starts_with_small_tercile(n: int, max_files: int)
    requires
        0 < n <= usize::MAX,
        0 <= max_files,
    ensures
        sample_step(small_run_len(n), max_files) >= 1,
        small_pick_count(n, max_files) <= sample_positions_spec(n, max_files).len(),
        forall|j: int|
            0 <= j < small_pick_count(n, max_files) ==> #[trigger] sample_positions_spec(
                n,
                max_files,
            )[j] as int == j * sample_step(small_run_len(n), max_files),
        forall|j: int|
            0 <= j < small_pick_count(n, max_files) ==> #[trigger] sample_positions_spec(
                n,
                max_files,
            )[j] < small_run_len(n),
{
    lemma_cut(n, n / 100, n % 100, 33);
    lemma_cut(n, n / 100, n % 100, 66);
    let len = small_run_len(n);
    let per_bin = if max_files / 3 > 1 {
        max_files / 3
    } else {
        1
    };
    let step = sample_step(len, max_files);
    assert(len / per_bin <= len) by (nonlinear_arith)
        requires
            per_bin >= 1,
            len >= 0,
    ;
    let fit = (len + step - 1) / step;
    let k1 = if fit < max_files {
        fit
    } else {
        max_files
    };
    let e: Seq<usize> = Seq::empty();
    let a = push_even_spec(e, 0, len, per_bin, max_files);
    assert(even_pick_count(len, step, 0, max_files) == k1);
    assert(a.len() == k1) by {
        assert(fit >= 0) by (nonlinear_arith)
            requires
                step >= 1,
                len >= 1,
                fit == (len + step - 1) / step,
        ;
    }
    let c33 = cut33(n);
    let c66 = cut66(n);
    let small_end = if c33 < n - 1 {
        c33
    } else {
        n - 1
    };
    let medium_end = if c66 < n - 1 {
        c66
    } else {
        n - 1
    };
    let b = if c66 > c33 {
        push_even_spec(a, c33 + 1, medium_end - c33, per_bin, max_files)
    } else {
        a
    };
    let r = sample_positions_spec(n, max_files);
    assert(b.len() >= a.len() && forall|j: int| 0 <= j < a.len() ==> b[j] == a[j]);
    assert(r.len() >= b.len() && forall|j: int| 0 <= j < b.len() ==> r[j] == b[j]);
    assert(k1 == small_pick_count(n, max_files));
    assert(step == sample_step(small_run_len(n), max_files));
    assert forall|j: int|
        0 <= j < small_pick_count(n, max_files) implies #[trigger] sample_positions_spec(
        n,
        max_files,
    )[j] as int == j * sample_step(small_run_len(n), max_files) && j * sample_step(
        small_run_len(n),
        max_files,
    ) < small_run_len(n) by {
        lemma_fit(j, step, len);
        assert(0 <= j * step) by (nonlinear_arith)
            requires
                j >= 0,
                step >= 1,
        ;
        assert(r[j] == a[j]);
    }
}

/// The files, by listing position, that a sample of at most `max_files`
/// takes: those at `sample_positions_spec` in the size order of the listing
/// (which `size_order_is_unique` shows to be one order).
pub fn plan_sample(sizes: &Vec<u64>, max_files: usize) -> (picks: Vec<usize>)
    ensures
        forall|order: Seq<usize>|
            is_size_order(sizes@, order) ==> picks@ == sample_positions_spec(
                sizes@.len() as int,
                max_files as int,
            ).map_values(|p: usize| order[p as int]),
{
    let order = sort_by_size(sizes);
    let positions = sample_positions(order.len(), max_files);
    proof {
        sample_is_bounded(order@.len() as int, max_files as int);
    }
    let mut picks: Vec<usize> = Vec::new();
    let mut k: usize = 0;
    while k < positions.len()
        invariant
            k <= positions@.len(),
            positions@ == sample_positions_spec(order@.len() as int, max_files as int),
            forall|j: int| 0 <= j < positions@.len() ==> #[trigger] positions@[j] < order@.len(),
            picks@ == positions@.take(k as int).map_values(|p: usize| order@[p as int]),
        decreases positions@.len() - k,
    {
        picks.push(order[positions[k]]);
        assert(picks@ =~= positions@.take(k as int + 1).map_values(|p: usize| order@[p as int]));
        k = k + 1;
    }
    assert(positions@.take(positions@.len() as int) =~= positions@);
    assert forall|o: Seq<usize>| is_size_order(sizes@, o) implies picks@ == sample_positions_spec(
        sizes@.len() as int,
        max_files as int,
    ).map_values(|p: usize| o[p as int]) by {
        size_order_is_unique(sizes@, o, order@);
    }
    picks
}

} // verus!
