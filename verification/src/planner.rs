//! The piece planner: which regions of which files make up each piece.

use vstd::arithmetic::div_mod::{
    lemma_fundamental_div_mod, lemma_fundamental_div_mod_converse, lemma_mod_pos_bound,
};
use vstd::prelude::*;
use crate::tr_file::TrFile;

verus! {

/// A region of one file that a piece covers: `length` bytes of the file
/// `file_index`, starting `file_offset` bytes into it.
#[derive(Debug, Clone, Copy, PartialEq, Eq)]
pub struct FileHashInfo {
    pub file_index: usize,
    pub file_offset: u64,
    pub length: u64,
}

/// A region as mathematics sees it.
pub struct Region {
    pub file_index: int,
    pub file_offset: int,
    pub length: int,
}

impl View for FileHashInfo {
    type V = Region;

    open spec fn view(&self) -> Region {
        Region {
            file_index: self.file_index as int,
            file_offset: self.file_offset as int,
            length: self.length as int,
        }
    }
}

impl DeepView for FileHashInfo {
    type V = Region;

    open spec fn deep_view(&self) -> Region {
        self@
    }
}

/// The lengths of a list of files.
pub open spec fn file_lengths(files: Seq<TrFile>) -> Seq<int> {
    Seq::new(files.len(), |k: int| files[k].length as int)
}

/// Lengths as integers.
pub open spec fn lengths_view(sizes: Seq<u64>) -> Seq<int> {
    Seq::new(sizes.len(), |k: int| sizes[k] as int)
}

/// No length is negative.
pub open spec fn valid_lengths(lengths: Seq<int>) -> bool {
    forall|k: int| 0 <= k < lengths.len() ==> 0 <= #[trigger] lengths[k]
}

/// The sum of the first `n` lengths: where file `n` starts in the
/// concatenation of all files.
pub open spec fn total_length(lengths: Seq<int>, n: int) -> int
    decreases n,
{
    if n <= 0 {
        0
    } else {
        total_length(lengths, n - 1) + lengths[n - 1]
    }
}

/// The smaller of two integers.
pub open spec fn least(a: int, b: int) -> int {
    if a <= b {
        a
    } else {
        b
    }
}

/// The larger of two integers.
pub open spec fn greatest(a: int, b: int) -> int {
    if a >= b {
        a
    } else {
        b
    }
}

/// What file `i` shares with the bytes `lo..hi` of the concatenation, if anything.
pub open spec fn overlap(lengths: Seq<int>, i: int, lo: int, hi: int) -> Option<Region> {
    let start = total_length(lengths, i);
    let from = greatest(start, lo);
    let to = least(start + lengths[i], hi);
    if from < to {
        Some(Region { file_index: i, file_offset: from - start, length: to - from })
    } else {
        None
    }
}

/// What the first `n` files share with the bytes `lo..hi` of the
/// concatenation, in the order of the files.
pub open spec fn regions_in(lengths: Seq<int>, n: int, lo: int, hi: int) -> Seq<Region>
    decreases n,
{
    if n <= 0 {
        Seq::empty()
    } else {
        let before = regions_in(lengths, n - 1, lo, hi);
        match overlap(lengths, n - 1, lo, hi) {
            Some(r) => before.push(r),
            None => before,
        }
    }
}

/// One of `regions` lies in file `i`.
pub open spec fn touches(regions: Seq<Region>, i: int) -> bool {
    exists|j: int| 0 <= j < regions.len() && (#[trigger] regions[j]).file_index == i
}

/// The number of pieces of `p` bytes that `total` bytes take: `total / p`, rounded up.
pub open spec fn piece_count(total: int, p: int) -> int {
    (total + p - 1) / p
}

/// The regions of piece `k`: what the files share with the bytes
/// `k * p .. (k + 1) * p` of their concatenation.
pub open spec fn piece_regions(lengths: Seq<int>, p: int, k: int) -> Seq<Region> {
    let total = total_length(lengths, lengths.len() as int);
    regions_in(lengths, lengths.len() as int, k * p, least((k + 1) * p, total))
}

/// The plan: the regions of every piece, in the order of the pieces.
pub open spec fn plan_of(lengths: Seq<int>, p: int) -> Seq<Seq<Region>> {
    let total = total_length(lengths, lengths.len() as int);
    Seq::new(piece_count(total, p) as nat, |k: int| piece_regions(lengths, p, k))
}

/// The sum of the lengths of `regions`.
pub open spec fn region_sum(regions: Seq<Region>) -> int
    decreases regions.len(),
{
    if regions.len() == 0 {
        0
    } else {
        region_sum(regions.drop_last()) + regions.last().length
    }
}

/// The sum of the lengths of all regions of the first `n` pieces of `plan`.
pub open spec fn plan_sum(plan: Seq<Seq<Region>>, n: int) -> int
    decreases n,
{
    if n <= 0 {
        0
    } else {
        plan_sum(plan, n - 1) + region_sum(plan[n - 1])
    }
}

/// A file starts at or behind the files before it: the sum of more lengths is not less.
pub proof fn lemma_total_length_monotonic(lengths: Seq<int>, m: int, n: int)
    requires
        valid_lengths(lengths),
        0 <= m <= n <= lengths.len(),
    ensures
        0 <= total_length(lengths, m) <= total_length(lengths, n),
    decreases n,
{
    if m < n {
        lemma_total_length_monotonic(lengths, m, n - 1);
    } else if n > 0 {
        lemma_total_length_monotonic(lengths, m - 1, n - 1);
    }
}

/// Files that start at or behind `hi` share nothing with `lo..hi`.
proof fn lemma_regions_later_files(lengths: Seq<int>, m: int, n: int, lo: int, hi: int)
    requires
        valid_lengths(lengths),
        0 <= m <= n <= lengths.len(),
        hi <= total_length(lengths, m),
    ensures
        regions_in(lengths, n, lo, hi) == regions_in(lengths, m, lo, hi),
    decreases n,
{
    if m < n {
        lemma_total_length_monotonic(lengths, m, n - 1);
        lemma_regions_later_files(lengths, m, n - 1, lo, hi);
    }
}

/// An upper end at or behind the end of the first `n` files is as good as another.
proof fn lemma_regions_upper_end(lengths: Seq<int>, n: int, lo: int, hi: int, other: int)
    requires
        valid_lengths(lengths),
        0 <= n <= lengths.len(),
        total_length(lengths, n) <= hi,
        total_length(lengths, n) <= other,
    ensures
        regions_in(lengths, n, lo, hi) == regions_in(lengths, n, lo, other),
    decreases n,
{
    if n > 0 {
        lemma_total_length_monotonic(lengths, n - 1, n);
        lemma_regions_upper_end(lengths, n - 1, lo, hi, other);
    }
}

/// An empty range of bytes shares nothing with any file.
proof fn lemma_regions_empty_range(lengths: Seq<int>, n: int, lo: int, hi: int)
    requires
        hi <= lo,
    ensures
        regions_in(lengths, n, lo, hi) == Seq::<Region>::empty(),
    decreases n,
{
    if n > 0 {
        lemma_regions_empty_range(lengths, n - 1, lo, hi);
    }
}

/// The regions of every piece of files of the given lengths, for pieces of
/// `piece_length` bytes.
pub fn plan_pieces(sizes: &[u64], piece_length: u64) -> (plan: Vec<Vec<FileHashInfo>>)
    requires
        piece_length > 0,
    ensures
        plan.deep_view() == plan_of(lengths_view(sizes@), piece_length as int),
{
    let ghost lengths = lengths_view(sizes@);
    let ghost p = piece_length as int;
    let ghost count = lengths.len() as int;
    let mut plan: Vec<Vec<FileHashInfo>> = Vec::new();
    let mut current: Vec<FileHashInfo> = Vec::new();
    let mut filled: u64 = 0;
    let mut file_index: usize = 0;
    let ghost mut base: int = 0;
    assert(valid_lengths(lengths));
    assert(0 * p == 0) by (nonlinear_arith);
    while file_index < sizes.len()
        invariant
            lengths == lengths_view(sizes@),
            valid_lengths(lengths),
            count == lengths.len() == sizes.len(),
            p == piece_length as int,
            p > 0,
            file_index <= sizes.len(),
            0 <= filled < piece_length,
            base == plan.len() * p,
            base + filled == total_length(lengths, file_index as int),
            forall|k: int|
                0 <= k < plan.len() ==> (#[trigger] plan[k]).deep_view() == piece_regions(
                    lengths,
                    p,
                    k,
                ),
            current.deep_view() == regions_in(lengths, file_index as int, base, base + filled),
        decreases sizes.len() - file_index,
    {
        let mut rest: u64 = sizes[file_index];
        let mut file_offset: u64 = 0;
        let ghost start = total_length(lengths, file_index as int);
        proof {
            assert(lengths[file_index as int] == rest);
            lemma_total_length_monotonic(lengths, file_index as int, file_index + 1);
            lemma_total_length_monotonic(lengths, file_index + 1, count);
        }
        while rest > 0
            invariant
                lengths == lengths_view(sizes@),
                valid_lengths(lengths),
                count == lengths.len() == sizes.len(),
                p == piece_length as int,
                p > 0,
                file_index < sizes.len(),
                start == total_length(lengths, file_index as int),
                file_offset + rest == lengths[file_index as int],
                start + lengths[file_index as int] == total_length(lengths, file_index + 1),
                total_length(lengths, file_index + 1) <= total_length(lengths, count),
                0 <= filled < piece_length,
                rest == 0 || file_offset == 0 || filled == 0,
                base == plan.len() * p,
                base + filled == start + file_offset,
                forall|k: int|
                    0 <= k < plan.len() ==> (#[trigger] plan[k]).deep_view() == piece_regions(
                        lengths,
                        p,
                        k,
                    ),
                current.deep_view() == regions_in(
                    lengths,
                    file_index + 1,
                    base,
                    base + filled,
                ),
            decreases rest,
        {
            let room: u64 = piece_length - filled;
            let used: u64 = if rest < room {
                rest
            } else {
                room
            };
            let ghost reached = base + filled;
            proof {
                // The file has given nothing to this piece yet.
                assert(overlap(lengths, file_index as int, base, reached) is None);
                lemma_regions_upper_end(lengths, file_index as int, base, reached, reached + used);
                assert(current.deep_view().push(
                    Region {
                        file_index: file_index as int,
                        file_offset: file_offset as int,
                        length: used as int,
                    },
                ) == regions_in(lengths, file_index + 1, base, reached + used));
            }
            let ghost before = current.deep_view();
            current.push(FileHashInfo { file_index, file_offset, length: used });
            assert(current.deep_view() =~= before.push(
                Region {
                    file_index: file_index as int,
                    file_offset: file_offset as int,
                    length: used as int,
                },
            ));
            file_offset += used;
            rest -= used;
            filled += used;
            if filled == piece_length {
                proof {
                    let k = plan.len() as int;
                    assert((k + 1) * p == k * p + p) by (nonlinear_arith);
                    lemma_regions_later_files(lengths, file_index + 1, count, base, base + p);
                    assert(current.deep_view() == piece_regions(lengths, p, k));
                    lemma_regions_empty_range(lengths, file_index + 1, base + p, base + p);
                }
                let ghost done = plan.deep_view();
                plan.push(current);
                current = Vec::new();
                filled = 0;
                proof {
                    base = base + p;
                    assert(current.deep_view() =~= Seq::<Region>::empty());
                }
            }
        }
        proof {
            // The next file starts where this one ends, and has given nothing yet.
            assert(overlap(lengths, file_index + 1, base, base + filled) is None);
        }
        file_index += 1;
    }
    let ghost total = total_length(lengths, count);
    if filled > 0 {
        proof {
            let k = plan.len() as int;
            assert((k + 1) * p == k * p + p) by (nonlinear_arith);
            assert(current.deep_view() == piece_regions(lengths, p, k));
        }
        plan.push(current);
        proof {
            let n = plan.len() as int;
            assert(piece_count(total, p) == n) by (nonlinear_arith)
                requires
                    p > 0,
                    total == (n - 1) * p + filled,
                    0 < filled < p,
            ;
        }
    } else {
        proof {
            let n = plan.len() as int;
            assert(piece_count(total, p) == n) by (nonlinear_arith)
                requires
                    p > 0,
                    total == n * p,
            ;
        }
    }
    assert(plan.deep_view() =~= plan_of(lengths, p));
    plan
}

/// The regions of every piece of a list of files, for pieces of `piece_length` bytes.
pub fn calc_piece_file_info(tr_files: &[TrFile], piece_length: u64) -> (plan: Vec<
    Vec<FileHashInfo>,
>)
    requires
        piece_length > 0,
    ensures
        plan.deep_view() == plan_of(file_lengths(tr_files@), piece_length as int),
{
    let mut sizes: Vec<u64> = Vec::new();
    let mut k: usize = 0;
    while k < tr_files.len()
        invariant
            k <= tr_files.len(),
            sizes.len() == k,
            forall|j: int| 0 <= j < k ==> sizes[j] == tr_files[j].length,
        decreases tr_files.len() - k,
    {
        sizes.push(tr_files[k].length);
        k += 1;
    }
    assert(lengths_view(sizes@) =~= file_lengths(tr_files@));
    plan_pieces(sizes.as_slice(), piece_length)
}

/// The sum of regions with one more region is the sum of the regions and the length of
/// the region.
proof fn lemma_region_sum_push(regions: Seq<Region>, r: Region)
    ensures
        region_sum(regions.push(r)) == region_sum(regions) + r.length,
{
    assert(regions.push(r).drop_last() == regions);
}

/// The regions that the first `n` files share with `lo..hi` have together as
/// many bytes as lie in `lo..hi` before the end of those files.
proof fn lemma_region_sum_in(lengths: Seq<int>, n: int, lo: int, hi: int)
    requires
        valid_lengths(lengths),
        0 <= n <= lengths.len(),
        0 <= lo <= hi,
    ensures
        region_sum(regions_in(lengths, n, lo, hi)) == least(
            greatest(total_length(lengths, n), lo),
            hi,
        ) - lo,
    decreases n,
{
    if n > 0 {
        lemma_region_sum_in(lengths, n - 1, lo, hi);
        lemma_total_length_monotonic(lengths, n - 1, n);
        let before = regions_in(lengths, n - 1, lo, hi);
        if let Some(r) = overlap(lengths, n - 1, lo, hi) {
            lemma_region_sum_push(before, r);
        }
    }
}

/// With `count` the number of pieces of `p` bytes that `total` bytes take,
/// the bytes end in the last piece: `(count - 1) * p < total <= count * p`.
pub proof fn lemma_piece_count(total: int, p: int)
    requires
        total >= 0,
        p > 0,
    ensures
        piece_count(total, p) >= 0,
        total > 0 ==> piece_count(total, p) > 0,
        (piece_count(total, p) - 1) * p < total <= piece_count(total, p) * p,
{
    let x = total + p - 1;
    let q = x / p;
    let r = x % p;
    lemma_fundamental_div_mod(x, p);
    lemma_mod_pos_bound(x, p);
    assert((q - 1) * p == p * q - p) by (nonlinear_arith);
    assert(q * p == p * q) by (nonlinear_arith);
    if q < 0 {
        assert(p * q <= -p) by (nonlinear_arith)
            requires
                q <= -1,
                p > 0,
        ;
    }
    if total > 0 && q <= 0 {
        assert(p * q <= 0) by (nonlinear_arith)
            requires
                q <= 0,
                p > 0,
        ;
    }
}

/// Every piece but the last has exactly `p` bytes, and the last has what is
/// left: `total % p` bytes if that is not zero, otherwise `p`.
pub proof fn law_piece_sizes(lengths: Seq<int>, p: int, k: int)
    requires
        valid_lengths(lengths),
        p > 0,
        0 <= k < plan_of(lengths, p).len(),
    ensures
        ({
            let total = total_length(lengths, lengths.len() as int);
            let size = region_sum(plan_of(lengths, p)[k]);
            let last = plan_of(lengths, p).len() - 1;
            &&& k < last ==> size == p
            &&& k == last ==> size == total - k * p
            &&& k == last && total % p != 0 ==> size == total % p
            &&& k == last && total % p == 0 ==> size == p
        }),
{
    let total = total_length(lengths, lengths.len() as int);
    let count = piece_count(total, p);
    lemma_total_length_monotonic(lengths, 0, lengths.len() as int);
    lemma_piece_count(total, p);
    let rest = total - (count - 1) * p;
    assert(k * p <= (count - 1) * p) by (nonlinear_arith)
        requires
            k <= count - 1,
            p > 0,
    ;
    assert(0 <= k * p) by (nonlinear_arith)
        requires
            0 <= k,
            p > 0,
    ;
    assert((k + 1) * p == k * p + p) by (nonlinear_arith);
    if k < count - 1 {
        assert((k + 1) * p <= (count - 1) * p) by (nonlinear_arith)
            requires
                k + 1 <= count - 1,
                p > 0,
        ;
    } else if rest < p {
        lemma_fundamental_div_mod_converse(total, p, count - 1, rest);
    } else {
        assert(total == count * p + 0) by (nonlinear_arith)
            requires
                total - (count - 1) * p == p,
        ;
        lemma_fundamental_div_mod_converse(total, p, count, 0);
    }
    lemma_region_sum_in(lengths, lengths.len() as int, k * p, least((k + 1) * p, total));
}

/// The first `n` pieces of the plan hold together the first `n * p` bytes of
/// the files, or all of them.
proof fn lemma_plan_sum(lengths: Seq<int>, p: int, n: int)
    requires
        valid_lengths(lengths),
        p > 0,
        0 <= n <= plan_of(lengths, p).len(),
    ensures
        plan_sum(plan_of(lengths, p), n) == least(
            n * p,
            total_length(lengths, lengths.len() as int),
        ),
    decreases n,
{
    let total = total_length(lengths, lengths.len() as int);
    let count = piece_count(total, p);
    lemma_total_length_monotonic(lengths, 0, lengths.len() as int);
    if n > 0 {
        lemma_plan_sum(lengths, p, n - 1);
        law_piece_sizes(lengths, p, n - 1);
        lemma_piece_count(total, p);
        assert(n * p == (n - 1) * p + p) by (nonlinear_arith);
        assert((n - 1) * p <= (count - 1) * p) by (nonlinear_arith)
            requires
                n <= count,
                p > 0,
        ;
        if n < count {
            assert(n * p <= (count - 1) * p) by (nonlinear_arith)
                requires
                    n <= count - 1,
                    p > 0,
            ;
        }
    } else {
        assert(0 * p == 0) by (nonlinear_arith);
    }
}

/// The regions of the plan hold together as many bytes as the files have.
pub proof fn law_plan_covers_files(lengths: Seq<int>, p: int)
    requires
        valid_lengths(lengths),
        p > 0,
    ensures
        plan_sum(plan_of(lengths, p), plan_of(lengths, p).len() as int) == total_length(
            lengths,
            lengths.len() as int,
        ),
{
    let total = total_length(lengths, lengths.len() as int);
    let count = piece_count(total, p);
    lemma_total_length_monotonic(lengths, 0, lengths.len() as int);
    lemma_piece_count(total, p);
    lemma_plan_sum(lengths, p, count);
}

/// Every region that the first `n` files share with a range of bytes lies in
/// one of those files, within the file, and is not empty.
pub proof fn lemma_regions_within(lengths: Seq<int>, n: int, lo: int, hi: int)
    requires
        valid_lengths(lengths),
        0 <= n <= lengths.len(),
    ensures
        forall|j: int|
            0 <= j < regions_in(lengths, n, lo, hi).len() ==> {
                let r = #[trigger] regions_in(lengths, n, lo, hi)[j];
                &&& 0 <= r.file_index < n
                &&& 0 <= r.file_offset
                &&& 0 < r.length
                &&& r.file_offset + r.length <= lengths[r.file_index]
            },
    decreases n,
{
    if n > 0 {
        lemma_regions_within(lengths, n - 1, lo, hi);
        let before = regions_in(lengths, n - 1, lo, hi);
        assert forall|j: int| 0 <= j < regions_in(lengths, n, lo, hi).len() implies {
            let r = #[trigger] regions_in(lengths, n, lo, hi)[j];
            &&& 0 <= r.file_index < n
            &&& 0 <= r.file_offset
            &&& 0 < r.length
            &&& r.file_offset + r.length <= lengths[r.file_index]
        } by {
            if j < before.len() {
                assert(regions_in(lengths, n, lo, hi)[j] == before[j]);
            }
        }
    }
}

/// A file among the first `n` that shares bytes with a range has a region
/// among those that the first `n` files share with the range.
proof fn lemma_overlap_touches(lengths: Seq<int>, n: int, i: int, lo: int, hi: int)
    requires
        0 <= i < n,
        overlap(lengths, i, lo, hi) is Some,
    ensures
        touches(regions_in(lengths, n, lo, hi), i),
    decreases n,
{
    let regions = regions_in(lengths, n, lo, hi);
    let before = regions_in(lengths, n - 1, lo, hi);
    if i == n - 1 {
        assert(regions[before.len() as int].file_index == i);
    } else {
        lemma_overlap_touches(lengths, n - 1, i, lo, hi);
        let j = choose|j: int| 0 <= j < before.len() && (#[trigger] before[j]).file_index == i;
        assert(regions[j] == before[j]);
    }
}

/// Every file that is not empty has a region in at least one piece.
pub proof fn law_every_file_is_hashed(lengths: Seq<int>, p: int, i: int)
    requires
        valid_lengths(lengths),
        p > 0,
        0 <= i < lengths.len(),
        lengths[i] > 0,
    ensures
        exists|k: int|
            0 <= k < plan_of(lengths, p).len() && touches(#[trigger] plan_of(lengths, p)[k], i),
{
    let count = lengths.len() as int;
    let total = total_length(lengths, count);
    let start = total_length(lengths, i);
    let k = start / p;
    lemma_total_length_monotonic(lengths, 0, i);
    lemma_total_length_monotonic(lengths, i, i + 1);
    lemma_total_length_monotonic(lengths, i + 1, count);
    lemma_fundamental_div_mod(start, p);
    lemma_mod_pos_bound(start, p);
    lemma_piece_count(total, p);
    let pieces = piece_count(total, p);
    assert(k * p == p * k && (k + 1) * p == p * k + p) by (nonlinear_arith);
    assert(0 <= k) by (nonlinear_arith)
        requires
            0 <= start,
            p > 0,
            start == p * k + start % p,
            0 <= start % p < p,
    ;
    assert(k < pieces) by (nonlinear_arith)
        requires
            p * k <= start,
            start < total,
            total <= pieces * p,
            p > 0,
    ;
    assert(overlap(lengths, i, k * p, least((k + 1) * p, total)) is Some);
    lemma_overlap_touches(lengths, count, i, k * p, least((k + 1) * p, total));
    assert(plan_of(lengths, p)[k] == piece_regions(lengths, p, k));
}

} // verus!
