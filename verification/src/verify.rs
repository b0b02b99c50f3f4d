//! Verification of a target against the digests of a torrent: which pieces
//! and which files fail.

use std::collections::HashSet;
use vstd::prelude::*;
use crate::bencode::bytes_equal;
use crate::hashing::{
    gather, joined_all, law_plan_gathers_pieces, lemma_joined_len, part_lengths, piece_bytes,
    sha1_digest,
};
use crate::planner::{
    file_lengths, law_every_file_is_hashed, lemma_regions_within, piece_regions, plan_of,
    total_length, touches, valid_lengths, FileHashInfo, Region,
};
use crate::tr_file::TrFile;

verus! {

/// What failed: the pieces, the files that a failed piece touches, and among
/// them the files that are missing or have another length than the torrent says.
#[derive(Debug)]
pub struct FailedInfo {
    pub files: HashSet<usize>,
    pub files_known: HashSet<usize>,
    pub pieces: HashSet<usize>,
}

/// File `i` is there and has the length that the torrent gives it.
/// `on_disk` holds for each file its length on disk, or nothing where the
/// file is missing.
pub open spec fn file_ok(lengths: Seq<int>, on_disk: Seq<Option<u64>>, i: int) -> bool {
    &&& 0 <= i < lengths.len()
    &&& i < on_disk.len()
    &&& on_disk[i] matches Some(n)
    &&& n == lengths[i]
}

/// One of the files that the piece needs is missing or has another length:
/// the piece cannot be hashed.
pub open spec fn piece_blocked(
    regions: Seq<Region>,
    lengths: Seq<int>,
    on_disk: Seq<Option<u64>>,
) -> bool {
    exists|j: int|
        0 <= j < regions.len() && !file_ok(lengths, on_disk, (#[trigger] regions[j]).file_index)
}

/// The pieces among the first `n` that can be hashed, in ascending order.
pub open spec fn to_check(
    plan: Seq<Seq<Region>>,
    lengths: Seq<int>,
    on_disk: Seq<Option<u64>>,
    n: int,
) -> Seq<int>
    decreases n,
{
    if n <= 0 {
        Seq::empty()
    } else {
        let before = to_check(plan, lengths, on_disk, n - 1);
        if piece_blocked(plan[n - 1], lengths, on_disk) {
            before
        } else {
            before.push(n - 1)
        }
    }
}

/// What is known of a target: the plan of the torrent's pieces, the lengths
/// that the torrent gives its files, the lengths found on disk, the digests
/// that the torrent stores, and the digests computed for the pieces that can
/// be hashed, in the order of those pieces.
pub struct Evidence {
    pub plan: Seq<Seq<Region>>,
    pub lengths: Seq<int>,
    pub on_disk: Seq<Option<u64>>,
    pub stored: Seq<Seq<u8>>,
    pub computed: Seq<Seq<u8>>,
}

impl Evidence {
    /// Piece `k` cannot be hashed.
    pub open spec fn blocked(self, k: int) -> bool {
        piece_blocked(self.plan[k], self.lengths, self.on_disk)
    }

    /// Where among the computed digests that of piece `k` stands: as many
    /// pieces before `k` can be hashed.
    pub open spec fn slot(self, k: int) -> int {
        to_check(self.plan, self.lengths, self.on_disk, k).len() as int
    }

    /// The digest computed for piece `k` is there and is the stored one.
    pub open spec fn piece_matches(self, k: int) -> bool {
        &&& k < self.stored.len()
        &&& self.slot(k) < self.computed.len()
        &&& self.computed[self.slot(k)] == self.stored[k]
    }

    /// Piece `k` fails: it cannot be hashed, or its digest is not the stored one.
    pub open spec fn piece_failed(self, k: int) -> bool {
        0 <= k < self.plan.len() && (self.blocked(k) || !self.piece_matches(k))
    }

    /// A failed piece among the first `n` touches file `i`.
    pub open spec fn file_failed_within(self, n: int, i: int) -> bool {
        exists|k: int| 0 <= k < n && #[trigger] self.piece_failed(k) && touches(self.plan[k], i)
    }

    /// File `i` fails: a failed piece touches it.
    pub open spec fn file_failed(self, i: int) -> bool {
        self.file_failed_within(self.plan.len() as int, i)
    }

    /// A piece among the first `n` touches file `i`.
    pub open spec fn referenced_within(self, n: int, i: int) -> bool {
        exists|k: int| 0 <= k < n && touches(#[trigger] self.plan[k], i)
    }

    /// File `i` is known to be bad: a piece needs it, and it is missing or
    /// has another length than the torrent says.
    pub open spec fn file_known_bad(self, i: int) -> bool {
        !file_ok(self.lengths, self.on_disk, i) && self.referenced_within(
            self.plan.len() as int,
            i,
        )
    }

    /// A file fails within one piece more where it failed before, or that piece fails
    /// and touches it.
    proof fn lemma_failed_step(self, n: int, i: int)
        requires
            0 <= n,
        ensures
            self.file_failed_within(n + 1, i) <==> self.file_failed_within(n, i) || (
            self.piece_failed(n) && touches(self.plan[n], i)),
    {
        if self.file_failed_within(n + 1, i) {
            let k = choose|k: int|
                0 <= k < n + 1 && #[trigger] self.piece_failed(k) && touches(self.plan[k], i);
            if k < n {
                assert(self.file_failed_within(n, i));
            }
        }
        if self.file_failed_within(n, i) {
            let k = choose|k: int|
                0 <= k < n && #[trigger] self.piece_failed(k) && touches(self.plan[k], i);
            assert(0 <= k < n + 1 && self.piece_failed(k) && touches(self.plan[k], i));
        }
    }

    /// A file is touched within one piece more where it was touched before, or that
    /// piece touches it.
    proof fn lemma_referenced_step(self, n: int, i: int)
        requires
            0 <= n,
        ensures
            self.referenced_within(n + 1, i) <==> self.referenced_within(n, i) || touches(
                self.plan[n],
                i,
            ),
    {
        if self.referenced_within(n + 1, i) {
            let k = choose|k: int| 0 <= k < n + 1 && touches(#[trigger] self.plan[k], i);
            if k < n {
                assert(self.referenced_within(n, i));
            }
        }
        if self.referenced_within(n, i) {
            let k = choose|k: int| 0 <= k < n && touches(#[trigger] self.plan[k], i);
            assert(0 <= k < n + 1 && touches(self.plan[k], i));
        }
        if touches(self.plan[n], i) {
            assert(0 <= n < n + 1 && touches(self.plan[n], i));
        }
    }
}

/// One region more touches a file where the regions before did, or that region lies in
/// it.
proof fn lemma_touches_step(regions: Seq<Region>, j: int, i: int)
    requires
        0 <= j < regions.len(),
    ensures
        touches(regions.take(j + 1), i) <==> touches(regions.take(j), i) || regions[j].file_index
            == i,
{
    let longer = regions.take(j + 1);
    let shorter = regions.take(j);
    if touches(longer, i) {
        let w = choose|w: int| 0 <= w < longer.len() && (#[trigger] longer[w]).file_index == i;
        if w < j {
            assert(shorter[w].file_index == i);
        }
    }
    if touches(shorter, i) {
        let w = choose|w: int| 0 <= w < shorter.len() && (#[trigger] shorter[w]).file_index == i;
        assert(longer[w].file_index == i);
    }
    if regions[j].file_index == i {
        assert(longer[j].file_index == i);
    }
}

/// One region more blocks a piece where the regions before did, or the file of that
/// region is not as the torrent says.
proof fn lemma_blocked_step(
    regions: Seq<Region>,
    lengths: Seq<int>,
    on_disk: Seq<Option<u64>>,
    j: int,
)
    requires
        0 <= j < regions.len(),
    ensures
        piece_blocked(regions.take(j + 1), lengths, on_disk) <==> piece_blocked(
            regions.take(j),
            lengths,
            on_disk,
        ) || !file_ok(lengths, on_disk, regions[j].file_index),
{
    let longer = regions.take(j + 1);
    let shorter = regions.take(j);
    if piece_blocked(longer, lengths, on_disk) {
        let w = choose|w: int|
            0 <= w < longer.len() && !file_ok(lengths, on_disk, (#[trigger] longer[w]).file_index);
        if w < j {
            assert(!file_ok(lengths, on_disk, shorter[w].file_index));
        }
    }
    if piece_blocked(shorter, lengths, on_disk) {
        let w = choose|w: int|
            0 <= w < shorter.len() && !file_ok(
                lengths,
                on_disk,
                (#[trigger] shorter[w]).file_index,
            );
        assert(!file_ok(lengths, on_disk, longer[w].file_index));
    }
    if !file_ok(lengths, on_disk, regions[j].file_index) {
        assert(!file_ok(lengths, on_disk, longer[j].file_index));
    }
}

/// Tells whether file `i` is there and has the length that the torrent gives it.
pub fn is_file_ok(tr_files: &[TrFile], on_disk: &[Option<u64>], i: usize) -> (r: bool)
    ensures
        r == file_ok(file_lengths(tr_files@), on_disk@, i as int),
{
    if i >= tr_files.len() || i >= on_disk.len() {
        return false;
    }
    match on_disk[i] {
        Some(n) => n == tr_files[i].length,
        None => false,
    }
}

/// Tells whether one of the files that a piece needs is missing or has
/// another length than the torrent says.
pub fn is_piece_blocked(regions: &Vec<FileHashInfo>, tr_files: &[TrFile], on_disk: &[Option<u64>]) -> (r:
    bool)
    ensures
        r == piece_blocked(regions.deep_view(), file_lengths(tr_files@), on_disk@),
{
    let ghost all = regions.deep_view();
    let ghost lengths = file_lengths(tr_files@);
    let mut j: usize = 0;
    while j < regions.len()
        invariant
            j <= regions.len(),
            all == regions.deep_view(),
            lengths == file_lengths(tr_files@),
            !piece_blocked(all.take(j as int), lengths, on_disk@),
        decreases regions.len() - j,
    {
        proof {
            lemma_blocked_step(all, lengths, on_disk@, j as int);
            assert(all[j as int] == regions[j as int]@);
        }
        if !is_file_ok(tr_files, on_disk, regions[j].file_index) {
            proof {
                lemma_blocked_stays(all, lengths, on_disk@, j + 1);
            }
            return true;
        }
        j += 1;
    }
    assert(all.take(j as int) == all);
    false
}

/// A piece that its first `j` regions block is blocked.
proof fn lemma_blocked_stays(
    regions: Seq<Region>,
    lengths: Seq<int>,
    on_disk: Seq<Option<u64>>,
    j: int,
)
    requires
        0 <= j <= regions.len(),
        piece_blocked(regions.take(j), lengths, on_disk),
    ensures
        piece_blocked(regions, lengths, on_disk),
{
    let shorter = regions.take(j);
    let w = choose|w: int|
        0 <= w < shorter.len() && !file_ok(lengths, on_disk, (#[trigger] shorter[w]).file_index);
    assert(!file_ok(lengths, on_disk, regions[w].file_index));
}

/// The pieces that can be hashed, in ascending order: those whose files are
/// all there with the length that the torrent gives them.
pub fn pieces_to_check(
    plan: &Vec<Vec<FileHashInfo>>,
    tr_files: &[TrFile],
    on_disk: &[Option<u64>],
) -> (r: Vec<usize>)
    ensures
        r@.map_values(|k: usize| k as int) == to_check(
            plan.deep_view(),
            file_lengths(tr_files@),
            on_disk@,
            plan.len() as int,
        ),
{
    let ghost pieces = plan.deep_view();
    let ghost lengths = file_lengths(tr_files@);
    let mut found: Vec<usize> = Vec::new();
    let mut k: usize = 0;
    assert(found@.map_values(|k: usize| k as int) =~= Seq::<int>::empty());
    while k < plan.len()
        invariant
            k <= plan.len(),
            pieces == plan.deep_view(),
            lengths == file_lengths(tr_files@),
            found@.map_values(|k: usize| k as int) == to_check(
                pieces,
                lengths,
                on_disk@,
                k as int,
            ),
        decreases plan.len() - k,
    {
        assert(pieces[k as int] == plan[k as int].deep_view());
        if !is_piece_blocked(&plan[k], tr_files, on_disk) {
            let ghost before = found@.map_values(|k: usize| k as int);
            found.push(k);
            assert(found@.map_values(|k: usize| k as int) =~= before.push(k as int));
        }
        k += 1;
    }
    found
}

/// Holds the stored digests against the computed ones, and says what failed.
/// `plan` is the plan of the torrent's pieces, `on_disk` holds for each file
/// its length on disk, or nothing where it is missing, and
/// `calc_piece_slices` holds the digests of the pieces that `pieces_to_check`
/// names, in that order.
pub fn verify_tr_files(
    piece_slices: &[Vec<u8>],
    tr_files: &[TrFile],
    plan: &Vec<Vec<FileHashInfo>>,
    on_disk: &[Option<u64>],
    calc_piece_slices: &[Vec<u8>],
) -> (failed: FailedInfo)
    ensures
        ({
            let e = Evidence {
                plan: plan.deep_view(),
                lengths: file_lengths(tr_files@),
                on_disk: on_disk@,
                stored: piece_slices.deep_view(),
                computed: calc_piece_slices.deep_view(),
            };
            &&& forall|k: usize| (#[trigger] failed.pieces@.contains(k)) == e.piece_failed(k as int)
            &&& forall|i: usize| (#[trigger] failed.files@.contains(i)) == e.file_failed(i as int)
            &&& forall|i: usize|
                (#[trigger] failed.files_known@.contains(i)) == e.file_known_bad(i as int)
        }),
{
    let ghost e = Evidence {
        plan: plan.deep_view(),
        lengths: file_lengths(tr_files@),
        on_disk: on_disk@,
        stored: piece_slices.deep_view(),
        computed: calc_piece_slices.deep_view(),
    };
    let mut files: HashSet<usize> = HashSet::new();
    let mut files_known: HashSet<usize> = HashSet::new();
    let mut pieces: HashSet<usize> = HashSet::new();
    let mut slot: usize = 0;
    let mut k: usize = 0;
    while k < plan.len()
        invariant
            k <= plan.len(),
            e == (Evidence {
                plan: plan.deep_view(),
                lengths: file_lengths(tr_files@),
                on_disk: on_disk@,
                stored: piece_slices.deep_view(),
                computed: calc_piece_slices.deep_view(),
            }),
            slot == e.slot(k as int),
            slot <= k,
            forall|x: usize|
                (#[trigger] pieces@.contains(x)) == (x < k && e.piece_failed(x as int)),
            forall|i: usize|
                (#[trigger] files@.contains(i)) == e.file_failed_within(k as int, i as int),
            forall|i: usize|
                (#[trigger] files_known@.contains(i)) == (!file_ok(e.lengths, e.on_disk, i as int)
                    && e.referenced_within(k as int, i as int)),
        decreases plan.len() - k,
    {
        let regions: &Vec<FileHashInfo> = &plan[k];
        let ghost all = regions.deep_view();
        assert(e.plan[k as int] == all);
        let blocked: bool = is_piece_blocked(regions, tr_files, on_disk);
        let matches: bool = !blocked && k < piece_slices.len() && slot < calc_piece_slices.len()
            && bytes_equal(calc_piece_slices[slot].as_slice(), piece_slices[k].as_slice());
        proof {
            if k < piece_slices.len() {
                assert(e.stored[k as int] == piece_slices[k as int]@);
            }
            if slot < calc_piece_slices.len() {
                assert(e.computed[slot as int] == calc_piece_slices[slot as int]@);
            }
            assert(!blocked ==> matches == e.piece_matches(k as int));
        }
        let failed: bool = blocked || !matches;
        assert(failed == e.piece_failed(k as int));
        if failed {
            pieces.insert(k);
        }
        let ghost files_before = files@;
        let ghost known_before = files_known@;
        let mut j: usize = 0;
        while j < regions.len()
            invariant
                j <= regions.len(),
                all == regions.deep_view(),
                e.lengths == file_lengths(tr_files@),
                e.on_disk == on_disk@,
                forall|i: usize|
                    (#[trigger] files@.contains(i)) == (files_before.contains(i) || (failed
                        && touches(all.take(j as int), i as int))),
                forall|i: usize|
                    (#[trigger] files_known@.contains(i)) == (known_before.contains(i) || (!file_ok(
                        e.lengths,
                        e.on_disk,
                        i as int,
                    ) && touches(all.take(j as int), i as int))),
            decreases regions.len() - j,
        {
            let file_index: usize = regions[j].file_index;
            proof {
                assert(all[j as int] == regions[j as int]@);
                assert forall|i: usize|
                    (#[trigger] touches(all.take(j + 1), i as int)) == (touches(
                        all.take(j as int),
                        i as int,
                    ) || file_index == i) by {
                    lemma_touches_step(all, j as int, i as int);
                }
            }
            if failed {
                files.insert(file_index);
            }
            if !is_file_ok(tr_files, on_disk, file_index) {
                files_known.insert(file_index);
            }
            j += 1;
        }
        proof {
            assert(all.take(j as int) == all);
            assert forall|i: usize|
                (#[trigger] files@.contains(i)) == e.file_failed_within(k + 1, i as int) by {
                e.lemma_failed_step(k as int, i as int);
            }
            assert forall|i: usize|
                (#[trigger] files_known@.contains(i)) == (!file_ok(e.lengths, e.on_disk, i as int)
                    && e.referenced_within(k + 1, i as int)) by {
                e.lemma_referenced_step(k as int, i as int);
            }
        }
        if !blocked {
            slot += 1;
        }
        k += 1;
    }
    FailedInfo { files, files_known, pieces }
}

/// Where every file that a piece needs is as the torrent says, the piece can be hashed.
proof fn lemma_not_blocked(e: Evidence, p: int, k: int)
    requires
        valid_lengths(e.lengths),
        e.plan == plan_of(e.lengths, p),
        0 <= k < e.plan.len(),
        forall|i: int|
            0 <= i < e.lengths.len() && touches(e.plan[k], i) ==> file_ok(
                e.lengths,
                e.on_disk,
                i,
            ),
    ensures
        !e.blocked(k),
{
    let count = e.lengths.len() as int;
    let total = total_length(e.lengths, count);
    let regions = e.plan[k];
    assert(regions == piece_regions(e.lengths, p, k));
    lemma_regions_within(e.lengths, count, k * p, crate::planner::least((k + 1) * p, total));
    if e.blocked(k) {
        let j = choose|j: int|
            0 <= j < regions.len() && !file_ok(
                e.lengths,
                e.on_disk,
                (#[trigger] regions[j]).file_index,
            );
        assert(touches(regions, regions[j].file_index));
    }
}

/// Where none of the first `n` pieces is blocked, they are all to be checked.
proof fn lemma_all_to_check(e: Evidence, n: int)
    requires
        0 <= n <= e.plan.len(),
        forall|k: int| 0 <= k < n ==> !e.blocked(k),
    ensures
        e.slot(n) == n,
    decreases n,
{
    if n > 0 {
        lemma_all_to_check(e, n - 1);
        assert(!e.blocked(n - 1));
    }
}

/// A target whose files are all there with the lengths of the torrent, and
/// whose pieces all have the stored digests, passes: no piece fails, no file
/// fails, and no file is known to be bad.
pub proof fn law_intact_target_passes(e: Evidence, p: int)
    requires
        valid_lengths(e.lengths),
        p > 0,
        e.plan == plan_of(e.lengths, p),
        forall|i: int| 0 <= i < e.lengths.len() ==> file_ok(e.lengths, e.on_disk, i),
        e.stored.len() == e.plan.len(),
        e.computed == e.stored,
    ensures
        forall|k: int| !e.piece_failed(k),
        forall|i: int| !e.file_failed(i),
        forall|i: int| !e.file_known_bad(i),
{
    assert forall|k: int| 0 <= k < e.plan.len() implies !e.blocked(k) by {
        lemma_not_blocked(e, p, k);
    }
    assert forall|k: int| !e.piece_failed(k) by {
        if 0 <= k < e.plan.len() {
            lemma_all_to_check(e, k);
        }
    }
    assert forall|i: int| !e.file_known_bad(i) by {
        if e.file_known_bad(i) {
            let k = choose|k: int| 0 <= k < e.plan.len() && touches(#[trigger] e.plan[k], i);
            let regions = e.plan[k];
            let j = choose|j: int| 0 <= j < regions.len() && (#[trigger] regions[j]).file_index == i;
            assert(!file_ok(e.lengths, e.on_disk, regions[j].file_index));
            assert(e.blocked(k));
        }
    }
}

/// Where exactly one file is missing or of another length, that file is not
/// empty, and every piece that can be hashed has the stored digest: that file
/// alone is known to be bad, the failed pieces are exactly the pieces that
/// touch it, and the failed files are exactly the files that those pieces touch.
pub proof fn law_one_bad_file(e: Evidence, p: int, bad: int)
    requires
        valid_lengths(e.lengths),
        p > 0,
        e.plan == plan_of(e.lengths, p),
        0 <= bad < e.lengths.len(),
        e.lengths[bad] > 0,
        !file_ok(e.lengths, e.on_disk, bad),
        forall|i: int| 0 <= i < e.lengths.len() && i != bad ==> file_ok(e.lengths, e.on_disk, i),
        forall|k: int| 0 <= k < e.plan.len() && !e.blocked(k) ==> e.piece_matches(k),
    ensures
        forall|i: int| e.file_known_bad(i) == (i == bad),
        forall|k: int|
            e.piece_failed(k) == (0 <= k < e.plan.len() && touches(e.plan[k], bad)),
        forall|i: int|
            e.file_failed(i) == (exists|k: int|
                0 <= k < e.plan.len() && touches(#[trigger] e.plan[k], bad) && touches(
                    e.plan[k],
                    i,
                )),
{
    let count = e.lengths.len() as int;
    let total = total_length(e.lengths, count);
    assert forall|k: int| 0 <= k < e.plan.len() implies e.blocked(k) == touches(
        e.plan[k],
        bad,
    ) by {
        let regions = e.plan[k];
        assert(regions == piece_regions(e.lengths, p, k));
        lemma_regions_within(e.lengths, count, k * p, crate::planner::least((k + 1) * p, total));
        if e.blocked(k) {
            let j = choose|j: int|
                0 <= j < regions.len() && !file_ok(
                    e.lengths,
                    e.on_disk,
                    (#[trigger] regions[j]).file_index,
                );
            assert(regions[j].file_index == bad);
        }
        if touches(regions, bad) {
            let j = choose|j: int|
                0 <= j < regions.len() && (#[trigger] regions[j]).file_index == bad;
            assert(!file_ok(e.lengths, e.on_disk, regions[j].file_index));
        }
    }
    assert forall|i: int| e.file_known_bad(i) == (i == bad) by {
        if i == bad {
            law_every_file_is_hashed(e.lengths, p, bad);
            let k = choose|k: int|
                0 <= k < plan_of(e.lengths, p).len() && touches(
                    #[trigger] plan_of(e.lengths, p)[k],
                    bad,
                );
            assert(touches(e.plan[k], bad));
        } else if e.file_known_bad(i) {
            let k = choose|k: int| 0 <= k < e.plan.len() && touches(#[trigger] e.plan[k], i);
            let regions = e.plan[k];
            assert(regions == piece_regions(e.lengths, p, k));
            lemma_regions_within(
                e.lengths,
                count,
                k * p,
                crate::planner::least((k + 1) * p, total),
            );
            let j = choose|j: int| 0 <= j < regions.len() && (#[trigger] regions[j]).file_index == i;
        }
    }
    assert forall|i: int|
        e.file_failed(i) == (exists|k: int|
            0 <= k < e.plan.len() && touches(#[trigger] e.plan[k], bad) && touches(
                e.plan[k],
                i,
            )) by {
        if e.file_failed(i) {
            let k = choose|k: int|
                0 <= k < e.plan.len() && #[trigger] e.piece_failed(k) && touches(e.plan[k], i);
            assert(touches(e.plan[k], bad) && touches(e.plan[k], i));
        }
        if exists|k: int|
            0 <= k < e.plan.len() && touches(#[trigger] e.plan[k], bad) && touches(e.plan[k], i) {
            let k = choose|k: int|
                0 <= k < e.plan.len() && touches(#[trigger] e.plan[k], bad) && touches(
                    e.plan[k],
                    i,
                );
            assert(e.piece_failed(k));
        }
    }
}

/// Where every piece can be hashed, the failed pieces are exactly those whose
/// digest is not the stored one, and the failed files are exactly the files
/// that those pieces touch.
pub proof fn law_mismatch_decides(e: Evidence)
    requires
        forall|k: int| 0 <= k < e.plan.len() ==> !e.blocked(k),
    ensures
        forall|k: int| e.piece_failed(k) == (0 <= k < e.plan.len() && !e.piece_matches(k)),
        forall|i: int|
            e.file_failed(i) == (exists|k: int|
                0 <= k < e.plan.len() && !(#[trigger] e.piece_matches(k)) && touches(
                    e.plan[k],
                    i,
                )),
        forall|k: int| 0 <= k <= e.plan.len() ==> e.slot(k) == k,
{
    assert forall|k: int| 0 <= k <= e.plan.len() implies e.slot(k) == k by {
        lemma_all_to_check(e, k);
    }
    assert forall|i: int|
        e.file_failed(i) == (exists|k: int|
            0 <= k < e.plan.len() && !(#[trigger] e.piece_matches(k)) && touches(e.plan[k], i)) by {
        if e.file_failed(i) {
            let k = choose|k: int|
                0 <= k < e.plan.len() && #[trigger] e.piece_failed(k) && touches(e.plan[k], i);
            assert(!e.piece_matches(k));
        }
        if exists|k: int|
            0 <= k < e.plan.len() && !(#[trigger] e.piece_matches(k)) && touches(e.plan[k], i) {
            let k = choose|k: int|
                0 <= k < e.plan.len() && !(#[trigger] e.piece_matches(k)) && touches(
                    e.plan[k],
                    i,
                );
            assert(e.piece_failed(k));
        }
    }
}

/// What is known of a target whose files are held in memory, as they stand:
/// the lengths on disk are the lengths of the files, and every piece is
/// hashed from the bytes that its regions gather.
pub open spec fn evidence_of(contents: Seq<Seq<u8>>, p: int, stored: Seq<Seq<u8>>) -> Evidence {
    let lengths = part_lengths(contents);
    let plan = plan_of(lengths, p);
    Evidence {
        plan,
        lengths,
        on_disk: Seq::new(contents.len(), |i: int| Some(contents[i].len() as u64)),
        stored,
        computed: Seq::new(plan.len(), |k: int| sha1_digest(gather(contents, plan[k]))),
    }
}

/// A fresh torrent verifies: where the stored digests are those of the pieces
/// of the files, one file after the other, a target that holds these very
/// files passes. No piece fails, no file fails, and no file is known to be bad.
pub proof fn law_fresh_torrent_verifies(contents: Seq<Seq<u8>>, p: int, stored: Seq<Seq<u8>>)
    requires
        p > 0,
        forall|i: int| 0 <= i < contents.len() ==> (#[trigger] contents[i]).len() <= u64::MAX,
        stored.len() == plan_of(part_lengths(contents), p).len(),
        forall|k: int|
            0 <= k < stored.len() ==> #[trigger] stored[k] == sha1_digest(
                piece_bytes(joined_all(contents), p, k),
            ),
    ensures
        forall|k: int| !evidence_of(contents, p, stored).piece_failed(k),
        forall|i: int| !evidence_of(contents, p, stored).file_failed(i),
        forall|i: int| !evidence_of(contents, p, stored).file_known_bad(i),
{
    let e = evidence_of(contents, p, stored);
    lemma_joined_len(contents, contents.len() as int);
    assert forall|k: int| 0 <= k < e.computed.len() implies #[trigger] e.computed[k]
        == e.stored[k] by {
        law_plan_gathers_pieces(contents, p, k);
    }
    assert(e.computed =~= e.stored);
    law_intact_target_passes(e, p);
}

} // verus!
