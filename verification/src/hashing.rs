//! SHA-1 digests of pieces, and their text form.

use vstd::prelude::*;
use vstd::slice::slice_subrange;
use crate::planner::{
    least, lemma_piece_count, overlap, piece_count, piece_regions,
    plan_of, plan_pieces, regions_in, total_length, valid_lengths, FileHashInfo, Region,
};
use crate::utils::{push_all, ErrorView, TrError, TrResult};

verus! {

/// The length of a SHA-1 digest in bytes.
pub const SHA1_HASH_SIZE: usize = 20;

/// The SHA-1 digest of `data`.
pub uninterp spec fn sha1_digest(data: Seq<u8>) -> Seq<u8>;

/// `sha1::Sha1::digest`, through the `Digest` trait: the SHA-1 digest of
/// `data`, which has twenty bytes. That the crate computes SHA-1 is taken on
/// trust; the contract only names the result.
#[verifier::external_body]
pub(crate) fn sha1(data: &[u8]) -> (digest: Vec<u8>)
    ensures
        digest@ == sha1_digest(data@),
        digest@.len() == SHA1_HASH_SIZE,
{
    <sha1::Sha1 as sha1::Digest>::digest(data).to_vec()
}

/// The sixteen hexadecimal digits, in lower case.
pub open spec fn hex_digits() -> Seq<char> {
    "0123456789abcdef"@
}

/// The text that writes each byte of `data` as two hexadecimal digits in lower
/// case, the high half first.
pub open spec fn hex_text(data: Seq<u8>) -> Seq<char> {
    Seq::new(
        2 * data.len(),
        |k: int|
            if k % 2 == 0 {
                hex_digits()[data[k / 2] as int / 16]
            } else {
                hex_digits()[data[k / 2] as int % 16]
            },
    )
}

/// `hex::encode`: two lower-case hexadecimal digits for each byte, the high
/// half first.
#[verifier::external_body]
pub(crate) fn hex_encode(data: &[u8]) -> (text: String)
    ensures
        text@ == hex_text(data@),
{
    hex::encode(data)
}

/// The first `n` of `parts`, one after the other.
pub open spec fn joined(parts: Seq<Seq<u8>>, n: int) -> Seq<u8>
    decreases n,
{
    if n <= 0 {
        Seq::empty()
    } else {
        joined(parts, n - 1) + parts[n - 1]
    }
}

/// All of `parts`, one after the other.
pub open spec fn joined_all(parts: Seq<Seq<u8>>) -> Seq<u8> {
    joined(parts, parts.len() as int)
}

/// The lengths of `parts`.
pub open spec fn part_lengths(parts: Seq<Seq<u8>>) -> Seq<int> {
    Seq::new(parts.len(), |k: int| parts[k].len() as int)
}

/// The bytes of a region that the file has: a region that reaches over the
/// end of its file is cut there, as a read at the end of a file is.
pub open spec fn region_bytes(contents: Seq<Seq<u8>>, r: Region) -> Seq<u8> {
    let file = contents[r.file_index];
    file.subrange(
        least(r.file_offset, file.len() as int),
        least(r.file_offset + r.length, file.len() as int),
    )
}

/// The bytes of `regions`, one region after the other.
pub open spec fn gather(contents: Seq<Seq<u8>>, regions: Seq<Region>) -> Seq<u8>
    decreases regions.len(),
{
    if regions.len() == 0 {
        Seq::empty()
    } else {
        gather(contents, regions.drop_last()) + region_bytes(contents, regions.last())
    }
}

/// Every region names one of `count` files.
pub open spec fn regions_known(count: int, regions: Seq<Region>) -> bool {
    forall|j: int| 0 <= j < regions.len() ==> 0 <= (#[trigger] regions[j]).file_index < count
}

/// The bytes of piece `k` of `content`, for pieces of `p` bytes: the last
/// piece ends where `content` ends.
pub open spec fn piece_bytes(content: Seq<u8>, p: int, k: int) -> Seq<u8> {
    content.subrange(k * p, least((k + 1) * p, content.len() as int))
}

/// The digests of the first `n` pieces of `p` bytes of `content`, one after the other.
pub open spec fn piece_digests(content: Seq<u8>, p: int, n: int) -> Seq<u8>
    decreases n,
{
    if n <= 0 {
        Seq::empty()
    } else {
        piece_digests(content, p, n - 1) + sha1_digest(piece_bytes(content, p, n - 1))
    }
}

/// The digests of all pieces of `p` bytes of `content`, one after the other:
/// the `pieces` of a torrent. The last piece may be shorter.
pub open spec fn pieces_of(content: Seq<u8>, p: int) -> Seq<u8> {
    piece_digests(content, p, piece_count(content.len() as int, p))
}

/// Parts that are joined have together the length of the parts.
pub proof fn lemma_joined_len(parts: Seq<Seq<u8>>, n: int)
    requires
        0 <= n <= parts.len(),
    ensures
        joined(parts, n).len() == total_length(part_lengths(parts), n),
        valid_lengths(part_lengths(parts)),
    decreases n,
{
    if n > 0 {
        lemma_joined_len(parts, n - 1);
    }
}

/// What the first `n` files share with the bytes `lo..hi` of their
/// concatenation, read region by region, is those bytes.
pub proof fn lemma_gather_regions(parts: Seq<Seq<u8>>, n: int, lo: int, hi: int)
    requires
        0 <= n <= parts.len(),
        0 <= lo <= hi,
    ensures
        ({
            let end = total_length(part_lengths(parts), n);
            gather(parts, regions_in(part_lengths(parts), n, lo, hi)) == joined(parts, n).subrange(
                least(lo, end),
                least(hi, end),
            )
        }),
        regions_known(n, regions_in(part_lengths(parts), n, lo, hi)),
    decreases n,
{
    let lengths = part_lengths(parts);
    lemma_joined_len(parts, n);
    if n > 0 {
        lemma_gather_regions(parts, n - 1, lo, hi);
        lemma_joined_len(parts, n - 1);
        let before = regions_in(lengths, n - 1, lo, hi);
        let shorter = joined(parts, n - 1);
        let longer = joined(parts, n);
        let start = total_length(lengths, n - 1);
        let end = total_length(lengths, n);
        assert(longer == shorter + parts[n - 1]);
        match overlap(lengths, n - 1, lo, hi) {
            Some(r) => {
                assert(before.push(r).drop_last() == before);
                assert(region_bytes(parts, r) =~= longer.subrange(
                    start + r.file_offset,
                    start + r.file_offset + r.length,
                ));
                assert(shorter.subrange(least(lo, start), least(hi, start)) + longer.subrange(
                    start + r.file_offset,
                    start + r.file_offset + r.length,
                ) =~= longer.subrange(least(lo, end), least(hi, end)));
            },
            None => {
                assert(shorter.subrange(least(lo, start), least(hi, start)) =~= longer.subrange(
                    least(lo, end),
                    least(hi, end),
                ));
            },
        }
    } else {
        assert(joined(parts, n).subrange(0, 0) =~= Seq::<u8>::empty());
    }
}

/// The digest of a piece whose bytes were read in parts: the SHA-1 digest of
/// the parts, one after the other.
pub fn hash_piece(parts: &[Vec<u8>]) -> (digest: Vec<u8>)
    ensures
        digest@ == sha1_digest(joined_all(parts.deep_view())),
        digest@.len() == SHA1_HASH_SIZE,
{
    let mut buffer: Vec<u8> = Vec::new();
    let mut k: usize = 0;
    while k < parts.len()
        invariant
            k <= parts.len(),
            buffer@ == joined(parts.deep_view(), k as int),
        decreases parts.len() - k,
    {
        assert(parts.deep_view()[k as int] == parts[k as int]@);
        push_all(&mut buffer, parts[k].as_slice());
        k += 1;
    }
    sha1(buffer.as_slice())
}

/// Reads the bytes of the regions of one piece from files held in memory.
/// Fails where a region names a file that is not there.
pub fn read_piece(contents: &[Vec<u8>], regions: &Vec<FileHashInfo>) -> (r: TrResult<Vec<u8>>)
    ensures
        regions_known(contents.len() as int, regions.deep_view()) ==> r is Ok && r->Ok_0@
            == gather(contents.deep_view(), regions.deep_view()),
        !regions_known(contents.len() as int, regions.deep_view()) ==> r is Err && r->Err_0@
            == ErrorView::IO("file index out of range"@),
{
    let ghost files = contents.deep_view();
    let ghost all = regions.deep_view();
    let mut buffer: Vec<u8> = Vec::new();
    let mut j: usize = 0;
    assert(all.take(0).len() == 0);
    while j < regions.len()
        invariant
            j <= regions.len(),
            files == contents.deep_view(),
            all == regions.deep_view(),
            regions_known(contents.len() as int, all.take(j as int)),
            buffer@ == gather(files, all.take(j as int)),
        decreases regions.len() - j,
    {
        let region: FileHashInfo = regions[j];
        assert(all[j as int] == region@);
        if region.file_index >= contents.len() {
            return Err(TrError::IO("file index out of range".to_owned()));
        }
        let file: &Vec<u8> = &contents[region.file_index];
        let size: usize = file.len();
        let from: usize = if region.file_offset > size as u64 {
            size
        } else {
            region.file_offset as usize
        };
        let room: usize = size - from;
        let to: usize = if region.length > room as u64 {
            size
        } else {
            from + region.length as usize
        };
        proof {
            assert(files[region.file_index as int] == file@);
            assert(all.take(j + 1).drop_last() == all.take(j as int));
            assert(all.take(j + 1).last() == region@);
            assert forall|i: int| 0 <= i < all.take(j + 1).len() implies 0 <= (
            #[trigger] all.take(j + 1)[i]).file_index < contents.len() by {
                if i < j {
                    assert(all.take(j + 1)[i] == all.take(j as int)[i]);
                }
            }
        }
        push_all(&mut buffer, slice_subrange(file.as_slice(), from, to));
        j += 1;
    }
    assert(all.take(j as int) == all);
    Ok(buffer)
}

/// The digests of the pieces of a plan, read from files held in memory, in
/// the order of the pieces. Fails where a region names a file that is not there.
pub fn hash_piece_file(piece_file_info: &Vec<Vec<FileHashInfo>>, contents: &[Vec<u8>]) -> (r:
    TrResult<Vec<Vec<u8>>>)
    ensures
        plan_known(contents.len() as int, piece_file_info.deep_view()) ==> {
            &&& r is Ok
            &&& r->Ok_0.len() == piece_file_info.len()
            &&& forall|k: int|
                0 <= k < piece_file_info.len() ==> (#[trigger] r->Ok_0[k])@ == sha1_digest(
                    gather(contents.deep_view(), piece_file_info.deep_view()[k]),
                ) && r->Ok_0[k]@.len() == SHA1_HASH_SIZE
        },
        !plan_known(contents.len() as int, piece_file_info.deep_view()) ==> r is Err
            && r->Err_0@ == ErrorView::IO("file index out of range"@),
{
    let ghost plan = piece_file_info.deep_view();
    let mut digests: Vec<Vec<u8>> = Vec::new();
    let mut k: usize = 0;
    while k < piece_file_info.len()
        invariant
            k <= piece_file_info.len(),
            plan == piece_file_info.deep_view(),
            digests.len() == k,
            forall|i: int| 0 <= i < k ==> regions_known(contents.len() as int, #[trigger] plan[i]),
            forall|i: int|
                0 <= i < k ==> (#[trigger] digests[i])@ == sha1_digest(
                    gather(contents.deep_view(), plan[i]),
                ) && digests[i]@.len() == SHA1_HASH_SIZE,
        decreases piece_file_info.len() - k,
    {
        assert(plan[k as int] == piece_file_info[k as int].deep_view());
        match read_piece(contents, &piece_file_info[k]) {
            Ok(bytes) => {
                digests.push(sha1(bytes.as_slice()));
            },
            Err(e) => {
                return Err(e);
            },
        }
        k += 1;
    }
    Ok(digests)
}

/// Every region of every piece names one of `count` files.
pub open spec fn plan_known(count: int, plan: Seq<Seq<Region>>) -> bool {
    forall|k: int| 0 <= k < plan.len() ==> regions_known(count, #[trigger] plan[k])
}

/// The digests one after the other: the `pieces` of a torrent.
pub fn join_digests(digests: &[Vec<u8>]) -> (pieces: Vec<u8>)
    ensures
        pieces@ == joined_all(digests.deep_view()),
{
    let mut pieces: Vec<u8> = Vec::new();
    let mut k: usize = 0;
    while k < digests.len()
        invariant
            k <= digests.len(),
            pieces@ == joined(digests.deep_view(), k as int),
        decreases digests.len() - k,
    {
        assert(digests.deep_view()[k as int] == digests[k as int]@);
        push_all(&mut pieces, digests[k].as_slice());
        k += 1;
    }
    pieces
}

/// The `pieces` of files held in memory: the SHA-1 digests of the pieces of
/// `chunk_size` bytes of the files' bytes, one file after the other. It
/// depends on those bytes and on `chunk_size` alone.
pub fn hash_tr_files(contents: &[Vec<u8>], chunk_size: u64) -> (pieces: Vec<u8>)
    requires
        chunk_size > 0,
    ensures
        pieces@ == pieces_of(joined_all(contents.deep_view()), chunk_size as int),
        pieces@.len() == SHA1_HASH_SIZE * piece_count(
            joined_all(contents.deep_view()).len() as int,
            chunk_size as int,
        ),
        forall|k: int|
            0 <= k < piece_count(joined_all(contents.deep_view()).len() as int, chunk_size as int)
                ==> #[trigger] pieces@.subrange(k * SHA1_HASH_SIZE, (k + 1) * SHA1_HASH_SIZE)
                == sha1_digest(piece_bytes(joined_all(contents.deep_view()), chunk_size as int, k)),
{
    let ghost files = contents.deep_view();
    let ghost lengths = part_lengths(files);
    let ghost p = chunk_size as int;
    let ghost content = joined_all(files);
    let mut sizes: Vec<u64> = Vec::new();
    let mut i: usize = 0;
    while i < contents.len()
        invariant
            i <= contents.len(),
            sizes.len() == i,
            forall|j: int| 0 <= j < i ==> sizes[j] == contents[j].len(),
        decreases contents.len() - i,
    {
        sizes.push(contents[i].len() as u64);
        i += 1;
    }
    assert(crate::planner::lengths_view(sizes@) =~= lengths);
    let plan: Vec<Vec<FileHashInfo>> = plan_pieces(sizes.as_slice(), chunk_size);
    proof {
        lemma_joined_len(files, files.len() as int);
        lemma_piece_count(content.len() as int, p);
        assert(plan.deep_view().len() == plan.len());
        assert(plan_of(lengths, p).len() == piece_count(content.len() as int, p));
    }
    let mut pieces: Vec<u8> = Vec::new();
    let mut k: usize = 0;
    assert(0 * SHA1_HASH_SIZE == 0);
    while k < plan.len()
        invariant
            k <= plan.len(),
            p == chunk_size as int,
            p > 0,
            files == contents.deep_view(),
            lengths == part_lengths(files),
            content == joined_all(files),
            content.len() == total_length(lengths, lengths.len() as int),
            plan.deep_view() == plan_of(lengths, p),
            plan.len() == piece_count(content.len() as int, p),
            (piece_count(content.len() as int, p) - 1) * p < content.len(),
            pieces@ == piece_digests(content, p, k as int),
            pieces@.len() == SHA1_HASH_SIZE * k,
            forall|i: int|
                0 <= i < k ==> #[trigger] pieces@.subrange(
                    i * SHA1_HASH_SIZE,
                    (i + 1) * SHA1_HASH_SIZE,
                ) == sha1_digest(piece_bytes(content, p, i)),
        decreases plan.len() - k,
    {
        proof {
            let lo = k * p;
            let hi = least((k + 1) * p, content.len() as int);
            assert(0 <= lo && lo <= (plan.len() - 1) * p && (k + 1) * p == lo + p)
                by (nonlinear_arith)
                requires
                    0 <= k <= plan.len() - 1,
                    p > 0,
                    lo == k * p,
            ;
            assert(plan.deep_view()[k as int] == plan[k as int].deep_view());
            assert(plan[k as int].deep_view() == piece_regions(lengths, p, k as int));
            lemma_gather_regions(files, files.len() as int, lo, hi);
            assert(piece_bytes(content, p, k as int) =~= content.subrange(
                least(lo, content.len() as int),
                least(hi, content.len() as int),
            ));
        }
        match read_piece(contents, &plan[k]) {
            Ok(bytes) => {
                let mut digest: Vec<u8> = sha1(bytes.as_slice());
                let ghost before = pieces@;
                let ghost added = digest@;
                pieces.append(&mut digest);
                proof {
                    assert forall|i: int| 0 <= i < k + 1 implies #[trigger] pieces@.subrange(
                        i * SHA1_HASH_SIZE,
                        (i + 1) * SHA1_HASH_SIZE,
                    ) == sha1_digest(piece_bytes(content, p, i)) by {
                        if i < k {
                            assert(pieces@.subrange(i * SHA1_HASH_SIZE, (i + 1) * SHA1_HASH_SIZE)
                                =~= before.subrange(i * SHA1_HASH_SIZE, (i + 1) * SHA1_HASH_SIZE));
                        } else {
                            assert(pieces@.subrange(i * SHA1_HASH_SIZE, (i + 1) * SHA1_HASH_SIZE)
                                =~= added);
                        }
                    }
                }
            },
            Err(_) => {
                assert(false);
            },
        }
        k += 1;
    }
    pieces
}

/// The digests that `pieces` holds, twenty bytes each. Bytes at the end that
/// do not make a whole digest are left out.
pub fn split_hash_pieces(pieces: &[u8]) -> (slices: Vec<Vec<u8>>)
    ensures
        slices.len() == pieces.len() / SHA1_HASH_SIZE,
        forall|k: int|
            0 <= k < slices.len() ==> (#[trigger] slices[k])@ == pieces@.subrange(
                k * SHA1_HASH_SIZE,
                (k + 1) * SHA1_HASH_SIZE,
            ),
{
    let count: usize = pieces.len() / SHA1_HASH_SIZE;
    let mut slices: Vec<Vec<u8>> = Vec::new();
    let mut k: usize = 0;
    while k < count
        invariant
            k <= count,
            count == pieces.len() / SHA1_HASH_SIZE,
            slices.len() == k,
            forall|i: int|
                0 <= i < k ==> (#[trigger] slices[i])@ == pieces@.subrange(
                    i * SHA1_HASH_SIZE,
                    (i + 1) * SHA1_HASH_SIZE,
                ),
        decreases count - k,
    {
        let from: usize = k * SHA1_HASH_SIZE;
        let mut digest: Vec<u8> = Vec::new();
        push_all(&mut digest, slice_subrange(pieces, from, from + SHA1_HASH_SIZE));
        assert(digest@ =~= pieces@.subrange(k * SHA1_HASH_SIZE, (k + 1) * SHA1_HASH_SIZE));
        slices.push(digest);
        k += 1;
    }
    slices
}

/// A change of one byte stays in its piece: every other piece has the same
/// bytes as before, and so the same digest.
pub proof fn law_change_stays_in_its_piece(a: Seq<u8>, b: Seq<u8>, p: int, at: int, k: int)
    requires
        p > 0,
        a.len() == b.len(),
        0 <= at < a.len(),
        forall|x: int| 0 <= x < a.len() && x != at ==> a[x] == b[x],
        0 <= k < piece_count(a.len() as int, p),
        k != at / p,
    ensures
        piece_bytes(a, p, k) == piece_bytes(b, p, k),
        sha1_digest(piece_bytes(a, p, k)) == sha1_digest(piece_bytes(b, p, k)),
{
    let lo = k * p;
    let hi = (k + 1) * p;
    assert(hi == lo + p && lo >= 0) by (nonlinear_arith)
        requires
            lo == k * p,
            hi == (k + 1) * p,
            k >= 0,
            p > 0,
    ;
    if lo <= at < hi {
        vstd::arithmetic::div_mod::lemma_fundamental_div_mod_converse(at, p, k, at - lo);
    }
    lemma_piece_count(a.len() as int, p);
    assert(lo <= (piece_count(a.len() as int, p) - 1) * p) by (nonlinear_arith)
        requires
            lo == k * p,
            k <= piece_count(a.len() as int, p) - 1,
            p > 0,
    ;
    assert(piece_bytes(a, p, k) =~= piece_bytes(b, p, k));
}

/// The bytes that the regions of piece `k` of the plan of files gather are
/// the bytes of piece `k` of the files, one file after the other.
pub proof fn law_plan_gathers_pieces(contents: Seq<Seq<u8>>, p: int, k: int)
    requires
        p > 0,
        0 <= k < plan_of(part_lengths(contents), p).len(),
    ensures
        gather(contents, plan_of(part_lengths(contents), p)[k]) == piece_bytes(
            joined_all(contents),
            p,
            k,
        ),
        regions_known(contents.len() as int, plan_of(part_lengths(contents), p)[k]),
{
    let lengths = part_lengths(contents);
    let content = joined_all(contents);
    let count = contents.len() as int;
    lemma_joined_len(contents, count);
    lemma_piece_count(content.len() as int, p);
    let lo = k * p;
    let hi = least((k + 1) * p, content.len() as int);
    assert(0 <= lo && lo <= (piece_count(content.len() as int, p) - 1) * p && (k + 1) * p == lo
        + p) by (nonlinear_arith)
        requires
            0 <= k <= piece_count(content.len() as int, p) - 1,
            p > 0,
            lo == k * p,
    ;
    assert(plan_of(lengths, p)[k] == piece_regions(lengths, p, k));
    lemma_gather_regions(contents, count, lo, hi);
    assert(piece_bytes(content, p, k) =~= content.subrange(
        least(lo, content.len() as int),
        least(hi, content.len() as int),
    ));
}

} // verus!
