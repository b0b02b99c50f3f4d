//! The orders in which the files of a directory are hashed.

use std::cmp::Ordering;
use vstd::prelude::*;
use vstd::seq_lib::{lemma_multiset_commutative, to_multiset_build};
use vstd::utf8::encode_utf8;
use crate::bencode::{
    bytes_less, bytes_lt, lemma_bytes_lt_asymmetric, lemma_bytes_lt_total,
    lemma_bytes_lt_transitive,
};
use crate::torrent::WalkMode;
use crate::tr_file::{file_entries, FileEntry, TrFile};

verus! {

/// How `natord::compare_ignore_case` orders two texts: `-1` where the first
/// comes first, `1` where the second does, `0` where it tells them not apart.
pub uninterp spec fn natord_sign(a: Seq<char>, b: Seq<char>) -> int;

/// `natord::compare_ignore_case`: the natural order of two texts without
/// regard to case, in which a run of digits counts by its number. The
/// contract names the result, and says that it is one of three.
#[verifier::external_body]
fn natural_sign(a: &str, b: &str) -> (r: i8)
    ensures
        r == natord_sign(a@, b@),
        -1 <= r <= 1,
{
    match natord::compare_ignore_case(a, b) {
        Ordering::Less => -1,
        Ordering::Equal => 0,
        Ordering::Greater => 1,
    }
}

/// How two byte strings stand in lexicographic order.
pub open spec fn bytes_sign(a: Seq<u8>, b: Seq<u8>) -> int {
    if bytes_lt(a, b) {
        -1
    } else if bytes_lt(b, a) {
        1
    } else {
        0
    }
}

/// How two lengths stand.
pub open spec fn length_sign(a: int, b: int) -> int {
    if a < b {
        -1
    } else if a > b {
        1
    } else {
        0
    }
}

/// How two paths stand from segment `from` on, segment by segment, each
/// segment by its bytes; a path that is the start of the other comes first.
pub open spec fn alphabetical_sign(a: Seq<Seq<char>>, b: Seq<Seq<char>>, from: int) -> int
    decreases a.len() - from,
{
    if from < 0 || from >= a.len() || from >= b.len() {
        length_sign(a.len() as int, b.len() as int)
    } else {
        let here = bytes_sign(encode_utf8(a[from]), encode_utf8(b[from]));
        if here != 0 {
            here
        } else {
            alphabetical_sign(a, b, from + 1)
        }
    }
}

/// How two paths stand from segment `from` on, segment by segment in natural
/// order; a path that is the start of the other comes first.
pub open spec fn breadth_first_sign(a: Seq<Seq<char>>, b: Seq<Seq<char>>, from: int) -> int
    decreases a.len() - from,
{
    if from < 0 || from >= a.len() || from >= b.len() {
        length_sign(a.len() as int, b.len() as int)
    } else {
        let here = natord_sign(a[from], b[from]);
        if here != 0 {
            here
        } else {
            breadth_first_sign(a, b, from + 1)
        }
    }
}

/// As `breadth_first_sign`, but at each depth a path that ends there comes
/// before one that goes deeper.
pub open spec fn level_sign(a: Seq<Seq<char>>, b: Seq<Seq<char>>, from: int) -> int
    decreases a.len() - from,
{
    if from < 0 || from >= a.len() || from >= b.len() {
        length_sign(a.len() as int, b.len() as int)
    } else if from == a.len() - 1 && from != b.len() - 1 {
        -1
    } else if from != a.len() - 1 && from == b.len() - 1 {
        1
    } else {
        let here = natord_sign(a[from], b[from]);
        if here != 0 {
            here
        } else {
            level_sign(a, b, from + 1)
        }
    }
}

/// How two files stand in the order of `mode`: negative where `a` comes
/// first, positive where `b` does, zero where the order tells them not apart.
/// In the default order no file comes before another.
pub open spec fn order_sign(mode: WalkMode, a: FileEntry, b: FileEntry) -> int {
    match mode {
        WalkMode::Default => 0,
        WalkMode::Alphabetical => alphabetical_sign(a.path, b.path, 0),
        WalkMode::BreadthFirstAlphabetical => breadth_first_sign(a.path, b.path, 0),
        WalkMode::BreadthFirstLevel => level_sign(a.path, b.path, 0),
        WalkMode::FileSize => length_sign(b.length, a.length),
    }
}

/// Tells how two lengths stand.
fn sign_of_lengths(a: usize, b: usize) -> (r: i8)
    ensures
        r == length_sign(a as int, b as int),
{
    if a < b {
        -1
    } else if a > b {
        1
    } else {
        0
    }
}

/// Tells how two files stand in the order of `mode`.
pub fn compare_files(mode: WalkMode, a: &TrFile, b: &TrFile) -> (r: i8)
    ensures
        r == order_sign(mode, a@, b@),
{
    match mode {
        WalkMode::Default => 0,
        WalkMode::FileSize => {
            if b.length < a.length {
                -1
            } else if b.length > a.length {
                1
            } else {
                0
            }
        },
        _ => {
            let ghost pa = a@.path;
            let ghost pb = b@.path;
            let mut depth: usize = 0;
            while depth < a.path.len() && depth < b.path.len()
                invariant
                    depth <= a.path.len(),
                    depth <= b.path.len(),
                    pa == a@.path,
                    pb == b@.path,
                    mode != WalkMode::Default,
                    mode != WalkMode::FileSize,
                    mode == WalkMode::Alphabetical ==> alphabetical_sign(pa, pb, 0)
                        == alphabetical_sign(pa, pb, depth as int),
                    mode == WalkMode::BreadthFirstAlphabetical ==> breadth_first_sign(pa, pb, 0)
                        == breadth_first_sign(pa, pb, depth as int),
                    mode == WalkMode::BreadthFirstLevel ==> level_sign(pa, pb, 0) == level_sign(
                        pa,
                        pb,
                        depth as int,
                    ),
                decreases a.path.len() - depth,
            {
                let sa: &str = a.path[depth].as_str();
                let sb: &str = b.path[depth].as_str();
                assert(pa[depth as int] == sa@ && pb[depth as int] == sb@);
                let here: i8 = match mode {
                    WalkMode::Alphabetical => {
                        if bytes_less(sa.as_bytes(), sb.as_bytes()) {
                            -1
                        } else if bytes_less(sb.as_bytes(), sa.as_bytes()) {
                            1
                        } else {
                            0
                        }
                    },
                    WalkMode::BreadthFirstAlphabetical => natural_sign(sa, sb),
                    _ => {
                        let a_ends: bool = depth == a.path.len() - 1;
                        let b_ends: bool = depth == b.path.len() - 1;
                        if a_ends && !b_ends {
                            -1
                        } else if !a_ends && b_ends {
                            1
                        } else {
                            natural_sign(sa, sb)
                        }
                    },
                };
                if here != 0 {
                    return here;
                }
                depth += 1;
            }
            sign_of_lengths(a.path.len(), b.path.len())
        },
    }
}

/// File `x` comes before file `y` where the order of `mode` says so, and
/// where it tells them not apart and `x` stood before `y`.
pub open spec fn comes_before(files: Seq<FileEntry>, mode: WalkMode, x: int, y: int) -> bool {
    let s = order_sign(mode, files[x], files[y]);
    s < 0 || (s == 0 && x < y)
}

/// The order of `mode` is an order on `files`: turning two files round turns
/// the sign round, and what holds of a first and a second file and of the
/// second and a third holds of the first and the third.
pub open spec fn consistent(files: Seq<FileEntry>, mode: WalkMode) -> bool {
    &&& forall|x: int, y: int|
        0 <= x < files.len() && 0 <= y < files.len() ==> #[trigger] order_sign(
            mode,
            files[x],
            files[y],
        ) == -order_sign(mode, files[y], files[x])
    &&& forall|x: int, y: int, z: int|
        #![trigger order_sign(mode, files[x], files[y]), order_sign(mode, files[y], files[z])]
        0 <= x < files.len() && 0 <= y < files.len() && 0 <= z < files.len() && order_sign(
            mode,
            files[x],
            files[y],
        ) <= 0 && order_sign(mode, files[y], files[z]) <= 0 ==> order_sign(
            mode,
            files[x],
            files[z],
        ) <= 0
}

/// `order` names the files so that each comes before all that follow it:
/// sorted by the order of `mode`, and files that it tells not apart in the
/// order in which they stood.
pub open spec fn sorted(order: Seq<usize>, files: Seq<FileEntry>, mode: WalkMode) -> bool {
    forall|i: int, j: int|
        0 <= i < j < order.len() ==> comes_before(
            files,
            mode,
            #[trigger] order[i] as int,
            #[trigger] order[j] as int,
        )
}

/// The indices from `lo` up to `hi`, in ascending order.
pub open spec fn index_range(lo: int, hi: int) -> Seq<usize> {
    Seq::new((hi - lo) as nat, |i: int| (lo + i) as usize)
}

/// The files in the order that `order` names.
pub open spec fn arranged(files: Seq<FileEntry>, order: Seq<usize>) -> Seq<FileEntry> {
    Seq::new(order.len(), |i: int| files[order[i] as int])
}

/// In a consistent order, what comes before a file comes before all that this file
/// comes before.
proof fn lemma_comes_before_transitive(
    files: Seq<FileEntry>,
    mode: WalkMode,
    x: int,
    y: int,
    z: int,
)
    requires
        consistent(files, mode),
        0 <= x < files.len(),
        0 <= y < files.len(),
        0 <= z < files.len(),
        comes_before(files, mode, x, y),
        comes_before(files, mode, y, z),
    ensures
        comes_before(files, mode, x, z),
{
    let xy = order_sign(mode, files[x], files[y]);
    let yz = order_sign(mode, files[y], files[z]);
    let xz = order_sign(mode, files[x], files[z]);
    let zx = order_sign(mode, files[z], files[x]);
    let yx = order_sign(mode, files[y], files[x]);
    let zy = order_sign(mode, files[z], files[y]);
    assert(xz <= 0);
    assert(zx == -xz && yx == -xy && zy == -yz);
    if xz == 0 {
        if xy < 0 {
            // From y to z and from z to x makes from y to x.
            assert(order_sign(mode, files[y], files[z]) <= 0 && order_sign(
                mode,
                files[z],
                files[x],
            ) <= 0);
            assert(yx <= 0);
        }
        if yz < 0 {
            assert(order_sign(mode, files[z], files[x]) <= 0 && order_sign(
                mode,
                files[x],
                files[y],
            ) <= 0);
            assert(zy <= 0);
        }
    }
}

/// Merges two sorted runs of indices, the first of files that all stood
/// before those of the second.
fn merge(
    files: &[TrFile],
    mode: WalkMode,
    left: &Vec<usize>,
    right: &Vec<usize>,
    Ghost(lo): Ghost<int>,
    Ghost(mid): Ghost<int>,
    Ghost(hi): Ghost<int>,
) -> (out: Vec<usize>)
    requires
        0 <= lo <= mid <= hi <= files.len(),
        forall|i: int| 0 <= i < left.len() ==> lo <= #[trigger] left[i] < mid,
        forall|j: int| 0 <= j < right.len() ==> mid <= #[trigger] right[j] < hi,
    ensures
        out@.to_multiset() == left@.to_multiset().add(right@.to_multiset()),
        out.len() == left.len() + right.len(),
        forall|i: int| 0 <= i < out.len() ==> lo <= #[trigger] out[i] < hi,
        consistent(file_entries(files@), mode) && sorted(left@, file_entries(files@), mode)
            && sorted(right@, file_entries(files@), mode) ==> sorted(
            out@,
            file_entries(files@),
            mode,
        ),
{
    let ghost entries = file_entries(files@);
    let ghost good = consistent(entries, mode) && sorted(left@, entries, mode) && sorted(
        right@,
        entries,
        mode,
    );
    let mut out: Vec<usize> = Vec::new();
    let mut i: usize = 0;
    let mut j: usize = 0;
    proof {
        assert(left@.take(0) =~= Seq::<usize>::empty());
        assert(right@.take(0) =~= Seq::<usize>::empty());
        assert(out@ =~= Seq::<usize>::empty());
        vstd::seq_lib::to_multiset_len(Seq::<usize>::empty());
        vstd::multiset::lemma_multiset_empty_len(Seq::<usize>::empty().to_multiset());
        assert(out@.to_multiset() =~= left@.take(0).to_multiset().add(
            right@.take(0).to_multiset(),
        ));
    }
    while i < left.len() || j < right.len()
        invariant
            i <= left.len(),
            j <= right.len(),
            0 <= lo <= mid <= hi <= files.len(),
            entries == file_entries(files@),
            good == (consistent(entries, mode) && sorted(left@, entries, mode) && sorted(
                right@,
                entries,
                mode,
            )),
            forall|x: int| 0 <= x < left.len() ==> lo <= #[trigger] left[x] < mid,
            forall|y: int| 0 <= y < right.len() ==> mid <= #[trigger] right[y] < hi,
            out.len() == i + j,
            out@.to_multiset() == left@.take(i as int).to_multiset().add(
                right@.take(j as int).to_multiset(),
            ),
            forall|x: int| 0 <= x < out.len() ==> lo <= #[trigger] out[x] < hi,
            good ==> sorted(out@, entries, mode),
            good ==> forall|x: int, y: int|
                0 <= x < out.len() && i <= y < left.len() ==> comes_before(
                    entries,
                    mode,
                    #[trigger] out[x] as int,
                    #[trigger] left[y] as int,
                ),
            good ==> forall|x: int, y: int|
                0 <= x < out.len() && j <= y < right.len() ==> comes_before(
                    entries,
                    mode,
                    #[trigger] out[x] as int,
                    #[trigger] right[y] as int,
                ),
        decreases left.len() - i + right.len() - j,
    {
        let take_left: bool = if i >= left.len() {
            false
        } else if j >= right.len() {
            true
        } else {
            assert(entries[left[i as int] as int] == files[left[i as int] as int]@);
            assert(entries[right[j as int] as int] == files[right[j as int] as int]@);
            compare_files(mode, &files[left[i]], &files[right[j]]) <= 0
        };
        let ghost before = out@;
        if take_left {
            let x: usize = left[i];
            proof {
                assert(left@.take(i + 1) =~= left@.take(i as int).push(x));
                to_multiset_build(left@.take(i as int), x);
                to_multiset_build(before, x);
                assert(before.push(x).to_multiset() =~= left@.take(i + 1).to_multiset().add(
                    right@.take(j as int).to_multiset(),
                ));
                if good {
                    assert forall|y: int| j <= y < right.len() implies comes_before(
                        entries,
                        mode,
                        x as int,
                        #[trigger] right[y] as int,
                    ) by {
                        assert(comes_before(entries, mode, x as int, right[j as int] as int));
                        if y > j {
                            assert(comes_before(
                                entries,
                                mode,
                                right[j as int] as int,
                                right[y] as int,
                            ));
                            lemma_comes_before_transitive(
                                entries,
                                mode,
                                x as int,
                                right[j as int] as int,
                                right[y] as int,
                            );
                        }
                    }
                    assert forall|y: int| i + 1 <= y < left.len() implies comes_before(
                        entries,
                        mode,
                        x as int,
                        #[trigger] left[y] as int,
                    ) by {
                        assert(comes_before(entries, mode, left[i as int] as int, left[y] as int));
                    }
                }
            }
            out.push(x);
            i += 1;
        } else {
            let y: usize = right[j];
            proof {
                assert(right@.take(j + 1) =~= right@.take(j as int).push(y));
                to_multiset_build(right@.take(j as int), y);
                to_multiset_build(before, y);
                assert(before.push(y).to_multiset() =~= left@.take(i as int).to_multiset().add(
                    right@.take(j + 1).to_multiset(),
                ));
                if good {
                    assert forall|x: int| i <= x < left.len() implies comes_before(
                        entries,
                        mode,
                        y as int,
                        #[trigger] left[x] as int,
                    ) by {
                        let first = left[i as int] as int;
                        assert(order_sign(mode, entries[y as int], entries[first])
                            == -order_sign(mode, entries[first], entries[y as int]));
                        assert(comes_before(entries, mode, y as int, first));
                        if x > i {
                            assert(comes_before(entries, mode, first, left[x] as int));
                            lemma_comes_before_transitive(
                                entries,
                                mode,
                                y as int,
                                first,
                                left[x] as int,
                            );
                        }
                    }
                    assert forall|x: int| j + 1 <= x < right.len() implies comes_before(
                        entries,
                        mode,
                        y as int,
                        #[trigger] right[x] as int,
                    ) by {
                        assert(comes_before(entries, mode, right[j as int] as int, right[x] as int));
                    }
                }
            }
            out.push(y);
            j += 1;
        }
        proof {
            if good {
                assert forall|a: int, b: int| 0 <= a < b < out.len() implies comes_before(
                    entries,
                    mode,
                    #[trigger] out[a] as int,
                    #[trigger] out[b] as int,
                ) by {
                    if b < before.len() {
                        assert(out[a] == before[a] && out[b] == before[b]);
                    } else {
                        assert(out[a] == before[a]);
                    }
                }
            }
        }
    }
    proof {
        assert(left@.take(i as int) =~= left@);
        assert(right@.take(j as int) =~= right@);
    }
    out
}

/// Sorts the files from `lo` up to `hi`: their indices in the order of `mode`.
fn sort_range(files: &[TrFile], mode: WalkMode, lo: usize, hi: usize) -> (out: Vec<usize>)
    requires
        lo <= hi <= files.len(),
    ensures
        out@.to_multiset() == index_range(lo as int, hi as int).to_multiset(),
        out.len() == hi - lo,
        forall|i: int| 0 <= i < out.len() ==> lo <= #[trigger] out[i] < hi,
        consistent(file_entries(files@), mode) ==> sorted(out@, file_entries(files@), mode),
    decreases hi - lo,
{
    let mut out: Vec<usize> = Vec::new();
    if hi - lo == 0 {
        assert(out@ =~= index_range(lo as int, hi as int));
        return out;
    }
    if hi - lo == 1 {
        out.push(lo);
        assert(out@ =~= index_range(lo as int, hi as int));
        return out;
    }
    let mid: usize = lo + (hi - lo) / 2;
    let left: Vec<usize> = sort_range(files, mode, lo, mid);
    let right: Vec<usize> = sort_range(files, mode, mid, hi);
    proof {
        let a = index_range(lo as int, mid as int);
        let b = index_range(mid as int, hi as int);
        assert(a + b =~= index_range(lo as int, hi as int));
        lemma_multiset_commutative(a, b);
    }
    merge(files, mode, &left, &right, Ghost(lo as int), Ghost(mid as int), Ghost(hi as int))
}

/// The lexicographic order of byte strings is an order.
proof fn lemma_bytes_sign(a: Seq<u8>, b: Seq<u8>, c: Seq<u8>)
    ensures
        bytes_sign(a, b) == -bytes_sign(b, a),
        bytes_sign(a, b) == 0 ==> a == b,
        bytes_sign(a, a) == 0,
        bytes_sign(a, b) <= 0 && bytes_sign(b, c) <= 0 ==> bytes_sign(a, c) <= 0,
        bytes_sign(a, b) <= 0 && bytes_sign(b, c) <= 0 && bytes_sign(a, c) == 0 ==> bytes_sign(
            a,
            b,
        ) == 0 && bytes_sign(b, c) == 0,
{
    if bytes_lt(a, b) {
        lemma_bytes_lt_asymmetric(a, b);
    }
    if bytes_lt(b, a) {
        lemma_bytes_lt_asymmetric(b, a);
    }
    if bytes_lt(a, a) {
        lemma_bytes_lt_asymmetric(a, a);
    }
    if !bytes_lt(a, b) && !bytes_lt(b, a) {
        lemma_bytes_lt_total(a, b);
    }
    if bytes_sign(a, b) <= 0 && bytes_sign(b, c) <= 0 {
        if bytes_lt(b, c) {
            lemma_bytes_lt_asymmetric(b, c);
        }
        if bytes_lt(c, b) {
            lemma_bytes_lt_asymmetric(c, b);
        }
        if !bytes_lt(b, c) && !bytes_lt(c, b) {
            lemma_bytes_lt_total(b, c);
        }
        if bytes_lt(a, b) && bytes_lt(b, c) {
            lemma_bytes_lt_transitive(a, b, c);
        }
        if bytes_lt(a, c) {
            lemma_bytes_lt_asymmetric(a, c);
        }
        if bytes_lt(c, a) {
            lemma_bytes_lt_asymmetric(c, a);
            if bytes_lt(a, b) {
                lemma_bytes_lt_transitive(c, a, b);
            }
        }
    }
}

/// Turning two paths round turns the sign of their order round.
proof fn lemma_alphabetical_turned(a: Seq<Seq<char>>, b: Seq<Seq<char>>, from: int)
    requires
        0 <= from,
    ensures
        alphabetical_sign(a, b, from) == -alphabetical_sign(b, a, from),
    decreases a.len() - from,
{
    if from < a.len() && from < b.len() {
        lemma_bytes_sign(encode_utf8(a[from]), encode_utf8(b[from]), encode_utf8(a[from]));
        lemma_alphabetical_turned(a, b, from + 1);
    }
}

/// The order of paths by their bytes is transitive.
proof fn lemma_alphabetical_transitive(
    a: Seq<Seq<char>>,
    b: Seq<Seq<char>>,
    c: Seq<Seq<char>>,
    from: int,
)
    requires
        0 <= from,
        alphabetical_sign(a, b, from) <= 0,
        alphabetical_sign(b, c, from) <= 0,
    ensures
        alphabetical_sign(a, c, from) <= 0,
    decreases a.len() - from,
{
    if from < a.len() && from < b.len() && from < c.len() {
        let x = encode_utf8(a[from]);
        let y = encode_utf8(b[from]);
        let z = encode_utf8(c[from]);
        lemma_bytes_sign(x, y, z);
        if bytes_sign(x, y) == 0 && bytes_sign(y, z) == 0 {
            lemma_alphabetical_transitive(a, b, c, from + 1);
        }
    }
}

/// By path in the order of bytes, by length, and in the default order (which
/// tells no two files apart), the files are ordered consistently.
pub proof fn lemma_consistent(files: Seq<FileEntry>, mode: WalkMode)
    requires
        mode == WalkMode::Default || mode == WalkMode::Alphabetical || mode == WalkMode::FileSize,
    ensures
        consistent(files, mode),
{
    assert forall|x: int, y: int| 0 <= x < files.len() && 0 <= y < files.len() implies
        #[trigger] order_sign(mode, files[x], files[y]) == -order_sign(
        mode,
        files[y],
        files[x],
    ) by {
        if mode == WalkMode::Alphabetical {
            lemma_alphabetical_turned(files[x].path, files[y].path, 0);
        }
    }
    assert forall|x: int, y: int, z: int|
        #![trigger order_sign(mode, files[x], files[y]), order_sign(mode, files[y], files[z])]
        0 <= x < files.len() && 0 <= y < files.len() && 0 <= z < files.len() && order_sign(
            mode,
            files[x],
            files[y],
        ) <= 0 && order_sign(mode, files[y], files[z]) <= 0 implies order_sign(
        mode,
        files[x],
        files[z],
    ) <= 0 by {
        if mode == WalkMode::Alphabetical {
            lemma_alphabetical_transitive(files[x].path, files[y].path, files[z].path, 0);
        }
    }
}

impl TrFile {
    /// A copy of the entry.
    pub fn duplicate(&self) -> (copy: TrFile)
        ensures
            copy@ == self@,
    {
        let mut path: Vec<String> = Vec::new();
        let mut k: usize = 0;
        while k < self.path.len()
            invariant
                k <= self.path.len(),
                path.len() == k,
                forall|i: int| 0 <= i < k ==> (#[trigger] path[i])@ == self.path[i]@,
            decreases self.path.len() - k,
        {
            path.push(self.path[k].clone());
            k += 1;
        }
        assert(path.deep_view() =~= self.path.deep_view());
        TrFile { length: self.length, path }
    }
}

/// The order in which the files are hashed: their indices, sorted by the
/// order of `walk_mode`, files that it tells not apart in the order in which
/// they stand. Every index occurs once. In the default order the files stay
/// as they stand.
///
/// The natural orders rest on an outside comparison of which nothing but its
/// name is known here: for them the result is sorted provided that the
/// comparison orders the given files consistently.
pub fn sorted_order(tr_files: &[TrFile], walk_mode: WalkMode) -> (order: Vec<usize>)
    ensures
        order@.to_multiset() == index_range(0, tr_files.len() as int).to_multiset(),
        order.len() == tr_files.len(),
        forall|i: int| 0 <= i < order.len() ==> #[trigger] order[i] < tr_files.len(),
        walk_mode == WalkMode::Default ==> order@ == index_range(0, tr_files.len() as int),
        consistent(file_entries(tr_files@), walk_mode) ==> sorted(
            order@,
            file_entries(tr_files@),
            walk_mode,
        ),
        walk_mode == WalkMode::Alphabetical || walk_mode == WalkMode::FileSize ==> sorted(
            order@,
            file_entries(tr_files@),
            walk_mode,
        ),
{
    proof {
        if walk_mode == WalkMode::Default || walk_mode == WalkMode::Alphabetical || walk_mode
            == WalkMode::FileSize {
            lemma_consistent(file_entries(tr_files@), walk_mode);
        }
    }
    match walk_mode {
        WalkMode::Default => {
            let mut order: Vec<usize> = Vec::new();
            let mut k: usize = 0;
            while k < tr_files.len()
                invariant
                    k <= tr_files.len(),
                    order@ == index_range(0, k as int),
                decreases tr_files.len() - k,
            {
                order.push(k);
                assert(order@ =~= index_range(0, k + 1));
                k += 1;
            }
            order
        },
        _ => sort_range(tr_files, walk_mode, 0, tr_files.len()),
    }
}

/// Puts the files into the order of `walk_mode`, and says which file went
/// where: the file now at `i` stood at `order[i]`.
pub fn sort_files(tr_files: &mut Vec<TrFile>, walk_mode: WalkMode) -> (order: Vec<usize>)
    ensures
        file_entries(final(tr_files)@) == arranged(file_entries(old(tr_files)@), order@),
        order@.to_multiset() == index_range(0, old(tr_files).len() as int).to_multiset(),
        order.len() == old(tr_files).len(),
        forall|i: int| 0 <= i < order.len() ==> #[trigger] order[i] < old(tr_files).len(),
        walk_mode == WalkMode::Default ==> order@ == index_range(0, old(tr_files).len() as int),
        consistent(file_entries(old(tr_files)@), walk_mode) ==> sorted(
            order@,
            file_entries(old(tr_files)@),
            walk_mode,
        ),
        walk_mode == WalkMode::Alphabetical || walk_mode == WalkMode::FileSize ==> sorted(
            order@,
            file_entries(old(tr_files)@),
            walk_mode,
        ),
{
    let order: Vec<usize> = sorted_order(tr_files.as_slice(), walk_mode);
    let ghost before = file_entries(tr_files@);
    let mut sorted_files: Vec<TrFile> = Vec::new();
    let mut k: usize = 0;
    while k < order.len()
        invariant
            k <= order.len(),
            before == file_entries(tr_files@),
            forall|i: int| 0 <= i < order.len() ==> #[trigger] order[i] < tr_files.len(),
            sorted_files.len() == k,
            forall|i: int| 0 <= i < k ==> (#[trigger] sorted_files[i])@ == before[order[i] as int],
        decreases order.len() - k,
    {
        sorted_files.push(tr_files[order[k]].duplicate());
        k += 1;
    }
    assert(file_entries(sorted_files@) =~= arranged(before, order@));
    *tr_files = sorted_files;
    order
}

/// There is one sorted order: two arrangements of the same indices that are
/// both sorted by a consistent order are the same. So the order that
/// `sorted_order` gives is the one that any stable sort gives.
pub proof fn law_sorted_order_is_unique(
    files: Seq<FileEntry>,
    mode: WalkMode,
    a: Seq<usize>,
    b: Seq<usize>,
)
    requires
        consistent(files, mode),
        a.to_multiset() == b.to_multiset(),
        forall|i: int| 0 <= i < a.len() ==> (#[trigger] a[i]) < files.len(),
        sorted(a, files, mode),
        sorted(b, files, mode),
    ensures
        a == b,
    decreases a.len(),
{
    vstd::seq_lib::to_multiset_len(a);
    vstd::seq_lib::to_multiset_len(b);
    if a.len() == 0 {
        assert(a =~= b);
    } else {
        a.to_multiset_ensures();
        b.to_multiset_ensures();
        let x = a[0];
        let y = b[0];
        assert(b.to_multiset().count(x) > 0) by {
            assert(a.contains(x));
        }
        assert(a.to_multiset().count(y) > 0) by {
            assert(b.contains(y));
        }
        let p = choose|p: int| 0 <= p < a.len() && a[p] == y;
        let q = choose|q: int| 0 <= q < b.len() && b[q] == x;
        assert(y < files.len());
        if p > 0 && q > 0 {
            assert(comes_before(files, mode, a[0] as int, a[p] as int));
            assert(comes_before(files, mode, b[0] as int, b[q] as int));
            assert(order_sign(mode, files[x as int], files[y as int]) == -order_sign(
                mode,
                files[y as int],
                files[x as int],
            ));
        }
        assert(x == y);
        let ta = a.drop_first();
        let tb = b.drop_first();
        assert(ta =~= a.remove(0));
        assert(tb =~= b.remove(0));
        assert(ta.to_multiset() =~= tb.to_multiset());
        assert forall|i: int| 0 <= i < ta.len() implies (#[trigger] ta[i]) < files.len() by {
            assert(ta[i] == a[i + 1]);
        }
        assert forall|i: int, j: int| 0 <= i < j < ta.len() implies comes_before(
            files,
            mode,
            #[trigger] ta[i] as int,
            #[trigger] ta[j] as int,
        ) by {
            assert(ta[i] == a[i + 1] && ta[j] == a[j + 1]);
        }
        assert forall|i: int, j: int| 0 <= i < j < tb.len() implies comes_before(
            files,
            mode,
            #[trigger] tb[i] as int,
            #[trigger] tb[j] as int,
        ) by {
            assert(tb[i] == b[i + 1] && tb[j] == b[j + 1]);
        }
        law_sorted_order_is_unique(files, mode, ta, tb);
        assert(a =~= seq![x] + ta);
        assert(b =~= seq![y] + tb);
    }
}

} // verus!
