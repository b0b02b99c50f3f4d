//! What the reader is shown: the summary of a metainfo and the result of a
//! verification, as text.

use vstd::prelude::*;
use vstd::string::StringExecFns;
use crate::hashing::{hex_encode, hex_text};
use crate::torrent::{Metainfo, Torrent};
use crate::tr_file::{file_entries, FileEntry, TrFile};
use crate::tr_info::{InfoBlock, TrInfo};
use crate::utils::{
    decimal_text, human_size, number_text, size_text, ErrorView, TrError, TrResult,
};
use crate::hashing::SHA1_HASH_SIZE;
use crate::verify::FailedInfo;

verus! {

/// The number of tracker addresses that a summary shows at most.
pub const MAX_DISPLAYED_ANNOUNCES: usize = 20;

/// The number of files that a summary shows at most.
pub const MAX_DISPLAYED_FILES: usize = 100;

/// The width to which the numbers of a verification result are padded.
pub const COUNT_WIDTH: usize = 8;

/// Appends `piece` to `out`.
fn put(out: &mut String, piece: &str)
    ensures
        final(out)@ == old(out)@ + piece@,
{
    out.append(piece);
}

/// A line: a label, a value, and the end of the line.
pub open spec fn line(label: Seq<char>, value: Seq<char>) -> Seq<char> {
    label + value + "\n"@
}

/// A line for a value that may be there.
pub open spec fn optional_line(label: Seq<char>, value: Option<Seq<char>>) -> Seq<char> {
    match value {
        Some(v) => line(label, v),
        None => Seq::empty(),
    }
}

/// Appends a line.
fn put_line(out: &mut String, label: &str, value: &str)
    ensures
        final(out)@ == old(out)@ + line(label@, value@),
{
    let ghost before = out@;
    put(out, label);
    put(out, value);
    put(out, "\n");
    assert(out@ =~= before + line(label@, value@));
}

/// The decimal numeral of a number with sign, as text.
pub open spec fn signed_text(i: int) -> Seq<char> {
    if i < 0 {
        "-"@ + decimal_text((-i) as nat)
    } else {
        decimal_text(i as nat)
    }
}

/// The decimal numeral of a number with sign, as text.
pub fn signed_number_text(i: i64) -> (text: String)
    ensures
        text@ == signed_text(i as int),
{
    if i < 0 {
        let magnitude: u64 = if i == i64::MIN {
            0x8000_0000_0000_0000u64
        } else {
            (-i) as u64
        };
        let mut text: String = "-".to_owned();
        let digits: String = number_text(magnitude);
        put(&mut text, digits.as_str());
        text
    } else {
        number_text(i as u64)
    }
}

/// `count` spaces.
pub open spec fn spaces(count: int) -> Seq<char> {
    Seq::new(
        if count > 0 {
            count as nat
        } else {
            0
        },
        |k: int| ' ',
    )
}

/// A number padded with spaces on the left to `width` characters.
pub open spec fn padded_text(n: nat, width: int) -> Seq<char> {
    spaces(width - decimal_text(n).len()) + decimal_text(n)
}

/// A number padded with spaces on the left to `width` characters.
pub fn padded_number(n: u64, width: usize) -> (text: String)
    ensures
        text@ == padded_text(n as nat, width as int),
{
    let digits: String = number_text(n);
    let used: usize = digits.as_str().unicode_len();
    let mut text: String = String::new();
    let mut k: usize = used;
    proof {
        reveal_strlit(" ");
        assert(text@ =~= spaces(0));
    }
    while k < width
        invariant
            used <= k,
            used >= width ==> k == used,
            used < width ==> k <= width,
            text@ == spaces(k - used),
        decreases width - k,
    {
        let ghost before = text@;
        put(&mut text, " ");
        assert(text@ =~= spaces(k + 1 - used)) by {
            reveal_strlit(" ");
        }
        k += 1;
    }
    assert(text@ =~= spaces(width - used));
    put(&mut text, digits.as_str());
    text
}

/// The segments of a path with `/` between them.
pub open spec fn joined_path(path: Seq<Seq<char>>) -> Seq<char>
    decreases path.len(),
{
    if path.len() == 0 {
        Seq::empty()
    } else if path.len() == 1 {
        path[0]
    } else {
        joined_path(path.drop_last()) + "/"@ + path.last()
    }
}

/// The segments of a path with `/` between them.
pub fn join_path(path: &Vec<String>) -> (text: String)
    ensures
        text@ == joined_path(path.deep_view()),
{
    let ghost all = path.deep_view();
    let mut text: String = String::new();
    let mut k: usize = 0;
    assert(all.take(0) =~= Seq::<Seq<char>>::empty());
    while k < path.len()
        invariant
            k <= path.len(),
            all == path.deep_view(),
            text@ == joined_path(all.take(k as int)),
        decreases path.len() - k,
    {
        let ghost before = text@;
        proof {
            assert(all.take(k + 1).drop_last() =~= all.take(k as int));
            assert(all.take(k + 1).last() == path[k as int]@);
        }
        if k > 0 {
            put(&mut text, "/");
        }
        put(&mut text, path[k].as_str());
        assert(text@ =~= joined_path(all.take(k + 1)));
        k += 1;
    }
    assert(all.take(k as int) =~= all);
    text
}

/// The name of a tier in a summary: its number, with a zero before a number
/// of one digit where there are ten tiers or more.
pub open spec fn tier_label(tier: nat, count: nat) -> Seq<char> {
    if count >= 10 && tier < 10 {
        "0"@ + decimal_text(tier)
    } else {
        decimal_text(tier)
    }
}

/// The tracker addresses of the first `n` tiers, each with the number of its tier.
pub open spec fn flat_urls(tiers: Seq<Seq<Seq<char>>>, n: int) -> Seq<(nat, Seq<char>)>
    decreases n,
{
    if n <= 0 {
        Seq::empty()
    } else {
        flat_urls(tiers, n - 1) + Seq::new(
            tiers[n - 1].len(),
            |j: int| ((n - 1) as nat, tiers[n - 1][j]),
        )
    }
}

/// The lines of the first `n` tracker addresses.
pub open spec fn url_lines(urls: Seq<(nat, Seq<char>)>, count: nat, n: int) -> Seq<char>
    decreases n,
{
    if n <= 0 {
        Seq::empty()
    } else {
        url_lines(urls, count, n - 1) + "    Tier "@ + tier_label(urls[n - 1].0, count) + ": "@
            + urls[n - 1].1 + "\n"@
    }
}

/// The part of a summary that shows the trackers: a heading, a line for each
/// of the first twenty addresses, and a note where there are more.
pub open spec fn announce_section(tiers: Option<Seq<Seq<Seq<char>>>>) -> Seq<char> {
    match tiers {
        None => Seq::empty(),
        Some(tiers) => {
            let flat = flat_urls(tiers, tiers.len() as int);
            let shown = if flat.len() > MAX_DISPLAYED_ANNOUNCES {
                MAX_DISPLAYED_ANNOUNCES as int
            } else {
                flat.len() as int
            };
            "  Announce List:\n"@ + url_lines(flat, tiers.len(), shown) + (if flat.len()
                > MAX_DISPLAYED_ANNOUNCES {
                "    Truncated at 20 announces...\n"@
            } else {
                Seq::empty()
            })
        },
    }
}

/// The line of a file in a summary.
pub open spec fn file_line(f: FileEntry) -> Seq<char> {
    "    - "@ + joined_path(f.path) + " ["@ + decimal_text(f.length as nat) + " bytes ("@
        + size_text(f.length as nat) + ")]\n"@
}

/// The lines of the first `n` files.
pub open spec fn file_lines(files: Seq<FileEntry>, n: int) -> Seq<char>
    decreases n,
{
    if n <= 0 {
        Seq::empty()
    } else {
        file_lines(files, n - 1) + file_line(files[n - 1])
    }
}

/// The part of a summary that shows what the torrent holds: the files of a
/// multi-file torrent, at most a hundred of them, or the length of the one
/// file of a single-file torrent.
pub open spec fn content_section(info: InfoBlock) -> Seq<char> {
    match info.files {
        Some(files) => {
            let shown = if files.len() > MAX_DISPLAYED_FILES {
                MAX_DISPLAYED_FILES as int
            } else {
                files.len() as int
            };
            "  Files (RelPath [Length]):\n"@ + file_lines(files, shown) + (if files.len()
                > MAX_DISPLAYED_FILES {
                "    Truncated at 100 files...\n"@
            } else {
                Seq::empty()
            })
        },
        None => match info.length {
            Some(n) => line("  Length: "@, decimal_text(n as nat)),
            None => Seq::empty(),
        },
    }
}

/// The line of the creation date: the seconds since the Unix epoch, and in
/// brackets the local time where it is known.
pub open spec fn date_line(date: Option<int>, local: Option<Seq<char>>) -> Seq<char> {
    match date {
        None => Seq::empty(),
        Some(d) => match local {
            Some(text) => "  Creation date: "@ + signed_text(d) + " ["@ + text + "]\n"@,
            None => line("  Creation date: "@, signed_text(d)),
        },
    }
}

/// `true` or `false`.
pub open spec fn flag_text(flag: bool) -> Seq<char> {
    if flag {
        "true"@
    } else {
        "false"@
    }
}

/// The summary of a metainfo. `local` is the creation date as local time.
pub open spec fn summary_text(t: Metainfo, local: Option<Seq<char>>) -> Seq<char> {
    match t.info {
        None => "Torrent Info:\n"@ + "  [No torrent info available]\n"@,
        Some(info) => "Torrent Info:\n"@ + optional_line("  Name: "@, info.name)
            + announce_section(t.announce_list) + optional_line("  Comment: "@, t.comment)
            + optional_line("  Created by: "@, t.created_by) + date_line(t.creation_date, local)
            + optional_line("  Encoding: "@, t.encoding) + optional_line(
            "  Hash: "@,
            match t.info_hash {
                Some(digest) => Some(hex_text(digest)),
                None => None,
            },
        ) + "  Piece length: "@ + decimal_text(info.piece_length as nat) + " ["@ + size_text(
            info.piece_length as nat,
        ) + "]\n"@ + line("  Private: "@, flag_text(info.private)) + content_section(info),
    }
}

/// Appends a line for a value that may be there.
fn put_optional_line(out: &mut String, label: &str, value: &Option<String>)
    ensures
        final(out)@ == old(out)@ + optional_line(
            label@,
            match *value {
                Some(v) => Some(v@),
                None => None,
            },
        ),
{
    let ghost before = out@;
    match value {
        Some(v) => {
            put_line(out, label, v.as_str());
        },
        None => {
            assert(out@ =~= before + Seq::<char>::empty());
        },
    }
}

/// Appends the part of a summary that shows the trackers.
fn put_announce_section(out: &mut String, tiers: &Option<Vec<Vec<String>>>)
    ensures
        final(out)@ == old(out)@ + announce_section(
            match *tiers {
                Some(list) => Some(list.deep_view()),
                None => None,
            },
        ),
{
    let ghost before = out@;
    let list: &Vec<Vec<String>> = match tiers {
        Some(list) => list,
        None => {
            assert(out@ =~= before + Seq::<char>::empty());
            return ;
        },
    };
    let ghost all = list.deep_view();
    let mut flat: Vec<(usize, usize)> = Vec::new();
    let mut tier: usize = 0;
    assert(flat_urls(all, 0) =~= Seq::empty());
    while tier < list.len()
        invariant
            tier <= list.len(),
            all == list.deep_view(),
            flat.len() == flat_urls(all, tier as int).len(),
            forall|k: int|
                0 <= k < flat.len() ==> {
                    let at = #[trigger] flat[k];
                    &&& at.0 < list.len()
                    &&& at.1 < list[at.0 as int].len()
                    &&& flat_urls(all, tier as int)[k] == (at.0 as nat, list[at.0 as int][at.1 as int]@)
                },
        decreases list.len() - tier,
    {
        let ghost start = flat@;
        let ghost done = flat_urls(all, tier as int);
        let mut j: usize = 0;
        while j < list[tier].len()
            invariant
                tier < list.len(),
                j <= list[tier as int].len(),
                all == list.deep_view(),
                done == flat_urls(all, tier as int),
                start.len() == done.len(),
                flat.len() == start.len() + j,
                forall|k: int|
                    0 <= k < flat.len() ==> {
                        let at = #[trigger] flat[k];
                        &&& at.0 < list.len()
                        &&& at.1 < list[at.0 as int].len()
                        &&& k < start.len() ==> done[k] == (at.0 as nat, list[at.0 as int][at.1 as int]@)
                        &&& k >= start.len() ==> at == (tier, (k - start.len()) as usize)
                    },
            decreases list[tier as int].len() - j,
        {
            flat.push((tier, j));
            j += 1;
        }
        proof {
            let next = flat_urls(all, tier + 1);
            assert(all[tier as int].len() == list[tier as int].len());
            assert forall|k: int| 0 <= k < flat.len() implies {
                let at = #[trigger] flat[k];
                &&& at.0 < list.len()
                &&& at.1 < list[at.0 as int].len()
                &&& next[k] == (at.0 as nat, list[at.0 as int][at.1 as int]@)
            } by {
                let at = flat[k];
                if k >= start.len() {
                    assert(all[tier as int][k - start.len()] == list[tier as int][k
                        - start.len()]@);
                }
            }
        }
        tier += 1;
    }
    let ghost urls = flat_urls(all, list.len() as int);
    put(out, "  Announce List:\n");
    let count: usize = list.len();
    let shown: usize = if flat.len() > MAX_DISPLAYED_ANNOUNCES {
        MAX_DISPLAYED_ANNOUNCES
    } else {
        flat.len()
    };
    let ghost head = out@;
    let mut k: usize = 0;
    assert(out@ =~= head + url_lines(urls, count as nat, 0));
    while k < shown
        invariant
            k <= shown <= flat.len(),
            count == list.len(),
            all == list.deep_view(),
            urls == flat_urls(all, list.len() as int),
            flat.len() == urls.len(),
            forall|i: int|
                0 <= i < flat.len() ==> {
                    let at = #[trigger] flat[i];
                    &&& at.0 < list.len()
                    &&& at.1 < list[at.0 as int].len()
                    &&& urls[i] == (at.0 as nat, list[at.0 as int][at.1 as int]@)
                },
            out@ == head + url_lines(urls, count as nat, k as int),
        decreases shown - k,
    {
        let at: (usize, usize) = flat[k];
        let ghost so_far = out@;
        put(out, "    Tier ");
        if count >= 10 && at.0 < 10 {
            put(out, "0");
        }
        let number: String = number_text(at.0 as u64);
        put(out, number.as_str());
        put(out, ": ");
        put(out, list[at.0][at.1].as_str());
        put(out, "\n");
        assert(out@ =~= head + url_lines(urls, count as nat, k + 1));
        k += 1;
    }
    if flat.len() > MAX_DISPLAYED_ANNOUNCES {
        put(out, "    Truncated at 20 announces...\n");
    }
    assert(out@ =~= before + announce_section(Some(all)));
}

/// Appends the part of a summary that shows what the torrent holds.
fn put_content_section(out: &mut String, info: &TrInfo)
    ensures
        final(out)@ == old(out)@ + content_section(info@),
{
    let ghost before = out@;
    match &info.files {
        Some(files) => {
            let ghost all = file_entries(files@);
            put(out, "  Files (RelPath [Length]):\n");
            let shown: usize = if files.len() > MAX_DISPLAYED_FILES {
                MAX_DISPLAYED_FILES
            } else {
                files.len()
            };
            let ghost head = out@;
            let mut k: usize = 0;
            assert(out@ =~= head + file_lines(all, 0));
            while k < shown
                invariant
                    k <= shown <= files.len(),
                    all == file_entries(files@),
                    out@ == head + file_lines(all, k as int),
                decreases shown - k,
            {
                let file: &TrFile = &files[k];
                assert(all[k as int] == file@);
                put(out, "    - ");
                let path: String = join_path(&file.path);
                put(out, path.as_str());
                put(out, " [");
                let length: String = number_text(file.length);
                put(out, length.as_str());
                put(out, " bytes (");
                let size: String = human_size(file.length);
                put(out, size.as_str());
                put(out, ")]\n");
                assert(out@ =~= head + file_lines(all, k + 1));
                k += 1;
            }
            if files.len() > MAX_DISPLAYED_FILES {
                put(out, "    Truncated at 100 files...\n");
            }
            assert(out@ =~= before + content_section(info@));
        },
        None => match info.length {
            Some(n) => {
                let length: String = number_text(n);
                put_line(out, "  Length: ", length.as_str());
            },
            None => {
                assert(out@ =~= before + Seq::<char>::empty());
            },
        },
    }
}

/// `chrono::Local`, `timestamp_opt` and `format`: the local time, as
/// `year-month-day hour:minute:second`, of the given seconds since the Unix
/// epoch, or nothing where they are no single time. The result depends on
/// the time zone of the machine, so nothing is said of it.
#[verifier::external_body]
fn local_time_text(seconds: i64) -> (text: Option<String>) {
    match chrono::TimeZone::timestamp_opt(&chrono::Local, seconds, 0).single() {
        Some(time) => Some(time.format("%Y-%m-%d %H:%M:%S").to_string()),
        None => None,
    }
}

impl Torrent {
    /// The summary of the metainfo, with the creation date as local time
    /// given by `local`.
    pub fn summary_with(&self, local: &Option<String>) -> (text: String)
        ensures
            text@ == summary_text(
                self@,
                match *local {
                    Some(t) => Some(t@),
                    None => None,
                },
            ),
    {
        let mut out: String = "Torrent Info:\n".to_owned();
        let info: &TrInfo = match &self.info {
            Some(info) => info,
            None => {
                put(&mut out, "  [No torrent info available]\n");
                return out;
            },
        };
        put_optional_line(&mut out, "  Name: ", &info.name);
        put_announce_section(&mut out, &self.announce_list);
        put_optional_line(&mut out, "  Comment: ", &self.comment);
        put_optional_line(&mut out, "  Created by: ", &self.created_by);
        let ghost before_date = out@;
        match self.creation_date {
            Some(date) => {
                let seconds: String = signed_number_text(date);
                match local {
                    Some(time) => {
                        put(&mut out, "  Creation date: ");
                        put(&mut out, seconds.as_str());
                        put(&mut out, " [");
                        put(&mut out, time.as_str());
                        put(&mut out, "]\n");
                    },
                    None => {
                        put_line(&mut out, "  Creation date: ", seconds.as_str());
                    },
                }
            },
            None => {},
        }
        assert(out@ =~= before_date + date_line(
            self@.creation_date,
            match *local {
                Some(t) => Some(t@),
                None => None,
            },
        ));
        put_optional_line(&mut out, "  Encoding: ", &self.encoding);
        let hash: Option<String> = match &self.info_hash {
            Some(digest) => Some(hex_encode(digest.as_slice())),
            None => None,
        };
        put_optional_line(&mut out, "  Hash: ", &hash);
        let ghost before_length = out@;
        put(&mut out, "  Piece length: ");
        let length: String = number_text(info.piece_length);
        put(&mut out, length.as_str());
        put(&mut out, " [");
        let size: String = human_size(info.piece_length);
        put(&mut out, size.as_str());
        put(&mut out, "]\n");
        assert(out@ =~= before_length + ("  Piece length: "@ + decimal_text(
            info.piece_length as nat,
        ) + " ["@ + size_text(info.piece_length as nat) + "]\n"@));
        put_line(
            &mut out,
            "  Private: ",
            if info.private {
                "true"
            } else {
                "false"
            },
        );
        put_content_section(&mut out, info);
        assert(out@ =~= summary_text(
            self@,
            match *local {
                Some(t) => Some(t@),
                None => None,
            },
        ));
        out
    }

    /// The summary of the metainfo, with the creation date as the local time
    /// of this machine where that can be told.
    pub fn summary(&self) -> (text: String)
        ensures
            exists|local: Option<Seq<char>>| text@ == summary_text(self@, local),
    {
        let local: Option<String> = match self.creation_date {
            Some(date) => local_time_text(date),
            None => None,
        };
        let text: String = self.summary_with(&local);
        assert(text@ == summary_text(
            self@,
            match local {
                Some(t) => Some(t@),
                None => None,
            },
        ));
        text
    }
}

/// A line of counts in the result of a verification.
pub open spec fn count_line(label: Seq<char>, total: nat, failed: nat) -> Seq<char> {
    let passed = if failed <= total {
        (total - failed) as nat
    } else {
        0
    };
    label + padded_text(total, COUNT_WIDTH as int) + " total = "@ + padded_text(
        passed,
        COUNT_WIDTH as int,
    ) + " passed + "@ + padded_text(failed, COUNT_WIDTH as int) + " failed\n"@
}

/// The line of a failed file in the result of a verification. A file without
/// a path is the one file of a single-file torrent, and goes by the name of
/// the torrent.
pub open spec fn failed_file_line(f: FileEntry, name: Seq<char>, known: bool) -> Seq<char> {
    "- "@ + (if f.path.len() == 0 {
        name
    } else {
        joined_path(f.path)
    }) + " ("@ + decimal_text(f.length as nat) + " ["@ + size_text(f.length as nat) + "])"@ + (
    if known {
        " [missing or size mismatch]"@
    } else {
        Seq::empty()
    }) + "\n"@
}

/// The lines of the failed files among the first `n`, in the order of the
/// files. A failed file without a path needs the name of the torrent.
pub open spec fn failed_file_lines(
    files: Seq<FileEntry>,
    name: Option<Seq<char>>,
    failed: Set<usize>,
    known: Set<usize>,
    n: int,
) -> Result<Seq<char>, ErrorView>
    decreases n,
{
    if n <= 0 {
        Ok(Seq::empty())
    } else {
        match failed_file_lines(files, name, failed, known, n - 1) {
            Err(e) => Err(e),
            Ok(before) => if !failed.contains((n - 1) as usize) {
                Ok(before)
            } else if files[n - 1].path.len() == 0 && name is None {
                Err(ErrorView::MissingField("name"@))
            } else {
                Ok(
                    before + failed_file_line(
                        files[n - 1],
                        match name {
                            Some(text) => text,
                            None => Seq::empty(),
                        },
                        known.contains((n - 1) as usize),
                    ),
                )
            },
        }
    }
}

/// The result of a verification as it is shown: the counts of pieces and of
/// files, and the failed files.
pub open spec fn report_text(
    info: InfoBlock,
    files: Seq<FileEntry>,
    failed_pieces: Set<usize>,
    failed_files: Set<usize>,
    known: Set<usize>,
) -> Result<Seq<char>, ErrorView> {
    let head = "Verification Result:\n"@ + count_line(
        "Pieces: "@,
        info.pieces.len() / (SHA1_HASH_SIZE as nat),
        failed_pieces.len(),
    ) + count_line("Files:  "@, files.len(), failed_files.len());
    if failed_files.len() == 0 {
        Ok(head + "All files are OK.\n"@)
    } else {
        match failed_file_lines(files, info.name, failed_files, known, files.len() as int) {
            Ok(lines) => Ok(head + "\nSome files failed verification:\n"@ + lines),
            Err(e) => Err(e),
        }
    }
}

/// Appends a line of counts.
fn put_count_line(out: &mut String, label: &str, total: usize, failed: usize)
    ensures
        final(out)@ == old(out)@ + count_line(label@, total as nat, failed as nat),
{
    let ghost before = out@;
    let passed: usize = if failed <= total {
        total - failed
    } else {
        0
    };
    put(out, label);
    let text: String = padded_number(total as u64, COUNT_WIDTH);
    put(out, text.as_str());
    put(out, " total = ");
    let text: String = padded_number(passed as u64, COUNT_WIDTH);
    put(out, text.as_str());
    put(out, " passed + ");
    let text: String = padded_number(failed as u64, COUNT_WIDTH);
    put(out, text.as_str());
    put(out, " failed\n");
    assert(out@ =~= before + count_line(label@, total as nat, failed as nat));
}

/// Appends the line of a failed file, which is shown as `shown`: by its path,
/// or by the name of the torrent where it has no path.
fn put_failed_file_line(out: &mut String, file: &TrFile, shown: &str, known: bool)
    ensures
        final(out)@ == old(out)@ + "- "@ + shown@ + " ("@ + decimal_text(file.length as nat)
            + " ["@ + size_text(file.length as nat) + "])"@ + (if known {
            " [missing or size mismatch]"@
        } else {
            Seq::empty()
        }) + "\n"@,
{
    let ghost before = out@;
    put(out, "- ");
    put(out, shown);
    put(out, " (");
    let length: String = number_text(file.length);
    put(out, length.as_str());
    put(out, " [");
    let size: String = human_size(file.length);
    put(out, size.as_str());
    put(out, "])");
    let ghost middle = out@;
    if known {
        put(out, " [missing or size mismatch]");
    } else {
        assert(out@ =~= middle + Seq::<char>::empty());
    }
    put(out, "\n");
}

/// An error among the first `k` files is the error of the first `n`.
proof fn lemma_failed_lines_error_stays(
    files: Seq<FileEntry>,
    name: Option<Seq<char>>,
    failed: Set<usize>,
    known: Set<usize>,
    k: int,
    n: int,
)
    requires
        0 <= k <= n,
        failed_file_lines(files, name, failed, known, k) is Err,
    ensures
        failed_file_lines(files, name, failed, known, n) == failed_file_lines(
            files,
            name,
            failed,
            known,
            k,
        ),
    decreases n - k,
{
    if k < n {
        lemma_failed_lines_error_stays(files, name, failed, known, k, n - 1);
    }
}

impl TrInfo {
    /// The result of a verification as it is shown. `tr_files` is the file
    /// list of the torrent.
    pub fn verify_report(&self, tr_files: &[TrFile], failed: &FailedInfo) -> (r: TrResult<String>)
        ensures
            match report_text(
                self@,
                file_entries(tr_files@),
                failed.pieces@,
                failed.files@,
                failed.files_known@,
            ) {
                Ok(text) => r is Ok && r->Ok_0@ == text,
                Err(e) => r is Err && r->Err_0@ == e,
            },
    {
        broadcast use vstd::std_specs::hash::group_hash_axioms;

        let ghost files = file_entries(tr_files@);
        let ghost name = self@.name;
        let mut out: String = "Verification Result:\n".to_owned();
        put_count_line(
            &mut out,
            "Pieces: ",
            self.pieces.len() / SHA1_HASH_SIZE,
            failed.pieces.len(),
        );
        put_count_line(&mut out, "Files:  ", tr_files.len(), failed.files.len());
        if failed.files.len() == 0 {
            put(&mut out, "All files are OK.\n");
            return Ok(out);
        }
        put(&mut out, "\nSome files failed verification:\n");
        let ghost head = out@;
        let mut i: usize = 0;
        assert(out@ =~= head + Seq::<char>::empty());
        while i < tr_files.len()
            invariant
                i <= tr_files.len(),
                files == file_entries(tr_files@),
                name == self@.name,
                failed.files@.len() != 0,
                failed_file_lines(files, name, failed.files@, failed.files_known@, i as int) is Ok,
                out@ == head + failed_file_lines(
                    files,
                    name,
                    failed.files@,
                    failed.files_known@,
                    i as int,
                )->Ok_0,
            decreases tr_files.len() - i,
        {
            let ghost so_far = failed_file_lines(
                files,
                name,
                failed.files@,
                failed.files_known@,
                i as int,
            )->Ok_0;
            if failed.files.contains(&i) {
                let file: &TrFile = &tr_files[i];
                assert(files[i as int] == file@);
                let known: bool = failed.files_known.contains(&i);
                assert(file@.path.len() == file.path.len());
                let path: String = if file.path.len() == 0 {
                    match &self.name {
                        Some(text) => text.clone(),
                        None => {
                            proof {
                                lemma_failed_lines_error_stays(
                                    files,
                                    name,
                                    failed.files@,
                                    failed.files_known@,
                                    i + 1,
                                    tr_files.len() as int,
                                );
                            }
                            return Err(TrError::MissingField("name".to_owned()));
                        },
                    }
                } else {
                    join_path(&file.path)
                };
                put_failed_file_line(&mut out, file, path.as_str(), known);
                assert(out@ =~= head + (so_far + failed_file_line(
                    files[i as int],
                    match name {
                        Some(text) => text,
                        None => Seq::empty(),
                    },
                    known,
                )));
            }
            i += 1;
        }
        Ok(out)
    }
}

} // verus!
