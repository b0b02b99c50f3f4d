//! The rules of the command line: what the arguments ask for.

use vstd::prelude::*;
use vstd::slice::slice_subrange;
use vstd::string::StringSliceAdditionalSpecFns;
use vstd::utf8::encode_utf8;
use crate::bencode::bytes_equal;

verus! {

/// What the program is asked to do. The numbers are the places of the
/// arguments.
#[derive(Debug, Clone, Copy, PartialEq, Eq, Structural)]
pub enum Mode {
    /// Make a metainfo file for the target.
    Create { target: usize },
    /// Show a metainfo file.
    Inspect { torrent: usize },
    /// Hold a target against a metainfo file.
    Verify { torrent: usize, target: usize },
}

/// Why the arguments ask for nothing.
#[derive(Debug, Clone, Copy, PartialEq, Eq, Structural)]
pub enum UsageError {
    /// Of two arguments none names a metainfo file.
    NoTorrent,
    /// There are no arguments, or more than two.
    WrongCount,
}

/// `bytes` ends with `suffix`.
pub open spec fn ends_with(bytes: Seq<u8>, suffix: Seq<u8>) -> bool {
    bytes.len() >= suffix.len() && bytes.subrange(bytes.len() - suffix.len(), bytes.len() as int)
        == suffix
}

/// The path names a metainfo file: it ends with `.torrent`.
pub open spec fn is_torrent_path(path: Seq<char>) -> bool {
    ends_with(encode_utf8(path), ".torrent".spec_bytes())
}

/// What the arguments ask for: one argument shows the metainfo file that it
/// names, or makes one for the target that it names; two arguments, of which
/// the first that names a metainfo file is taken for it, verify the other.
pub open spec fn mode_of(inputs: Seq<Seq<char>>) -> Result<Mode, UsageError> {
    if inputs.len() == 1 {
        if is_torrent_path(inputs[0]) {
            Ok(Mode::Inspect { torrent: 0 })
        } else {
            Ok(Mode::Create { target: 0 })
        }
    } else if inputs.len() == 2 {
        if is_torrent_path(inputs[0]) {
            Ok(Mode::Verify { torrent: 0, target: 1 })
        } else if is_torrent_path(inputs[1]) {
            Ok(Mode::Verify { torrent: 1, target: 0 })
        } else {
            Err(UsageError::NoTorrent)
        }
    } else {
        Err(UsageError::WrongCount)
    }
}

/// Tells whether the path names a metainfo file.
pub fn has_torrent_suffix(path: &str) -> (r: bool)
    ensures
        r == is_torrent_path(path@),
{
    let bytes: &[u8] = path.as_bytes();
    let suffix: &[u8] = ".torrent".as_bytes();
    if bytes.len() < suffix.len() {
        return false;
    }
    bytes_equal(slice_subrange(bytes, bytes.len() - suffix.len(), bytes.len()), suffix)
}

/// Tells what the arguments ask for.
pub fn select_mode(inputs: &[String]) -> (r: Result<Mode, UsageError>)
    ensures
        r == mode_of(inputs.deep_view()),
{
    if inputs.len() == 1 {
        assert(inputs.deep_view()[0] == inputs[0]@);
        if has_torrent_suffix(inputs[0].as_str()) {
            Ok(Mode::Inspect { torrent: 0 })
        } else {
            Ok(Mode::Create { target: 0 })
        }
    } else if inputs.len() == 2 {
        assert(inputs.deep_view()[0] == inputs[0]@);
        assert(inputs.deep_view()[1] == inputs[1]@);
        if has_torrent_suffix(inputs[0].as_str()) {
            Ok(Mode::Verify { torrent: 0, target: 1 })
        } else if has_torrent_suffix(inputs[1].as_str()) {
            Ok(Mode::Verify { torrent: 1, target: 0 })
        } else {
            Err(UsageError::NoTorrent)
        }
    } else {
        Err(UsageError::WrongCount)
    }
}

/// The trackers that are written: those of the arguments where there are
/// any, otherwise those of the configuration; an empty address among the
/// arguments clears the list.
pub open spec fn trackers_of(announce: Seq<Seq<char>>, configured: Seq<Seq<char>>) -> Seq<
    Seq<char>,
> {
    if announce.len() == 0 {
        configured
    } else if exists|k: int| 0 <= k < announce.len() && (#[trigger] announce[k]).len() == 0 {
        Seq::empty()
    } else {
        announce
    }
}

/// The trackers that are written.
pub fn tracker_list(announce: Vec<String>, configured: Vec<String>) -> (r: Vec<String>)
    ensures
        r.deep_view() == trackers_of(announce.deep_view(), configured.deep_view()),
{
    if announce.len() == 0 {
        return configured;
    }
    let mut k: usize = 0;
    while k < announce.len()
        invariant
            k <= announce.len(),
            forall|j: int| 0 <= j < k ==> (#[trigger] announce.deep_view()[j]).len() != 0,
        decreases announce.len() - k,
    {
        assert(announce.deep_view()[k as int] == announce[k as int]@);
        if announce[k].as_str().unicode_len() == 0 {
            let none: Vec<String> = Vec::new();
            assert(none.deep_view() =~= Seq::<Seq<char>>::empty());
            return none;
        }
        k += 1;
    }
    announce
}

/// One tier for each tracker, as the metainfo of a new torrent has them.
pub fn tiers_of(trackers: &Vec<String>) -> (r: Vec<Vec<String>>)
    ensures
        r.deep_view() == Seq::new(trackers.len() as nat, |k: int| seq![trackers[k]@]),
{
    let mut tiers: Vec<Vec<String>> = Vec::new();
    let mut k: usize = 0;
    while k < trackers.len()
        invariant
            k <= trackers.len(),
            tiers.len() == k,
            forall|j: int| 0 <= j < k ==> (#[trigger] tiers[j]).deep_view() == seq![trackers[j]@],
        decreases trackers.len() - k,
    {
        let mut tier: Vec<String> = Vec::new();
        tier.push(trackers[k].clone());
        assert(tier.deep_view() =~= seq![trackers[k as int]@]);
        tiers.push(tier);
        k += 1;
    }
    assert(tiers.deep_view() =~= Seq::new(trackers.len() as nat, |k: int| seq![trackers[k]@]));
    tiers
}

} // verus!
