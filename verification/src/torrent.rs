//! The metainfo file as a whole: the top-level dictionary around `info`.

use vstd::prelude::*;
use vstd::slice::slice_subrange;
use vstd::string::StringSliceAdditionalSpecFns;
use crate::bencode::{
    bencode_i128, bencode_string, bencode_string_list, decode_dict, dict_find, dict_get, encode,
    encode_entries, encode_items, items_view, lemma_encode_items_push,
    lemma_view_parts, parse_value, text_list_value, text_value, value_span, Bencode,
    SpannedDict, Value, DICT_START, END, LIST_START,
};
use crate::hashing::{sha1, sha1_digest};
use crate::tr_info::{
    info_of_value, info_value, optional_text, put_entry, read_optional_text,
    InfoBlock, TrInfo,
};
use crate::utils::{parse_message, read_text, text_of, ErrorView, TrError, TrResult};

verus! {

/// How the files of a directory are ordered before they are hashed.
#[derive(Debug, Clone, Copy, PartialEq, Eq)]
pub enum WalkMode {
    /// The order in which the directory walk gave them.
    Default,
    /// By path, segment by segment, each segment by its bytes.
    Alphabetical,
    /// By path, segment by segment, in natural order without regard to case;
    /// a path that is the start of another comes first.
    BreadthFirstAlphabetical,
    /// As the previous, but at each depth a path that ends there comes before
    /// one that goes deeper.
    BreadthFirstLevel,
    /// By length, the longest first.
    FileSize,
}

impl WalkMode {
    /// The order that a number from 0 to 4 asks for.
    pub fn from_number(n: u8) -> (r: Option<WalkMode>)
        ensures
            r == match n {
                0 => Some(WalkMode::Default),
                1 => Some(WalkMode::Alphabetical),
                2 => Some(WalkMode::BreadthFirstAlphabetical),
                3 => Some(WalkMode::BreadthFirstLevel),
                4 => Some(WalkMode::FileSize),
                _ => None,
            },
    {
        match n {
            0 => Some(WalkMode::Default),
            1 => Some(WalkMode::Alphabetical),
            2 => Some(WalkMode::BreadthFirstAlphabetical),
            3 => Some(WalkMode::BreadthFirstLevel),
            4 => Some(WalkMode::FileSize),
            _ => None,
        }
    }
}

/// A metainfo file: the `info` dictionary and what stands around it.
#[derive(Debug, Clone, PartialEq, Eq)]
pub struct Torrent {
    pub announce: Option<String>,
    pub announce_list: Option<Vec<Vec<String>>>,
    pub comment: Option<String>,
    pub created_by: Option<String>,
    pub creation_date: Option<i64>,
    pub encoding: Option<String>,
    /// The text under the key `hash`, which some programs write; it is kept
    /// as it was read.
    pub hash: Option<String>,
    pub info: Option<TrInfo>,
    /// The SHA-1 digest of the bytes that encode `info`.
    pub info_hash: Option<Vec<u8>>,
}

/// A metainfo file as mathematics sees it.
pub struct Metainfo {
    pub announce: Option<Seq<char>>,
    pub announce_list: Option<Seq<Seq<Seq<char>>>>,
    pub comment: Option<Seq<char>>,
    pub created_by: Option<Seq<char>>,
    pub creation_date: Option<int>,
    pub encoding: Option<Seq<char>>,
    pub hash: Option<Seq<char>>,
    pub info: Option<InfoBlock>,
    pub info_hash: Option<Seq<u8>>,
}

/// A text that may be there, as mathematics sees it.
pub open spec fn text_view(text: Option<String>) -> Option<Seq<char>> {
    match text {
        Some(t) => Some(t@),
        None => None,
    }
}

impl View for Torrent {
    type V = Metainfo;

    open spec fn view(&self) -> Metainfo {
        Metainfo {
            announce: text_view(self.announce),
            announce_list: match self.announce_list {
                Some(tiers) => Some(tiers.deep_view()),
                None => None,
            },
            comment: text_view(self.comment),
            created_by: text_view(self.created_by),
            creation_date: match self.creation_date {
                Some(date) => Some(date as int),
                None => None,
            },
            encoding: text_view(self.encoding),
            hash: text_view(self.hash),
            info: match self.info {
                Some(info) => Some(info@),
                None => None,
            },
            info_hash: match self.info_hash {
                Some(digest) => Some(digest@),
                None => None,
            },
        }
    }
}

/// The list of lists that stands for the tiers of trackers.
pub open spec fn tiers_value(tiers: Seq<Seq<Seq<char>>>) -> Value {
    Value::List(Seq::new(tiers.len(), |k: int| text_list_value(tiers[k])))
}

/// The entry of a text that may be there.
pub open spec fn text_entry(key: Seq<u8>, text: Option<Seq<char>>) -> Seq<(Seq<u8>, Value)> {
    match text {
        Some(t) => seq![(key, text_value(t))],
        None => seq![],
    }
}

/// The entries of the top-level dictionary, in the order in which they are
/// written: `announce`, `announce-list`, `comment`, `created by`,
/// `creation date`, `encoding`, `info`, and last `hash`. Each is written where
/// it is present; `announce-list` only where it holds a tier.
pub open spec fn torrent_entries(t: Metainfo) -> Seq<(Seq<u8>, Value)> {
    text_entry("announce".spec_bytes(), t.announce) + tiers_entry(t.announce_list) + text_entry(
        "comment".spec_bytes(),
        t.comment,
    ) + text_entry("created by".spec_bytes(), t.created_by) + date_entry(t.creation_date)
        + text_entry("encoding".spec_bytes(), t.encoding) + info_entry(t.info) + text_entry(
        "hash".spec_bytes(),
        t.hash,
    )
}

/// The entry of the tiers, where there is a tier.
pub open spec fn tiers_entry(tiers: Option<Seq<Seq<Seq<char>>>>) -> Seq<(Seq<u8>, Value)> {
    match tiers {
        Some(tiers) => if tiers.len() > 0 {
            seq![("announce-list".spec_bytes(), tiers_value(tiers))]
        } else {
            seq![]
        },
        None => seq![],
    }
}

/// The entry of the creation date, where there is one.
pub open spec fn date_entry(date: Option<int>) -> Seq<(Seq<u8>, Value)> {
    match date {
        Some(date) => seq![("creation date".spec_bytes(), Value::Int(date))],
        None => seq![],
    }
}

/// The entry of `info`, where there is one.
pub open spec fn info_entry(info: Option<InfoBlock>) -> Seq<(Seq<u8>, Value)> {
    match info {
        Some(info) => seq![("info".spec_bytes(), info_value(info))],
        None => seq![],
    }
}

/// The dictionary that stands for a metainfo file.
pub open spec fn torrent_value(t: Metainfo) -> Value {
    Value::Dict(torrent_entries(t))
}

/// The tracker addresses that a list of values writes: each value a byte
/// string of UTF-8 text. The first value that is not so decides the error.
pub open spec fn urls_of(items: Seq<Value>) -> Result<Seq<Seq<char>>, ErrorView>
    decreases items.len(),
{
    if items.len() == 0 {
        Ok(Seq::empty())
    } else {
        match urls_of(items.drop_last()) {
            Err(e) => Err(e),
            Ok(before) => match items.last() {
                Value::Bytes(b) => match text_of(b) {
                    Ok(url) => Ok(before.push(url)),
                    Err(e) => Err(e),
                },
                _ => Err(ErrorView::InvalidTorrent("Announce URL is not a string"@)),
            },
        }
    }
}

/// The tiers that a list of values writes: each value a list of tracker
/// addresses. The first value that is not so decides the error.
pub open spec fn tiers_of(items: Seq<Value>) -> Result<Seq<Seq<Seq<char>>>, ErrorView>
    decreases items.len(),
{
    if items.len() == 0 {
        Ok(Seq::empty())
    } else {
        match tiers_of(items.drop_last()) {
            Err(e) => Err(e),
            Ok(before) => match items.last() {
                Value::List(urls) => match urls_of(urls) {
                    Ok(tier) => Ok(before.push(tier)),
                    Err(e) => Err(e),
                },
                _ => Err(ErrorView::InvalidTorrent("Announce tier is not a list"@)),
            },
        }
    }
}

/// `announce-list`: the tiers, where the key holds a list.
pub open spec fn tiers_field(m: Seq<(Seq<u8>, Value)>) -> Result<
    Option<Seq<Seq<Seq<char>>>>,
    ErrorView,
> {
    match dict_get(m, "announce-list".spec_bytes()) {
        Some(Value::List(items)) => match tiers_of(items) {
            Ok(tiers) => Ok(Some(tiers)),
            Err(e) => Err(e),
        },
        _ => Ok(None),
    }
}

/// `creation date`: seconds since the Unix epoch, where the key holds an
/// integer that fits in 64 bits with sign.
pub open spec fn creation_date_field(m: Seq<(Seq<u8>, Value)>) -> Option<int> {
    match dict_get(m, "creation date".spec_bytes()) {
        Some(Value::Int(n)) => if i64::MIN <= n <= i64::MAX {
            Some(n)
        } else {
            None
        },
        _ => None,
    }
}

/// `info`: the key must be there and hold a dictionary that writes an `info` block.
pub open spec fn info_field(m: Seq<(Seq<u8>, Value)>) -> Result<InfoBlock, ErrorView> {
    match dict_get(m, "info".spec_bytes()) {
        Some(v) => info_of_value(v),
        None => Err(ErrorView::InvalidTorrent("missing info dict"@)),
    }
}

/// The metainfo that the entries of the top-level dictionary write. The
/// fields are read in the order `info`, `announce`, `announce-list`,
/// `comment`, `created by`, `encoding`, `hash`, and the first that fails
/// decides the error.
pub open spec fn torrent_of_entries(m: Seq<(Seq<u8>, Value)>, info_hash: Option<Seq<u8>>) -> Result<
    Metainfo,
    ErrorView,
> {
    let info = info_field(m);
    let announce = optional_text(dict_get(m, "announce".spec_bytes()));
    let tiers = tiers_field(m);
    let comment = optional_text(dict_get(m, "comment".spec_bytes()));
    let created_by = optional_text(dict_get(m, "created by".spec_bytes()));
    let encoding = optional_text(dict_get(m, "encoding".spec_bytes()));
    let hash = optional_text(dict_get(m, "hash".spec_bytes()));
    if info is Err {
        Err(info->Err_0)
    } else if announce is Err {
        Err(announce->Err_0)
    } else if tiers is Err {
        Err(tiers->Err_0)
    } else if comment is Err {
        Err(comment->Err_0)
    } else if created_by is Err {
        Err(created_by->Err_0)
    } else if encoding is Err {
        Err(encoding->Err_0)
    } else if hash is Err {
        Err(hash->Err_0)
    } else {
        Ok(
            Metainfo {
                announce: announce->Ok_0,
                announce_list: tiers->Ok_0,
                comment: comment->Ok_0,
                created_by: created_by->Ok_0,
                creation_date: creation_date_field(m),
                encoding: encoding->Ok_0,
                hash: hash->Ok_0,
                info: Some(info->Ok_0),
                info_hash,
            },
        )
    }
}

/// The SHA-1 digest of the very bytes of `data` that write the value under `info`.
pub open spec fn info_digest(data: Seq<u8>) -> Option<Seq<u8>> {
    match value_span(data, "info".spec_bytes()) {
        Some((from, to)) => Some(sha1_digest(data.subrange(from, to))),
        None => None,
    }
}

/// The metainfo that the bytes of a metainfo file write: the bytes must start
/// with a bencoded dictionary that writes a metainfo.
pub open spec fn decode_torrent(data: Seq<u8>) -> Result<Metainfo, ErrorView> {
    match parse_value(data, 0) {
        Err(e) => Err(ErrorView::ParseError(parse_message(e))),
        Ok((Value::Dict(m), _)) => torrent_of_entries(m, info_digest(data)),
        Ok(_) => Err(ErrorView::InvalidTorrent("torrent root is not a dictionary"@)),
    }
}

/// The first address of the first tier, if there is one.
pub open spec fn first_url(tiers: Option<Seq<Seq<Seq<char>>>>) -> Option<Seq<char>> {
    match tiers {
        Some(tiers) => if tiers.len() > 0 && tiers[0].len() > 0 {
            Some(tiers[0][0])
        } else {
            None
        },
        None => None,
    }
}

/// An error among the first `k` addresses is the error of the whole list.
proof fn lemma_urls_error_stays(items: Seq<Value>, k: int)
    requires
        0 <= k <= items.len(),
        urls_of(items.take(k)) is Err,
    ensures
        urls_of(items) == urls_of(items.take(k)),
    decreases items.len() - k,
{
    if k < items.len() {
        assert(items.take(k + 1).drop_last() == items.take(k));
        lemma_urls_error_stays(items, k + 1);
    } else {
        assert(items.take(k) == items);
    }
}

/// An error among the first `k` tiers is the error of the whole list.
proof fn lemma_tiers_error_stays(items: Seq<Value>, k: int)
    requires
        0 <= k <= items.len(),
        tiers_of(items.take(k)) is Err,
    ensures
        tiers_of(items) == tiers_of(items.take(k)),
    decreases items.len() - k,
{
    if k < items.len() {
        assert(items.take(k + 1).drop_last() == items.take(k));
        lemma_tiers_error_stays(items, k + 1);
    } else {
        assert(items.take(k) == items);
    }
}

/// Reads the tracker addresses that a list of values writes.
fn read_urls(items: &Vec<Bencode>) -> (r: TrResult<Vec<String>>)
    ensures
        match urls_of(items_view(items@)) {
            Ok(urls) => r is Ok && r->Ok_0.deep_view() == urls,
            Err(e) => r is Err && r->Err_0@ == e,
        },
{
    let ghost all = items_view(items@);
    let mut urls: Vec<String> = Vec::new();
    let mut k: usize = 0;
    assert(all.take(0).len() == 0);
    assert(urls.deep_view() =~= Seq::<Seq<char>>::empty());
    while k < items.len()
        invariant
            k <= items.len(),
            all == items_view(items@),
            urls_of(all.take(k as int)) == Ok::<Seq<Seq<char>>, ErrorView>(urls.deep_view()),
        decreases items.len() - k,
    {
        proof {
            assert(all.take(k + 1).drop_last() == all.take(k as int));
            assert(all.take(k + 1).last() == items[k as int]@);
            if urls_of(all.take(k + 1)) is Err {
                lemma_urls_error_stays(all, k + 1);
            }
        }
        match &items[k] {
            Bencode::Bytes(b) => match read_text(b) {
                Ok(url) => {
                    let ghost before = urls.deep_view();
                    urls.push(url);
                    assert(urls.deep_view() =~= before.push(url@));
                },
                Err(e) => {
                    return Err(e);
                },
            },
            _ => {
                return Err(TrError::invalid("Announce URL is not a string"));
            },
        }
        k += 1;
    }
    assert(all.take(k as int) == all);
    Ok(urls)
}

/// Reads the tiers that a list of values writes.
fn read_tiers(items: &Vec<Bencode>) -> (r: TrResult<Vec<Vec<String>>>)
    ensures
        match tiers_of(items_view(items@)) {
            Ok(tiers) => r is Ok && r->Ok_0.deep_view() == tiers,
            Err(e) => r is Err && r->Err_0@ == e,
        },
{
    let ghost all = items_view(items@);
    let mut tiers: Vec<Vec<String>> = Vec::new();
    let mut k: usize = 0;
    assert(all.take(0).len() == 0);
    assert(tiers.deep_view() =~= Seq::<Seq<Seq<char>>>::empty());
    while k < items.len()
        invariant
            k <= items.len(),
            all == items_view(items@),
            tiers_of(all.take(k as int)) == Ok::<Seq<Seq<Seq<char>>>, ErrorView>(
                tiers.deep_view(),
            ),
        decreases items.len() - k,
    {
        proof {
            assert(all.take(k + 1).drop_last() == all.take(k as int));
            assert(all.take(k + 1).last() == items[k as int]@);
            if tiers_of(all.take(k + 1)) is Err {
                lemma_tiers_error_stays(all, k + 1);
            }
            lemma_view_parts(items[k as int]);
        }
        match &items[k] {
            Bencode::List(urls) => match read_urls(urls) {
                Ok(tier) => {
                    let ghost before = tiers.deep_view();
                    tiers.push(tier);
                    assert(tiers.deep_view() =~= before.push(tier.deep_view()));
                },
                Err(e) => {
                    return Err(e);
                },
            },
            _ => {
                return Err(TrError::invalid("Announce tier is not a list"));
            },
        }
        k += 1;
    }
    assert(all.take(k as int) == all);
    Ok(tiers)
}

/// Encodes the tiers of trackers as a list of lists of byte strings.
fn bencode_tiers(tiers: &Vec<Vec<String>>) -> (out: Vec<u8>)
    ensures
        out@ == encode(tiers_value(tiers.deep_view())),
{
    let mut out: Vec<u8> = Vec::new();
    out.push(LIST_START);
    let ghost items = tiers_value(tiers.deep_view())->List_0;
    let mut k: usize = 0;
    while k < tiers.len()
        invariant
            k <= tiers.len(),
            items == tiers_value(tiers.deep_view())->List_0,
            out@ == seq![LIST_START] + encode_items(items.take(k as int)),
        decreases tiers.len() - k,
    {
        let tier: &[String] = tiers[k].as_slice();
        proof {
            assert(tier.deep_view() =~= tiers.deep_view()[k as int]);
            assert(items.take(k + 1) == items.take(k as int).push(
                text_list_value(tier.deep_view()),
            ));
            lemma_encode_items_push(items.take(k as int), text_list_value(tier.deep_view()));
        }
        let mut piece: Vec<u8> = bencode_string_list(tier);
        out.append(&mut piece);
        k += 1;
    }
    assert(items.take(k as int) == items);
    out.push(END);
    out
}

/// Appends the entry of a text that may be there to a dictionary that is being written.
fn put_text(
    out: &mut Vec<u8>,
    key: &str,
    text: &Option<String>,
    Ghost(entries): Ghost<Seq<(Seq<u8>, Value)>>,
)
    requires
        old(out)@ == seq![DICT_START] + encode_entries(entries),
    ensures
        final(out)@ == seq![DICT_START] + encode_entries(
            entries + text_entry(key.spec_bytes(), text_view(*text)),
        ),
{
    match text {
        Some(t) => {
            let value: Vec<u8> = bencode_string(t.as_str());
            put_entry(out, key, value, Ghost(entries), Ghost(text_value(t@)));
            assert(entries.push((key.spec_bytes(), text_value(t@))) =~= entries + text_entry(
                key.spec_bytes(),
                text_view(*text),
            ));
        },
        None => {
            assert(entries =~= entries + text_entry(key.spec_bytes(), text_view(*text)));
        },
    }
}

/// Appends the entry of the tiers, where there is a tier.
fn put_tiers(
    out: &mut Vec<u8>,
    tiers: &Option<Vec<Vec<String>>>,
    Ghost(entries): Ghost<Seq<(Seq<u8>, Value)>>,
)
    requires
        old(out)@ == seq![DICT_START] + encode_entries(entries),
    ensures
        final(out)@ == seq![DICT_START] + encode_entries(
            entries + tiers_entry(
                match *tiers {
                    Some(list) => Some(list.deep_view()),
                    None => None,
                },
            ),
        ),
{
    let ghost added = tiers_entry(
        match tiers {
            Some(list) => Some(list.deep_view()),
            None => None,
        },
    );
    match tiers {
        Some(list) => {
            if list.len() > 0 {
                let value: Vec<u8> = bencode_tiers(list);
                let ghost v = tiers_value(list.deep_view());
                put_entry(out, "announce-list", value, Ghost(entries), Ghost(v));
                assert(entries.push(("announce-list".spec_bytes(), v)) =~= entries + added);
            } else {
                assert(entries =~= entries + added);
            }
        },
        None => {
            assert(entries =~= entries + added);
        },
    }
}

/// Appends the entry of the creation date, where there is one.
fn put_date(out: &mut Vec<u8>, date: Option<i64>, Ghost(entries): Ghost<Seq<(Seq<u8>, Value)>>)
    requires
        old(out)@ == seq![DICT_START] + encode_entries(entries),
    ensures
        final(out)@ == seq![DICT_START] + encode_entries(
            entries + date_entry(
                match date {
                    Some(d) => Some(d as int),
                    None => None,
                },
            ),
        ),
{
    let ghost added = date_entry(
        match date {
            Some(d) => Some(d as int),
            None => None,
        },
    );
    match date {
        Some(d) => {
            let value: Vec<u8> = bencode_i128(d as i128);
            let ghost v = Value::Int(d as int);
            put_entry(out, "creation date", value, Ghost(entries), Ghost(v));
            assert(entries.push(("creation date".spec_bytes(), v)) =~= entries + added);
        },
        None => {
            assert(entries =~= entries + added);
        },
    }
}

/// Appends the entry of `info`, where there is one.
fn put_info(
    out: &mut Vec<u8>,
    info: &Option<TrInfo>,
    Ghost(entries): Ghost<Seq<(Seq<u8>, Value)>>,
)
    requires
        old(out)@ == seq![DICT_START] + encode_entries(entries),
    ensures
        final(out)@ == seq![DICT_START] + encode_entries(
            entries + info_entry(
                match *info {
                    Some(i) => Some(i@),
                    None => None,
                },
            ),
        ),
{
    let ghost added = info_entry(
        match info {
            Some(i) => Some(i@),
            None => None,
        },
    );
    match info {
        Some(i) => {
            let value: Vec<u8> = i.bencode();
            let ghost v = info_value(i@);
            put_entry(out, "info", value, Ghost(entries), Ghost(v));
            assert(entries.push(("info".spec_bytes(), v)) =~= entries + added);
        },
        None => {
            assert(entries =~= entries + added);
        },
    }
}

impl Torrent {
    /// A metainfo without `info`. Where no `announce` is given, the first
    /// address of the first tier takes its place, if there is one.
    pub fn new(
        announce: Option<String>,
        announce_list: Option<Vec<Vec<String>>>,
        comment: Option<String>,
        created_by: Option<String>,
        creation_date: Option<i64>,
        encoding: Option<String>,
    ) -> (t: Torrent)
        ensures
            t@ == (Metainfo {
                announce: if announce is Some {
                    text_view(announce)
                } else {
                    first_url(
                        match announce_list {
                            Some(tiers) => Some(tiers.deep_view()),
                            None => None,
                        },
                    )
                },
                announce_list: match announce_list {
                    Some(tiers) => Some(tiers.deep_view()),
                    None => None,
                },
                comment: text_view(comment),
                created_by: text_view(created_by),
                creation_date: match creation_date {
                    Some(date) => Some(date as int),
                    None => None,
                },
                encoding: text_view(encoding),
                hash: None,
                info: None,
                info_hash: None,
            }),
    {
        let announce: Option<String> = match announce {
            Some(url) => Some(url),
            None => match &announce_list {
                Some(tiers) => {
                    if tiers.len() > 0 && tiers[0].len() > 0 {
                        Some(tiers[0][0].clone())
                    } else {
                        None
                    }
                },
                None => None,
            },
        };
        Torrent {
            announce,
            announce_list,
            comment,
            created_by,
            creation_date,
            encoding,
            hash: None,
            info: None,
            info_hash: None,
        }
    }

    /// Puts `info` into the metainfo, together with the SHA-1 digest of its encoding.
    pub fn create_torrent(&mut self, info: TrInfo)
        ensures
            final(self)@ == (Metainfo {
                info: Some(info@),
                info_hash: Some(sha1_digest(encode(info_value(info@)))),
                ..old(self)@
            }),
    {
        let encoded: Vec<u8> = info.bencode();
        self.info_hash = Some(sha1(encoded.as_slice()));
        self.info = Some(info);
    }

    /// The `info` dictionary, if the metainfo has one.
    pub fn get_info(&self) -> (r: Option<&TrInfo>)
        ensures
            match self.info {
                Some(info) => r == Some(&info),
                None => r is None,
            },
    {
        self.info.as_ref()
    }

    /// The encoding of the metainfo.
    pub fn bencode(&self) -> (out: Vec<u8>)
        ensures
            out@ == encode(torrent_value(self@)),
    {
        let ghost t = self@;
        let mut out: Vec<u8> = Vec::new();
        out.push(DICT_START);
        let ghost none = Seq::<(Seq<u8>, Value)>::empty();
        put_text(&mut out, "announce", &self.announce, Ghost(none));
        let ghost part = none + text_entry("announce".spec_bytes(), t.announce);
        put_tiers(&mut out, &self.announce_list, Ghost(part));
        let ghost part = part + tiers_entry(t.announce_list);
        put_text(&mut out, "comment", &self.comment, Ghost(part));
        let ghost part = part + text_entry("comment".spec_bytes(), t.comment);
        put_text(&mut out, "created by", &self.created_by, Ghost(part));
        let ghost part = part + text_entry("created by".spec_bytes(), t.created_by);
        put_date(&mut out, self.creation_date, Ghost(part));
        let ghost part = part + date_entry(t.creation_date);
        put_text(&mut out, "encoding", &self.encoding, Ghost(part));
        let ghost part = part + text_entry("encoding".spec_bytes(), t.encoding);
        put_info(&mut out, &self.info, Ghost(part));
        let ghost part = part + info_entry(t.info);
        put_text(&mut out, "hash", &self.hash, Ghost(part));
        let ghost part = part + text_entry("hash".spec_bytes(), t.hash);
        assert(none + text_entry("announce".spec_bytes(), t.announce) =~= text_entry(
            "announce".spec_bytes(),
            t.announce,
        ));
        assert(part == torrent_entries(t));
        out.push(END);
        out
    }

    /// What to write to the metainfo file: the encoding of the metainfo. A
    /// file that exists is only written over with `force`.
    pub fn write_to_file(&self, exists: bool, force: bool) -> (r: TrResult<Vec<u8>>)
        ensures
            if exists && !force {
                r is Err && r->Err_0@ == ErrorView::AlreadyExists(
                    "File already exists, use -f to overwrite"@,
                )
            } else {
                r is Ok && r->Ok_0@ == encode(torrent_value(self@))
            },
    {
        if !force && exists {
            return Err(
                TrError::AlreadyExists("File already exists, use -f to overwrite".to_owned()),
            );
        }
        Ok(self.bencode())
    }

    /// Reads the metainfo that the bytes of a metainfo file write.
    pub fn read_torrent(data: &[u8]) -> (r: TrResult<Torrent>)
        ensures
            match decode_torrent(data@) {
                Ok(t) => r is Ok && r->Ok_0@ == t,
                Err(e) => r is Err && r->Err_0@ == e,
            },
    {
        let root: SpannedDict = match decode_dict(data, "info") {
            Err(e) => {
                return Err(TrError::parse(e));
            },
            Ok(None) => {
                return Err(TrError::invalid("torrent root is not a dictionary"));
            },
            Ok(Some(root)) => root,
        };
        let entries: &Vec<(Vec<u8>, Bencode)> = &root.entries;
        let info: TrInfo = match dict_find(entries, "info") {
            Some(found) => match TrInfo::from_bencode(found) {
                Ok(info) => info,
                Err(e) => {
                    return Err(e);
                },
            },
            None => {
                return Err(TrError::invalid("missing info dict"));
            },
        };
        let announce: Option<String> = match read_optional_text(dict_find(entries, "announce")) {
            Ok(text) => text,
            Err(e) => {
                return Err(e);
            },
        };
        let announce_list: Option<Vec<Vec<String>>> = match dict_find(entries, "announce-list") {
            Some(found) => {
                proof {
                    lemma_view_parts(*found);
                }
                match found {
                    Bencode::List(items) => match read_tiers(items) {
                        Ok(tiers) => Some(tiers),
                        Err(e) => {
                            return Err(e);
                        },
                    },
                    _ => None,
                }
            },
            None => None,
        };
        let comment: Option<String> = match read_optional_text(dict_find(entries, "comment")) {
            Ok(text) => text,
            Err(e) => {
                return Err(e);
            },
        };
        let created_by: Option<String> = match read_optional_text(
            dict_find(entries, "created by"),
        ) {
            Ok(text) => text,
            Err(e) => {
                return Err(e);
            },
        };
        let creation_date: Option<i64> = match dict_find(entries, "creation date") {
            Some(Bencode::Int(n)) => {
                if i64::MIN as i128 <= *n && *n <= i64::MAX as i128 {
                    Some(*n as i64)
                } else {
                    None
                }
            },
            _ => None,
        };
        let encoding: Option<String> = match read_optional_text(dict_find(entries, "encoding")) {
            Ok(text) => text,
            Err(e) => {
                return Err(e);
            },
        };
        let hash: Option<String> = match read_optional_text(dict_find(entries, "hash")) {
            Ok(text) => text,
            Err(e) => {
                return Err(e);
            },
        };
        let info_hash: Option<Vec<u8>> = match root.span {
            Some((from, to)) => Some(sha1(slice_subrange(data, from, to))),
            None => None,
        };
        Ok(
            Torrent {
                announce,
                announce_list,
                comment,
                created_by,
                creation_date,
                encoding,
                hash,
                info: Some(info),
                info_hash,
            },
        )
    }
}

} // verus!
