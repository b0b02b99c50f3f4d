//! What is written can be read: a metainfo that is encoded and decoded
//! again is the metainfo that was encoded, with the same info hash.

use vstd::prelude::*;
use vstd::string::StringSliceAdditionalSpecFns;
use vstd::utf8::{encode_utf8, encode_utf8_decode_utf8, encode_utf8_valid_utf8};
use crate::bencode::{
    bytes_lt, canonical, lemma_canonical_dict,
    lemma_keys_extend, dict_get, encode, encode_entries, law_decode_encode, lemma_dict_get_concat,
    lemma_dict_get_single, lemma_matches_concat, lemma_span_of_key, representable, representable_entries, text_list_value, text_value, Value, DICT_START, END,
};
use crate::hashing::{sha1_digest, SHA1_HASH_SIZE};
use crate::torrent::{
    date_entry, decode_torrent, info_digest, info_entry, text_entry, tiers_entry, tiers_of,
    tiers_value, torrent_entries, torrent_of_entries, torrent_value, urls_of, Metainfo,
};
use crate::tr_file::{file_list_value, file_of_value, file_value, files_of, path_of, FileEntry};
use crate::tr_info::{info_entries, info_of_entries, info_of_value, info_value, InfoBlock};
use crate::utils::{text_of, ErrorView};

verus! {

/// The file entry can be written and read again: its length fits in 64 bits
/// without sign, and no segment of its path is empty.
pub open spec fn file_well_formed(f: FileEntry) -> bool {
    &&& 0 <= f.length <= u64::MAX
    &&& forall|k: int| 0 <= k < f.path.len() ==> (#[trigger] f.path[k]).len() > 0
}

/// The `info` block is as a torrent's must be: it has either `files` or
/// `length`, its numbers fit in 64 bits without sign, its pieces have a
/// positive length, `pieces` is a whole number of digests, and its file
/// entries are well formed.
pub open spec fn info_well_formed(info: InfoBlock) -> bool {
    &&& (info.files is Some) != (info.length is Some)
    &&& info.files matches Some(files) ==> forall|k: int|
        0 <= k < files.len() ==> file_well_formed(#[trigger] files[k])
    &&& info.length matches Some(n) ==> 0 <= n <= u64::MAX
    &&& 1 <= info.piece_length <= u64::MAX
    &&& info.pieces.len() % (SHA1_HASH_SIZE as nat) == 0
}

/// The metainfo is complete: it has a well-formed `info` and the digest of
/// its encoding, its tiers are not an empty list, and its creation date fits
/// in 64 bits with sign.
pub open spec fn metainfo_well_formed(t: Metainfo) -> bool {
    &&& t.info matches Some(info) && info_well_formed(info) && t.info_hash == Some(
        sha1_digest(encode(info_value(info))),
    )
    &&& t.announce_list matches Some(tiers) ==> tiers.len() > 0
    &&& t.creation_date matches Some(date) ==> i64::MIN <= date <= i64::MAX
}

/// The keys of a file entry: how long they are and how they start.
proof fn lemma_file_keys()
    ensures
        "length".spec_bytes().len() == 6,
        "path".spec_bytes().len() == 4,
{
    reveal_strlit("length");
    reveal_strlit("path");
    assert(vstd::string::is_ascii("length"));
    assert(vstd::string::is_ascii("path"));
}

/// The keys of `info`: how long they are and how they start.
proof fn lemma_info_keys()
    ensures
        "files".spec_bytes().len() == 5,
        "length".spec_bytes().len() == 6,
        "length".spec_bytes()[0] == 0x6c,
        "name".spec_bytes().len() == 4,
        "piece length".spec_bytes().len() == 12,
        "pieces".spec_bytes().len() == 6,
        "pieces".spec_bytes()[0] == 0x70,
        "private".spec_bytes().len() == 7,
{
    reveal_strlit("files");
    reveal_strlit("length");
    reveal_strlit("name");
    reveal_strlit("piece length");
    reveal_strlit("pieces");
    reveal_strlit("private");
    assert(vstd::string::is_ascii("files"));
    assert(vstd::string::is_ascii("length"));
    assert(vstd::string::is_ascii("name"));
    assert(vstd::string::is_ascii("piece length"));
    assert(vstd::string::is_ascii("pieces"));
    assert(vstd::string::is_ascii("private"));
}

/// The keys of the top level: how long they are and how they start.
proof fn lemma_top_keys()
    ensures
        "announce".spec_bytes().len() == 8,
        "announce".spec_bytes()[0] == 0x61,
        "announce-list".spec_bytes().len() == 13,
        "announce-list".spec_bytes()[0] == 0x61,
        "comment".spec_bytes().len() == 7,
        "created by".spec_bytes().len() == 10,
        "creation date".spec_bytes().len() == 13,
        "creation date".spec_bytes()[0] == 0x63,
        "encoding".spec_bytes().len() == 8,
        "encoding".spec_bytes()[0] == 0x65,
        "info".spec_bytes().len() == 4,
        "info".spec_bytes()[0] == 0x69,
        "hash".spec_bytes().len() == 4,
        "hash".spec_bytes()[0] == 0x68,
{
    reveal_strlit("announce");
    reveal_strlit("announce-list");
    reveal_strlit("comment");
    reveal_strlit("created by");
    reveal_strlit("creation date");
    reveal_strlit("encoding");
    reveal_strlit("info");
    reveal_strlit("hash");
    assert(vstd::string::is_ascii("announce"));
    assert(vstd::string::is_ascii("announce-list"));
    assert(vstd::string::is_ascii("comment"));
    assert(vstd::string::is_ascii("created by"));
    assert(vstd::string::is_ascii("creation date"));
    assert(vstd::string::is_ascii("encoding"));
    assert(vstd::string::is_ascii("info"));
    assert(vstd::string::is_ascii("hash"));
}

/// A text that is written as a byte string is read as that text.
proof fn lemma_text_round_trip(s: Seq<char>)
    ensures
        text_of(encode_utf8(s)) == Ok::<Seq<char>, ErrorView>(s),
        s.len() > 0 ==> encode_utf8(s).len() > 0,
{
    encode_utf8_valid_utf8(s);
    encode_utf8_decode_utf8(s);
}

/// A path without empty segments that is written is read as that path.
proof fn lemma_path_round_trip(path: Seq<Seq<char>>)
    requires
        forall|k: int| 0 <= k < path.len() ==> (#[trigger] path[k]).len() > 0,
    ensures
        path_of(text_list_value(path)->List_0) == Ok::<Seq<Seq<char>>, ErrorView>(path),
    decreases path.len(),
{
    let items = text_list_value(path)->List_0;
    if path.len() == 0 {
        assert(path =~= Seq::<Seq<char>>::empty());
    } else {
        let shorter = path.drop_last();
        lemma_path_round_trip(shorter);
        assert(items.drop_last() =~= text_list_value(shorter)->List_0);
        assert(items.last() == text_value(path.last()));
        lemma_text_round_trip(path.last());
        assert(shorter.push(path.last()) =~= path);
    }
}

/// A list of tracker addresses that is written is read as that list.
proof fn lemma_urls_round_trip(urls: Seq<Seq<char>>)
    ensures
        urls_of(text_list_value(urls)->List_0) == Ok::<Seq<Seq<char>>, ErrorView>(urls),
    decreases urls.len(),
{
    let items = text_list_value(urls)->List_0;
    if urls.len() == 0 {
        assert(urls =~= Seq::<Seq<char>>::empty());
    } else {
        let shorter = urls.drop_last();
        lemma_urls_round_trip(shorter);
        assert(items.drop_last() =~= text_list_value(shorter)->List_0);
        assert(items.last() == text_value(urls.last()));
        lemma_text_round_trip(urls.last());
        assert(shorter.push(urls.last()) =~= urls);
    }
}

/// Tiers that are written are read as those tiers.
proof fn lemma_tiers_round_trip(tiers: Seq<Seq<Seq<char>>>)
    ensures
        tiers_of(tiers_value(tiers)->List_0) == Ok::<Seq<Seq<Seq<char>>>, ErrorView>(tiers),
    decreases tiers.len(),
{
    let items = tiers_value(tiers)->List_0;
    if tiers.len() == 0 {
        assert(tiers =~= Seq::<Seq<Seq<char>>>::empty());
    } else {
        let shorter = tiers.drop_last();
        lemma_tiers_round_trip(shorter);
        assert(items.drop_last() =~= tiers_value(shorter)->List_0);
        assert(items.last() == text_list_value(tiers.last()));
        lemma_urls_round_trip(tiers.last());
        assert(shorter.push(tiers.last()) =~= tiers);
    }
}

/// A well-formed file entry that is written is read as that entry.
proof fn lemma_file_round_trip(f: FileEntry)
    requires
        file_well_formed(f),
    ensures
        file_of_value(file_value(f)) == Ok::<FileEntry, ErrorView>(f),
{
    lemma_file_keys();
    let first = ("length".spec_bytes(), Value::Int(f.length));
    let second = ("path".spec_bytes(), text_list_value(f.path));
    let m = seq![first, second];
    assert(m =~= seq![first] + seq![second]);
    lemma_dict_get_concat(seq![first], seq![second], "length".spec_bytes());
    lemma_dict_get_concat(seq![first], seq![second], "path".spec_bytes());
    lemma_dict_get_single(first.0, first.1, "length".spec_bytes());
    lemma_dict_get_single(second.0, second.1, "length".spec_bytes());
    lemma_dict_get_single(second.0, second.1, "path".spec_bytes());
    lemma_path_round_trip(f.path);
}

/// A list of well-formed file entries that is written is read as that list.
proof fn lemma_files_round_trip(files: Seq<FileEntry>)
    requires
        forall|k: int| 0 <= k < files.len() ==> file_well_formed(#[trigger] files[k]),
    ensures
        files_of(file_list_value(files)->List_0) == Ok::<Seq<FileEntry>, ErrorView>(files),
    decreases files.len(),
{
    let items = file_list_value(files)->List_0;
    if files.len() == 0 {
        assert(files =~= Seq::<FileEntry>::empty());
    } else {
        let shorter = files.drop_last();
        assert forall|k: int| 0 <= k < shorter.len() implies file_well_formed(
            #[trigger] shorter[k],
        ) by {
            assert(shorter[k] == files[k]);
        }
        lemma_files_round_trip(shorter);
        assert(items.drop_last() =~= file_list_value(shorter)->List_0);
        assert(items.last() == file_value(files.last()));
        lemma_file_round_trip(files.last());
        assert(shorter.push(files.last()) =~= files);
    }
}

/// The parts of which the entries of `info` are made.
spec fn info_parts(info: InfoBlock) -> (
    Seq<(Seq<u8>, Value)>,
    Seq<(Seq<u8>, Value)>,
    Seq<(Seq<u8>, Value)>,
    Seq<(Seq<u8>, Value)>,
    Seq<(Seq<u8>, Value)>,
    Seq<(Seq<u8>, Value)>,
) {
    (
        match info.files {
            Some(files) => seq![("files".spec_bytes(), file_list_value(files))],
            None => seq![],
        },
        match info.length {
            Some(n) => seq![("length".spec_bytes(), Value::Int(n))],
            None => seq![],
        },
        match info.name {
            Some(name) => seq![("name".spec_bytes(), text_value(name))],
            None => seq![],
        },
        seq![("piece length".spec_bytes(), Value::Int(info.piece_length))],
        seq![("pieces".spec_bytes(), Value::Bytes(info.pieces))],
        if info.private {
            seq![("private".spec_bytes(), Value::Int(1))]
        } else {
            seq![]
        },
    )
}

/// What a lookup finds in a run of at most one entry.
spec fn single_get(part: Seq<(Seq<u8>, Value)>, key: Seq<u8>) -> Option<Value> {
    if part.len() == 1 && part[0].0 == key {
        Some(part[0].1)
    } else {
        None
    }
}

/// A lookup in a run of at most one entry finds that entry or nothing.
proof fn lemma_single_get(part: Seq<(Seq<u8>, Value)>, key: Seq<u8>)
    requires
        part.len() <= 1,
    ensures
        dict_get(part, key) == single_get(part, key),
{
    if part.len() == 1 {
        assert(part =~= seq![(part[0].0, part[0].1)]);
        lemma_dict_get_single(part[0].0, part[0].1, key);
    } else {
        assert(part =~= Seq::<(Seq<u8>, Value)>::empty());
    }
}

/// A lookup in six runs of at most one entry each finds the last that has the key.
proof fn lemma_get_in_six(
    a: Seq<(Seq<u8>, Value)>,
    b: Seq<(Seq<u8>, Value)>,
    c: Seq<(Seq<u8>, Value)>,
    d: Seq<(Seq<u8>, Value)>,
    e: Seq<(Seq<u8>, Value)>,
    f: Seq<(Seq<u8>, Value)>,
    key: Seq<u8>,
)
    requires
        a.len() <= 1,
        b.len() <= 1,
        c.len() <= 1,
        d.len() <= 1,
        e.len() <= 1,
        f.len() <= 1,
    ensures
        dict_get(a + b + c + d + e + f, key) == (if single_get(f, key) is Some {
            single_get(f, key)
        } else if single_get(e, key) is Some {
            single_get(e, key)
        } else if single_get(d, key) is Some {
            single_get(d, key)
        } else if single_get(c, key) is Some {
            single_get(c, key)
        } else if single_get(b, key) is Some {
            single_get(b, key)
        } else {
            single_get(a, key)
        }),
{
    lemma_single_get(a, key);
    lemma_single_get(b, key);
    lemma_single_get(c, key);
    lemma_single_get(d, key);
    lemma_single_get(e, key);
    lemma_single_get(f, key);
    lemma_dict_get_concat(a, b, key);
    lemma_dict_get_concat(a + b, c, key);
    lemma_dict_get_concat(a + b + c, d, key);
    lemma_dict_get_concat(a + b + c + d, e, key);
    lemma_dict_get_concat(a + b + c + d + e, f, key);
}

/// A well-formed `info` block that is written is read as that block.
pub proof fn lemma_info_round_trip(info: InfoBlock)
    requires
        info_well_formed(info),
    ensures
        info_of_value(info_value(info)) == Ok::<InfoBlock, ErrorView>(info),
        representable(info_value(info)),
{
    lemma_info_keys();
    let (a, b, c, d, e, f) = info_parts(info);
    let m = info_entries(info);
    assert(m =~= a + b + c + d + e + f);
    lemma_get_in_six(a, b, c, d, e, f, "files".spec_bytes());
    lemma_get_in_six(a, b, c, d, e, f, "length".spec_bytes());
    lemma_get_in_six(a, b, c, d, e, f, "name".spec_bytes());
    lemma_get_in_six(a, b, c, d, e, f, "piece length".spec_bytes());
    lemma_get_in_six(a, b, c, d, e, f, "pieces".spec_bytes());
    lemma_get_in_six(a, b, c, d, e, f, "private".spec_bytes());
    if let Some(files) = info.files {
        lemma_files_round_trip(files);
        lemma_files_representable(files);
    }
    if let Some(name) = info.name {
        lemma_text_round_trip(name);
    }
    let got = info_of_entries(m)->Ok_0;
    assert(info_of_entries(m) is Ok);
    assert(got.files == info.files);
    assert(got.length == info.length);
    assert(got.name == info.name);
    assert(got.private == info.private);
    assert forall|k: int| 0 <= k < m.len() implies representable((#[trigger] m[k]).1) by {
        lemma_entry_in_six(a, b, c, d, e, f, k);
    }
}

/// Each entry of six runs of at most one entry is the entry of one of the runs.
proof fn lemma_entry_in_six(
    a: Seq<(Seq<u8>, Value)>,
    b: Seq<(Seq<u8>, Value)>,
    c: Seq<(Seq<u8>, Value)>,
    d: Seq<(Seq<u8>, Value)>,
    e: Seq<(Seq<u8>, Value)>,
    f: Seq<(Seq<u8>, Value)>,
    k: int,
)
    requires
        0 <= k < (a + b + c + d + e + f).len(),
    ensures
        ({
            let x = (a + b + c + d + e + f)[k];
            a.contains(x) || b.contains(x) || c.contains(x) || d.contains(x) || e.contains(x)
                || f.contains(x)
        }),
{
    let x = (a + b + c + d + e + f)[k];
    let ab = a.len() + b.len();
    let abc = ab + c.len();
    let abcd = abc + d.len();
    let abcde = abcd + e.len();
    if k < a.len() {
        assert(a[k] == x);
    } else if k < ab {
        assert(b[k - a.len()] == x);
    } else if k < abc {
        assert(c[k - ab] == x);
    } else if k < abcd {
        assert(d[k - abc] == x);
    } else if k < abcde {
        assert(e[k - abcd] == x);
    } else {
        assert(f[k - abcde] == x);
    }
}

/// The value of a list of texts is representable.
proof fn lemma_text_list_representable(texts: Seq<Seq<char>>)
    ensures
        representable(text_list_value(texts)),
{
    let items = text_list_value(texts)->List_0;
    assert forall|k: int| 0 <= k < items.len() implies representable(#[trigger] items[k]) by {
        assert(items[k] == text_value(texts[k]));
    }
}

/// The value of a list of well-formed file entries is representable.
proof fn lemma_files_representable(files: Seq<FileEntry>)
    requires
        forall|k: int| 0 <= k < files.len() ==> file_well_formed(#[trigger] files[k]),
    ensures
        representable(file_list_value(files)),
{
    let items = file_list_value(files)->List_0;
    assert forall|k: int| 0 <= k < items.len() implies representable(#[trigger] items[k]) by {
        let f = files[k];
        assert(items[k] == file_value(f));
        let m = file_value(f)->Dict_0;
        lemma_text_list_representable(f.path);
        assert forall|j: int| 0 <= j < m.len() implies representable((#[trigger] m[j]).1) by {}
    }
}

/// A lookup in two more runs of at most one entry each.
proof fn lemma_get_in_eight(
    front: Seq<(Seq<u8>, Value)>,
    g: Seq<(Seq<u8>, Value)>,
    h: Seq<(Seq<u8>, Value)>,
    key: Seq<u8>,
)
    requires
        g.len() <= 1,
        h.len() <= 1,
    ensures
        dict_get(front + g + h, key) == (if single_get(h, key) is Some {
            single_get(h, key)
        } else if single_get(g, key) is Some {
            single_get(g, key)
        } else {
            dict_get(front, key)
        }),
{
    lemma_single_get(g, key);
    lemma_single_get(h, key);
    lemma_dict_get_concat(front, g, key);
    lemma_dict_get_concat(front + g, h, key);
}

/// The parts of which the entries of the top level are made.
spec fn top_parts(t: Metainfo) -> (
    Seq<(Seq<u8>, Value)>,
    Seq<(Seq<u8>, Value)>,
    Seq<(Seq<u8>, Value)>,
    Seq<(Seq<u8>, Value)>,
    Seq<(Seq<u8>, Value)>,
    Seq<(Seq<u8>, Value)>,
    Seq<(Seq<u8>, Value)>,
    Seq<(Seq<u8>, Value)>,
) {
    (
        text_entry("announce".spec_bytes(), t.announce),
        tiers_entry(t.announce_list),
        text_entry("comment".spec_bytes(), t.comment),
        text_entry("created by".spec_bytes(), t.created_by),
        date_entry(t.creation_date),
        text_entry("encoding".spec_bytes(), t.encoding),
        info_entry(t.info),
        text_entry("hash".spec_bytes(), t.hash),
    )
}

/// What a lookup of `key` finds among the entries of the top level.
proof fn lemma_top_get(t: Metainfo, key: Seq<u8>)
    ensures
        ({
            let (a, b, c, d, e, f, g, h) = top_parts(t);
            dict_get(torrent_entries(t), key) == (if single_get(h, key) is Some {
                single_get(h, key)
            } else if single_get(g, key) is Some {
                single_get(g, key)
            } else if single_get(f, key) is Some {
                single_get(f, key)
            } else if single_get(e, key) is Some {
                single_get(e, key)
            } else if single_get(d, key) is Some {
                single_get(d, key)
            } else if single_get(c, key) is Some {
                single_get(c, key)
            } else if single_get(b, key) is Some {
                single_get(b, key)
            } else {
                single_get(a, key)
            })
        }),
{
    let (a, b, c, d, e, f, g, h) = top_parts(t);
    lemma_get_in_six(a, b, c, d, e, f, key);
    lemma_get_in_eight(a + b + c + d + e + f, g, h, key);
    assert(torrent_entries(t) =~= a + b + c + d + e + f + g + h);
}

/// The value of a complete metainfo is representable.
proof fn lemma_top_representable(t: Metainfo)
    requires
        metainfo_well_formed(t),
    ensures
        representable_entries(torrent_entries(t)),
        representable(torrent_value(t)),
{
    let (a, b, c, d, e, f, g, h) = top_parts(t);
    let m = torrent_entries(t);
    assert(m =~= a + b + c + d + e + f + g + h);
    lemma_info_round_trip(t.info->Some_0);
    if let Some(tiers) = t.announce_list {
        let items = tiers_value(tiers)->List_0;
        assert forall|k: int| 0 <= k < items.len() implies representable(#[trigger] items[k]) by {
            lemma_text_list_representable(tiers[k]);
        }
    }
    assert forall|k: int| 0 <= k < m.len() implies representable((#[trigger] m[k]).1) by {
        let front = a + b + c + d + e + f;
        if k < front.len() {
            assert(m[k] == front[k]);
            lemma_entry_in_six(a, b, c, d, e, f, k);
        } else if k < front.len() + g.len() {
            assert(m[k] == g[k - front.len()]);
        } else {
            assert(m[k] == h[k - front.len() - g.len()]);
        }
    }
}

/// The span of `info` in the encoding of a complete metainfo holds the
/// encoding of its `info`.
proof fn lemma_info_span(t: Metainfo)
    requires
        metainfo_well_formed(t),
    ensures
        info_digest(encode(torrent_value(t))) == t.info_hash,
{
    lemma_top_keys();
    lemma_top_representable(t);
    let (a, b, c, d, e, f, g, h) = top_parts(t);
    let m = torrent_entries(t);
    let front = a + b + c + d + e + f;
    let key = "info".spec_bytes();
    let v = info_value(t.info->Some_0);
    let data = encode(torrent_value(t));
    let body = encode_entries(m);
    assert(m =~= front + seq![(key, v)] + h);
    assert forall|k: int| 0 <= k < front.len() implies representable((#[trigger] front[k]).1) by {
        assert(front[k] == m[k]);
    }
    assert forall|k: int| 0 <= k < h.len() implies representable((#[trigger] h[k]).1) && h[k].0
        != key by {
        assert(h[k] == m[front.len() + 1 + k]);
    }
    lemma_info_round_trip(t.info->Some_0);
    assert(data =~= seq![DICT_START] + (body + seq![END]));
    assert(data.subrange(0, data.len() as int) =~= data);
    lemma_matches_concat(data, 0, seq![DICT_START], body + seq![END]);
    lemma_span_of_key(data, 1, front, key, v, h);
    assert(data[0] == DICT_START);
}

/// A complete metainfo that is written is read as that metainfo: every field
/// comes back as it was, and the info hash, which is taken over the bytes of
/// `info` as they stand in the file, is the digest of the encoding of `info`.
pub proof fn law_read_what_was_written(t: Metainfo)
    requires
        metainfo_well_formed(t),
    ensures
        decode_torrent(encode(torrent_value(t))) == Ok::<Metainfo, ErrorView>(t),
{
    lemma_top_keys();
    lemma_top_representable(t);
    lemma_info_span(t);
    let data = encode(torrent_value(t));
    let m = torrent_entries(t);
    law_decode_encode(torrent_value(t));
    lemma_top_get(t, "announce".spec_bytes());
    lemma_top_get(t, "announce-list".spec_bytes());
    lemma_top_get(t, "comment".spec_bytes());
    lemma_top_get(t, "created by".spec_bytes());
    lemma_top_get(t, "creation date".spec_bytes());
    lemma_top_get(t, "encoding".spec_bytes());
    lemma_top_get(t, "info".spec_bytes());
    lemma_top_get(t, "hash".spec_bytes());
    lemma_info_round_trip(t.info->Some_0);
    if let Some(s) = t.announce {
        lemma_text_round_trip(s);
    }
    if let Some(s) = t.comment {
        lemma_text_round_trip(s);
    }
    if let Some(s) = t.created_by {
        lemma_text_round_trip(s);
    }
    if let Some(s) = t.encoding {
        lemma_text_round_trip(s);
    }
    if let Some(s) = t.hash {
        lemma_text_round_trip(s);
    }
    if let Some(tiers) = t.announce_list {
        lemma_tiers_round_trip(tiers);
    }
    let got = torrent_of_entries(m, info_digest(data));
    assert(got is Ok);
    assert(got->Ok_0.announce == t.announce);
    assert(got->Ok_0.announce_list == t.announce_list);
    assert(got->Ok_0.comment == t.comment);
    assert(got->Ok_0.created_by == t.created_by);
    assert(got->Ok_0.creation_date == t.creation_date);
    assert(got->Ok_0.encoding == t.encoding);
    assert(got->Ok_0.hash == t.hash);
    assert(got->Ok_0.info == t.info);
    assert(got->Ok_0.info_hash == t.info_hash);
}

/// The info hash is stable: the metainfo read from the encoding of a complete
/// metainfo has the info hash of that metainfo, and written again it gives
/// the same bytes.
pub proof fn law_info_hash_stable(t: Metainfo)
    requires
        metainfo_well_formed(t),
    ensures
        decode_torrent(encode(torrent_value(t))) is Ok,
        decode_torrent(encode(torrent_value(t)))->Ok_0.info_hash == t.info_hash,
        encode(torrent_value(decode_torrent(encode(torrent_value(t)))->Ok_0)) == encode(
            torrent_value(t),
        ),
{
    law_read_what_was_written(t);
}

/// Two representable values with the same encoding are the same value.
pub proof fn law_encoding_tells_values_apart(a: Value, b: Value)
    requires
        representable(a),
        representable(b),
        encode(a) == encode(b),
    ensures
        a == b,
{
    law_decode_encode(a);
    law_decode_encode(b);
}

/// The private flag is part of what is hashed: two `info` blocks that differ
/// in it alone have different encodings.
pub proof fn law_private_flag_is_encoded(info: InfoBlock)
    requires
        info_well_formed(info),
    ensures
        encode(info_value(InfoBlock { private: true, ..info })) != encode(
            info_value(InfoBlock { private: false, ..info }),
        ),
{
    let yes = InfoBlock { private: true, ..info };
    let no = InfoBlock { private: false, ..info };
    lemma_info_round_trip(yes);
    lemma_info_round_trip(no);
    if encode(info_value(yes)) == encode(info_value(no)) {
        law_encoding_tells_values_apart(info_value(yes), info_value(no));
    }
}

/// The keys of the library's dictionaries, each before the next.
proof fn lemma_keys_in_order()
    ensures
        bytes_lt("length".spec_bytes(), "path".spec_bytes()),
        bytes_lt("files".spec_bytes(), "length".spec_bytes()),
        bytes_lt("length".spec_bytes(), "name".spec_bytes()),
        bytes_lt("name".spec_bytes(), "piece length".spec_bytes()),
        bytes_lt("piece length".spec_bytes(), "pieces".spec_bytes()),
        bytes_lt("pieces".spec_bytes(), "private".spec_bytes()),
        bytes_lt("announce".spec_bytes(), "announce-list".spec_bytes()),
        bytes_lt("announce-list".spec_bytes(), "comment".spec_bytes()),
        bytes_lt("comment".spec_bytes(), "created by".spec_bytes()),
        bytes_lt("created by".spec_bytes(), "creation date".spec_bytes()),
        bytes_lt("creation date".spec_bytes(), "encoding".spec_bytes()),
        bytes_lt("encoding".spec_bytes(), "info".spec_bytes()),
{
    reveal_strlit("length");
    reveal_strlit("path");
    reveal_strlit("files");
    reveal_strlit("name");
    reveal_strlit("piece length");
    reveal_strlit("pieces");
    reveal_strlit("private");
    reveal_strlit("announce");
    reveal_strlit("announce-list");
    reveal_strlit("comment");
    reveal_strlit("created by");
    reveal_strlit("creation date");
    reveal_strlit("encoding");
    reveal_strlit("info");
    assert(vstd::string::is_ascii("length") && vstd::string::is_ascii("path")
        && vstd::string::is_ascii("files") && vstd::string::is_ascii("name")
        && vstd::string::is_ascii("piece length") && vstd::string::is_ascii("pieces")
        && vstd::string::is_ascii("private") && vstd::string::is_ascii("announce")
        && vstd::string::is_ascii("announce-list") && vstd::string::is_ascii("comment")
        && vstd::string::is_ascii("created by") && vstd::string::is_ascii("creation date")
        && vstd::string::is_ascii("encoding") && vstd::string::is_ascii("info"));
    lemma_key_pair("length", "path", 0);
    lemma_key_pair("files", "length", 0);
    lemma_key_pair("length", "name", 0);
    lemma_key_pair("name", "piece length", 0);
    lemma_key_pair("announce-list", "comment", 0);
    lemma_key_pair("comment", "created by", 1);
    lemma_key_pair("creation date", "encoding", 0);
    lemma_key_pair("encoding", "info", 0);
    lemma_key_pair("piece length", "pieces", 5);
    lemma_key_pair("pieces", "private", 1);
    lemma_key_pair("announce", "announce-list", 8);
    lemma_key_pair("created by", "creation date", 5);
}

/// Two texts whose bytes are the same up to `at`, where the first ends or
/// has the lesser byte, stand in the order of their bytes.
proof fn lemma_key_pair(a: &str, b: &str, at: int)
    requires
        0 <= at <= a.spec_bytes().len(),
        at < b.spec_bytes().len(),
        forall|k: int| 0 <= k < at ==> a.spec_bytes()[k] == b.spec_bytes()[k],
        at < a.spec_bytes().len() ==> a.spec_bytes()[at] < b.spec_bytes()[at],
    ensures
        bytes_lt(a.spec_bytes(), b.spec_bytes()),
{
    lemma_bytes_differ(a.spec_bytes(), b.spec_bytes(), at);
}

/// A byte string comes before itself with a byte more.
proof fn lemma_below_longer(key: Seq<u8>)
    ensures
        bytes_lt(key, key.push(0)),
{
    lemma_bytes_differ(key, key.push(0), key.len() as int);
}

/// Two byte strings that are the same up to `at`, where the first ends or has the
/// lesser byte, stand in order.
proof fn lemma_bytes_differ(a: Seq<u8>, b: Seq<u8>, at: int)
    requires
        0 <= at <= a.len(),
        at < b.len(),
        forall|k: int| 0 <= k < at ==> a[k] == b[k],
        at < a.len() ==> a[at] < b[at],
    ensures
        bytes_lt(a, b),
    decreases at,
{
    if at > 0 {
        assert(a[0] == b[0]);
        assert forall|k: int| 0 <= k < at - 1 implies a.drop_first()[k] == b.drop_first()[k] by {
            assert(a[k + 1] == b[k + 1]);
        }
        lemma_bytes_differ(a.drop_first(), b.drop_first(), at - 1);
    }
}

/// What the library writes for an `info` block has its keys in ascending
/// order, in every dictionary: the strict encoder accepts it.
pub proof fn law_info_keys_ascend(info: InfoBlock)
    ensures
        canonical(info_value(info)),
{
    lemma_keys_in_order();
    let (a, b, c, d, e, f) = info_parts(info);
    let none = Seq::<(Seq<u8>, Value)>::empty();
    if let Some(files) = info.files {
        let items = file_list_value(files)->List_0;
        assert forall|k: int| 0 <= k < items.len() implies canonical(#[trigger] items[k]) by {
            let file = files[k];
            let first = seq![("length".spec_bytes(), Value::Int(file.length))];
            let second = seq![("path".spec_bytes(), text_list_value(file.path))];
            let texts = text_list_value(file.path)->List_0;
            assert forall|j: int| 0 <= j < texts.len() implies canonical(#[trigger] texts[j]) by {}
            assert(canonical(text_list_value(file.path)));
            lemma_keys_extend(none, first, "length".spec_bytes(), "path".spec_bytes());
            lemma_below_longer("path".spec_bytes());
            lemma_keys_extend(
                none + first,
                second,
                "path".spec_bytes(),
                "path".spec_bytes().push(0),
            );
            assert(none + first + second =~= file_value(file)->Dict_0);
            lemma_canonical_dict(file_value(file)->Dict_0);
        }
        assert(canonical(file_list_value(files)));
    }
    lemma_keys_extend(none, a, "files".spec_bytes(), "length".spec_bytes());
    lemma_keys_extend(none + a, b, "length".spec_bytes(), "name".spec_bytes());
    lemma_keys_extend(none + a + b, c, "name".spec_bytes(), "piece length".spec_bytes());
    lemma_keys_extend(none + a + b + c, d, "piece length".spec_bytes(), "pieces".spec_bytes());
    lemma_keys_extend(none + a + b + c + d, e, "pieces".spec_bytes(), "private".spec_bytes());
    lemma_below_longer("private".spec_bytes());
    lemma_keys_extend(
        none + a + b + c + d + e,
        f,
        "private".spec_bytes(),
        "private".spec_bytes().push(0),
    );
    assert(none + a + b + c + d + e + f =~= info_entries(info));
    lemma_canonical_dict(info_entries(info));
}

/// What the library writes for a metainfo without the key `hash`, which
/// stands behind `info` out of order, has its keys in ascending order.
pub proof fn law_torrent_keys_ascend(t: Metainfo)
    requires
        t.hash is None,
    ensures
        canonical(torrent_value(t)),
{
    lemma_keys_in_order();
    let (a, b, c, d, e, f, g, h) = top_parts(t);
    let none = Seq::<(Seq<u8>, Value)>::empty();
    if let Some(info) = t.info {
        law_info_keys_ascend(info);
    }
    if let Some(tiers) = t.announce_list {
        let items = tiers_value(tiers)->List_0;
        assert forall|k: int| 0 <= k < items.len() implies canonical(#[trigger] items[k]) by {
            let texts = text_list_value(tiers[k])->List_0;
            assert forall|j: int| 0 <= j < texts.len() implies canonical(#[trigger] texts[j]) by {}
        }
        assert(canonical(tiers_value(tiers)));
    }
    lemma_keys_extend(none, a, "announce".spec_bytes(), "announce-list".spec_bytes());
    lemma_keys_extend(none + a, b, "announce-list".spec_bytes(), "comment".spec_bytes());
    lemma_keys_extend(none + a + b, c, "comment".spec_bytes(), "created by".spec_bytes());
    lemma_keys_extend(none + a + b + c, d, "created by".spec_bytes(), "creation date".spec_bytes());
    lemma_keys_extend(
        none + a + b + c + d,
        e,
        "creation date".spec_bytes(),
        "encoding".spec_bytes(),
    );
    lemma_keys_extend(none + a + b + c + d + e, f, "encoding".spec_bytes(), "info".spec_bytes());
    lemma_below_longer("info".spec_bytes());
    lemma_keys_extend(
        none + a + b + c + d + e + f,
        g,
        "info".spec_bytes(),
        "info".spec_bytes().push(0),
    );
    assert(h =~= none);
    assert(none + a + b + c + d + e + f + g =~= torrent_entries(t));
    lemma_canonical_dict(torrent_entries(t));
}

} // verus!
