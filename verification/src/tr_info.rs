//! The `info` dictionary of a torrent.

use vstd::prelude::*;
use vstd::string::StringSliceAdditionalSpecFns;
use crate::bencode::{
    bencode_bytes, bencode_string, bencode_uint, dict_find, dict_get, encode, encode_entries,
    lemma_encode_entries_push, lemma_view_parts, text_value, Bencode, Value,
    DICT_START, END,
};
use crate::hashing::{hex_encode, hex_text, sha1, sha1_digest};
use crate::hashing::{
    hash_tr_files, joined_all, piece_bytes, pieces_of, split_hash_pieces, SHA1_HASH_SIZE,
};
use crate::planner::piece_count;
use crate::torrent::WalkMode;
use crate::walk::{arranged, consistent, index_range, sort_files, sorted};
use crate::planner::{calc_piece_file_info, file_lengths, plan_of, FileHashInfo};
use crate::verify::{verify_tr_files, Evidence, FailedInfo};
use crate::tr_file::{
    bencode_file_list, file_entries, file_list_value, files_of, read_file_list, FileEntry,
    TrFile,
};
use crate::utils::{read_text, text_of, ErrorView, TrError, TrResult};

verus! {

/// The `info` dictionary: what the torrent holds, and the digests of its pieces.
#[derive(Debug, Clone, PartialEq, Eq)]
pub struct TrInfo {
    /// The files of a multi-file torrent, in the order in which they are hashed.
    pub files: Option<Vec<TrFile>>,
    /// The length of the one file of a single-file torrent.
    pub length: Option<u64>,
    /// The name of the target.
    pub name: Option<String>,
    /// The number of bytes in each piece but the last.
    pub piece_length: u64,
    /// The SHA-1 digests of the pieces, one after the other.
    pub pieces: Vec<u8>,
    /// Whether clients must find peers through the tracker alone.
    pub private: bool,
}

/// An `info` dictionary as mathematics sees it.
pub struct InfoBlock {
    pub files: Option<Seq<FileEntry>>,
    pub length: Option<int>,
    pub name: Option<Seq<char>>,
    pub piece_length: int,
    pub pieces: Seq<u8>,
    pub private: bool,
}

impl View for TrInfo {
    type V = InfoBlock;

    open spec fn view(&self) -> InfoBlock {
        InfoBlock {
            files: match self.files {
                Some(files) => Some(file_entries(files@)),
                None => None,
            },
            length: match self.length {
                Some(n) => Some(n as int),
                None => None,
            },
            name: match self.name {
                Some(name) => Some(name@),
                None => None,
            },
            piece_length: self.piece_length as int,
            pieces: self.pieces@,
            private: self.private,
        }
    }
}

/// The lengths of the entries of a file list.
pub open spec fn entry_lengths(files: Seq<FileEntry>) -> Seq<int> {
    Seq::new(files.len(), |k: int| files[k].length)
}

impl InfoBlock {
    /// The files of the torrent: those of a multi-file torrent, or the one
    /// file of a single-file torrent, which has an empty path. Nothing where
    /// the block has neither `files` nor `length`.
    pub open spec fn file_list(self) -> Option<Seq<FileEntry>> {
        match self.files {
            Some(files) => Some(files),
            None => match self.length {
                Some(n) => Some(seq![FileEntry { length: n, path: Seq::empty() }]),
                None => None,
            },
        }
    }

    /// The digests that `pieces` holds, twenty bytes each.
    pub open spec fn stored_digests(self) -> Seq<Seq<u8>> {
        Seq::new(
            self.pieces.len() / (SHA1_HASH_SIZE as nat),
            |k: int| self.pieces.subrange(k * SHA1_HASH_SIZE, (k + 1) * SHA1_HASH_SIZE),
        )
    }

    /// What is known of a target of this torrent, given the lengths of its
    /// files on disk and the digests computed for the pieces that can be hashed.
    pub open spec fn evidence(self, on_disk: Seq<Option<u64>>, computed: Seq<Seq<u8>>) -> Evidence {
        let lengths = entry_lengths(self.file_list()->Some_0);
        Evidence {
            plan: plan_of(lengths, self.piece_length),
            lengths,
            on_disk,
            stored: self.stored_digests(),
            computed,
        }
    }
}

/// The file entries of files held in memory: each with its path and the
/// length of its bytes.
pub open spec fn given_entries(paths: Seq<Seq<Seq<char>>>, contents: Seq<Seq<u8>>) -> Seq<
    FileEntry,
> {
    Seq::new(paths.len(), |k: int| FileEntry { length: contents[k].len() as int, path: paths[k] })
}

/// The entries of the dictionary that stands for an `info` block, in the order
/// in which they are written: `files`, `length`, `name`, `piece length`,
/// `pieces`, `private`. `files`, `length` and `name` are written where they
/// are present, `private` only where it is set.
pub open spec fn info_entries(info: InfoBlock) -> Seq<(Seq<u8>, Value)> {
    let files = match info.files {
        Some(files) => seq![("files".spec_bytes(), file_list_value(files))],
        None => seq![],
    };
    let length = match info.length {
        Some(n) => seq![("length".spec_bytes(), Value::Int(n))],
        None => seq![],
    };
    let name = match info.name {
        Some(name) => seq![("name".spec_bytes(), text_value(name))],
        None => seq![],
    };
    let fixed = seq![
        ("piece length".spec_bytes(), Value::Int(info.piece_length)),
        ("pieces".spec_bytes(), Value::Bytes(info.pieces)),
    ];
    let private = if info.private {
        seq![("private".spec_bytes(), Value::Int(1))]
    } else {
        seq![]
    };
    files + length + name + fixed + private
}

/// The dictionary that stands for an `info` block.
pub open spec fn info_value(info: InfoBlock) -> Value {
    Value::Dict(info_entries(info))
}

/// What a lookup found, as mathematics sees it.
pub open spec fn found_view(found: Option<&Bencode>) -> Option<Value> {
    match found {
        Some(b) => Some(b@),
        None => None,
    }
}

/// A text that may be there: the text of a byte string, nothing for no value
/// and for a value of another kind.
pub open spec fn optional_text(v: Option<Value>) -> Result<Option<Seq<char>>, ErrorView> {
    match v {
        Some(Value::Bytes(b)) => match text_of(b) {
            Ok(text) => Ok(Some(text)),
            Err(e) => Err(e),
        },
        _ => Ok(None),
    }
}

/// `files`: the file list of a multi-file torrent, where the key holds a list.
pub open spec fn files_field(m: Seq<(Seq<u8>, Value)>) -> Result<
    Option<Seq<FileEntry>>,
    ErrorView,
> {
    match dict_get(m, "files".spec_bytes()) {
        Some(Value::List(items)) => match files_of(items) {
            Ok(files) => Ok(Some(files)),
            Err(e) => Err(e),
        },
        _ => Ok(None),
    }
}

/// `length`: the length of the file of a single-file torrent, where the key
/// holds an integer that fits in 64 bits without sign.
pub open spec fn length_field(m: Seq<(Seq<u8>, Value)>) -> Option<int> {
    match dict_get(m, "length".spec_bytes()) {
        Some(Value::Int(n)) => if 0 <= n <= u64::MAX {
            Some(n)
        } else {
            None
        },
        _ => None,
    }
}

/// `piece length`: a positive integer that fits in 64 bits.
pub open spec fn piece_length_field(m: Seq<(Seq<u8>, Value)>) -> Result<int, ErrorView> {
    match dict_get(m, "piece length".spec_bytes()) {
        Some(Value::Int(n)) => if 1 <= n <= u64::MAX {
            Ok(n)
        } else {
            Err(ErrorView::InvalidTorrent("piece length invalid"@))
        },
        _ => Err(ErrorView::InvalidTorrent("piece length missing"@)),
    }
}

/// `pieces`: a byte string.
pub open spec fn pieces_field(m: Seq<(Seq<u8>, Value)>) -> Result<Seq<u8>, ErrorView> {
    match dict_get(m, "pieces".spec_bytes()) {
        Some(Value::Bytes(b)) => Ok(b),
        _ => Err(ErrorView::InvalidTorrent("pieces missing"@)),
    }
}

/// `private`: set where the key holds an integer other than zero.
pub open spec fn private_field(m: Seq<(Seq<u8>, Value)>) -> bool {
    match dict_get(m, "private".spec_bytes()) {
        Some(Value::Int(n)) => n != 0,
        _ => false,
    }
}

/// The `info` block that the entries of a dictionary write. The fields are
/// read in the order `files`, `name`, `piece length`, `pieces`, and the first
/// that fails decides the error; then exactly one of `files` and `length` must
/// be there, and `pieces` must be a whole number of digests.
pub open spec fn info_of_entries(m: Seq<(Seq<u8>, Value)>) -> Result<InfoBlock, ErrorView> {
    let files = files_field(m);
    let length = length_field(m);
    let name = optional_text(dict_get(m, "name".spec_bytes()));
    let piece_length = piece_length_field(m);
    let pieces = pieces_field(m);
    if files is Err {
        Err(files->Err_0)
    } else if name is Err {
        Err(name->Err_0)
    } else if piece_length is Err {
        Err(piece_length->Err_0)
    } else if pieces is Err {
        Err(pieces->Err_0)
    } else if (files->Ok_0 is Some) == (length is Some) {
        Err(ErrorView::InvalidTorrent("info must hold exactly one of files and length"@))
    } else if pieces->Ok_0.len() % (SHA1_HASH_SIZE as nat) != 0 {
        Err(ErrorView::InvalidTorrent("pieces length is not a multiple of 20"@))
    } else {
        Ok(
            InfoBlock {
                files: files->Ok_0,
                length,
                name: name->Ok_0,
                piece_length: piece_length->Ok_0,
                pieces: pieces->Ok_0,
                private: private_field(m),
            },
        )
    }
}

/// The `info` block that a value writes: the value must be a dictionary.
pub open spec fn info_of_value(v: Value) -> Result<InfoBlock, ErrorView> {
    match v {
        Value::Dict(m) => info_of_entries(m),
        _ => Err(ErrorView::InvalidTorrent("missing info dict"@)),
    }
}

/// Reads a text that may be there.
pub fn read_optional_text(found: Option<&Bencode>) -> (r: TrResult<Option<String>>)
    ensures
        match optional_text(found_view(found)) {
            Ok(Some(text)) => r is Ok && r->Ok_0 is Some && r->Ok_0->Some_0@ == text,
            Ok(None) => r is Ok && r->Ok_0 is None,
            Err(e) => r is Err && r->Err_0@ == e,
        },
{
    match found {
        Some(Bencode::Bytes(b)) => match read_text(b) {
            Ok(text) => Ok(Some(text)),
            Err(e) => Err(e),
        },
        _ => Ok(None),
    }
}

/// Appends one entry to a dictionary that is being written.
pub(crate) fn put_entry(
    out: &mut Vec<u8>,
    key: &str,
    value: Vec<u8>,
    Ghost(entries): Ghost<Seq<(Seq<u8>, Value)>>,
    Ghost(v): Ghost<Value>,
)
    requires
        old(out)@ == seq![DICT_START] + encode_entries(entries),
        value@ == encode(v),
    ensures
        final(out)@ == seq![DICT_START] + encode_entries(entries.push((key.spec_bytes(), v))),
{
    let mut piece: Vec<u8> = bencode_string(key);
    out.append(&mut piece);
    let mut value = value;
    out.append(&mut value);
    proof {
        lemma_encode_entries_push(entries, key.spec_bytes(), v);
    }
}

impl TrInfo {
    /// Reads the `info` block that a value writes.
    pub fn from_bencode(value: &Bencode) -> (r: TrResult<TrInfo>)
        ensures
            match info_of_value(value@) {
                Ok(info) => r is Ok && r->Ok_0@ == info,
                Err(e) => r is Err && r->Err_0@ == e,
            },
    {
        proof {
            lemma_view_parts(*value);
        }
        let entries: &Vec<(Vec<u8>, Bencode)> = match value {
            Bencode::Dict(entries) => entries,
            _ => {
                return Err(TrError::invalid("missing info dict"));
            },
        };
        let files: Option<Vec<TrFile>> = match dict_find(entries, "files") {
            Some(found) => {
                proof {
                    lemma_view_parts(*found);
                }
                match found {
                    Bencode::List(items) => match read_file_list(items) {
                        Ok(files) => Some(files),
                        Err(e) => {
                            return Err(e);
                        },
                    },
                    _ => None,
                }
            },
            None => None,
        };
        let length: Option<u64> = match dict_find(entries, "length") {
            Some(Bencode::Int(n)) => {
                if 0 <= *n && *n <= u64::MAX as i128 {
                    Some(*n as u64)
                } else {
                    None
                }
            },
            _ => None,
        };
        let name: Option<String> = match read_optional_text(dict_find(entries, "name")) {
            Ok(name) => name,
            Err(e) => {
                return Err(e);
            },
        };
        let piece_length: u64 = match dict_find(entries, "piece length") {
            Some(Bencode::Int(n)) => {
                if 1 <= *n && *n <= u64::MAX as i128 {
                    *n as u64
                } else {
                    return Err(TrError::invalid("piece length invalid"));
                }
            },
            _ => {
                return Err(TrError::invalid("piece length missing"));
            },
        };
        let pieces: Vec<u8> = match dict_find(entries, "pieces") {
            Some(Bencode::Bytes(b)) => b.clone(),
            _ => {
                return Err(TrError::invalid("pieces missing"));
            },
        };
        let private: bool = match dict_find(entries, "private") {
            Some(Bencode::Int(n)) => *n != 0,
            _ => false,
        };
        if files.is_some() == length.is_some() {
            return Err(TrError::invalid("info must hold exactly one of files and length"));
        }
        if pieces.len() % SHA1_HASH_SIZE != 0 {
            return Err(TrError::invalid("pieces length is not a multiple of 20"));
        }
        Ok(TrInfo { files, length, name, piece_length, pieces, private })
    }

    /// The `info` dictionary of a target: a single file of the length of the
    /// one entry of `tr_files`, or the files of a directory.
    pub fn new(
        name: String,
        tr_files: Vec<TrFile>,
        single_file: bool,
        piece_length: u64,
        private: bool,
        pieces: Vec<u8>,
    ) -> (r: TrResult<TrInfo>)
        ensures
            single_file && tr_files.len() != 1 ==> r is Err && r->Err_0@
                == ErrorView::InvalidPath("a single file is one entry"@),
            single_file && tr_files.len() == 1 ==> r is Ok && r->Ok_0@ == (InfoBlock {
                files: None,
                length: Some(tr_files[0].length as int),
                name: Some(name@),
                piece_length: piece_length as int,
                pieces: pieces@,
                private,
            }),
            !single_file ==> r is Ok && r->Ok_0@ == (InfoBlock {
                files: Some(file_entries(tr_files@)),
                length: None,
                name: Some(name@),
                piece_length: piece_length as int,
                pieces: pieces@,
                private,
            }),
    {
        if single_file {
            if tr_files.len() != 1 {
                return Err(TrError::InvalidPath("a single file is one entry".to_owned()));
            }
            let length: u64 = tr_files[0].length;
            Ok(
                TrInfo {
                    files: None,
                    length: Some(length),
                    name: Some(name),
                    piece_length,
                    pieces,
                    private,
                },
            )
        } else {
            Ok(
                TrInfo {
                    files: Some(tr_files),
                    length: None,
                    name: Some(name),
                    piece_length,
                    pieces,
                    private,
                },
            )
        }
    }

    /// The `info` dictionary of a target whose files are held in memory: the
    /// files are put into the order of `walk_mode`, and their bytes are hashed
    /// in that order. `paths` holds the path of each file and `contents` its
    /// bytes; a single file has an empty path. The pieces depend on the bytes
    /// of the files in their order and on the piece length alone.
    pub fn from_contents(
        name: String,
        paths: Vec<Vec<String>>,
        contents: &[Vec<u8>],
        single_file: bool,
        piece_length: u64,
        private: bool,
        walk_mode: WalkMode,
    ) -> (r: TrResult<(TrInfo, Vec<usize>)>)
        ensures
            piece_length == 0 ==> r is Err && r->Err_0@ == ErrorView::InvalidTorrent(
                "piece length invalid"@,
            ),
            piece_length > 0 && paths.len() != contents.len() ==> r is Err && r->Err_0@
                == ErrorView::InvalidPath("each file needs its bytes"@),
            piece_length > 0 && paths.len() == contents.len() && single_file && !(paths.len() == 1
                && paths[0].len() == 0) ==> r is Err && r->Err_0@ == ErrorView::InvalidPath(
                "a single file is one entry without a path"@,
            ),
            piece_length > 0 && paths.len() == contents.len() && (single_file ==> paths.len() == 1
                && paths[0].len() == 0) ==> r is Ok && ({
                let info = r->Ok_0.0@;
                let order = r->Ok_0.1@;
                let given = given_entries(paths.deep_view(), contents.deep_view());
                &&& order.to_multiset() == index_range(0, paths.len() as int).to_multiset()
                &&& order.len() == paths.len()
                &&& forall|i: int| 0 <= i < order.len() ==> (#[trigger] order[i]) < paths.len()
                &&& consistent(given, walk_mode) ==> sorted(order, given, walk_mode)
                &&& info.file_list() == Some(arranged(given, order))
                &&& info.files is None == single_file
                &&& info.name == Some(name@)
                &&& info.private == private
                &&& info.piece_length == piece_length
                &&& info.pieces == pieces_of(
                    joined_all(Seq::new(order.len(), |i: int| contents.deep_view()[order[i] as int])),
                    piece_length as int,
                )
                &&& info.stored_digests().len() == piece_count(
                    joined_all(
                        Seq::new(order.len(), |i: int| contents.deep_view()[order[i] as int]),
                    ).len() as int,
                    piece_length as int,
                )
                &&& forall|k: int|
                    0 <= k < info.stored_digests().len() ==> #[trigger] info.stored_digests()[k]
                        == sha1_digest(
                        piece_bytes(
                            joined_all(
                                Seq::new(
                                    order.len(),
                                    |i: int| contents.deep_view()[order[i] as int],
                                ),
                            ),
                            piece_length as int,
                            k,
                        ),
                    )
            }),
    {
        if piece_length == 0 {
            return Err(TrError::invalid("piece length invalid"));
        }
        if paths.len() != contents.len() {
            return Err(TrError::InvalidPath("each file needs its bytes".to_owned()));
        }
        if single_file && !(paths.len() == 1 && paths[0].len() == 0) {
            return Err(
                TrError::InvalidPath("a single file is one entry without a path".to_owned()),
            );
        }
        let ghost given = given_entries(paths.deep_view(), contents.deep_view());
        proof {
            if single_file {
                assert(paths.deep_view()[0] =~= Seq::<Seq<char>>::empty());
            }
        }
        let mut tr_files: Vec<TrFile> = Vec::new();
        let mut paths = paths;
        let mut k: usize = paths.len();
        let ghost all_paths = paths.deep_view();
        // The files are taken from the end, and put into their order below.
        let mut reversed: Vec<TrFile> = Vec::new();
        while k > 0
            invariant
                k == paths.len(),
                k <= contents.len(),
                all_paths.len() == contents.len(),
                paths.deep_view() == all_paths.take(k as int),
                reversed.len() == contents.len() - k,
                forall|i: int|
                    0 <= i < reversed.len() ==> (#[trigger] reversed[i])@ == (FileEntry {
                        length: contents[contents.len() - 1 - i].len() as int,
                        path: all_paths[contents.len() - 1 - i],
                    }),
            decreases k,
        {
            k -= 1;
            let ghost before = paths.deep_view();
            let path: Vec<String> = match paths.pop() {
                Some(path) => path,
                None => Vec::new(),
            };
            proof {
                assert(before[k as int] == path.deep_view());
                assert(paths.deep_view() =~= all_paths.take(k as int));
            }
            reversed.push(TrFile { length: contents[k].len() as u64, path });
        }
        let mut i: usize = reversed.len();
        while i > 0
            invariant
                i <= reversed.len(),
                reversed.len() == contents.len(),
                all_paths.len() == contents.len(),
                tr_files.len() == reversed.len() - i,
                forall|j: int|
                    0 <= j < reversed.len() ==> (#[trigger] reversed[j])@ == (FileEntry {
                        length: contents[contents.len() - 1 - j].len() as int,
                        path: all_paths[contents.len() - 1 - j],
                    }),
                forall|j: int|
                    0 <= j < tr_files.len() ==> (#[trigger] tr_files[j])@ == (FileEntry {
                        length: contents[j].len() as int,
                        path: all_paths[j],
                    }),
            decreases i,
        {
            i -= 1;
            tr_files.push(reversed[i].duplicate());
        }
        proof {
            assert(file_entries(tr_files@) =~= given) by {
                assert forall|j: int| 0 <= j < tr_files.len() implies file_entries(tr_files@)[j]
                    == given[j] by {
                    assert(contents.deep_view()[j] =~= contents[j]@);
                }
            }
        }
        let order: Vec<usize> = sort_files(&mut tr_files, walk_mode);
        let mut ordered: Vec<Vec<u8>> = Vec::new();
        let mut j: usize = 0;
        while j < order.len()
            invariant
                j <= order.len(),
                order.len() == contents.len(),
                forall|x: int| 0 <= x < order.len() ==> (#[trigger] order[x]) < contents.len(),
                ordered.len() == j,
                forall|x: int| 0 <= x < j ==> (#[trigger] ordered[x])@ == contents[order[x] as int]@,
            decreases order.len() - j,
        {
            ordered.push(vstd::slice::slice_to_vec(contents[order[j]].as_slice()));
            j += 1;
        }
        proof {
            let wanted = Seq::new(order@.len(), |x: int| contents.deep_view()[order@[x] as int]);
            assert(ordered.deep_view() =~= wanted) by {
                assert forall|x: int| 0 <= x < ordered.len() implies ordered.deep_view()[x]
                    == wanted[x] by {
                    assert(ordered.deep_view()[x] =~= ordered[x]@);
                    assert(contents.deep_view()[order@[x] as int] =~= contents[order@[x] as int]@);
                }
            }
        }
        let pieces: Vec<u8> = hash_tr_files(ordered.as_slice(), piece_length);
        let ghost sorted_entries = file_entries(tr_files@);
        let ghost hashed = pieces@;
        proof {
            let count = piece_count(joined_all(ordered.deep_view()).len() as int, piece_length as int);
            crate::planner::lemma_piece_count(
                joined_all(ordered.deep_view()).len() as int,
                piece_length as int,
            );
            assert(hashed.len() / (SHA1_HASH_SIZE as nat) == count) by (nonlinear_arith)
                requires
                    hashed.len() == SHA1_HASH_SIZE * count,
                    count >= 0,
                    SHA1_HASH_SIZE == 20,
            ;
        }
        proof {
            if single_file {
                assert(sorted_entries[0] == given[order@[0] as int]);
                assert(order@[0] == 0);
                assert(sorted_entries =~= seq![sorted_entries[0]]);
            }
        }
        match TrInfo::new(name, tr_files, single_file, piece_length, private, pieces) {
            Ok(info) => {
                proof {
                    if single_file {
                        assert(info@.file_list()->Some_0 =~= sorted_entries);
                    }
                }
                Ok((info, order))
            },
            Err(e) => Err(e),
        }
    }

    /// The files of the torrent, in the order in which they are hashed: those
    /// of a multi-file torrent, or the one file of a single-file torrent.
    pub fn file_list(&self) -> (r: TrResult<Vec<TrFile>>)
        ensures
            match self@.file_list() {
                Some(files) => r is Ok && file_entries(r->Ok_0@) == files,
                None => r is Err && r->Err_0@ == ErrorView::MissingField("length"@),
            },
    {
        let mut list: Vec<TrFile> = Vec::new();
        match &self.files {
            Some(files) => {
                let mut k: usize = 0;
                while k < files.len()
                    invariant
                        k <= files.len(),
                        list.len() == k,
                        forall|i: int| 0 <= i < k ==> (#[trigger] list[i])@ == files[i]@,
                    decreases files.len() - k,
                {
                    list.push(files[k].duplicate());
                    k += 1;
                }
                assert(file_entries(list@) =~= file_entries(files@));
                Ok(list)
            },
            None => match self.length {
                Some(n) => {
                    let path: Vec<String> = Vec::new();
                    assert(path.deep_view() =~= Seq::<Seq<char>>::empty());
                    list.push(TrFile { length: n, path });
                    assert(file_entries(list@) =~= seq![
                        FileEntry { length: n as int, path: Seq::empty() },
                    ]);
                    Ok(list)
                },
                None => Err(TrError::MissingField("length".to_owned())),
            },
        }
    }

    /// Holds a target against the torrent, and says which pieces and files
    /// fail. `on_disk` holds for each file of `file_list` its length on disk, or
    /// nothing where it is missing; `calc_piece_slices` holds the digests of
    /// the pieces that can be hashed, in their order.
    pub fn verify(&self, on_disk: &[Option<u64>], calc_piece_slices: &[Vec<u8>]) -> (r: TrResult<
        FailedInfo,
    >)
        ensures
            self@.file_list() is None ==> r is Err && r->Err_0@ == ErrorView::MissingField(
                "length"@,
            ),
            self@.file_list() is Some && self.piece_length == 0 ==> r is Err && r->Err_0@
                == ErrorView::InvalidTorrent("piece length invalid"@),
            self@.file_list() is Some && self.piece_length > 0 ==> r is Ok && ({
                let e = self@.evidence(on_disk@, calc_piece_slices.deep_view());
                let failed = r->Ok_0;
                &&& forall|k: usize| (#[trigger] failed.pieces@.contains(k)) == e.piece_failed(k as int)
                &&& forall|i: usize| (#[trigger] failed.files@.contains(i)) == e.file_failed(i as int)
                &&& forall|i: usize|
                    (#[trigger] failed.files_known@.contains(i)) == e.file_known_bad(i as int)
            }),
    {
        let tr_files: Vec<TrFile> = match self.file_list() {
            Ok(list) => list,
            Err(e) => {
                return Err(e);
            },
        };
        if self.piece_length == 0 {
            return Err(TrError::invalid("piece length invalid"));
        }
        let plan: Vec<Vec<FileHashInfo>> = calc_piece_file_info(
            tr_files.as_slice(),
            self.piece_length,
        );
        let piece_slices: Vec<Vec<u8>> = split_hash_pieces(self.pieces.as_slice());
        proof {
            assert(file_lengths(tr_files@) =~= entry_lengths(self@.file_list()->Some_0));
            assert forall|k: int| 0 <= k < piece_slices.len() implies #[trigger] piece_slices.deep_view()[k]
                == self@.stored_digests()[k] by {
                assert(piece_slices.deep_view()[k] =~= piece_slices[k]@);
            }
            assert(piece_slices.deep_view() =~= self@.stored_digests());
        }
        Ok(
            verify_tr_files(
                piece_slices.as_slice(),
                tr_files.as_slice(),
                &plan,
                on_disk,
                calc_piece_slices,
            ),
        )
    }

    /// The name of the target.
    pub fn get_name(&self) -> (r: TrResult<String>)
        ensures
            match self.name {
                Some(name) => r is Ok && r->Ok_0@ == name@,
                None => r is Err && r->Err_0@ == ErrorView::MissingField("name"@),
            },
    {
        match &self.name {
            Some(name) => Ok(name.clone()),
            None => Err(TrError::MissingField("name".to_owned())),
        }
    }

    /// The encoding of the `info` dictionary.
    pub fn bencode(&self) -> (out: Vec<u8>)
        ensures
            out@ == encode(info_value(self@)),
    {
        let mut out: Vec<u8> = Vec::new();
        out.push(DICT_START);
        let ghost mut entries: Seq<(Seq<u8>, Value)> = Seq::empty();
        if let Some(files) = &self.files {
            let value: Vec<u8> = bencode_file_list(files.as_slice());
            let ghost v = file_list_value(file_entries(files@));
            put_entry(&mut out, "files", value, Ghost(entries), Ghost(v));
            proof {
                entries = entries.push(("files".spec_bytes(), v));
            }
        }
        if let Some(length) = self.length {
            let value: Vec<u8> = bencode_uint(length);
            let ghost v = Value::Int(length as int);
            put_entry(&mut out, "length", value, Ghost(entries), Ghost(v));
            proof {
                entries = entries.push(("length".spec_bytes(), v));
            }
        }
        if let Some(name) = &self.name {
            let value: Vec<u8> = bencode_string(name.as_str());
            let ghost v = text_value(name@);
            put_entry(&mut out, "name", value, Ghost(entries), Ghost(v));
            proof {
                entries = entries.push(("name".spec_bytes(), v));
            }
        }
        let value: Vec<u8> = bencode_uint(self.piece_length);
        let ghost v = Value::Int(self.piece_length as int);
        put_entry(&mut out, "piece length", value, Ghost(entries), Ghost(v));
        proof {
            entries = entries.push(("piece length".spec_bytes(), v));
        }
        let value: Vec<u8> = bencode_bytes(self.pieces.as_slice());
        let ghost v = Value::Bytes(self.pieces@);
        put_entry(&mut out, "pieces", value, Ghost(entries), Ghost(v));
        proof {
            entries = entries.push(("pieces".spec_bytes(), v));
        }
        if self.private {
            let value: Vec<u8> = bencode_uint(1);
            let ghost v = Value::Int(1);
            put_entry(&mut out, "private", value, Ghost(entries), Ghost(v));
            proof {
                entries = entries.push(("private".spec_bytes(), v));
            }
        }
        assert(entries =~= info_entries(self@));
        out.push(END);
        out
    }

    /// The SHA-1 digest of the encoded `info` dictionary, as forty hexadecimal digits.
    pub fn hash(&self) -> (text: String)
        ensures
            text@ == hex_text(sha1_digest(encode(info_value(self@)))),
    {
        let encoded: Vec<u8> = self.bencode();
        let digest: Vec<u8> = sha1(encoded.as_slice());
        hex_encode(digest.as_slice())
    }
}

} // verus!
