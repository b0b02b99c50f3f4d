//! One entry of a torrent's file list, and the tree of a file list.

use vstd::prelude::*;
use vstd::slice::slice_subrange;
use vstd::string::StringSliceAdditionalSpecFns;
use crate::bencode::{
    bencode_string, bencode_string_list, bencode_uint, dict_find, dict_get, encode,
    encode_items, items_view, lemma_encode_entries_push,
    lemma_encode_items_push, lemma_view_parts, text_list_value, Bencode, Value, DICT_START,
    END, LIST_START,
};
use crate::utils::{read_text, text_equal, text_of, ErrorView, TrError, TrResult};

verus! {

/// One file of a torrent: its length in bytes, and its path below the
/// torrent's root as text segments. The path is empty in a single-file torrent.
#[derive(Debug, Clone, PartialEq, Eq)]
pub struct TrFile {
    pub length: u64,
    pub path: Vec<String>,
}

/// A file entry as mathematics sees it.
pub struct FileEntry {
    pub length: int,
    pub path: Seq<Seq<char>>,
}

impl View for TrFile {
    type V = FileEntry;

    open spec fn view(&self) -> FileEntry {
        FileEntry { length: self.length as int, path: self.path.deep_view() }
    }
}

/// The views of a list of files.
pub open spec fn file_entries(files: Seq<TrFile>) -> Seq<FileEntry> {
    Seq::new(files.len(), |k: int| files[k]@)
}

/// The dictionary that stands for a file entry: `length`, then `path`.
pub open spec fn file_value(f: FileEntry) -> Value {
    Value::Dict(
        seq![
            ("length".spec_bytes(), Value::Int(f.length)),
            ("path".spec_bytes(), text_list_value(f.path)),
        ],
    )
}

/// The list that stands for a file list.
pub open spec fn file_list_value(files: Seq<FileEntry>) -> Value {
    Value::List(Seq::new(files.len(), |k: int| file_value(files[k])))
}

/// The path that a list of values writes: each value a byte string that is
/// not empty and holds UTF-8 text. The first value that is not so decides the
/// error.
pub open spec fn path_of(parts: Seq<Value>) -> Result<Seq<Seq<char>>, ErrorView>
    decreases parts.len(),
{
    if parts.len() == 0 {
        Ok(Seq::empty())
    } else {
        match path_of(parts.drop_last()) {
            Err(e) => Err(e),
            Ok(before) => match parts.last() {
                Value::Bytes(b) => if b.len() == 0 {
                    Err(ErrorView::InvalidTorrent("file path invalid"@))
                } else {
                    match text_of(b) {
                        Ok(segment) => Ok(before.push(segment)),
                        Err(e) => Err(e),
                    }
                },
                _ => Err(ErrorView::InvalidTorrent("file path invalid"@)),
            },
        }
    }
}

/// The file entry that a value writes: a dictionary whose `length` is an
/// integer that fits in 64 bits without sign, and whose `path` is a list that
/// writes a path.
pub open spec fn file_of_value(v: Value) -> Result<FileEntry, ErrorView> {
    match v {
        Value::Dict(m) => match dict_get(m, "length".spec_bytes()) {
            Some(Value::Int(n)) => if 0 <= n <= u64::MAX {
                match dict_get(m, "path".spec_bytes()) {
                    Some(Value::List(parts)) => match path_of(parts) {
                        Ok(path) => Ok(FileEntry { length: n, path }),
                        Err(e) => Err(e),
                    },
                    _ => Err(ErrorView::InvalidTorrent("file path invalid"@)),
                }
            } else {
                Err(ErrorView::InvalidTorrent("file length invalid"@))
            },
            _ => Err(ErrorView::InvalidTorrent("file length invalid"@)),
        },
        _ => Err(ErrorView::InvalidTorrent("file entry is not a dictionary"@)),
    }
}

/// The file list that a list of values writes. The first value that writes
/// no file entry decides the error.
pub open spec fn files_of(items: Seq<Value>) -> Result<Seq<FileEntry>, ErrorView>
    decreases items.len(),
{
    if items.len() == 0 {
        Ok(Seq::empty())
    } else {
        match files_of(items.drop_last()) {
            Err(e) => Err(e),
            Ok(before) => match file_of_value(items.last()) {
                Ok(file) => Ok(before.push(file)),
                Err(e) => Err(e),
            },
        }
    }
}

/// Reads the path that a list of values writes.
fn read_path(parts: &Vec<Bencode>) -> (r: TrResult<Vec<String>>)
    ensures
        match path_of(items_view(parts@)) {
            Ok(path) => r is Ok && r->Ok_0.deep_view() == path,
            Err(e) => r is Err && r->Err_0@ == e,
        },
{
    let ghost all = items_view(parts@);
    let mut path: Vec<String> = Vec::new();
    let mut k: usize = 0;
    assert(all.take(0).len() == 0);
    assert(path.deep_view() =~= Seq::<Seq<char>>::empty());
    while k < parts.len()
        invariant
            k <= parts.len(),
            all == items_view(parts@),
            path_of(all.take(k as int)) == Ok::<Seq<Seq<char>>, ErrorView>(path.deep_view()),
        decreases parts.len() - k,
    {
        proof {
            assert(all.take(k + 1).drop_last() == all.take(k as int));
            assert(all.take(k + 1).last() == parts[k as int]@);
            if path_of(all.take(k + 1)) is Err {
                lemma_path_error_stays(all, k + 1);
            }
        }
        match &parts[k] {
            Bencode::Bytes(b) => {
                if b.len() == 0 {
                    return Err(TrError::invalid("file path invalid"));
                }
                match read_text(b) {
                    Ok(segment) => {
                        let ghost before = path.deep_view();
                        path.push(segment);
                        assert(path.deep_view() =~= before.push(segment@));
                    },
                    Err(e) => {
                        return Err(e);
                    },
                }
            },
            _ => {
                return Err(TrError::invalid("file path invalid"));
            },
        }
        k += 1;
    }
    assert(all.take(k as int) == all);
    Ok(path)
}

/// An error among the first `k` parts is the error of the whole list.
proof fn lemma_path_error_stays(parts: Seq<Value>, k: int)
    requires
        0 <= k <= parts.len(),
        path_of(parts.take(k)) is Err,
    ensures
        path_of(parts) == path_of(parts.take(k)),
    decreases parts.len() - k,
{
    if k < parts.len() {
        assert(parts.take(k + 1).drop_last() == parts.take(k));
        lemma_path_error_stays(parts, k + 1);
    } else {
        assert(parts.take(k) == parts);
    }
}

/// An error among the first `k` items is the error of the whole list.
proof fn lemma_files_error_stays(items: Seq<Value>, k: int)
    requires
        0 <= k <= items.len(),
        files_of(items.take(k)) is Err,
    ensures
        files_of(items) == files_of(items.take(k)),
    decreases items.len() - k,
{
    if k < items.len() {
        assert(items.take(k + 1).drop_last() == items.take(k));
        lemma_files_error_stays(items, k + 1);
    } else {
        assert(items.take(k) == items);
    }
}

/// Reads the file list that a list of values writes.
pub fn read_file_list(items: &Vec<Bencode>) -> (r: TrResult<Vec<TrFile>>)
    ensures
        match files_of(items_view(items@)) {
            Ok(files) => r is Ok && file_entries(r->Ok_0@) == files,
            Err(e) => r is Err && r->Err_0@ == e,
        },
{
    let ghost all = items_view(items@);
    let mut files: Vec<TrFile> = Vec::new();
    let mut k: usize = 0;
    assert(all.take(0).len() == 0);
    assert(file_entries(files@) =~= Seq::<FileEntry>::empty());
    while k < items.len()
        invariant
            k <= items.len(),
            all == items_view(items@),
            files_of(all.take(k as int)) == Ok::<Seq<FileEntry>, ErrorView>(file_entries(files@)),
        decreases items.len() - k,
    {
        proof {
            assert(all.take(k + 1).drop_last() == all.take(k as int));
            assert(all.take(k + 1).last() == items[k as int]@);
            if files_of(all.take(k + 1)) is Err {
                lemma_files_error_stays(all, k + 1);
            }
        }
        match TrFile::from_bencode(&items[k]) {
            Ok(file) => {
                let ghost before = file_entries(files@);
                files.push(file);
                assert(file_entries(files@) =~= before.push(file@));
            },
            Err(e) => {
                return Err(e);
            },
        }
        k += 1;
    }
    assert(all.take(k as int) == all);
    Ok(files)
}

impl TrFile {
    /// Reads the file entry that a value writes.
    pub fn from_bencode(value: &Bencode) -> (r: TrResult<TrFile>)
        ensures
            match file_of_value(value@) {
                Ok(file) => r is Ok && r->Ok_0@ == file,
                Err(e) => r is Err && r->Err_0@ == e,
            },
    {
        proof {
            lemma_view_parts(*value);
        }
        let entries: &Vec<(Vec<u8>, Bencode)> = match value {
            Bencode::Dict(entries) => entries,
            _ => {
                return Err(TrError::invalid("file entry is not a dictionary"));
            },
        };
        let length: u64 = match dict_find(entries, "length") {
            Some(Bencode::Int(n)) => {
                if 0 <= *n && *n <= u64::MAX as i128 {
                    *n as u64
                } else {
                    return Err(TrError::invalid("file length invalid"));
                }
            },
            _ => {
                return Err(TrError::invalid("file length invalid"));
            },
        };
        match dict_find(entries, "path") {
            Some(found) => {
                proof {
                    lemma_view_parts(*found);
                }
                match found {
                    Bencode::List(parts) => {
                        match read_path(parts) {
                            Ok(path) => Ok(TrFile { length, path }),
                            Err(e) => Err(e),
                        }
                    },
                    _ => Err(TrError::invalid("file path invalid")),
                }
            },
            None => Err(TrError::invalid("file path invalid")),
        }
    }

    /// The encoding of the entry: a dictionary with `length` and `path`.
    pub fn bencode(&self) -> (out: Vec<u8>)
        ensures
            out@ == encode(file_value(self@)),
    {
        let mut out: Vec<u8> = Vec::new();
        out.push(DICT_START);
        let mut piece: Vec<u8> = bencode_string("length");
        out.append(&mut piece);
        piece = bencode_uint(self.length);
        out.append(&mut piece);
        piece = bencode_string("path");
        out.append(&mut piece);
        piece = bencode_string_list(&self.path);
        out.append(&mut piece);
        out.push(END);
        proof {
            let first = ("length".spec_bytes(), Value::Int(self@.length));
            let second = ("path".spec_bytes(), text_list_value(self@.path));
            let none = Seq::<(Seq<u8>, Value)>::empty();
            lemma_encode_entries_push(none, first.0, first.1);
            lemma_encode_entries_push(none.push(first), second.0, second.1);
            assert(none.push(first).push(second) =~= seq![first, second]);
        }
        out
    }
}

/// The encoding of a file list: a list of the entries' dictionaries.
pub fn bencode_file_list(list: &[TrFile]) -> (out: Vec<u8>)
    ensures
        out@ == encode(file_list_value(file_entries(list@))),
{
    let mut out: Vec<u8> = Vec::new();
    out.push(LIST_START);
    let ghost items = file_list_value(file_entries(list@))->List_0;
    let mut k: usize = 0;
    while k < list.len()
        invariant
            k <= list.len(),
            items == file_list_value(file_entries(list@))->List_0,
            out@ == seq![LIST_START] + encode_items(items.take(k as int)),
        decreases list.len() - k,
    {
        proof {
            assert(items.take(k + 1) == items.take(k as int).push(file_value(list[k as int]@)));
            lemma_encode_items_push(items.take(k as int), file_value(list[k as int]@));
        }
        let mut piece: Vec<u8> = list[k].bencode();
        out.append(&mut piece);
        k += 1;
    }
    assert(items.take(k as int) == items);
    out.push(END);
    out
}

/// A node of the tree of a file list: a directory, or a file with its length.
/// The children stand in the order in which they were first inserted, and no
/// two of them have the same name.
#[derive(Debug)]
pub struct Node {
    pub name: String,
    /// The length of a file; nothing for a directory.
    pub length: Option<u64>,
    pub children: Vec<Node>,
}

/// A node as mathematics sees it.
pub struct Tree {
    pub name: Seq<char>,
    pub length: Option<int>,
    pub children: Seq<Tree>,
}

/// The tree that a node stands for.
pub open spec fn tree_of(node: Node) -> Tree
    decreases node,
{
    Tree {
        name: node.name@,
        length: match node.length {
            Some(n) => Some(n as int),
            None => None,
        },
        children: Seq::new(
            node.children.len() as nat,
            |k: int|
                if 0 <= k < node.children.len() {
                    tree_of(node.children[k])
                } else {
                    Tree { name: Seq::empty(), length: None, children: Seq::empty() }
                },
        ),
    }
}

impl View for Node {
    type V = Tree;

    open spec fn view(&self) -> Tree {
        tree_of(*self)
    }
}

/// Where among `children` the first one named `name` stands.
pub open spec fn child_index(children: Seq<Tree>, name: Seq<char>) -> Option<int>
    decreases children.len(),
{
    if children.len() == 0 {
        None
    } else {
        match child_index(children.drop_last(), name) {
            Some(i) => Some(i),
            None => if children.last().name == name {
                Some(children.len() - 1)
            } else {
                None
            },
        }
    }
}

/// A directory without children.
pub open spec fn empty_dir(name: Seq<char>) -> Tree {
    Tree { name, length: None, children: Seq::empty() }
}

/// The tree with a file of `size` bytes put at the path `segments`. Each
/// segment but the last names a directory, which is made where it is missing;
/// the last names the file, which is made where it is missing and otherwise
/// gets the new length. An empty path changes nothing.
pub open spec fn tree_insert(t: Tree, segments: Seq<Seq<char>>, size: int) -> Tree
    decreases segments.len(),
{
    if segments.len() == 0 {
        t
    } else {
        let name = segments[0];
        let rest = segments.drop_first();
        match child_index(t.children, name) {
            Some(i) => {
                let child = t.children[i];
                let changed = if segments.len() == 1 {
                    Tree { length: Some(size), ..child }
                } else {
                    tree_insert(child, rest, size)
                };
                Tree { children: t.children.update(i, changed), ..t }
            },
            None => {
                let fresh = if segments.len() == 1 {
                    Tree { name, length: Some(size), children: Seq::empty() }
                } else {
                    tree_insert(empty_dir(name), rest, size)
                };
                Tree { children: t.children.push(fresh), ..t }
            },
        }
    }
}

/// The tree of a file list: each file put into the tree of the files before it,
/// starting from a root directory without a name.
pub open spec fn tree_of_files(files: Seq<FileEntry>) -> Tree
    decreases files.len(),
{
    if files.len() == 0 {
        empty_dir(Seq::empty())
    } else {
        tree_insert(tree_of_files(files.drop_last()), files.last().path, files.last().length)
    }
}

/// The views of the children of a node.
pub open spec fn children_view(children: Seq<Node>) -> Seq<Tree> {
    Seq::new(children.len(), |k: int| children[k]@)
}

/// The tree of a node has the trees of its children and its name.
pub proof fn lemma_node_view(node: Node)
    ensures
        node@.children == children_view(node.children@),
        node@.name == node.name@,
{
    assert(node@.children =~= children_view(node.children@));
}

impl Node {
    /// A directory without children.
    pub fn new_dir(name: &str) -> (node: Node)
        ensures
            node@ == empty_dir(name@),
    {
        let node = Node { name: name.to_owned(), length: None, children: Vec::new() };
        assert(node@.children =~= Seq::<Tree>::empty());
        node
    }

    /// A file of `size` bytes.
    pub fn new_file(name: &str, size: u64) -> (node: Node)
        ensures
            node@ == (Tree { name: name@, length: Some(size as int), children: Seq::empty() }),
    {
        let node = Node { name: name.to_owned(), length: Some(size), children: Vec::new() };
        assert(node@.children =~= Seq::<Tree>::empty());
        node
    }

    /// Where among the children the one named `name` stands.
    fn find_child(&self, name: &str) -> (r: Option<usize>)
        ensures
            match child_index(self@.children, name@) {
                Some(i) => r == Some(i as usize) && 0 <= i < self.children.len(),
                None => r is None,
            },
    {
        let ghost all = self@.children;
        proof {
            lemma_node_view(*self);
        }
        let mut k: usize = 0;
        assert(all.take(0).len() == 0);
        while k < self.children.len()
            invariant
                k <= self.children.len(),
                all == self@.children,
                all == children_view(self.children@),
                child_index(all.take(k as int), name@) is None,
            decreases self.children.len() - k,
        {
            proof {
                assert(all.take(k + 1).drop_last() == all.take(k as int));
                assert(all.take(k + 1).last() == self.children[k as int]@);
                lemma_node_view(self.children[k as int]);
                if child_index(all.take(k + 1), name@) is Some {
                    lemma_child_index_stays(all, k + 1, name@);
                }
            }
            if text_equal(self.children[k].name.as_str(), name) {
                return Some(k);
            }
            k += 1;
        }
        assert(all.take(k as int) == all);
        None
    }

    /// Puts a file of `size` bytes into the tree at the path `segments`.
    pub fn insert_path(&mut self, segments: &[String], size: u64)
        ensures
            final(self)@ == tree_insert(old(self)@, segments.deep_view(), size as int),
        decreases segments.len(),
    {
        if segments.len() == 0 {
            return ;
        }
        let ghost before = self@;
        let ghost path = segments.deep_view();
        let name: &str = segments[0].as_str();
        let rest: &[String] = slice_subrange(segments, 1, segments.len());
        proof {
            lemma_node_view(*self);
            assert(rest.deep_view() =~= path.drop_first());
            assert(path[0] == name@);
        }
        let last: bool = segments.len() == 1;
        match self.find_child(name) {
            Some(i) => {
                let ghost old_children = self.children@;
                let child: &mut Node = &mut self.children[i];
                let ghost old_child = child@;
                if last {
                    child.length = Some(size);
                    proof {
                        lemma_node_view(*child);
                        assert(child@.children =~= old_child.children);
                    }
                } else {
                    child.insert_path(rest, size);
                }
                proof {
                    lemma_node_view(*self);
                    assert(self@.children =~= before.children.update(i as int, self.children[i as int]@));
                }
            },
            None => {
                let mut fresh: Node = if last {
                    Node::new_file(name, size)
                } else {
                    Node::new_dir(name)
                };
                if !last {
                    fresh.insert_path(rest, size);
                }
                let ghost added = fresh@;
                self.children.push(fresh);
                proof {
                    lemma_node_view(*self);
                    assert(self@.children =~= before.children.push(added));
                }
            },
        }
    }

    /// The tree of a file list.
    pub fn build_tree(files: &[TrFile]) -> (root: Node)
        ensures
            root@ == tree_of_files(file_entries(files@)),
    {
        let ghost all = file_entries(files@);
        let mut root: Node = Node::new_dir("");
        let mut k: usize = 0;
        proof {
            reveal_strlit("");
            assert(""@ =~= Seq::<char>::empty());
            assert(all.take(0).len() == 0);
        }
        while k < files.len()
            invariant
                k <= files.len(),
                all == file_entries(files@),
                root@ == tree_of_files(all.take(k as int)),
            decreases files.len() - k,
        {
            proof {
                assert(all.take(k + 1).drop_last() == all.take(k as int));
                assert(all.take(k + 1).last() == files[k as int]@);
            }
            let path: &[String] = files[k].path.as_slice();
            assert(path.deep_view() =~= files[k as int]@.path);
            root.insert_path(path, files[k].length);
            k += 1;
        }
        assert(all.take(k as int) == all);
        root
    }
}

/// A child found among the first `k` children is the child found among all.
proof fn lemma_child_index_stays(children: Seq<Tree>, k: int, name: Seq<char>)
    requires
        0 <= k <= children.len(),
        child_index(children.take(k), name) is Some,
    ensures
        child_index(children, name) == child_index(children.take(k), name),
    decreases children.len() - k,
{
    if k < children.len() {
        assert(children.take(k + 1).drop_last() == children.take(k));
        lemma_child_index_stays(children, k + 1, name);
    } else {
        assert(children.take(k) == children);
    }
}

/// No two of the children have the same name.
pub open spec fn names_differ(children: Seq<Tree>) -> bool {
    forall|i: int, j: int|
        0 <= i < j < children.len() ==> (#[trigger] children[i]).name != (
        #[trigger] children[j]).name
}

/// In the tree, no two children of a node have the same name.
pub open spec fn tree_well_formed(t: Tree) -> bool
    decreases t,
{
    &&& names_differ(t.children)
    &&& forall|k: int| 0 <= k < t.children.len() ==> tree_well_formed(#[trigger] t.children[k])
}

/// What a search among the children finds.
pub proof fn lemma_child_index(children: Seq<Tree>, name: Seq<char>)
    ensures
        match child_index(children, name) {
            Some(i) => 0 <= i < children.len() && children[i].name == name,
            None => forall|k: int| 0 <= k < children.len() ==> (#[trigger] children[k]).name != name,
        },
    decreases children.len(),
{
    if children.len() > 0 {
        lemma_child_index(children.drop_last(), name);
        if child_index(children.drop_last(), name) is None {
            assert forall|k: int| 0 <= k < children.len() - 1 implies (#[trigger] children[k]).name
                != name by {
                assert(children[k] == children.drop_last()[k]);
            }
        } else {
            let i = child_index(children.drop_last(), name)->Some_0;
            assert(children[i] == children.drop_last()[i]);
        }
    }
}

/// Putting a file into a tree keeps the name of its root, and keeps the
/// names of the children of each node apart.
pub proof fn law_insert_keeps_names_apart(t: Tree, segments: Seq<Seq<char>>, size: int)
    requires
        tree_well_formed(t),
    ensures
        tree_well_formed(tree_insert(t, segments, size)),
        tree_insert(t, segments, size).name == t.name,
    decreases segments.len(),
{
    if segments.len() > 0 {
        let name = segments[0];
        let rest = segments.drop_first();
        let after = tree_insert(t, segments, size);
        lemma_child_index(t.children, name);
        match child_index(t.children, name) {
            Some(i) => {
                let child = t.children[i];
                assert(tree_well_formed(child));
                if segments.len() > 1 {
                    law_insert_keeps_names_apart(child, rest, size);
                }
                let changed = after.children[i];
                assert(changed.name == child.name);
                assert(tree_well_formed(changed)) by {
                    if segments.len() == 1 {
                        assert(changed.children == child.children);
                    }
                }
                assert forall|k: int| 0 <= k < after.children.len() implies tree_well_formed(
                    #[trigger] after.children[k],
                ) by {
                    if k != i {
                        assert(after.children[k] == t.children[k]);
                    }
                }
                assert forall|a: int, b: int| 0 <= a < b < after.children.len() implies (
                #[trigger] after.children[a]).name != (#[trigger] after.children[b]).name by {
                    assert(after.children[a].name == t.children[a].name);
                    assert(after.children[b].name == t.children[b].name);
                }
            },
            None => {
                let fresh = after.children[t.children.len() as int];
                if segments.len() > 1 {
                    assert(tree_well_formed(empty_dir(name)));
                    law_insert_keeps_names_apart(empty_dir(name), rest, size);
                }
                assert(fresh.name == name);
                assert(tree_well_formed(fresh));
                assert forall|k: int| 0 <= k < after.children.len() implies tree_well_formed(
                    #[trigger] after.children[k],
                ) by {
                    if k < t.children.len() {
                        assert(after.children[k] == t.children[k]);
                    }
                }
                assert forall|a: int, b: int| 0 <= a < b < after.children.len() implies (
                #[trigger] after.children[a]).name != (#[trigger] after.children[b]).name by {
                    assert(after.children[a] == t.children[a]);
                    if b < t.children.len() {
                        assert(after.children[b] == t.children[b]);
                    }
                }
            },
        }
    }
}

/// In the tree of a file list, no two children of a node have the same name.
pub proof fn law_tree_names_apart(files: Seq<FileEntry>)
    ensures
        tree_well_formed(tree_of_files(files)),
    decreases files.len(),
{
    if files.len() > 0 {
        law_tree_names_apart(files.drop_last());
        law_insert_keeps_names_apart(
            tree_of_files(files.drop_last()),
            files.last().path,
            files.last().length,
        );
    }
}

} // verus!
