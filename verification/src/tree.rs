//! The tree of a file list as it is shown: one line for each node, the
//! children of a node in natural order of their names.

use std::cmp::Ordering;
use vstd::prelude::*;
use vstd::string::StringExecFns;
use crate::report::line;
use crate::torrent::{Metainfo, Torrent};
use crate::tr_file::{children_view, tree_of_files, Node, Tree};
use crate::utils::{decimal_text, human_size, number_text, size_text};

verus! {

/// How `natlex_sort::nat_lex_cmp_ignore` orders two texts: `-1` where the
/// first comes first, `1` where the second does, `0` where it tells them not
/// apart.
pub uninterp spec fn natlex_sign(a: Seq<char>, b: Seq<char>) -> int;

/// `natlex_sort::nat_lex_cmp_ignore`: texts of the same length in
/// lexicographic order without regard to case, others in natural order. The
/// contract names the result, and says that it is one of three.
#[verifier::external_body]
fn name_sign(a: &str, b: &str) -> (r: i8)
    ensures
        r == natlex_sign(a@, b@),
        -1 <= r <= 1,
{
    match natlex_sort::nat_lex_cmp_ignore(a, b) {
        Ordering::Less => -1,
        Ordering::Equal => 0,
        Ordering::Greater => 1,
    }
}

/// The names of nodes.
pub open spec fn node_names(nodes: Seq<Tree>) -> Seq<Seq<char>> {
    Seq::new(nodes.len(), |k: int| nodes[k].name)
}

/// `order` with `x` put behind the last name that does not come after the
/// name of `x`: equal names stay in the order in which they came.
pub open spec fn inserted(order: Seq<usize>, names: Seq<Seq<char>>, x: usize) -> Seq<usize>
    decreases order.len(),
{
    if order.len() == 0 {
        seq![x]
    } else if natlex_sign(names[order.last() as int], names[x as int]) <= 0 {
        order.push(x)
    } else {
        inserted(order.drop_last(), names, x).push(order.last())
    }
}

/// The order in which the first `n` names are shown: each put in its place
/// among those before it.
pub open spec fn name_order(names: Seq<Seq<char>>, n: int) -> Seq<usize>
    decreases n,
{
    if n <= 0 {
        Seq::empty()
    } else {
        inserted(name_order(names, n - 1), names, (n - 1) as usize)
    }
}

/// What is shown of a node behind its name: the length of a file.
pub open spec fn length_note(length: Option<int>) -> Seq<char> {
    match length {
        Some(n) => " ("@ + decimal_text(n as nat) + " ["@ + size_text(n as nat) + "])"@,
        None => Seq::empty(),
    }
}

/// The lines of a node and of all below it: the node behind a connector, and
/// its children in the order of their names, further in.
pub open spec fn branch_lines(node: Tree, prefix: Seq<char>, is_last: bool) -> Seq<Seq<char>>
    decreases node, 0nat,
{
    let connector = if is_last {
        "└── "@
    } else {
        "├── "@
    };
    let further = prefix + (if is_last {
        "    "@
    } else {
        "│   "@
    });
    seq![prefix + connector + node.name + length_note(node.length)] + children_lines(
        node.children,
        name_order(node_names(node.children), node.children.len() as int),
        further,
        0,
    )
}

/// The lines of the children that `order` names from `from` on.
pub open spec fn children_lines(
    children: Seq<Tree>,
    order: Seq<usize>,
    prefix: Seq<char>,
    from: int,
) -> Seq<Seq<char>>
    decreases children, order.len() - from,
{
    if from < 0 || from >= order.len() {
        Seq::empty()
    } else if order[from] >= children.len() {
        Seq::empty()
    } else {
        branch_lines(children[order[from] as int], prefix, from == order.len() - 1)
            + children_lines(children, order, prefix, from + 1)
    }
}

/// The lines of a tree: those of the children of its root.
pub open spec fn tree_lines(root: Tree) -> Seq<Seq<char>> {
    children_lines(
        root.children,
        name_order(node_names(root.children), root.children.len() as int),
        Seq::empty(),
        0,
    )
}

/// The views of lines.
pub open spec fn lines_view(lines: Seq<String>) -> Seq<Seq<char>> {
    Seq::new(lines.len(), |k: int| lines[k]@)
}

/// Where `x` goes: behind `at` names, of which the last does not come after
/// that of `x`, and before names that all do.
proof fn lemma_inserted_at(order: Seq<usize>, names: Seq<Seq<char>>, x: usize, at: int)
    requires
        0 <= at <= order.len(),
        at > 0 ==> natlex_sign(names[order[at - 1] as int], names[x as int]) <= 0,
        forall|k: int|
            at <= k < order.len() ==> natlex_sign(
                names[(#[trigger] order[k]) as int],
                names[x as int],
            ) > 0,
    ensures
        inserted(order, names, x) == order.insert(at, x),
    decreases order.len(),
{
    if order.len() == 0 {
        assert(order.insert(at, x) =~= seq![x]);
    } else if at == order.len() {
        assert(order.insert(at, x) =~= order.push(x));
    } else {
        let shorter = order.drop_last();
        assert(natlex_sign(names[order[order.len() - 1] as int], names[x as int]) > 0);
        assert forall|k: int| at <= k < shorter.len() implies natlex_sign(
            names[(#[trigger] shorter[k]) as int],
            names[x as int],
        ) > 0 by {
            assert(shorter[k] == order[k]);
        }
        if at > 0 {
            assert(shorter[at - 1] == order[at - 1]);
        }
        lemma_inserted_at(shorter, names, x, at);
        assert(shorter.insert(at, x).push(order.last()) =~= order.insert(at, x));
    }
}

/// Every index that the order of `n` names holds is below `n`.
proof fn lemma_name_order(names: Seq<Seq<char>>, n: int)
    requires
        0 <= n,
    ensures
        name_order(names, n).len() == n,
        forall|k: int| 0 <= k < n ==> (#[trigger] name_order(names, n)[k]) < n,
    decreases n,
{
    if n > 0 {
        lemma_name_order(names, n - 1);
        lemma_inserted(name_order(names, n - 1), names, (n - 1) as usize);
    }
}

/// Putting `x` into an order makes it longer by one, and adds nothing but `x`.
proof fn lemma_inserted(order: Seq<usize>, names: Seq<Seq<char>>, x: usize)
    ensures
        inserted(order, names, x).len() == order.len() + 1,
        forall|k: int|
            0 <= k < order.len() + 1 ==> (#[trigger] inserted(order, names, x)[k]) == x || exists|
                j: int,
            |
                0 <= j < order.len() && order[j] == inserted(order, names, x)[k],
    decreases order.len(),
{
    if order.len() > 0 && natlex_sign(names[order.last() as int], names[x as int]) > 0 {
        lemma_inserted(order.drop_last(), names, x);
        let shorter = order.drop_last();
        let got = inserted(order, names, x);
        assert forall|k: int| 0 <= k < order.len() + 1 implies (#[trigger] got[k]) == x || exists|
            j: int,
        |
            0 <= j < order.len() && order[j] == got[k] by {
            if k < order.len() {
                let inner = inserted(shorter, names, x);
                assert(got[k] == inner[k]);
                if inner[k] != x {
                    let j = choose|j: int| 0 <= j < shorter.len() && shorter[j] == inner[k];
                    assert(order[j] == got[k]);
                }
            } else {
                assert(order[order.len() - 1] == got[k]);
            }
        }
    } else if order.len() > 0 {
        let got = inserted(order, names, x);
        assert forall|k: int| 0 <= k < order.len() + 1 implies (#[trigger] got[k]) == x || exists|
            j: int,
        |
            0 <= j < order.len() && order[j] == got[k] by {
            if k < order.len() {
                assert(order[k] == got[k]);
            }
        }
    }
}

impl Node {
    /// The order in which the children are shown: by their names, equal
    /// names in the order in which they stand.
    pub fn shown_order(&self) -> (order: Vec<usize>)
        ensures
            order@ == name_order(node_names(self@.children), self.children.len() as int),
            order.len() == self.children.len(),
            forall|k: int| 0 <= k < order.len() ==> (#[trigger] order[k]) < self.children.len(),
    {
        let ghost names = node_names(self@.children);
        proof {
            crate::tr_file::lemma_node_view(*self);
        }
        let mut order: Vec<usize> = Vec::new();
        let mut x: usize = 0;
        while x < self.children.len()
            invariant
                x <= self.children.len(),
                names == node_names(self@.children),
                names.len() == self.children.len(),
                forall|k: int| 0 <= k < self.children.len() ==> names[k] == self.children[k].name@,
                order@ == name_order(names, x as int),
                order.len() == x,
                forall|k: int| 0 <= k < order.len() ==> (#[trigger] order[k]) < x,
            decreases self.children.len() - x,
        {
            let mut at: usize = order.len();
            while at > 0 && name_sign(
                self.children[order[at - 1]].name.as_str(),
                self.children[x].name.as_str(),
            ) > 0
                invariant
                    at <= order.len(),
                    x < self.children.len(),
                    names.len() == self.children.len(),
                    forall|k: int|
                        0 <= k < self.children.len() ==> names[k] == self.children[k].name@,
                    forall|k: int| 0 <= k < order.len() ==> (#[trigger] order[k]) < x,
                    forall|k: int|
                        at <= k < order.len() ==> natlex_sign(
                            names[(#[trigger] order[k]) as int],
                            names[x as int],
                        ) > 0,
                decreases at,
            {
                at -= 1;
            }
            proof {
                lemma_inserted_at(order@, names, x, at as int);
                lemma_name_order(names, x + 1);
            }
            order.insert(at, x);
            x += 1;
        }
        order
    }

    /// The lines of the node and of all below it.
    pub fn print_branch(&self, prefix: &str, is_last: bool) -> (lines: Vec<String>)
        ensures
            lines_view(lines@) == branch_lines(self@, prefix@, is_last),
        decreases self, 1nat,
    {
        proof {
            crate::tr_file::lemma_node_view(*self);
        }
        let mut head: String = prefix.to_owned();
        head.append(
            if is_last {
                "└── "
            } else {
                "├── "
            },
        );
        head.append(self.name.as_str());
        let ghost named = head@;
        match self.length {
            Some(n) => {
                head.append(" (");
                let length: String = number_text(n);
                head.append(length.as_str());
                head.append(" [");
                let size: String = human_size(n);
                head.append(size.as_str());
                head.append("])");
                assert(head@ =~= named + length_note(self@.length));
            },
            None => {
                assert(head@ =~= named + length_note(self@.length));
            },
        }
        let mut further: String = prefix.to_owned();
        further.append(
            if is_last {
                "    "
            } else {
                "│   "
            },
        );
        let mut lines: Vec<String> = Vec::new();
        lines.push(head);
        let rest: Vec<String> = self.print_children(further.as_str());
        let ghost first = lines_view(lines@);
        let mut rest = rest;
        let ghost below = lines_view(rest@);
        lines.append(&mut rest);
        assert(lines_view(lines@) =~= first + below);
        assert(first =~= seq![
            prefix@ + (if is_last {
                "└── "@
            } else {
                "├── "@
            }) + self@.name + length_note(self@.length),
        ]);
        lines
    }

    /// The lines of the children and of all below them, each child behind `prefix`.
    fn print_children(&self, prefix: &str) -> (lines: Vec<String>)
        ensures
            lines_view(lines@) == children_lines(
                self@.children,
                name_order(node_names(self@.children), self.children.len() as int),
                prefix@,
                0,
            ),
        decreases self, 0nat,
    {
        proof {
            crate::tr_file::lemma_node_view(*self);
        }
        let order: Vec<usize> = self.shown_order();
        let ghost children = self@.children;
        let mut lines: Vec<String> = Vec::new();
        let mut k: usize = order.len();
        assert(lines_view(lines@) =~= children_lines(children, order@, prefix@, k as int));
        while k > 0
            invariant
                k <= order.len(),
                children == self@.children,
                children == children_view(self.children@),
                order.len() == self.children.len(),
                forall|i: int| 0 <= i < order.len() ==> (#[trigger] order[i]) < self.children.len(),
                lines_view(lines@) == children_lines(children, order@, prefix@, k as int),
            decreases k,
        {
            k -= 1;
            let child: &Node = &self.children[order[k]];
            assert(children[order[k as int] as int] == child@);
            let mut branch: Vec<String> = child.print_branch(prefix, k == order.len() - 1);
            let ghost head = lines_view(branch@);
            let ghost tail = lines_view(lines@);
            branch.append(&mut lines);
            lines = branch;
            assert(lines_view(lines@) =~= head + tail);
        }
        lines
    }

    /// The lines of the tree: those of the children of the root.
    pub fn print_tree(&self) -> (lines: Vec<String>)
        ensures
            lines_view(lines@) == tree_lines(self@),
    {
        proof {
            reveal_strlit("");
            assert(""@ =~= Seq::<char>::empty());
        }
        self.print_children("")
    }
}

/// What is shown of the files of a metainfo: the name, then the tree of the
/// files of a multi-file torrent, or the length of the one file.
pub open spec fn file_tree_lines(t: Metainfo) -> Seq<Seq<char>> {
    match t.info {
        None => seq!["[No torrent info available]"@],
        Some(info) => (match info.name {
            Some(name) => seq![name],
            None => Seq::empty(),
        }) + (match info.files {
            Some(files) => tree_lines(tree_of_files(files)),
            None => match info.length {
                Some(n) => seq![
                    "  [Single file, "@ + decimal_text(n as nat) + " bytes ("@ + size_text(
                        n as nat,
                    ) + ")]"@,
                ],
                None => seq!["  [No files information available]"@],
            },
        }),
    }
}

impl Torrent {
    /// The lines that show the files of the metainfo.
    pub fn print_file_tree(&self) -> (lines: Vec<String>)
        ensures
            lines_view(lines@) == file_tree_lines(self@),
    {
        let mut lines: Vec<String> = Vec::new();
        let info = match &self.info {
            Some(info) => info,
            None => {
                lines.push("[No torrent info available]".to_owned());
                assert(lines_view(lines@) =~= seq!["[No torrent info available]"@]);
                return lines;
            },
        };
        if let Some(name) = &info.name {
            lines.push(name.clone());
        }
        let ghost first = lines_view(lines@);
        assert(first =~= (match info@.name {
            Some(name) => seq![name],
            None => Seq::empty(),
        }));
        match &info.files {
            Some(files) => {
                let root: Node = Node::build_tree(files.as_slice());
                let mut tree: Vec<String> = root.print_tree();
                let ghost below = lines_view(tree@);
                lines.append(&mut tree);
                assert(lines_view(lines@) =~= first + below);
            },
            None => match info.length {
                Some(n) => {
                    let mut text: String = "  [Single file, ".to_owned();
                    let length: String = number_text(n);
                    text.append(length.as_str());
                    text.append(" bytes (");
                    let size: String = human_size(n);
                    text.append(size.as_str());
                    text.append(")]");
                    let ghost shown = text@;
                    lines.push(text);
                    assert(lines_view(lines@) =~= first + seq![shown]);
                },
                None => {
                    lines.push("  [No files information available]".to_owned());
                    assert(lines_view(lines@) =~= first + seq![
                        "  [No files information available]"@,
                    ]);
                },
            },
        }
        lines
    }
}

} // verus!
