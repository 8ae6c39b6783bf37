//! What stands at a path: files, directories and symlinks with their contents
//! and permission bits, read once and then compared and judged as values.
use vstd::prelude::*;
use vstd::string::*;

use crate::path;
use crate::text;

verus! {

/// What stands at a path. A part that could not be read is `None`.
#[derive(Debug)]
pub enum Node {
    /// A symlink, with its destination.
    Link { dest: Option<String> },
    /// A directory, with its permission bits and its entries.
    Dir { mode: Option<u32>, entries: Option<Vec<Entry>> },
    /// A regular file, with its permission bits and its bytes.
    File { mode: Option<u32>, bytes: Option<Vec<u8>> },
    /// Anything else, such as a socket.
    Other { mode: Option<u32> },
}

/// One entry of a directory.
#[derive(Debug)]
pub struct Entry {
    pub name: String,
    pub node: Node,
}

/// What a [`Node`] holds.
#[verifier::ext_equal]
pub enum Tree {
    Link { dest: Option<Seq<char>> },
    Dir { mode: Option<u32>, entries: Option<Seq<Child>> },
    File { mode: Option<u32>, bytes: Option<Seq<u8>> },
    Other { mode: Option<u32> },
}

/// What an [`Entry`] holds.
#[verifier::ext_equal]
pub struct Child {
    pub name: Seq<char>,
    pub tree: Tree,
}

/// What a node holds.
pub open spec fn tree_of(node: Node) -> Tree
    decreases node,
{
    match node {
        Node::Link { dest } => Tree::Link { dest: dest.deep_view() },
        Node::Dir { mode, entries: None } => Tree::Dir { mode, entries: None },
        Node::Dir { mode, entries: Some(es) } => Tree::Dir {
            mode,
            entries: Some(
                Seq::new(
                    es@.len(),
                    |i: int|
                        Child {
                            name: es@[i].name@,
                            tree: if 0 <= i < es@.len() {
                                tree_of(es@[i].node)
                            } else {
                                Tree::Other { mode: None }
                            },
                        },
                ),
            ),
        },
        Node::File { mode, bytes: None } => Tree::File { mode, bytes: None },
        Node::File { mode, bytes: Some(b) } => Tree::File { mode, bytes: Some(b@) },
        Node::Other { mode } => Tree::Other { mode },
    }
}

impl View for Node {
    type V = Tree;

    open spec fn view(&self) -> Tree {
        tree_of(*self)
    }
}

impl DeepView for Node {
    type V = Tree;

    open spec fn deep_view(&self) -> Tree {
        tree_of(*self)
    }
}

// ---------------------------------------------------------------------------
// Comparing
// ---------------------------------------------------------------------------

/// The index of the first entry of that name, or how many entries there are.
pub open spec fn entry_index(entries: Seq<Child>, name: Seq<char>) -> int
    decreases entries.len(),
{
    if entries.len() == 0 {
        0
    } else if entries[0].name == name {
        0
    } else {
        1 + entry_index(entries.skip(1), name)
    }
}

/// The index of an entry is in range and names it, unless there is none.
pub proof fn lemma_entry_index(entries: Seq<Child>, name: Seq<char>)
    ensures
        0 <= entry_index(entries, name) <= entries.len(),
        entry_index(entries, name) < entries.len() ==> entries[entry_index(entries, name)].name
            == name,
    decreases entries.len(),
{
    if entries.len() > 0 && entries[0].name != name {
        lemma_entry_index(entries.skip(1), name);
    }
}

/// Whether two symlinks have the same destination.
pub open spec fn same_dest(a: Option<Seq<char>>, b: Option<Seq<char>>) -> bool {
    match (a, b) {
        (Some(x), Some(y)) => path::same_path(x, y),
        (None, None) => true,
        _ => false,
    }
}

/// Whether two trees have the same content and structure: files by their bytes,
/// directories by their entries matched by name, symlinks by their destination.
/// Permission bits do not count. What could not be read is like nothing else.
pub open spec fn same_tree(left: Tree, right: Tree) -> bool
    decreases left,
{
    match (left, right) {
        (Tree::Link { dest: a }, Tree::Link { dest: b }) => same_dest(a, b),
        (
            Tree::Dir { mode: _, entries: Some(a) },
            Tree::Dir { mode: _, entries: Some(b) },
        ) => a.len() == b.len() && forall|i: int|
            #![trigger a[i]]
            0 <= i < a.len() ==> entry_index(b, a[i].name) < b.len() && same_tree(
                a[i].tree,
                b[entry_index(b, a[i].name)].tree,
            ),
        (
            Tree::File { mode: _, bytes: Some(a) },
            Tree::File { mode: _, bytes: Some(b) },
        ) => a == b,
        _ => false,
    }
}

fn find_entry(entries: &Vec<Entry>, node: &Node, name: &str) -> (r: usize)
    requires
        node matches Node::Dir { mode: _, entries: Some(es) } && es == *entries,
    ensures
        r == entry_index((node@)->Dir_entries->0, name@),
        r <= entries@.len(),
{
    let ghost all = (node@)->Dir_entries->0;
    let mut i: usize = 0;
    assert(all.skip(0) =~= all);
    while i < entries.len()
        invariant
            i <= entries@.len(),
            node matches Node::Dir { mode: _, entries: Some(es) } && es == *entries,
            all == (node@)->Dir_entries->0,
            entry_index(all, name@) == i + entry_index(all.skip(i as int), name@),
        decreases entries@.len() - i,
    {
        assert(all.skip(i as int).skip(1) =~= all.skip(i + 1));
        assert(all.skip(i as int)[0] == all[i as int]);
        assert(all[i as int].name == entries@[i as int].name@);
        if text::same(entries[i].name.as_str(), name) {
            return i;
        }
        i += 1;
    }
    i
}

fn same_option_dest(a: &Option<String>, b: &Option<String>) -> (r: bool)
    ensures
        r == same_dest(a.deep_view(), b.deep_view()),
{
    match (a, b) {
        (Some(x), Some(y)) => path::same(x.as_str(), y.as_str()),
        (None, None) => true,
        _ => false,
    }
}

fn same_bytes(a: &Vec<u8>, b: &Vec<u8>) -> (r: bool)
    ensures
        r == (a@ == b@),
{
    if a.len() != b.len() {
        return false;
    }
    let mut i: usize = 0;
    while i < a.len()
        invariant
            i <= a@.len(),
            a@.len() == b@.len(),
            forall|j: int| 0 <= j < i ==> a@[j] == b@[j],
        decreases a@.len() - i,
    {
        if a[i] != b[i] {
            return false;
        }
        i += 1;
    }
    assert(a@ =~= b@);
    true
}

/// Compare two nodes by content and structure.
pub fn same_node(left: &Node, right: &Node) -> (r: bool)
    ensures
        r == same_tree(left@, right@),
    decreases *left,
{
    match (left, right) {
        (Node::Link { dest: a }, Node::Link { dest: b }) => same_option_dest(a, b),
        (
            Node::Dir { mode: _, entries: Some(a) },
            Node::Dir { mode: _, entries: Some(b) },
        ) => same_entries(a, b, left, right),
        (
            Node::File { mode: _, bytes: Some(a) },
            Node::File { mode: _, bytes: Some(b) },
        ) => same_bytes(a, b),
        _ => false,
    }
}

fn same_entries(a: &Vec<Entry>, b: &Vec<Entry>, left: &Node, right: &Node) -> (r: bool)
    requires
        left matches Node::Dir { mode: _, entries: Some(es) } && es == *a,
        right matches Node::Dir { mode: _, entries: Some(es) } && es == *b,
    ensures
        r == same_tree(left@, right@),
    decreases *a,
{
    if a.len() != b.len() {
        return false;
    }
    let ghost ta = (left@)->Dir_entries->0;
    let ghost tb = (right@)->Dir_entries->0;
    let mut i: usize = 0;
    while i < a.len()
        invariant
            i <= a@.len(),
            a@.len() == b@.len(),
            left matches Node::Dir { mode: _, entries: Some(es) } && es == *a,
            right matches Node::Dir { mode: _, entries: Some(es) } && es == *b,
            ta == (left@)->Dir_entries->0,
            tb == (right@)->Dir_entries->0,
            forall|j: int|
                #![trigger ta[j]]
                0 <= j < i ==> entry_index(tb, ta[j].name) < tb.len() && same_tree(
                    ta[j].tree,
                    tb[entry_index(tb, ta[j].name)].tree,
                ),
        decreases a@.len() - i,
    {
        let k = find_entry(b, right, a[i].name.as_str());
        assert(k == entry_index(tb, a@[i as int].name@));
        assert(ta[i as int].name == a@[i as int].name@);
        if k == b.len() {
            return false;
        }
        proof {
            assert(decreases_to!(*a => a@));
            assert(decreases_to!(a@ => a@[i as int]));
        }
        if !same_node(&a[i].node, &b[k].node) {
            assert(!same_tree(ta[i as int].tree, tb[entry_index(tb, ta[i as int].name)].tree));
            return false;
        }
        i += 1;
    }
    true
}

/// Compare two paths by what stands there: equal content and structure, and
/// `false` when nothing stands at one of them.
pub fn trees_equal(left: &Option<Node>, right: &Option<Node>) -> (r: bool)
    ensures
        r == (left matches Some(l) && right matches Some(k) && same_tree(l@, k@)),
{
    match (left, right) {
        (Some(l), Some(k)) => same_node(l, k),
        _ => false,
    }
}

/// Compare two regular files by their bytes; `false` when one of them could not
/// be read.
pub fn files_equal(left: &Option<Vec<u8>>, right: &Option<Vec<u8>>) -> (r: bool)
    ensures
        r == (left matches Some(l) && right matches Some(k) && l@ == k@),
{
    match (left, right) {
        (Some(l), Some(k)) => same_bytes(l, k),
        _ => false,
    }
}

/// Whether everything in a tree could be read, and no directory names an entry
/// twice.
pub open spec fn readable(tree: Tree) -> bool
    decreases tree,
{
    match tree {
        Tree::Link { .. } => true,
        Tree::Dir { mode: _, entries: Some(es) } => forall|i: int|
            #![trigger es[i]]
            0 <= i < es.len() ==> readable(es[i].tree) && entry_index(es, es[i].name) == i,
        Tree::File { mode: _, bytes } => bytes is Some,
        _ => false,
    }
}

/// A readable tree has the same content as itself.
pub proof fn law_same_tree_reflexive(tree: Tree)
    requires
        readable(tree),
    ensures
        same_tree(tree, tree),
    decreases tree,
{
    match tree {
        Tree::Dir { mode: _, entries: Some(es) } => {
            assert forall|i: int| #![trigger es[i]] 0 <= i < es.len() implies same_tree(
                es[i].tree,
                es[entry_index(es, es[i].name)].tree,
            ) by {
                law_same_tree_reflexive(es[i].tree);
            }
        },
        _ => {},
    }
}

/// Whether every symlink in a tree could be read and every directory listed: what
/// copying has to know of it.
pub open spec fn listed(tree: Tree) -> bool
    decreases tree,
{
    match tree {
        Tree::Link { dest } => dest is Some,
        Tree::Dir { mode: _, entries: Some(es) } => forall|i: int|
            #![trigger es[i]]
            0 <= i < es.len() ==> listed(es[i].tree),
        Tree::Dir { mode: _, entries: None } => false,
        _ => true,
    }
}

/// Whether every symlink in the node could be read and every directory listed.
pub fn is_listed(node: &Node) -> (r: bool)
    ensures
        r == listed(node@),
    decreases *node,
{
    match node {
        Node::Link { dest } => dest.is_some(),
        Node::Dir { mode: _, entries: Some(es) } => entries_listed(es, node),
        Node::Dir { mode: _, entries: None } => false,
        _ => true,
    }
}

fn entries_listed(es: &Vec<Entry>, node: &Node) -> (r: bool)
    requires
        node matches Node::Dir { mode: _, entries: Some(all) } && all == *es,
    ensures
        r == listed(node@),
    decreases *es,
{
    let ghost all = (node@)->Dir_entries->0;
    let mut i: usize = 0;
    while i < es.len()
        invariant
            i <= es@.len(),
            node matches Node::Dir { mode: _, entries: Some(x) } && x == *es,
            all == (node@)->Dir_entries->0,
            forall|j: int| #![trigger all[j]] 0 <= j < i ==> listed(all[j].tree),
        decreases es@.len() - i,
    {
        proof {
            assert(decreases_to!(*es => es@));
            assert(decreases_to!(es@ => es@[i as int]));
        }
        if !is_listed(&es[i].node) {
            assert(!listed(all[i as int].tree));
            return false;
        }
        i += 1;
    }
    true
}

// ---------------------------------------------------------------------------
// Permission bits
// ---------------------------------------------------------------------------

/// Whether group or others have any access.
pub open spec fn open_mode(mode: Option<u32>) -> bool {
    mode matches Some(m) && m & 0o077 != 0
}

/// Whether some file or directory in the tree, symlinks aside, is accessible to
/// group or others: a secret whose mode has drifted open.
pub open spec fn too_open(tree: Tree) -> bool
    decreases tree,
{
    match tree {
        Tree::Link { .. } => false,
        Tree::Dir { mode, entries: None } => open_mode(mode),
        Tree::Dir { mode, entries: Some(es) } => open_mode(mode) || exists|i: int|
            #![trigger es[i]]
            0 <= i < es.len() && too_open(es[i].tree),
        Tree::File { mode, .. } => open_mode(mode),
        Tree::Other { mode } => open_mode(mode),
    }
}

fn mode_is_open(mode: &Option<u32>) -> (r: bool)
    ensures
        r == open_mode(*mode),
{
    match mode {
        Some(m) => (*m & 0o077) != 0,
        None => false,
    }
}

fn node_too_open(node: &Node) -> (r: bool)
    ensures
        r == too_open(node@),
    decreases *node,
{
    match node {
        Node::Link { .. } => false,
        Node::Dir { mode, entries: None } => mode_is_open(mode),
        Node::Dir { mode, entries: Some(es) } => {
            if mode_is_open(mode) {
                return true;
            }
            entries_too_open(es, node)
        },
        Node::File { mode, .. } => mode_is_open(mode),
        Node::Other { mode } => mode_is_open(mode),
    }
}

fn entries_too_open(es: &Vec<Entry>, node: &Node) -> (r: bool)
    requires
        node matches Node::Dir { mode: _, entries: Some(all) } && all == *es,
    ensures
        r == exists|i: int|
            #![trigger (node@)->Dir_entries->0[i]]
            0 <= i < (node@)->Dir_entries->0.len() && too_open((node@)->Dir_entries->0[i].tree),
    decreases *es,
{
    let ghost all = (node@)->Dir_entries->0;
    let mut i: usize = 0;
    while i < es.len()
        invariant
            i <= es@.len(),
            node matches Node::Dir { mode: _, entries: Some(x) } && x == *es,
            all == (node@)->Dir_entries->0,
            forall|j: int| #![trigger all[j]] 0 <= j < i ==> !too_open(all[j].tree),
        decreases es@.len() - i,
    {
        proof {
            assert(decreases_to!(*es => es@));
            assert(decreases_to!(es@ => es@[i as int]));
        }
        if node_too_open(&es[i].node) {
            assert(too_open(all[i as int].tree));
            return true;
        }
        i += 1;
    }
    false
}

/// Whether some file or directory at the path, symlinks aside, is accessible to
/// group or others. Nothing at the path is not.
pub fn any_too_open(node: &Option<Node>) -> (r: bool)
    ensures
        r == (node matches Some(n) && too_open(n@)),
{
    match node {
        Some(n) => node_too_open(n),
        None => false,
    }
}

/// The tree with the permissions of a secret: `0700` on directories, `0600` on
/// everything else, symlinks left alone.
pub open spec fn tightened(tree: Tree) -> Tree
    decreases tree,
{
    match tree {
        Tree::Link { .. } => tree,
        Tree::Dir { mode: _, entries: None } => Tree::Dir { mode: Some(0o700), entries: None },
        Tree::Dir { mode: _, entries: Some(es) } => Tree::Dir {
            mode: Some(0o700),
            entries: Some(
                Seq::new(
                    es.len(),
                    |i: int|
                        Child {
                            name: es[i].name,
                            tree: if 0 <= i < es.len() {
                                tightened(es[i].tree)
                            } else {
                                es[i].tree
                            },
                        },
                ),
            ),
        },
        Tree::File { mode: _, bytes } => Tree::File { mode: Some(0o600), bytes },
        Tree::Other { mode: _ } => Tree::Other { mode: Some(0o600) },
    }
}

/// Nothing in a tree with the permissions of a secret is too open.
pub proof fn law_tightened_is_tight(tree: Tree)
    ensures
        !too_open(tightened(tree)),
    decreases tree,
{
    assert(0o700u32 & 0o077 == 0) by (bit_vector);
    assert(0o600u32 & 0o077 == 0) by (bit_vector);
    match tree {
        Tree::Dir { mode: _, entries: Some(es) } => {
            let out = tightened(tree)->Dir_entries->0;
            assert forall|i: int| #![trigger out[i]] 0 <= i < out.len() implies !too_open(
                out[i].tree,
            ) by {
                law_tightened_is_tight(es[i].tree);
            }
        },
        _ => {},
    }
}

/// Entries of the same names are found at the same index.
pub proof fn lemma_tightened_index(es: Seq<Child>, out: Seq<Child>, name: Seq<char>)
    requires
        es.len() == out.len(),
        forall|i: int| 0 <= i < es.len() ==> (#[trigger] out[i]).name == es[i].name,
    ensures
        entry_index(out, name) == entry_index(es, name),
    decreases es.len(),
{
    if es.len() > 0 {
        assert(out[0].name == es[0].name);
        assert forall|i: int| 0 <= i < es.skip(1).len() implies (#[trigger] out.skip(1)[i]).name
            == es.skip(1)[i].name by {
            assert(out[i + 1].name == es[i + 1].name);
        }
        lemma_tightened_index(es.skip(1), out.skip(1), name);
    }
}

/// Tightening changes permissions alone: the content stays what it was.
pub proof fn law_tightened_keeps_content(tree: Tree)
    requires
        readable(tree),
    ensures
        same_tree(tree, tightened(tree)),
        readable(tightened(tree)),
    decreases tree,
{
    match tree {
        Tree::Dir { mode: _, entries: Some(es) } => {
            let out = tightened(tree)->Dir_entries->0;
            assert forall|i: int| 0 <= i < es.len() implies (#[trigger] out[i]).name
                == es[i].name by {}
            assert forall|i: int| #![trigger es[i]] 0 <= i < es.len() implies entry_index(
                out,
                es[i].name,
            ) == i && same_tree(es[i].tree, out[i].tree) && readable(out[i].tree) by {
                lemma_tightened_index(es, out, es[i].name);
                law_tightened_keeps_content(es[i].tree);
            }
            assert forall|i: int| #![trigger out[i]] 0 <= i < out.len() implies readable(
                out[i].tree,
            ) && entry_index(out, out[i].name) == i by {
                let c = es[i];
            }
        },
        _ => {},
    }
}

} // verus!
