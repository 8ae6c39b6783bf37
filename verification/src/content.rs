//! Trees seen path by path: what it means, at every depth, that two trees have
//! the same content, that a tree is too open, and that a tree was tightened.
use vstd::prelude::*;

use crate::path;
use crate::tree;
use crate::tree::{Child, Node, Tree};

verus! {

/// Whether `found` stands in the tree at the relative path `p`, symlinks not
/// followed.
pub open spec fn stands_at(tree: Tree, p: Seq<Seq<char>>, found: Tree) -> bool
    decreases p.len(),
{
    if p.len() == 0 {
        found == tree
    } else {
        tree matches Tree::Dir { mode: _, entries: Some(es) } && exists|i: int|
            #![trigger es[i]]
            0 <= i < es.len() && es[i].name == p[0] && stands_at(es[i].tree, p.skip(1), found)
    }
}

/// Whether no directory in the tree names an entry twice.
pub open spec fn named_once(tree: Tree) -> bool
    decreases tree,
{
    match tree {
        Tree::Dir { mode: _, entries: Some(es) } => {
            &&& distinct(es)
            &&& forall|i: int| #![trigger es[i]] 0 <= i < es.len() ==> named_once(es[i].tree)
        },
        _ => true,
    }
}

/// Whether no two entries have the same name.
pub open spec fn distinct(es: Seq<Child>) -> bool {
    forall|i: int, j: int|
        0 <= i < j < es.len() ==> (#[trigger] es[i]).name != (#[trigger] es[j]).name
}

/// Whether two things are of one kind and, but for the entries of a directory,
/// hold the same: a file its bytes, a symlink its destination. What could not be
/// read is like nothing else, save for a symlink beside a symlink.
pub open spec fn alike(a: Tree, b: Tree) -> bool {
    ||| a matches Tree::File { mode: _, bytes: Some(x) } && b matches Tree::File {
        mode: _,
        bytes: Some(y),
    } && x == y
    ||| a matches Tree::Link { dest: Some(x) } && b matches Tree::Link { dest: Some(y) }
        && path::components(x) == path::components(y)
    ||| a matches Tree::Link { dest: None } && b matches Tree::Link { dest: None }
    ||| a matches Tree::Dir { mode: _, entries: Some(_) } && b matches Tree::Dir {
        mode: _,
        entries: Some(_),
    }
}

/// Whether, wherever something stands in `a`, something like it stands in `b`.
pub open spec fn repeated_in(a: Tree, b: Tree) -> bool {
    forall|p: Seq<Seq<char>>, x: Tree| #[trigger]
        stands_at(a, p, x) ==> exists|y: Tree| #[trigger] stands_at(b, p, y) && alike(x, y)
}

/// Two trees have the same content exactly when at every relative path, at any
/// depth, both hold the same kind of thing, with the same bytes for files and the
/// same destination for symlinks. One byte that differs anywhere below tells them
/// apart.
pub proof fn law_equal_trees_agree_everywhere(a: Tree, b: Tree)
    requires
        named_once(a),
        named_once(b),
    ensures
        tree::same_tree(a, b) <==> repeated_in(a, b) && repeated_in(b, a),
{
    if tree::same_tree(a, b) {
        assert forall|p: Seq<Seq<char>>, x: Tree| #[trigger] stands_at(a, p, x) implies exists|
            y: Tree,
        | #[trigger] stands_at(b, p, y) && alike(x, y) by {
            lemma_left_repeated(a, b, p, x);
        }
        assert forall|p: Seq<Seq<char>>, x: Tree| #[trigger] stands_at(b, p, x) implies exists|
            y: Tree,
        | #[trigger] stands_at(a, p, y) && alike(x, y) by {
            lemma_right_repeated(a, b, p, x);
        }
    }
    if repeated_in(a, b) && repeated_in(b, a) {
        lemma_repeated_same(a, b);
    }
}

proof fn lemma_left_repeated(a: Tree, b: Tree, p: Seq<Seq<char>>, x: Tree)
    requires
        tree::same_tree(a, b),
        stands_at(a, p, x),
    ensures
        exists|y: Tree| #[trigger] stands_at(b, p, y) && alike(x, y),
    decreases p.len(),
{
    if p.len() == 0 {
        assert(stands_at(b, p, b));
    } else {
        let es = a->Dir_entries->0;
        let fs = b->Dir_entries->0;
        let i = choose|i: int|
            #![trigger es[i]]
            0 <= i < es.len() && es[i].name == p[0] && stands_at(es[i].tree, p.skip(1), x);
        let k = tree::entry_index(fs, es[i].name);
        tree::lemma_entry_index(fs, es[i].name);
        lemma_left_repeated(es[i].tree, fs[k].tree, p.skip(1), x);
        let y = choose|y: Tree| #[trigger] stands_at(fs[k].tree, p.skip(1), y) && alike(x, y);
        assert(stands_at(b, p, y));
    }
}

proof fn lemma_right_repeated(a: Tree, b: Tree, p: Seq<Seq<char>>, y: Tree)
    requires
        tree::same_tree(a, b),
        named_once(a),
        named_once(b),
        stands_at(b, p, y),
    ensures
        exists|x: Tree| #[trigger] stands_at(a, p, x) && alike(y, x),
    decreases p.len(),
{
    if p.len() == 0 {
        assert(stands_at(a, p, a));
    } else {
        let es = a->Dir_entries->0;
        let fs = b->Dir_entries->0;
        let k = choose|k: int|
            #![trigger fs[k]]
            0 <= k < fs.len() && fs[k].name == p[0] && stands_at(fs[k].tree, p.skip(1), y);
        assert forall|i: int| 0 <= i < es.len() implies names(fs).contains(
            (#[trigger] es[i]).name,
        ) by {
            let j = tree::entry_index(fs, es[i].name);
            tree::lemma_entry_index(fs, es[i].name);
            assert(names(fs)[j] == es[i].name);
        }
        lemma_names_covered(es, fs);
        assert(names(fs)[k] == p[0]);
        let i = choose|i: int| 0 <= i < names(es).len() && names(es)[i] == p[0];
        let c = es[i];
        lemma_index_of(fs, k);
        lemma_right_repeated(es[i].tree, fs[k].tree, p.skip(1), y);
        let x = choose|x: Tree| #[trigger] stands_at(es[i].tree, p.skip(1), x) && alike(y, x);
        assert(stands_at(a, p, x));
    }
}

spec fn names(es: Seq<Child>) -> Seq<Seq<char>> {
    es.map_values(|c: Child| c.name)
}

proof fn lemma_index_of(es: Seq<Child>, k: int)
    requires
        distinct(es),
        0 <= k < es.len(),
    ensures
        tree::entry_index(es, es[k].name) == k,
{
    let j = tree::entry_index(es, es[k].name);
    lemma_index_at_most(es, k);
    tree::lemma_entry_index(es, es[k].name);
    if j < k {
        assert(es[j].name != es[k].name);
    }
}

proof fn lemma_index_at_most(es: Seq<Child>, k: int)
    requires
        0 <= k < es.len(),
    ensures
        tree::entry_index(es, es[k].name) <= k,
    decreases k,
{
    if es[0].name != es[k].name {
        assert(es.skip(1)[k - 1] == es[k]);
        lemma_index_at_most(es.skip(1), k - 1);
    }
}

/// As many distinct names, all of them among the others, are the others.
proof fn lemma_names_covered(es: Seq<Child>, fs: Seq<Child>)
    requires
        distinct(es),
        distinct(fs),
        es.len() == fs.len(),
        forall|i: int| 0 <= i < es.len() ==> names(fs).contains((#[trigger] es[i]).name),
    ensures
        forall|k: int| 0 <= k < fs.len() ==> names(es).contains((#[trigger] fs[k]).name),
{
    let (a, b) = (names(es), names(fs));
    lemma_distinct_names(es);
    lemma_distinct_names(fs);
    a.unique_seq_to_set();
    b.unique_seq_to_set();
    assert(a.to_set().subset_of(b.to_set())) by {
        assert forall|n: Seq<char>| a.to_set().contains(n) implies b.to_set().contains(n) by {
            let i = choose|i: int| 0 <= i < a.len() && a[i] == n;
            assert(b.contains(es[i].name));
        }
    }
    vstd::set_lib::lemma_subset_equality(a.to_set(), b.to_set());
    assert forall|k: int| 0 <= k < fs.len() implies a.contains((#[trigger] fs[k]).name) by {
        assert(b[k] == fs[k].name);
        assert(b.to_set().contains(fs[k].name));
        assert(a.to_set().contains(fs[k].name));
    }
}

proof fn lemma_distinct_names(es: Seq<Child>)
    requires
        distinct(es),
    ensures
        names(es).no_duplicates(),
{
    let a = names(es);
    assert forall|i: int, j: int| 0 <= i < a.len() && 0 <= j < a.len() && i != j implies a[i]
        != a[j] by {
        if i < j {
            assert(es[i].name != es[j].name);
        } else {
            assert(es[j].name != es[i].name);
        }
    }
}

proof fn lemma_repeated_same(a: Tree, b: Tree)
    requires
        named_once(a),
        named_once(b),
        repeated_in(a, b),
        repeated_in(b, a),
    ensures
        tree::same_tree(a, b),
    decreases a,
{
    let here = Seq::<Seq<char>>::empty();
    assert(stands_at(a, here, a));
    let top = choose|y: Tree| #[trigger] stands_at(b, here, y) && alike(a, y);
    assert(alike(a, b));
    if a is Dir {
        let es = a->Dir_entries->0;
        let fs = b->Dir_entries->0;
        lemma_entries_found(a, b);
        lemma_entries_found(b, a);
        lemma_as_many(es, fs);
        lemma_as_many(fs, es);
        assert forall|i: int| #![trigger es[i]] 0 <= i < es.len() implies tree::entry_index(
            fs,
            es[i].name,
        ) < fs.len() && tree::same_tree(
            es[i].tree,
            fs[tree::entry_index(fs, es[i].name)].tree,
        ) by {
            assert(names(fs).contains(es[i].name));
            let k = choose|k: int| 0 <= k < names(fs).len() && names(fs)[k] == es[i].name;
            let c = fs[k];
            lemma_index_of(fs, k);
            lemma_entry_repeated(a, b, i, k);
            lemma_entry_repeated(b, a, k, i);
            lemma_repeated_same(es[i].tree, fs[k].tree);
        }
    }
}

proof fn lemma_entries_found(a: Tree, b: Tree)
    requires
        a matches Tree::Dir { mode: _, entries: Some(_) },
        b matches Tree::Dir { mode: _, entries: Some(_) },
        repeated_in(a, b),
    ensures
        forall|i: int|
            0 <= i < a->Dir_entries->0.len() ==> names(b->Dir_entries->0).contains(
                (#[trigger] a->Dir_entries->0[i]).name,
            ),
{
    let es = a->Dir_entries->0;
    let fs = b->Dir_entries->0;
    assert forall|i: int| 0 <= i < es.len() implies names(fs).contains((#[trigger] es[i]).name) by {
        let p = seq![es[i].name];
        assert(p.skip(1) =~= Seq::<Seq<char>>::empty());
        assert(stands_at(es[i].tree, p.skip(1), es[i].tree));
        assert(stands_at(a, p, es[i].tree));
        let y = choose|y: Tree| #[trigger] stands_at(b, p, y) && alike(es[i].tree, y);
        let k = choose|k: int|
            #![trigger fs[k]]
            0 <= k < fs.len() && fs[k].name == p[0] && stands_at(fs[k].tree, p.skip(1), y);
        assert(names(fs)[k] == es[i].name);
    }
}

proof fn lemma_as_many(es: Seq<Child>, fs: Seq<Child>)
    requires
        distinct(es),
        distinct(fs),
        forall|i: int| 0 <= i < es.len() ==> names(fs).contains((#[trigger] es[i]).name),
    ensures
        es.len() <= fs.len(),
{
    let (a, b) = (names(es), names(fs));
    lemma_distinct_names(es);
    lemma_distinct_names(fs);
    a.unique_seq_to_set();
    b.unique_seq_to_set();
    assert forall|n: Seq<char>| a.to_set().contains(n) implies b.to_set().contains(n) by {
        let i = choose|i: int| 0 <= i < a.len() && a[i] == n;
        assert(b.contains(es[i].name));
    }
    vstd::set_lib::lemma_len_subset(a.to_set(), b.to_set());
}

proof fn lemma_entry_repeated(a: Tree, b: Tree, i: int, k: int)
    requires
        a matches Tree::Dir { mode: _, entries: Some(es) } && 0 <= i < es.len(),
        b matches Tree::Dir { mode: _, entries: Some(fs) } && 0 <= k < fs.len(),
        distinct(b->Dir_entries->0),
        a->Dir_entries->0[i].name == b->Dir_entries->0[k].name,
        repeated_in(a, b),
    ensures
        repeated_in(a->Dir_entries->0[i].tree, b->Dir_entries->0[k].tree),
{
    let es = a->Dir_entries->0;
    let fs = b->Dir_entries->0;
    assert forall|p: Seq<Seq<char>>, x: Tree| #[trigger] stands_at(es[i].tree, p, x) implies exists|
        y: Tree,
    | #[trigger] stands_at(fs[k].tree, p, y) && alike(x, y) by {
        let q = seq![es[i].name] + p;
        assert(q.skip(1) =~= p);
        assert(stands_at(a, q, x));
        let y = choose|y: Tree| #[trigger] stands_at(b, q, y) && alike(x, y);
        let j = choose|j: int|
            #![trigger fs[j]]
            0 <= j < fs.len() && fs[j].name == q[0] && stands_at(fs[j].tree, q.skip(1), y);
        if j < k {
            assert(fs[j].name != fs[k].name);
        } else if k < j {
            assert(fs[k].name != fs[j].name);
        }
    }
}

// ---------------------------------------------------------------------------
// Permission bits
// ---------------------------------------------------------------------------

/// The permission bits of what stands somewhere; a symlink has none of its own.
pub open spec fn mode_of(tree: Tree) -> Option<u32> {
    match tree {
        Tree::Link { .. } => None,
        Tree::Dir { mode, .. } => mode,
        Tree::File { mode, .. } => mode,
        Tree::Other { mode } => mode,
    }
}

/// A tree is too open exactly when something in it, at any depth and reached
/// without following a symlink, has a permission bit for group or others.
pub proof fn law_too_open_iff_something_is(tree: Tree)
    ensures
        tree::too_open(tree) <==> exists|p: Seq<Seq<char>>, x: Tree| #[trigger]
            stands_at(tree, p, x) && (mode_of(x) matches Some(m) && m & 0o077 != 0),
{
    if tree::too_open(tree) {
        lemma_open_somewhere(tree);
    }
    if exists|p: Seq<Seq<char>>, x: Tree| #[trigger]
        stands_at(tree, p, x) && (mode_of(x) matches Some(m) && m & 0o077 != 0) {
        let (p, x) = choose|p: Seq<Seq<char>>, x: Tree| #[trigger]
            stands_at(tree, p, x) && (mode_of(x) matches Some(m) && m & 0o077 != 0);
        lemma_open_below(tree, p, x);
    }
}

proof fn lemma_open_somewhere(tree: Tree)
    requires
        tree::too_open(tree),
    ensures
        exists|p: Seq<Seq<char>>, x: Tree| #[trigger]
            stands_at(tree, p, x) && (mode_of(x) matches Some(m) && m & 0o077 != 0),
    decreases tree,
{
    let here = Seq::<Seq<char>>::empty();
    assert(stands_at(tree, here, tree));
    if !(mode_of(tree) matches Some(m) && m & 0o077 != 0) {
        let es = tree->Dir_entries->0;
        let i = choose|i: int|
            #![trigger es[i]]
            0 <= i < es.len() && tree::too_open(es[i].tree);
        lemma_open_somewhere(es[i].tree);
        let (p, x) = choose|p: Seq<Seq<char>>, x: Tree| #[trigger]
            stands_at(es[i].tree, p, x) && (mode_of(x) matches Some(m) && m & 0o077 != 0);
        let q = seq![es[i].name] + p;
        assert(q.skip(1) =~= p);
        assert(stands_at(tree, q, x));
    }
}

proof fn lemma_open_below(tree: Tree, p: Seq<Seq<char>>, x: Tree)
    requires
        stands_at(tree, p, x),
        mode_of(x) matches Some(m) && m & 0o077 != 0,
    ensures
        tree::too_open(tree),
    decreases p.len(),
{
    if p.len() > 0 {
        let es = tree->Dir_entries->0;
        let i = choose|i: int|
            #![trigger es[i]]
            0 <= i < es.len() && es[i].name == p[0] && stands_at(es[i].tree, p.skip(1), x);
        lemma_open_below(es[i].tree, p.skip(1), x);
    }
}

/// Whether `after` is what tightening makes of `before`, but for the entries of a
/// directory: `0700` for a directory, `0600` for a file or anything else, and a
/// symlink as it was. What they hold stays.
pub open spec fn tight_form(before: Tree, after: Tree) -> bool {
    match before {
        Tree::Link { .. } => after == before,
        Tree::Dir { mode: _, entries } => after matches Tree::Dir { mode: m, entries: e } && m
            == Some(0o700u32) && (e is Some <==> entries is Some) && (e matches Some(f)
            ==> f.len() == entries->0.len()),
        Tree::File { mode: _, bytes } => after == (Tree::File { mode: Some(0o600u32), bytes }),
        Tree::Other { .. } => after == (Tree::Other { mode: Some(0o600u32) }),
    }
}

/// Tightening a tree tightens everything in it, at every depth, and moves nothing:
/// wherever something stood, its tight form stands, and nothing else stands there.
pub proof fn law_tightening_reaches_everything(tree: Tree, p: Seq<Seq<char>>)
    ensures
        forall|x: Tree| #[trigger]
            stands_at(tree, p, x) ==> exists|y: Tree| #[trigger]
                stands_at(tree::tightened(tree), p, y) && tight_form(x, y),
        forall|y: Tree| #[trigger]
            stands_at(tree::tightened(tree), p, y) ==> exists|x: Tree| #[trigger]
                stands_at(tree, p, x) && tight_form(x, y),
    decreases p.len(),
{
    let tight = tree::tightened(tree);
    assert(tight_form(tree, tight));
    if p.len() == 0 {
        assert(stands_at(tree, p, tree));
        assert(stands_at(tight, p, tight));
    } else {
        assert forall|x: Tree| #[trigger] stands_at(tree, p, x) implies exists|y: Tree| #[trigger]
            stands_at(tight, p, y) && tight_form(x, y) by {
            let es = tree->Dir_entries->0;
            let fs = tight->Dir_entries->0;
            let i = choose|i: int|
                #![trigger es[i]]
                0 <= i < es.len() && es[i].name == p[0] && stands_at(es[i].tree, p.skip(1), x);
            law_tightening_reaches_everything(es[i].tree, p.skip(1));
            assert(fs[i].tree == tree::tightened(es[i].tree));
            let y = choose|y: Tree| #[trigger]
                stands_at(fs[i].tree, p.skip(1), y) && tight_form(x, y);
            assert(stands_at(tight, p, y));
        }
        assert forall|y: Tree| #[trigger] stands_at(tight, p, y) implies exists|x: Tree| #[trigger]
            stands_at(tree, p, x) && tight_form(x, y) by {
            let es = tree->Dir_entries->0;
            let fs = tight->Dir_entries->0;
            let i = choose|i: int|
                #![trigger fs[i]]
                0 <= i < fs.len() && fs[i].name == p[0] && stands_at(fs[i].tree, p.skip(1), y);
            law_tightening_reaches_everything(es[i].tree, p.skip(1));
            assert(fs[i].tree == tree::tightened(es[i].tree));
            let x = choose|x: Tree| #[trigger]
                stands_at(es[i].tree, p.skip(1), x) && tight_form(x, y);
            assert(stands_at(tree, p, x));
        }
    }
}

/// A tree can be copied exactly when no symlink in it, at any depth, has a
/// destination that could not be read, and no directory entries that could not.
pub proof fn law_listed_iff_nothing_is_hidden(tree: Tree)
    ensures
        tree::listed(tree) <==> forall|p: Seq<Seq<char>>, x: Tree| #[trigger]
            stands_at(tree, p, x) ==> !(x matches Tree::Link { dest: None }) && !(x matches Tree::Dir {
                mode: _,
                entries: None,
            }),
    decreases tree,
{
    let here = Seq::<Seq<char>>::empty();
    assert(stands_at(tree, here, tree));
    if tree::listed(tree) {
        assert forall|p: Seq<Seq<char>>, x: Tree| #[trigger] stands_at(tree, p, x) implies !(
        x matches Tree::Link { dest: None }) && !(x matches Tree::Dir { mode: _, entries: None }) by {
            lemma_listed_below(tree, p, x);
        }
    } else {
        match tree {
            Tree::Dir { mode: _, entries: Some(es) } => {
                let i = choose|i: int|
                    #![trigger es[i]]
                    0 <= i < es.len() && !tree::listed(es[i].tree);
                law_listed_iff_nothing_is_hidden(es[i].tree);
                let (p, x) = choose|p: Seq<Seq<char>>, x: Tree| #[trigger]
                    stands_at(es[i].tree, p, x) && ((x matches Tree::Link { dest: None })
                        || (x matches Tree::Dir { mode: _, entries: None }));
                let q = seq![es[i].name] + p;
                assert(q.skip(1) =~= p);
                assert(stands_at(tree, q, x));
            },
            _ => {},
        }
    }
}

proof fn lemma_listed_below(tree: Tree, p: Seq<Seq<char>>, x: Tree)
    requires
        tree::listed(tree),
        stands_at(tree, p, x),
    ensures
        tree::listed(x),
    decreases p.len(),
{
    if p.len() > 0 {
        let es = tree->Dir_entries->0;
        let i = choose|i: int|
            #![trigger es[i]]
            0 <= i < es.len() && es[i].name == p[0] && stands_at(es[i].tree, p.skip(1), x);
        lemma_listed_below(es[i].tree, p.skip(1), x);
    }
}

// ---------------------------------------------------------------------------
// What was read
// ---------------------------------------------------------------------------

/// A tree holds all that was read: the kind and the permission bits, the bytes of a
/// file and the destination of a symlink, and for a directory every entry, in order,
/// under its name and with all that was read of it.
pub proof fn law_a_tree_holds_all_that_was_read(node: Node, i: int)
    ensures
        node matches Node::File { mode, bytes } ==> (node@ matches Tree::File {
            mode: m,
            bytes: b,
        } && m == mode && (b is Some <==> bytes is Some) && (bytes matches Some(v) ==> b->0 == v@)),
        node matches Node::Link { dest } ==> (node@ matches Tree::Link { dest: d } && (d is Some
            <==> dest is Some) && (dest matches Some(t) ==> d->0 == t@)),
        node matches Node::Other { mode } ==> node@ == (Tree::Other { mode }),
        node matches Node::Dir { mode, entries } ==> (node@ matches Tree::Dir {
            mode: m,
            entries: e,
        } && m == mode && (e is Some <==> entries is Some) && (entries matches Some(es) ==> e->0.len()
            == es@.len() && (0 <= i < es@.len() ==> e->0[i].name == es@[i].name@ && e->0[i].tree
            == es@[i].node@))),
{
}

} // verus!
