//! What the primitive steps do to a filesystem, and what copying, moving and
//! tightening promise: that a copy is the whole tree, that a crash never leaves
//! half of it in place, and that no part of a secret is passed over.
//!
//! A filesystem is what stands at each path, where a path is the sequence of its
//! components. No symlink is followed on the way to a path.
use vstd::prelude::*;
use vstd::string::*;

use crate::fsutil;
use crate::fsutil::{Found, StepView};
use crate::path;
use crate::text;
use crate::tree;
use crate::tree::{Child, Tree};

verus! {

/// What stands at a path by itself.
pub enum Thing {
    Link { dest: Seq<char> },
    Dir { mode: u32 },
    File { mode: u32, bytes: Seq<u8> },
}

/// What stands at each path, and the permissions that a new directory gets.
pub struct Volume {
    pub at: Map<Seq<Seq<char>>, Thing>,
    pub fresh: u32,
}

/// Whether a path is `base` or lies in it.
pub open spec fn below(p: Seq<Seq<char>>, base: Seq<Seq<char>>) -> bool {
    base.len() <= p.len() && p.take(base.len() as int) == base
}

/// Whether neither of two paths is the other or lies in it.
pub open spec fn apart(p: Seq<Seq<char>>, q: Seq<Seq<char>>) -> bool {
    !below(p, q) && !below(q, p)
}

impl Volume {
    /// Whether anything stands at a path.
    pub open spec fn has(self, p: Seq<Seq<char>>) -> bool {
        self.at.dom().contains(p)
    }

    /// What stands at a path, if anything does.
    pub open spec fn get(self, p: Seq<Seq<char>>) -> Option<Thing> {
        if self.has(p) {
            Some(self.at[p])
        } else {
            None
        }
    }

    /// Whether a directory stands at a path.
    pub open spec fn is_dir(self, p: Seq<Seq<char>>) -> bool {
        self.get(p) matches Some(t) && t is Dir
    }

    /// The volume with that at a path.
    pub open spec fn with(self, p: Seq<Seq<char>>, thing: Thing) -> Volume {
        Volume { at: self.at.insert(p, thing), fresh: self.fresh }
    }

    /// The volume without what is at or in a path.
    pub open spec fn without(self, p: Seq<Seq<char>>) -> Volume {
        Volume { at: self.at.remove_keys(Set::new(|q: Seq<Seq<char>>| below(q, p))), fresh: self.fresh }
    }

    /// Whether every directory that a path lies in is there.
    pub open spec fn reaches(self, p: Seq<Seq<char>>) -> bool {
        p.len() > 0 && forall|n: int| 0 < n < p.len() ==> self.is_dir(#[trigger] p.take(n))
    }

    /// The volume with a directory at a path and wherever one is missing on the
    /// way to it.
    pub open spec fn with_dirs(self, p: Seq<Seq<char>>) -> Volume {
        Volume {
            at: Map::new(
                |q: Seq<Seq<char>>| self.has(q) || (q.len() > 0 && below(p, q)),
                |q: Seq<Seq<char>>|
                    if self.has(q) {
                        self.at[q]
                    } else {
                        Thing::Dir { mode: self.fresh }
                    },
            ),
            fresh: self.fresh,
        }
    }

    /// The volume with what is at or in `from` at or in `to` instead.
    pub open spec fn renamed(self, from: Seq<Seq<char>>, to: Seq<Seq<char>>) -> Volume {
        Volume {
            at: Map::new(
                |q: Seq<Seq<char>>|
                    if below(q, to) {
                        self.has(from + q.skip(to.len() as int))
                    } else {
                        self.has(q) && !below(q, from)
                    },
                |q: Seq<Seq<char>>|
                    if below(q, to) {
                        self.at[from + q.skip(to.len() as int)]
                    } else {
                        self.at[q]
                    },
            ),
            fresh: self.fresh,
        }
    }
}

/// The volume after a step; `None` when the step fails, which leaves it as it
/// was.
pub open spec fn take_step(vol: Volume, step: StepView) -> Option<Volume> {
    match step {
        StepView::MakeDir { path } => made_dirs(vol, path::components(path)),
        StepView::MakeParent { path } => made_dirs(vol, path::components(path)),
        StepView::MakeLink { original, link } => made_link(
            vol,
            path::components(link),
            original,
        ),
        StepView::CopyLink { original, link } => made_link(
            vol,
            path::components(link),
            original,
        ),
        StepView::CopyFile { from, to } => match vol.get(path::components(from)) {
            Some(Thing::File { mode, bytes }) => if vol.reaches(path::components(to)) && (vol.get(
                path::components(to),
            ) matches Some(t) ==> t is File) {
                Some(vol.with(path::components(to), Thing::File { mode, bytes }))
            } else {
                None
            },
            _ => None,
        },
        StepView::MirrorMode { from, to } => match (
            vol.get(path::components(from)),
            vol.get(path::components(to)),
        ) {
            (Some(Thing::Dir { mode }), Some(Thing::Dir { .. })) => Some(
                vol.with(path::components(to), Thing::Dir { mode }),
            ),
            _ => Some(vol),
        },
        StepView::RemoveLink { path } => removed_file(vol, path::components(path)),
        StepView::RemoveFile { path } => removed_file(vol, path::components(path)),
        StepView::RemoveTree { path } => if vol.is_dir(path::components(path)) {
            Some(vol.without(path::components(path)))
        } else {
            None
        },
        StepView::Finalize { from, to } => if vol.has(path::components(from)) && !vol.has(
            path::components(to),
        ) && vol.reaches(path::components(to)) && !below(
            path::components(to),
            path::components(from),
        ) {
            Some(vol.renamed(path::components(from), path::components(to)))
        } else {
            None
        },
        StepView::SetMode { path, mode } => match vol.get(path::components(path)) {
            Some(Thing::Dir { .. }) => Some(vol.with(path::components(path), Thing::Dir { mode })),
            Some(Thing::File { mode: _, bytes }) => Some(
                vol.with(path::components(path), Thing::File { mode, bytes }),
            ),
            _ => None,
        },
    }
}

/// The volume with a directory made; `None` when something else is in the way.
pub open spec fn made_dirs(vol: Volume, p: Seq<Seq<char>>) -> Option<Volume> {
    if forall|n: int| 0 < n <= p.len() && vol.has(#[trigger] p.take(n)) ==> vol.is_dir(p.take(n)) {
        Some(vol.with_dirs(p))
    } else {
        None
    }
}

/// The volume with a symlink made; `None` when something is there already, or
/// the directory that it goes into is not.
pub open spec fn made_link(vol: Volume, p: Seq<Seq<char>>, dest: Seq<char>) -> Option<Volume> {
    if vol.has(p) || !vol.reaches(p) {
        None
    } else {
        Some(vol.with(p, Thing::Link { dest }))
    }
}

/// The volume without a file or symlink; `None` when none stands there.
pub open spec fn removed_file(vol: Volume, p: Seq<Seq<char>>) -> Option<Volume> {
    if vol.has(p) && !vol.is_dir(p) {
        Some(Volume { at: vol.at.remove(p), fresh: vol.fresh })
    } else {
        None
    }
}

/// The volume after steps in order; `None` when one of them fails.
pub open spec fn take_steps(vol: Volume, steps: Seq<StepView>) -> Option<Volume>
    decreases steps.len(),
{
    if steps.len() == 0 {
        Some(vol)
    } else {
        match take_steps(vol, steps.drop_last()) {
            Some(v) => take_step(v, steps.last()),
            None => None,
        }
    }
}

proof fn lemma_steps_concat(vol: Volume, a: Seq<StepView>, b: Seq<StepView>)
    ensures
        take_steps(vol, a + b) == (match take_steps(vol, a) {
            Some(v) => take_steps(v, b),
            None => None,
        }),
    decreases b.len(),
{
    if b.len() == 0 {
        assert(a + b =~= a);
    } else {
        assert((a + b).drop_last() =~= a + b.drop_last());
        lemma_steps_concat(vol, a, b.drop_last());
    }
}

proof fn lemma_one_step(vol: Volume, step: StepView)
    ensures
        take_steps(vol, seq![step]) == take_step(vol, step),
{
    assert(seq![step].drop_last() =~= Seq::<StepView>::empty());
    assert(take_steps(vol, seq![step].drop_last()) == Some(vol));
}

// ---------------------------------------------------------------------------
// Trees on a volume
// ---------------------------------------------------------------------------

/// Whether everything in a tree could be read, its names are those of entries,
/// and there are only files, directories and symlinks in it.
pub open spec fn whole(tree: Tree) -> bool
    decreases tree,
{
    match tree {
        Tree::Link { dest } => dest is Some,
        Tree::Dir { mode: Some(_), entries: Some(es) } => forall|i: int|
            #![trigger es[i]]
            0 <= i < es.len() ==> path::is_plain(es[i].name) && tree::entry_index(es, es[i].name)
                == i && whole(es[i].tree),
        Tree::File { mode, bytes } => mode is Some && bytes is Some,
        _ => false,
    }
}

/// What a tree is by itself, without what is in it.
pub open spec fn head(tree: Tree) -> Option<Thing> {
    match tree {
        Tree::Link { dest: Some(dest) } => Some(Thing::Link { dest }),
        Tree::Dir { mode: Some(mode), entries: _ } => Some(Thing::Dir { mode }),
        Tree::File { mode: Some(mode), bytes: Some(bytes) } => Some(Thing::File { mode, bytes }),
        _ => None,
    }
}

/// What a tree has at a path in it.
pub open spec fn thing_at(tree: Tree, rel: Seq<Seq<char>>) -> Option<Thing>
    decreases rel.len(),
{
    if rel.len() == 0 {
        head(tree)
    } else {
        match tree {
            Tree::Dir { mode: _, entries: Some(es) } => {
                let k = tree::entry_index(es, rel[0]);
                if 0 <= k < es.len() {
                    thing_at(es[k].tree, rel.skip(1))
                } else {
                    None
                }
            },
            _ => None,
        }
    }
}

/// Whether that tree, and nothing else, stands at a path.
pub open spec fn stands(vol: Volume, p: Seq<Seq<char>>, tree: Tree) -> bool {
    forall|q: Seq<Seq<char>>| #[trigger]
        below(q, p) ==> vol.get(q) == thing_at(tree, q.skip(p.len() as int))
}

/// Whether nothing stands at a path or in it.
pub open spec fn free(vol: Volume, p: Seq<Seq<char>>) -> bool {
    forall|q: Seq<Seq<char>>| #[trigger] below(q, p) ==> !vol.has(q)
}

/// Whether two volumes are the same everywhere but at and in a path.
pub open spec fn same_outside(a: Volume, b: Volume, p: Seq<Seq<char>>) -> bool {
    a.fresh == b.fresh && forall|q: Seq<Seq<char>>| !below(q, p) ==> #[trigger] a.get(q) == b.get(q)
}

// ---------------------------------------------------------------------------
// Copying
// ---------------------------------------------------------------------------

/// What stands at each path once the first `n` entries of a directory were
/// copied into a new one at `dst`.
pub open spec fn part_copied(
    vol: Volume,
    end: Volume,
    es: Seq<Child>,
    dst: Seq<Seq<char>>,
    n: int,
) -> bool {
    &&& same_outside(end, vol, dst)
    &&& end.get(dst) == Some(Thing::Dir { mode: vol.fresh })
    &&& forall|q: Seq<Seq<char>>|
        below(q, dst) && q.len() > dst.len() ==> #[trigger] end.get(q) == {
            let k = tree::entry_index(es, q[dst.len() as int]);
            if k < n {
                thing_at(es[k].tree, q.skip(dst.len() as int + 1))
            } else {
                None
            }
        }
}

proof fn lemma_below_push(q: Seq<Seq<char>>, p: Seq<Seq<char>>, name: Seq<char>)
    ensures
        below(q, p.push(name)) <==> below(q, p) && q.len() > p.len() && q[p.len() as int] == name,
        below(p.push(name), p),
{
    if below(q, p.push(name)) {
        assert(q.take(p.len() as int) =~= p.push(name).take(p.len() as int));
        assert(p.push(name).take(p.len() as int) =~= p);
        assert(q[p.len() as int] == q.take(p.len() as int + 1)[p.len() as int]);
    }
    if below(q, p) && q.len() > p.len() && q[p.len() as int] == name {
        assert(q.take(p.len() as int + 1) =~= p.push(name)) by {
            assert forall|i: int| 0 <= i <= p.len() implies q[i] == p.push(name)[i] by {
                if i < p.len() {
                    assert(q[i] == q.take(p.len() as int)[i]);
                }
            }
        }
    }
    assert(p.push(name).take(p.len() as int) =~= p);
}

proof fn lemma_below_trans(q: Seq<Seq<char>>, p: Seq<Seq<char>>, base: Seq<Seq<char>>)
    requires
        below(q, p),
        below(p, base),
    ensures
        below(q, base),
{
    assert(q.take(base.len() as int) =~= q.take(p.len() as int).take(base.len() as int));
}

/// Two paths that one path lies in lie in each other.
proof fn lemma_below_both(q: Seq<Seq<char>>, a: Seq<Seq<char>>, b: Seq<Seq<char>>)
    requires
        below(q, a),
        below(q, b),
        a.len() <= b.len(),
    ensures
        below(b, a),
{
    assert(b.take(a.len() as int) =~= q.take(b.len() as int).take(a.len() as int));
    assert(q.take(a.len() as int) =~= q.take(b.len() as int).take(a.len() as int));
}

/// Making a directory on a way that is there adds that directory alone.
proof fn lemma_make_dir(vol: Volume, p: Seq<Seq<char>>)
    requires
        vol.reaches(p),
        !vol.has(p),
    ensures
        made_dirs(vol, p) == Some(vol.with_dirs(p)),
        vol.with_dirs(p).fresh == vol.fresh,
        forall|q: Seq<Seq<char>>| #[trigger]
            vol.with_dirs(p).get(q) == (if q == p {
                Some(Thing::Dir { mode: vol.fresh })
            } else {
                vol.get(q)
            }),
{
    assert(p.take(p.len() as int) =~= p);
    assert forall|q: Seq<Seq<char>>| #[trigger] vol.with_dirs(p).get(q) == (if q == p {
        Some(Thing::Dir { mode: vol.fresh })
    } else {
        vol.get(q)
    }) by {
        if q.len() > 0 && below(p, q) && q != p {
            assert(vol.is_dir(p.take(q.len() as int)));
        }
    }
}

/// Making a directory that is there already changes nothing.
proof fn lemma_make_dir_again(vol: Volume, p: Seq<Seq<char>>)
    requires
        p.len() > 0 ==> vol.reaches(p) && vol.is_dir(p),
    ensures
        made_dirs(vol, p) matches Some(end) && end.at =~= vol.at && end.fresh == vol.fresh,
{
    assert(p.take(p.len() as int) =~= p);
    assert forall|q: Seq<Seq<char>>| q.len() > 0 && below(p, q) implies vol.has(q) by {
        if q != p {
            assert(vol.is_dir(p.take(q.len() as int)));
        }
    }
}

/// Copying gives the whole tree: its files with their bytes and permissions, its
/// directories with their permissions, its symlinks as symlinks, and nothing
/// else. Nothing outside the copy changes, so the original stands as it was.
pub proof fn law_copy_is_the_whole_tree(vol: Volume, tree: Tree, src: Seq<char>, dst: Seq<char>)
    requires
        whole(tree),
        stands(vol, path::components(src), tree),
        free(vol, path::components(dst)),
        vol.reaches(path::components(dst)),
        apart(path::components(src), path::components(dst)),
    ensures
        take_steps(vol, fsutil::copy_steps(tree, src, dst)) matches Some(end) && stands(
            end,
            path::components(dst),
            tree,
        ) && same_outside(end, vol, path::components(dst)),
    decreases tree, 1nat, 0nat,
{
    let s = path::components(src);
    let d = path::components(dst);
    let steps = fsutil::copy_steps(tree, src, dst);
    assert(below(s, s)) by {
        assert(s.take(s.len() as int) =~= s);
    }
    assert(below(d, d)) by {
        assert(d.take(d.len() as int) =~= d);
    }
    assert(s.skip(s.len() as int) =~= Seq::<Seq<char>>::empty());
    assert(vol.get(s) == head(tree));
    match tree {
        Tree::Link { dest: Some(original) } => {
            lemma_one_step(vol, StepView::CopyLink { original, link: dst });
            assert(steps =~= seq![StepView::CopyLink { original, link: dst }]);
            let end = vol.with(d, Thing::Link { dest: original });
            lemma_single(vol, end, d, tree);
        },
        Tree::Dir { mode: Some(mode), entries: Some(es) } => {
            let first = seq![StepView::MakeDir { path: dst }];
            let inner = fsutil::copy_entries(es, src, dst, es.len());
            let last = seq![StepView::MirrorMode { from: src, to: dst }];
            lemma_one_step(vol, first[0]);
            lemma_make_dir(vol, d);
            let v1 = vol.with_dirs(d);
            assert(part_copied(vol, v1, es, d, 0)) by {
                assert forall|q: Seq<Seq<char>>| below(q, d) && q.len() > d.len() implies {
                    let k = tree::entry_index(es, q[d.len() as int]);
                    #[trigger] v1.get(q) == if k < 0 {
                        thing_at(es[k].tree, q.skip(d.len() as int + 1))
                    } else {
                        None::<Thing>
                    }
                } by {
                    tree::lemma_entry_index(es, q[d.len() as int]);
                }
            }
            lemma_copy_entries(vol, v1, tree, src, dst, es.len());
            let v2 = take_steps(v1, inner)->0;
            lemma_steps_concat(vol, first, inner);
            lemma_steps_concat(vol, first + inner, last);
            lemma_one_step(v2, last[0]);
            assert(v2.get(s) == vol.get(s));
            let end = v2.with(d, Thing::Dir { mode });
            assert(take_steps(vol, steps) == Some(end));
            assert forall|q: Seq<Seq<char>>| #[trigger] below(q, d) implies end.get(q) == thing_at(
                tree,
                q.skip(d.len() as int),
            ) by {
                if q.len() == d.len() {
                    assert(q =~= d) by {
                        assert(q.take(d.len() as int) =~= q);
                    }
                    assert(q.skip(d.len() as int) =~= Seq::<Seq<char>>::empty());
                } else {
                    let rel = q.skip(d.len() as int);
                    assert(rel[0] == q[d.len() as int]);
                    assert(rel.skip(1) =~= q.skip(d.len() as int + 1));
                    tree::lemma_entry_index(es, rel[0]);
                    assert(v2.get(q) == end.get(q));
                }
            }
            assert forall|q: Seq<Seq<char>>| !below(q, d) implies #[trigger] end.get(q) == vol.get(
                q,
            ) by {
                assert(v2.get(q) == vol.get(q));
            }
        },
        _ => {
            lemma_copy_file(vol, tree, src, dst);
        },
    }
}

proof fn lemma_single(vol: Volume, end: Volume, d: Seq<Seq<char>>, tree: Tree)
    requires
        free(vol, d),
        !(tree is Dir),
        head(tree) is Some,
        end == vol.with(d, head(tree)->0),
    ensures
        stands(end, d, tree),
        same_outside(end, vol, d),
{
    assert(below(d, d)) by {
        assert(d.take(d.len() as int) =~= d);
    }
    assert forall|q: Seq<Seq<char>>| #[trigger] below(q, d) implies end.get(q) == thing_at(
        tree,
        q.skip(d.len() as int),
    ) by {
        if q.len() == d.len() {
            assert(q =~= d) by {
                assert(q.take(d.len() as int) =~= q);
            }
        } else {
            assert(!vol.has(q));
        }
    }
}

proof fn lemma_copy_file(vol: Volume, tree: Tree, src: Seq<char>, dst: Seq<char>)
    requires
        tree is File,
        whole(tree),
        vol.get(path::components(src)) == head(tree),
        free(vol, path::components(dst)),
        vol.reaches(path::components(dst)),
    ensures
        take_steps(vol, fsutil::copy_steps(tree, src, dst)) matches Some(end) && stands(
            end,
            path::components(dst),
            tree,
        ) && same_outside(end, vol, path::components(dst)),
{
    let d = path::components(dst);
    assert(below(d, d)) by {
        assert(d.take(d.len() as int) =~= d);
    }
    let copy = StepView::CopyFile { from: src, to: dst };
    let dir = match path::parent(dst) {
        Some(p) => seq![StepView::MakeParent { path: p }],
        None => seq![],
    };
    assert(dir.push(copy) =~= dir + seq![copy]);
    lemma_steps_concat(vol, dir, seq![copy]);
    path::lemma_parent_components(dst);
    match path::parent(dst) {
        Some(p) => {
            lemma_one_step(vol, StepView::MakeParent { path: p });
            let c = path::components(p);
            if c.len() > 0 {
                assert(d.take(c.len() as int) =~= c);
                assert forall|n: int| 0 < n < c.len() implies vol.is_dir(#[trigger] c.take(n)) by {
                    assert(c.take(n) =~= d.take(n));
                }
            }
            lemma_make_dir_again(vol, c);
            assert(take_steps(vol, dir) == Some(vol));
        },
        None => {},
    }
    lemma_one_step(vol, copy);
    lemma_single(vol, vol.with(d, head(tree)->0), d, tree);
}

proof fn lemma_copy_entries(
    vol: Volume,
    start: Volume,
    tree: Tree,
    src: Seq<char>,
    dst: Seq<char>,
    n: nat,
)
    requires
        tree matches Tree::Dir { mode: Some(_), entries: Some(es) } && n <= es.len()
            && part_copied(vol, start, es, path::components(dst), 0),
        whole(tree),
        stands(vol, path::components(src), tree),
        free(vol, path::components(dst)),
        vol.reaches(path::components(dst)),
        apart(path::components(src), path::components(dst)),
    ensures
        tree matches Tree::Dir { mode: _, entries: Some(es) } && take_steps(
            start,
            fsutil::copy_entries(es, src, dst, n),
        ) matches Some(end) && part_copied(vol, end, es, path::components(dst), n as int),
    decreases tree, 0nat, n,
{
    let es = tree->Dir_entries->0;
    let s = path::components(src);
    let d = path::components(dst);
    if n > 0 {
        let m = (n - 1) as nat;
        lemma_copy_entries(vol, start, tree, src, dst, m);
        let mid = take_steps(start, fsutil::copy_entries(es, src, dst, m))->0;
        let c = es[m as int];
        let from = path::joined(src, c.name);
        let to = path::joined(dst, c.name);
        path::lemma_entry_components(src, c.name);
        path::lemma_entry_components(dst, c.name);
        lemma_below_push(s, s, c.name);
        lemma_below_push(d, d, c.name);
        assert(stands(mid, s.push(c.name), c.tree)) by {
            assert forall|q: Seq<Seq<char>>| #[trigger] below(q, s.push(c.name)) implies mid.get(q)
                == thing_at(c.tree, q.skip(s.len() as int + 1)) by {
                lemma_below_push(q, s, c.name);
                if below(q, d) {
                    if s.len() <= d.len() {
                        lemma_below_both(q, s, d);
                    } else {
                        lemma_below_both(q, d, s);
                    }
                }
                let rel = q.skip(s.len() as int);
                assert(vol.get(q) == thing_at(tree, rel));
                assert(rel[0] == c.name);
                assert(rel.skip(1) =~= q.skip(s.len() as int + 1));
            }
        }
        assert(free(mid, d.push(c.name))) by {
            assert forall|q: Seq<Seq<char>>| #[trigger] below(q, d.push(c.name)) implies !mid.has(
                q,
            ) by {
                lemma_below_push(q, d, c.name);
                assert(mid.get(q) is None);
            }
        }
        assert(mid.reaches(d.push(c.name))) by {
            assert forall|k: int| 0 < k < d.push(c.name).len() implies mid.is_dir(
                #[trigger] d.push(c.name).take(k),
            ) by {
                assert(d.push(c.name).take(k) =~= d.take(k));
                if k < d.len() {
                    assert(vol.is_dir(d.take(k)));
                    assert(!below(d.take(k), d));
                } else {
                    assert(d.take(k) =~= d);
                }
            }
        }
        assert(apart(s.push(c.name), d.push(c.name))) by {
            if below(s.push(c.name), d.push(c.name)) {
                lemma_below_push(s.push(c.name), d, c.name);
                lemma_below_both(s.push(c.name), d, s);
            }
            if below(d.push(c.name), s.push(c.name)) {
                lemma_below_push(d.push(c.name), s, c.name);
                lemma_below_both(d.push(c.name), s, d);
            }
        }
        law_copy_is_the_whole_tree(mid, c.tree, from, to);
        let inner = fsutil::copy_steps(c.tree, from, to);
        let end = take_steps(mid, inner)->0;
        lemma_steps_concat(start, fsutil::copy_entries(es, src, dst, m), inner);
        assert(part_copied(vol, end, es, d, n as int)) by {
            assert forall|q: Seq<Seq<char>>| !below(q, d) implies #[trigger] end.get(q) == vol.get(
                q,
            ) by {
                lemma_below_push(q, d, c.name);
                assert(mid.get(q) == vol.get(q));
            }
            assert(!below(d, d.push(c.name)));
            assert(end.get(d) == mid.get(d));
            assert forall|q: Seq<Seq<char>>| below(q, d) && q.len() > d.len() implies {
                let k = tree::entry_index(es, q[d.len() as int]);
                #[trigger] end.get(q) == if k < n {
                    thing_at(es[k].tree, q.skip(d.len() as int + 1))
                } else {
                    None::<Thing>
                }
            } by {
                lemma_below_push(q, d, c.name);
                tree::lemma_entry_index(es, q[d.len() as int]);
                if q[d.len() as int] == c.name {
                    assert(below(q, d.push(c.name)));
                } else {
                    assert(mid.get(q) == end.get(q));
                }
            }
        }
    }
}

/// Whether a step writes only at or in a path, or makes the directory that the
/// path goes into.
pub open spec fn keeps_to(step: StepView, p: Seq<Seq<char>>) -> bool {
    match step {
        StepView::MakeDir { path } => below(path::components(path), p),
        StepView::MakeParent { path } => below(path::components(path), p) || (p.len() > 0
            && path::components(path) == p.drop_last()),
        StepView::CopyLink { original: _, link } => below(path::components(link), p),
        StepView::CopyFile { from: _, to } => below(path::components(to), p),
        StepView::MirrorMode { from: _, to } => below(path::components(to), p),
        _ => false,
    }
}

proof fn lemma_step_keeps_to(vol: Volume, step: StepView, p: Seq<Seq<char>>)
    requires
        keeps_to(step, p),
        vol.reaches(p),
    ensures
        take_step(vol, step) matches Some(end) ==> same_outside(end, vol, p) && end.reaches(p),
{
    match take_step(vol, step) {
        Some(end) => {
            let made = match step {
                StepView::MakeDir { path } => path::components(path),
                StepView::MakeParent { path } => path::components(path),
                _ => p,
            };
            if step is MakeDir || step is MakeParent {
                assert forall|q: Seq<Seq<char>>| !below(q, p) implies #[trigger] end.get(q)
                    == vol.get(q) by {
                    if q.len() > 0 && below(made, q) {
                        assert(q.len() < p.len()) by {
                            if q.len() >= p.len() && below(made, p) {
                                lemma_below_both(made, p, q);
                            }
                        }
                        assert(q =~= p.take(q.len() as int)) by {
                            assert(q =~= made.take(q.len() as int));
                            if below(made, p) {
                                assert(made.take(q.len() as int) =~= made.take(p.len() as int).take(
                                    q.len() as int,
                                ));
                            }
                        }
                        assert(vol.is_dir(p.take(q.len() as int)));
                    }
                }
            }
            assert forall|n: int| 0 < n < p.len() implies end.is_dir(#[trigger] p.take(n)) by {
                assert(!below(p.take(n), p));
                assert(vol.is_dir(p.take(n)));
                assert(end.get(p.take(n)) == vol.get(p.take(n)));
            }
        },
        None => {},
    }
}

/// Every step of a copy writes only at or in the place that is copied to.
pub proof fn law_copy_keeps_to_its_place(tree: Tree, src: Seq<char>, dst: Seq<char>, i: int)
    requires
        whole(tree),
        0 <= i < fsutil::copy_steps(tree, src, dst).len(),
    ensures
        keeps_to(fsutil::copy_steps(tree, src, dst)[i], path::components(dst)),
    decreases tree, 1nat, 0nat,
{
    let d = path::components(dst);
    assert(d.take(d.len() as int) =~= d);
    path::lemma_parent_components(dst);
    match tree {
        Tree::Dir { mode: _, entries: Some(es) } => {
            let inner = fsutil::copy_entries(es, src, dst, es.len());
            if 0 < i <= inner.len() {
                lemma_entries_keep_to(tree, src, dst, es.len(), i - 1);
                assert(fsutil::copy_steps(tree, src, dst)[i] == inner[i - 1]);
            }
        },
        _ => {},
    }
}

proof fn lemma_entries_keep_to(tree: Tree, src: Seq<char>, dst: Seq<char>, n: nat, i: int)
    requires
        whole(tree),
        tree matches Tree::Dir { mode: _, entries: Some(es) } && n <= es.len() && 0 <= i
            < fsutil::copy_entries(es, src, dst, n).len(),
    ensures
        tree matches Tree::Dir { mode: _, entries: Some(es) } && keeps_to(
            fsutil::copy_entries(es, src, dst, n)[i],
            path::components(dst),
        ),
    decreases tree, 0nat, n,
{
    let es = tree->Dir_entries->0;
    let d = path::components(dst);
    if n > 0 {
        let m = (n - 1) as nat;
        let c = es[m as int];
        let lead = fsutil::copy_entries(es, src, dst, m);
        if i < lead.len() {
            lemma_entries_keep_to(tree, src, dst, m, i);
        } else {
            let to = path::joined(dst, c.name);
            let steps = fsutil::copy_steps(c.tree, path::joined(src, c.name), to);
            law_copy_keeps_to_its_place(c.tree, path::joined(src, c.name), to, i - lead.len());
            path::lemma_entry_components(dst, c.name);
            lemma_below_push(d, d, c.name);
            let step = steps[i - lead.len()];
            let w = match step {
                StepView::MakeDir { path } => path::components(path),
                StepView::MakeParent { path } => path::components(path),
                StepView::CopyLink { original: _, link } => path::components(link),
                StepView::CopyFile { from: _, to } => path::components(to),
                StepView::MirrorMode { from: _, to } => path::components(to),
                _ => d,
            };
            if below(w, d.push(c.name)) {
                lemma_below_trans(w, d.push(c.name), d);
            } else {
                assert(d.push(c.name).drop_last() =~= d);
                assert(d.take(d.len() as int) =~= d);
            }
        }
    }
}

proof fn lemma_prefix_keeps_to(vol: Volume, steps: Seq<StepView>, p: Seq<Seq<char>>, n: int)
    requires
        vol.reaches(p),
        forall|i: int| 0 <= i < steps.len() ==> keeps_to(#[trigger] steps[i], p),
        take_steps(vol, steps) is Some,
        0 <= n <= steps.len(),
    ensures
        take_steps(vol, steps.take(n)) matches Some(mid) && same_outside(mid, vol, p)
            && mid.reaches(p),
    decreases steps.len(),
{
    if n == steps.len() {
        assert(steps.take(n) =~= steps);
        if n > 0 {
            lemma_prefix_keeps_to(vol, steps.drop_last(), p, n - 1);
            assert(steps.drop_last().take(n - 1) =~= steps.drop_last());
            lemma_step_keeps_to(take_steps(vol, steps.drop_last())->0, steps.last(), p);
        }
    } else {
        lemma_prefix_keeps_to(vol, steps.drop_last(), p, n);
        assert(steps.drop_last().take(n) =~= steps.take(n));
    }
}

// ---------------------------------------------------------------------------
// Moving
// ---------------------------------------------------------------------------

/// The temporary path of a path is another one in the same directory.
pub proof fn law_temporary_is_a_sibling(p: Seq<char>)
    requires
        path::is_part(text::segments(p).last(), text::segments(p).len() - 1),
    ensures
        path::components(fsutil::temp_name(p)).len() == path::components(p).len(),
        path::components(fsutil::temp_name(p)).drop_last() == path::components(p).drop_last(),
        apart(path::components(fsutil::temp_name(p)), path::components(p)),
{
    reveal_strlit(".dotsync-tmp");
    let c = path::components(p);
    let t = path::components(fsutil::temp_name(p));
    path::lemma_suffixed_components(p, ".dotsync-tmp"@);
    assert(t.drop_last() =~= c.drop_last());
    assert(t.last().len() > c.last().len());
    assert(t.take(t.len() as int) =~= t);
    assert(c.take(c.len() as int) =~= c);
}

/// A move that copies ends with the whole tree at its new place and nothing at
/// the old one, and however far it came, it never leaves half of it: the tree
/// stands where it was until the whole of it stands where it goes, and nothing
/// else stands there before. Nothing else changes but at the temporary path,
/// which is free again in the end.
pub proof fn law_move_is_all_or_nothing(
    vol: Volume,
    tree: Tree,
    src: Seq<char>,
    dst: Seq<char>,
    n: int,
)
    requires
        whole(tree),
        stands(vol, path::components(src), tree),
        free(vol, path::components(dst)),
        free(vol, path::components(fsutil::temp_name(dst))),
        vol.reaches(path::components(dst)),
        path::is_part(text::segments(dst).last(), text::segments(dst).len() - 1),
        apart(path::components(src), path::components(dst)),
        apart(path::components(src), path::components(fsutil::temp_name(dst))),
        0 <= n <= fsutil::move_steps(tree, src, dst).len(),
    ensures
        take_steps(vol, fsutil::move_steps(tree, src, dst).take(n)) matches Some(mid) && {
            let (s, d, t) = (
                path::components(src),
                path::components(dst),
                path::components(fsutil::temp_name(dst)),
            );
            let done = fsutil::move_steps(tree, src, dst).len();
            &&& n < done - 1 ==> stands(mid, s, tree) && free(mid, d)
            &&& n >= done - 1 ==> stands(mid, d, tree) && free(mid, t)
            &&& n == done - 1 ==> stands(mid, s, tree)
            &&& n == done ==> free(mid, s)
            &&& forall|q: Seq<Seq<char>>|
                !below(q, s) && !below(q, d) && !below(q, t) ==> #[trigger] mid.get(q) == vol.get(q)
        },
{
    let tmp = fsutil::temp_name(dst);
    let (s, d, t) = (path::components(src), path::components(dst), path::components(tmp));
    let copy = fsutil::copy_steps(tree, src, tmp);
    let fin = StepView::Finalize { from: tmp, to: dst };
    let all = fsutil::move_steps(tree, src, dst);
    law_temporary_is_a_sibling(dst);
    assert(vol.reaches(t)) by {
        assert forall|k: int| 0 < k < t.len() implies vol.is_dir(#[trigger] t.take(k)) by {
            assert(t.take(k) =~= t.drop_last().take(k));
            assert(d.take(k) =~= d.drop_last().take(k));
            assert(vol.is_dir(d.take(k)));
        }
    }
    law_copy_is_the_whole_tree(vol, tree, src, tmp);
    assert forall|i: int| 0 <= i < copy.len() implies keeps_to(#[trigger] copy[i], t) by {
        law_copy_keeps_to_its_place(tree, src, tmp, i);
    }
    assert(s.take(s.len() as int) =~= s);
    assert(d.take(d.len() as int) =~= d);
    assert(t.take(t.len() as int) =~= t);
    if n <= copy.len() {
        lemma_prefix_keeps_to(vol, copy, t, n);
        assert(all.take(n) =~= copy.take(n));
        let mid = take_steps(vol, copy.take(n))->0;
        lemma_untouched(vol, mid, s, t);
        lemma_untouched(vol, mid, d, t);
        assert forall|q: Seq<Seq<char>>| #[trigger] below(q, d) implies !mid.has(q) by {
            assert(mid.get(q) == vol.get(q));
        }
    } else {
        let v1 = take_steps(vol, copy)->0;
        lemma_untouched(vol, v1, s, t);
        lemma_untouched(vol, v1, d, t);
        assert(free(v1, d)) by {
            assert forall|q: Seq<Seq<char>>| #[trigger] below(q, d) implies !v1.has(q) by {
                assert(v1.get(q) == vol.get(q));
            }
        }
        assert(v1.reaches(d)) by {
            assert forall|k: int| 0 < k < d.len() implies v1.is_dir(#[trigger] d.take(k)) by {
                assert(vol.is_dir(d.take(k)));
                assert(!below(d.take(k), t));
                assert(v1.get(d.take(k)) == vol.get(d.take(k)));
            }
        }
        lemma_rename(v1, tree, s, d, t);
        let v2 = v1.renamed(t, d);
        assert(take_step(v1, fin) == Some(v2));
        lemma_one_step(v1, fin);
        lemma_steps_concat(vol, copy, seq![fin]);
        if n == copy.len() + 1 {
            assert(all.take(n) =~= copy + seq![fin]);
        } else {
            let rem = fsutil::removal(tree, src);
            assert(all.take(n) =~= copy + seq![fin] + seq![rem]);
            lemma_steps_concat(vol, copy + seq![fin], seq![rem]);
            lemma_one_step(v2, rem);
            lemma_removal(v2, tree, src, d, t);
        }
    }
}

proof fn lemma_rename(
    vol: Volume,
    tree: Tree,
    s: Seq<Seq<char>>,
    d: Seq<Seq<char>>,
    t: Seq<Seq<char>>,
)
    requires
        whole(tree),
        stands(vol, s, tree),
        stands(vol, t, tree),
        free(vol, d),
        apart(s, d),
        apart(s, t),
        apart(t, d),
    ensures
        vol.has(t),
        !vol.has(d),
        stands(vol.renamed(t, d), s, tree),
        stands(vol.renamed(t, d), d, tree),
        free(vol.renamed(t, d), t),
        forall|q: Seq<Seq<char>>|
            !below(q, d) && !below(q, t) ==> #[trigger] vol.renamed(t, d).get(q) == vol.get(q),
{
    let end = vol.renamed(t, d);
    assert(below(t, t)) by {
        assert(t.take(t.len() as int) =~= t);
    }
    assert(below(d, d)) by {
        assert(d.take(d.len() as int) =~= d);
    }
    assert(t.skip(t.len() as int) =~= Seq::<Seq<char>>::empty());
    assert(vol.get(t) == head(tree));
    assert forall|q: Seq<Seq<char>>| #[trigger] below(q, d) implies end.get(q) == thing_at(
        tree,
        q.skip(d.len() as int),
    ) by {
        let back = t + q.skip(d.len() as int);
        assert(back.take(t.len() as int) =~= t);
        assert(back.skip(t.len() as int) =~= q.skip(d.len() as int));
        assert(below(back, t));
    }
    assert forall|q: Seq<Seq<char>>| #[trigger] below(q, t) implies !end.has(q) by {
        lemma_not_both(q, t, d);
    }
    assert forall|q: Seq<Seq<char>>| #[trigger] below(q, s) implies end.get(q) == thing_at(
        tree,
        q.skip(s.len() as int),
    ) by {
        lemma_not_both(q, s, d);
        lemma_not_both(q, s, t);
    }
}

proof fn lemma_removal(
    vol: Volume,
    tree: Tree,
    src: Seq<char>,
    d: Seq<Seq<char>>,
    t: Seq<Seq<char>>,
)
    requires
        whole(tree),
        stands(vol, path::components(src), tree),
        stands(vol, d, tree),
        free(vol, t),
        apart(path::components(src), d),
    ensures
        take_step(vol, fsutil::removal(tree, src)) matches Some(end) && free(end, path::components(src))
            && stands(end, d, tree) && free(end, t) && same_outside(
            end,
            vol,
            path::components(src),
        ),
{
    let s = path::components(src);
    assert(below(s, s)) by {
        assert(s.take(s.len() as int) =~= s);
    }
    assert(s.skip(s.len() as int) =~= Seq::<Seq<char>>::empty());
    assert(vol.get(s) == head(tree));
    let end = take_step(vol, fsutil::removal(tree, src))->0;
    assert forall|q: Seq<Seq<char>>| #[trigger] below(q, s) implies !end.has(q) by {
        if !(tree is Dir) && q != s {
            assert(q.len() > s.len()) by {
                if q.len() == s.len() {
                    assert(q =~= q.take(s.len() as int));
                }
            }
            assert(vol.get(q) is None);
        }
    }
    assert forall|q: Seq<Seq<char>>| !below(q, s) implies #[trigger] end.get(q) == vol.get(q) by {}
    assert forall|q: Seq<Seq<char>>| #[trigger] below(q, d) implies end.get(q) == thing_at(
        tree,
        q.skip(d.len() as int),
    ) by {
        lemma_not_both(q, d, s);
        assert(end.get(q) == vol.get(q));
    }
    assert forall|q: Seq<Seq<char>>| #[trigger] below(q, t) implies !end.has(q) by {
        assert(!vol.has(q));
    }
}

proof fn lemma_not_both(q: Seq<Seq<char>>, a: Seq<Seq<char>>, b: Seq<Seq<char>>)
    requires
        below(q, a),
        apart(a, b),
    ensures
        !below(q, b),
{
    if below(q, b) {
        if a.len() <= b.len() {
            lemma_below_both(q, a, b);
        } else {
            lemma_below_both(q, b, a);
        }
    }
}

proof fn lemma_untouched(vol: Volume, end: Volume, p: Seq<Seq<char>>, other: Seq<Seq<char>>)
    requires
        same_outside(end, vol, other),
        apart(p, other),
    ensures
        forall|q: Seq<Seq<char>>| #[trigger] below(q, p) ==> end.get(q) == vol.get(q),
{
    assert forall|q: Seq<Seq<char>>| #[trigger] below(q, p) implies end.get(q) == vol.get(q) by {
        lemma_not_both(q, p, other);
    }
}

// ---------------------------------------------------------------------------
// Tightening
// ---------------------------------------------------------------------------

/// What kind of thing it is.
pub open spec fn kind(thing: Thing) -> Found {
    match thing {
        Thing::Link { .. } => Found::Link,
        Thing::Dir { .. } => Found::Dir,
        Thing::File { .. } => Found::Other,
    }
}

/// The thing with the permissions of a secret.
pub open spec fn tight(thing: Thing) -> Thing {
    match thing {
        Thing::Link { .. } => thing,
        Thing::Dir { mode: _ } => Thing::Dir { mode: 0o700 },
        Thing::File { mode: _, bytes } => Thing::File { mode: 0o600, bytes },
    }
}

/// Whether a path is one of those that are still to be visited, or lies in one.
pub open spec fn pending_at(pending: Seq<Seq<char>>, q: Seq<Seq<char>>) -> bool {
    exists|k: int|
        0 <= k < pending.len() && #[trigger] below(q, path::components(pending[k]))
}

/// How far tightening what stood at a path has come: all of it is as it was or
/// tight, all of it is tight that is not still to be visited, and nothing else
/// has changed.
pub open spec fn tightening(
    was: Volume,
    vol: Volume,
    p: Seq<Seq<char>>,
    pending: Seq<Seq<char>>,
) -> bool {
    &&& same_outside(vol, was, p)
    &&& forall|q: Seq<Seq<char>>|
        below(q, p) ==> match was.get(q) {
            None => #[trigger] vol.get(q) is None,
            Some(t) => vol.get(q) == Some(tight(t)) || (vol.get(q) == Some(t) && pending_at(
                pending,
                q,
            )),
        }
}

/// Tightening passes nothing over. It begins with the one path; a visit sets the
/// permissions of what stands at a path and, where that is a directory, takes up
/// every entry; and once nothing is left to visit, all that stood at the path
/// has the permissions of a secret.
pub proof fn law_tightening_passes_nothing_over(
    was: Volume,
    vol: Volume,
    p: Seq<char>,
    pending: Seq<Seq<char>>,
    names: Seq<Seq<char>>,
)
    ensures
        tightening(was, was, path::components(p), fsutil::first_visits(p)),
        fsutil::next_visit(pending) is None ==> pending.len() == 0,
        tightening(was, vol, path::components(p), Seq::empty()) ==> forall|q: Seq<Seq<char>>|
            below(q, path::components(p)) ==> (#[trigger] vol.get(q)) == (match was.get(q) {
                Some(t) => Some(tight(t)),
                None => None,
            }),
        fsutil::next_visit(pending) matches Some(at) ==> tightening(
            was,
            vol,
            path::components(p),
            pending,
        ) && below(path::components(at), path::components(p)) && visited(was, vol, at, names) ==> {
            &&& visit(vol, at) matches Some(end)
            &&& tightening(
                was,
                end,
                path::components(p),
                fsutil::later_visits(pending) + left(vol, at, names),
            )
        },
{
    let c = path::components(p);
    assert forall|q: Seq<Seq<char>>| below(q, c) implies pending_at(seq![p], q) by {
        assert(below(q, path::components(seq![p][0])));
    }
    assert forall|q: Seq<Seq<char>>| !pending_at(Seq::empty(), q) by {}
    if pending.len() > 0 && tightening(was, vol, c, pending) && below(
        path::components(pending.last()),
        c,
    ) && visited(was, vol, pending.last(), names) {
        let at = pending.last();
        let a = path::components(at);
        let end = visit(vol, at)->0;
        let rest = pending.drop_last() + left(vol, at, names);
        assert(a.take(a.len() as int) =~= a);
        assert(vol.get(a) is Some);
        assert(visit(vol, at) is Some);
        assert forall|q: Seq<Seq<char>>| below(q, c) implies match was.get(q) {
            None => #[trigger] end.get(q) is None,
            Some(t) => end.get(q) == Some(tight(t)) || (end.get(q) == Some(t) && pending_at(
                rest,
                q,
            )),
        } by {
            let before = vol.get(q);
            if q == a {
                assert(end.get(q) == Some(tight(vol.at[a])));
            } else {
                assert(end.get(q) == vol.get(q));
                match was.get(q) {
                    Some(t) => {
                        if vol.get(q) == Some(t) && vol.get(q) != Some(tight(t)) {
                            let k = choose|k: int|
                                0 <= k < pending.len() && #[trigger] below(
                                    q,
                                    path::components(pending[k]),
                                );
                            if k < pending.len() - 1 {
                                assert(rest[k] == pending[k]);
                                assert(below(q, path::components(rest[k])));
                            } else {
                                assert(q.len() > a.len()) by {
                                    if q.len() == a.len() {
                                        assert(q =~= q.take(a.len() as int));
                                    }
                                }
                                let name = q[a.len() as int];
                                assert(vol.is_dir(a) && names.contains(name));
                                let j = choose|j: int| 0 <= j < names.len() && names[j] == name;
                                path::lemma_entry_components(at, name);
                                lemma_below_push(q, a, name);
                                let m = pending.len() - 1 + j;
                                assert(rest[m] == path::joined(at, name));
                                assert(below(q, path::components(rest[m])));
                            }
                        }
                    },
                    None => {},
                }
            }
        }
        assert forall|q: Seq<Seq<char>>| !below(q, c) implies #[trigger] end.get(q) == was.get(
            q,
        ) by {
            assert(vol.get(q) == was.get(q));
        }
    }
}

/// Whether a visit finds what the disk holds: something stands at the path, and
/// whatever stood in it lies in a directory there whose entries are those names.
pub open spec fn visited(was: Volume, vol: Volume, at: Seq<char>, names: Seq<Seq<char>>) -> bool {
    let a = path::components(at);
    &&& vol.has(a)
    &&& forall|j: int| 0 <= j < names.len() ==> path::is_plain(#[trigger] names[j])
    &&& forall|q: Seq<Seq<char>>|
        #![trigger was.get(q)]
        below(q, a) && q.len() > a.len() && was.has(q) ==> vol.is_dir(a) && names.contains(
            q[a.len() as int],
        )
}

/// The volume after the step that is due on a path that is visited.
pub open spec fn visit(vol: Volume, at: Seq<char>) -> Option<Volume> {
    match vol.get(path::components(at)) {
        None => None,
        Some(t) => match fsutil::tighten_step(at, kind(t)) {
            None => Some(vol),
            Some(step) => take_step(vol, step),
        },
    }
}

/// What a visit leaves to be visited.
pub open spec fn left(vol: Volume, at: Seq<char>, names: Seq<Seq<char>>) -> Seq<Seq<char>> {
    if vol.is_dir(path::components(at)) {
        fsutil::entry_paths(at, names)
    } else {
        Seq::empty()
    }
}

/// A tree that was tightened throughout is the tree with the permissions of a
/// secret.
pub proof fn law_tightened_tree_stands(was: Volume, vol: Volume, p: Seq<Seq<char>>, tree: Tree)
    requires
        whole(tree),
        stands(was, p, tree),
        tightening(was, vol, p, Seq::empty()),
    ensures
        stands(vol, p, tree::tightened(tree)),
{
    assert forall|q: Seq<Seq<char>>| #[trigger] below(q, p) implies vol.get(q) == thing_at(
        tree::tightened(tree),
        q.skip(p.len() as int),
    ) by {
        lemma_tightened_thing(tree, q.skip(p.len() as int));
        assert(!pending_at(Seq::empty(), q));
        assert(was.get(q) == thing_at(tree, q.skip(p.len() as int)));
        assert(vol.get(q) is Some || vol.get(q) is None);
    }
}

proof fn lemma_tightened_thing(tree: Tree, rel: Seq<Seq<char>>)
    requires
        whole(tree),
    ensures
        thing_at(tree::tightened(tree), rel) == (match thing_at(tree, rel) {
            Some(t) => Some(tight(t)),
            None => None,
        }),
    decreases rel.len(),
{
    if rel.len() > 0 {
        match tree {
            Tree::Dir { mode: _, entries: Some(es) } => {
                let out = tree::tightened(tree)->Dir_entries->0;
                tree::lemma_tightened_index(es, out, rel[0]);
                tree::lemma_entry_index(es, rel[0]);
                let k = tree::entry_index(es, rel[0]);
                if k < es.len() {
                    lemma_tightened_thing(es[k].tree, rel.skip(1));
                }
            },
            _ => {},
        }
    }
}

} // verus!
