//! Paths as text, compared by their components.
//!
//! A path is a sequence of components: the root for a path that begins with
//! `/`, then every segment between slashes that is not empty and not `.` (a `.`
//! that begins a relative path counts). Two texts with the same components are
//! the same path.
use vstd::prelude::*;
use vstd::string::*;

use crate::text;

verus! {

/// Whether the path begins at the root.
pub open spec fn is_absolute(p: Seq<char>) -> bool {
    p.len() > 0 && p[0] == '/'
}

/// Whether the segment at `index` of a path is one of its components.
pub open spec fn is_part(segment: Seq<char>, index: int) -> bool {
    segment.len() > 0 && (segment != seq!['.'] || index == 0)
}

/// The segments that are components, in order.
pub open spec fn parts(segs: Seq<Seq<char>>) -> Seq<Seq<char>>
    decreases segs.len(),
{
    if segs.len() == 0 {
        Seq::<Seq<char>>::empty()
    } else if is_part(segs.last(), segs.len() - 1) {
        parts(segs.drop_last()).push(segs.last())
    } else {
        parts(segs.drop_last())
    }
}

/// The root component of an absolute path, nothing for another.
pub open spec fn root(p: Seq<char>) -> Seq<Seq<char>> {
    if is_absolute(p) {
        seq![seq!['/']]
    } else {
        Seq::<Seq<char>>::empty()
    }
}

/// The components of a path.
pub open spec fn components(p: Seq<char>) -> Seq<Seq<char>> {
    root(p) + parts(text::segments(p))
}

/// Whether two texts name the same path.
pub open spec fn same_path(a: Seq<char>, b: Seq<char>) -> bool {
    components(a) == components(b)
}

/// Whether `base` is `p` or one of its ancestors, component by component.
pub open spec fn within(p: Seq<char>, base: Seq<char>) -> bool {
    components(base).len() <= components(p).len() && components(p).take(
        components(base).len() as int,
    ) == components(base)
}

/// The path `rel` as seen from `base`: `rel` itself when it is absolute, else
/// `base`, a slash unless `base` is empty or ends with one, and `rel`.
pub open spec fn joined(base: Seq<char>, rel: Seq<char>) -> Seq<char> {
    if is_absolute(rel) {
        rel
    } else if base.len() == 0 || base.last() == '/' {
        base + rel
    } else {
        base + seq!['/'] + rel
    }
}

/// The position of the `k`th component among the segments from `i` on, or
/// their number when there are not so many.
pub open spec fn nth_part(segs: Seq<Seq<char>>, k: int, i: int) -> int
    decreases segs.len() - i,
{
    if i < 0 || i >= segs.len() {
        segs.len() as int
    } else if is_part(segs[i], i) {
        if k <= 0 {
            i
        } else {
            nth_part(segs, k - 1, i + 1)
        }
    } else {
        nth_part(segs, k, i + 1)
    }
}

/// The position after the last component.
pub open spec fn parts_end(segs: Seq<Seq<char>>) -> int
    decreases segs.len(),
{
    if segs.len() == 0 {
        0
    } else if is_part(segs.last(), segs.len() - 1) {
        segs.len() as int
    } else {
        parts_end(segs.drop_last())
    }
}

/// The text of the segments up to the last component: a path without its
/// trailing slashes and dots.
pub open spec fn trimmed(p: Seq<char>, segs: Seq<Seq<char>>) -> Seq<char> {
    if parts_end(segs) > 0 {
        text::join(segs.take(parts_end(segs)), seq!['/'])
    } else if is_absolute(p) {
        seq!['/']
    } else {
        Seq::<char>::empty()
    }
}

/// The text that is left of `p` behind its first `n` components.
pub open spec fn rest(p: Seq<char>, n: nat) -> Seq<char> {
    let segs = text::segments(p);
    if n == 0 {
        trimmed(p, segs)
    } else {
        let from = nth_part(segs, n - root(p).len(), 0);
        if from < parts_end(segs) {
            text::join(segs.subrange(from, parts_end(segs)), seq!['/'])
        } else {
            Seq::<char>::empty()
        }
    }
}

/// The path of `p` relative to `base`, when `base` is `p` or an ancestor.
pub open spec fn stripped(p: Seq<char>, base: Seq<char>) -> Option<Seq<char>> {
    if within(p, base) {
        Some(rest(p, components(base).len()))
    } else {
        None
    }
}

/// The path without its last component; `None` for the root and the empty path.
pub open spec fn parent(p: Seq<char>) -> Option<Seq<char>> {
    let segs = text::segments(p);
    if parts_end(segs) > 0 {
        Some(trimmed(p, segs.take(parts_end(segs) - 1)))
    } else {
        None
    }
}

// ---------------------------------------------------------------------------
// Facts about splitting into segments
// ---------------------------------------------------------------------------

/// Splitting a concatenation at a slash splits both sides.
proof fn lemma_segments_concat(a: Seq<char>, b: Seq<char>)
    ensures
        text::segments(a + seq!['/'] + b) == text::segments(a) + text::segments(b),
    decreases b.len(),
{
    let sep = seq!['/'];
    let whole = a + sep + b;
    text::lemma_split_nonempty(b, sep);
    if b.len() == 0 {
        assert(whole.drop_last() =~= a);
        assert(whole.last() == '/');
        assert(sep[0] == '/');
        assert(sep.contains('/'));
        assert(text::segments(whole) =~= text::segments(a) + text::segments(b));
    } else {
        lemma_segments_concat(a, b.drop_last());
        text::lemma_split_nonempty(b.drop_last(), sep);
        assert(whole.drop_last() =~= a + sep + b.drop_last());
        assert(whole.last() == b.last());
        assert(text::segments(whole) =~= text::segments(a) + text::segments(b));
    }
}

/// A text without slashes is its own only segment.
proof fn lemma_segments_single(s: Seq<char>)
    requires
        !s.contains('/'),
    ensures
        text::segments(s) == seq![s],
    decreases s.len(),
{
    if s.len() > 0 {
        assert(s[s.len() - 1] != '/');
        assert forall|i: int| 0 <= i < s.drop_last().len() implies s.drop_last()[i] != '/' by {
            assert(s[i] != '/');
        }
        lemma_segments_single(s.drop_last());
        assert(s.drop_last().push(s.last()) =~= s);
        assert(!seq!['/'].contains(s.last()));
        assert(text::segments(s) =~= seq![s]);
    } else {
        assert(s =~= Seq::<char>::empty());
        assert(text::segments(s) =~= seq![s]);
    }
}

/// A text without slashes is the last segment of a path that ends with it behind a
/// slash.
pub proof fn lemma_last_segment(dir: Seq<char>, name: Seq<char>)
    requires
        !name.contains('/'),
    ensures
        text::segments(dir + seq!['/'] + name).last() == name,
        text::segments(name).last() == name,
{
    lemma_segments_concat(dir, name);
    lemma_segments_single(name);
}

/// Pieces without slashes, joined by slashes, split into those pieces again.
pub proof fn lemma_segments_of_join(pieces: Seq<Seq<char>>)
    requires
        pieces.len() > 0,
        forall|i: int| 0 <= i < pieces.len() ==> !(#[trigger] pieces[i]).contains('/'),
    ensures
        text::segments(text::join(pieces, seq!['/'])) == pieces,
    decreases pieces.len(),
{
    if pieces.len() == 1 {
        lemma_segments_single(pieces[0]);
        assert(pieces =~= seq![pieces[0]]);
    } else {
        let front = pieces.drop_last();
        assert forall|i: int| 0 <= i < front.len() implies !(#[trigger] front[i]).contains(
            '/',
        ) by {
            assert(front[i] == pieces[i]);
        }
        lemma_segments_of_join(front);
        assert(!pieces[pieces.len() - 1].contains('/'));
        lemma_segments_single(pieces.last());
        lemma_segments_concat(text::join(front, seq!['/']), pieces.last());
        assert(pieces =~= front + seq![pieces.last()]);
    }
}

/// No segment holds a slash.
proof fn lemma_segments_plain(p: Seq<char>)
    ensures
        forall|i: int|
            0 <= i < text::segments(p).len() ==> !(#[trigger] text::segments(p)[i]).contains('/'),
{
    text::lemma_split_pieces(p, seq!['/']);
    assert(seq!['/'][0] == '/');
    assert(seq!['/'].contains('/'));
}

/// The first segment of an absolute path is empty; that of a relative path
/// that is not empty is not.
proof fn lemma_first_segment(p: Seq<char>)
    ensures
        text::segments(p).len() > 0,
        is_absolute(p) ==> text::segments(p)[0].len() == 0 && text::segments(p).len() > 1,
        p.len() > 0 && !is_absolute(p) ==> text::segments(p)[0].len() > 0,
    decreases p.len(),
{
    text::lemma_split_nonempty(p, seq!['/']);
    if p.len() == 1 {
        assert(p.drop_last() =~= Seq::<char>::empty());
        assert(text::segments(p.drop_last()) =~= seq![Seq::<char>::empty()]);
        assert(seq!['/'][0] == '/');
        assert(seq!['/'].contains('/'));
        assert(p.last() == p[0]);
    } else if p.len() > 1 {
        lemma_first_segment(p.drop_last());
        assert(p.drop_last()[0] == p[0]);
    }
}

// ---------------------------------------------------------------------------
// Facts about components
// ---------------------------------------------------------------------------

/// Components of a concatenation of segments, the second part not at the front.
proof fn lemma_parts_concat(a: Seq<Seq<char>>, b: Seq<Seq<char>>)
    requires
        a.len() > 0,
        b.len() == 0 || b[0] != seq!['.'],
    ensures
        parts(a + b) == parts(a) + parts(b),
    decreases b.len(),
{
    if b.len() == 0 {
        assert(a + b =~= a);
        assert(parts(a) + parts(b) =~= parts(a));
    } else {
        lemma_parts_concat(a, b.drop_last());
        assert((a + b).drop_last() =~= a + b.drop_last());
        assert((a + b).last() == b.last());
        assert(is_part(b.last(), b.len() - 1) == is_part((a + b).last(), (a + b).len() - 1));
        assert(parts(a + b) =~= parts(a) + parts(b));
    }
}

/// The segments up to the last component have the same components.
proof fn lemma_parts_end(segs: Seq<Seq<char>>)
    ensures
        0 <= parts_end(segs) <= segs.len(),
        parts(segs.take(parts_end(segs))) == parts(segs),
        parts_end(segs) > 0 ==> is_part(segs[parts_end(segs) - 1], parts_end(segs) - 1),
        parts_end(segs) == 0 <==> parts(segs).len() == 0,
    decreases segs.len(),
{
    if segs.len() > 0 && !is_part(segs.last(), segs.len() - 1) {
        lemma_parts_end(segs.drop_last());
        assert(segs.drop_last().take(parts_end(segs)) =~= segs.take(parts_end(segs)));
    } else {
        assert(segs.take(segs.len() as int) =~= segs);
    }
}

/// The segments before the `k`th component hold the first `k`.
proof fn lemma_nth_part(segs: Seq<Seq<char>>, k: int, i: int)
    requires
        0 <= i <= segs.len(),
        0 <= k,
        parts(segs.take(i)).len() + k <= parts(segs).len(),
    ensures
        i <= nth_part(segs, k, i) <= segs.len(),
        parts(segs.take(nth_part(segs, k, i))) == parts(segs).take(
            parts(segs.take(i)).len() + k,
        ),
        nth_part(segs, k, i) < segs.len() ==> is_part(
            segs[nth_part(segs, k, i)],
            nth_part(segs, k, i),
        ),
        nth_part(segs, k, i) == segs.len() <==> parts(segs.take(i)).len() + k
            == parts(segs).len(),
    decreases segs.len() - i,
{
    lemma_parts_prefix(segs, i);
    if i == segs.len() {
        assert(segs.take(i) =~= segs);
        assert(parts(segs).take(parts(segs).len() as int) =~= parts(segs));
    } else {
        assert(segs.take(i + 1).drop_last() =~= segs.take(i));
        assert(segs.take(i + 1).last() == segs[i]);
        if is_part(segs[i], i) {
            lemma_parts_prefix(segs, i + 1);
            if k > 0 {
                lemma_nth_part(segs, k - 1, i + 1);
            }
        } else {
            lemma_nth_part(segs, k, i + 1);
        }
    }
}

/// The components of a prefix of the segments are a prefix of the components.
proof fn lemma_parts_prefix(segs: Seq<Seq<char>>, i: int)
    requires
        0 <= i <= segs.len(),
    ensures
        parts(segs.take(i)).len() <= parts(segs).len(),
        parts(segs).take(parts(segs.take(i)).len() as int) == parts(segs.take(i)),
    decreases segs.len(),
{
    if i == segs.len() {
        assert(segs.take(i) =~= segs);
        assert(parts(segs).take(parts(segs).len() as int) =~= parts(segs));
    } else {
        lemma_parts_prefix(segs.drop_last(), i);
        assert(segs.drop_last().take(i) =~= segs.take(i));
        assert(parts(segs).take(parts(segs.take(i)).len() as int) =~= parts(segs.drop_last()).take(
            parts(segs.take(i)).len() as int,
        ));
    }
}

/// The trimmed text of some leading segments of a path has their components.
proof fn lemma_trimmed(p: Seq<char>, n: int)
    requires
        0 <= n <= text::segments(p).len(),
    ensures
        components(trimmed(p, text::segments(p).take(n))) == root(p) + parts(text::segments(p).take(n)),
{
    let segs = text::segments(p).take(n);
    let e = parts_end(segs);
    lemma_parts_end(segs);
    lemma_first_segment(p);
    let t = trimmed(p, segs);
    if e > 0 {
        let lead = segs.take(e);
        lemma_segments_plain(p);
        assert forall|i: int| 0 <= i < lead.len() implies !(#[trigger] lead[i]).contains(
            '/',
        ) by {
            assert(lead[i] == text::segments(p)[i]);
        }
        lemma_segments_of_join(lead);
        assert(text::segments(t) == lead);
        lemma_first_segment(t);
        assert(lead[0] == text::segments(p)[0]);
        if t.len() == 0 {
            assert(text::segments(t) =~= seq![Seq::<char>::empty()]);
            assert(lead.len() == 1);
            assert(is_part(segs[0], 0));
        }
        assert(is_absolute(t) == is_absolute(p));
        assert(root(t) == root(p));
    } else if is_absolute(p) {
        lemma_first_segment(t);
        lemma_segments_concat(Seq::<char>::empty(), Seq::<char>::empty());
        assert(t =~= Seq::<char>::empty() + seq!['/'] + Seq::<char>::empty());
        let e1 = seq![Seq::<char>::empty()];
        assert(text::segments(Seq::<char>::empty()) =~= e1);
        assert(parts(e1.drop_last()).len() == 0);
        assert(parts(e1).len() == 0);
        assert((e1 + e1).drop_last() =~= e1);
        assert(parts(e1 + e1).len() == 0);
        assert(components(t) =~= root(p) + parts(segs));
    } else {
        assert(text::segments(t) =~= seq![Seq::<char>::empty()]);
        assert(parts(text::segments(t).drop_last()).len() == 0);
        assert(parts(text::segments(t)).len() == 0);
        assert(components(t) =~= root(p) + parts(segs));
    }
}

/// What is left behind the first components of a path has the other components.
pub proof fn lemma_rest_components(p: Seq<char>, n: nat)
    requires
        n <= components(p).len(),
    ensures
        components(rest(p, n)) == components(p).skip(n as int),
        n > 0 ==> !is_absolute(rest(p, n)),
        n > 0 && n < components(p).len() && text::segments(rest(p, n))[0] == seq!['.'] ==> false,
{
    let segs = text::segments(p);
    lemma_first_segment(p);
    lemma_parts_end(segs);
    if n == 0 {
        assert(segs.take(segs.len() as int) =~= segs);
        lemma_trimmed(p, segs.len() as int);
        assert(components(p).skip(0) =~= components(p));
    } else {
        let k = n - root(p).len();
        assert(segs.take(0) =~= Seq::<Seq<char>>::empty());
        lemma_nth_part(segs, k, 0);
        let from = nth_part(segs, k, 0);
        let end = parts_end(segs);
        let r = rest(p, n);
        assert(components(p).skip(n as int) =~= parts(segs).skip(k));
        if from < segs.len() {
            lemma_part_before_end(segs, from);
            let tail = segs.subrange(from, end);
            lemma_segments_plain(p);
            assert forall|i: int| 0 <= i < tail.len() implies !(#[trigger] tail[i]).contains(
                '/',
            ) by {
                assert(tail[i] == segs[from + i]);
            }
            lemma_segments_of_join(tail);
            lemma_first_segment(r);
            assert(tail[0] == segs[from]);
            assert(!is_absolute(r));
            if from > 0 {
                lemma_parts_concat(segs.take(from), tail);
                assert(segs.take(from) + tail =~= segs.take(end));
                assert(parts(segs) == parts(segs).take(k) + parts(tail));
            } else {
                assert(tail =~= segs.take(end));
                assert(k == 0) by {
                    assert(segs.take(from) =~= Seq::<Seq<char>>::empty());
                    assert(parts(segs.take(from)).len() == 0);
                    assert(parts(segs).take(k).len() == k);
                }
                assert(is_absolute(p));
            }
            assert(parts(tail) =~= parts(segs).skip(k));
            assert(components(r) =~= parts(segs).skip(k));
        } else {
            assert(text::segments(r) =~= seq![Seq::<char>::empty()]);
            assert(parts(text::segments(r).drop_last()).len() == 0);
            assert(components(r) =~= parts(segs).skip(k));
        }
    }
}

/// The empty path has no components.
pub proof fn lemma_empty_components()
    ensures
        components(Seq::<char>::empty()).len() == 0,
{
    assert(text::segments(Seq::<char>::empty()) =~= seq![Seq::<char>::empty()]);
    assert(parts(text::segments(Seq::<char>::empty()).drop_last()).len() == 0);
}

/// Behind all its components nothing is left of a path.
pub proof fn lemma_rest_of_all(p: Seq<char>)
    requires
        components(p).len() > 0,
    ensures
        rest(p, components(p).len()).len() == 0,
{
    let segs = text::segments(p);
    let k = components(p).len() - root(p).len();
    lemma_parts_end(segs);
    assert(segs.take(0) =~= Seq::<Seq<char>>::empty());
    assert(parts(segs.take(0)).len() == 0);
    assert(k == parts(segs).len());
    lemma_nth_part(segs, k, 0);
}

/// A component lies before the end of the components.
proof fn lemma_part_before_end(segs: Seq<Seq<char>>, i: int)
    requires
        0 <= i < segs.len(),
        is_part(segs[i], i),
    ensures
        i < parts_end(segs),
    decreases segs.len(),
{
    if i < segs.len() - 1 {
        lemma_part_before_end(segs.drop_last(), i);
    }
}

/// The components of a parent are those of the path but the last.
pub proof fn lemma_parent_components(p: Seq<char>)
    ensures
        parent(p) is None <==> components(p).len() == root(p).len(),
        parent(p) matches Some(d) ==> components(d) == components(p).drop_last(),
{
    let segs = text::segments(p);
    lemma_parts_end(segs);
    let e = parts_end(segs);
    if e > 0 {
        lemma_trimmed(p, e - 1);
        assert(segs.take(e).drop_last() =~= segs.take(e - 1));
        assert(segs.take(e).last() == segs[e - 1]);
        assert(parts(segs.take(e)) == parts(segs.take(e - 1)).push(segs[e - 1]));
        assert(components(p).drop_last() =~= root(p) + parts(segs.take(e - 1)));
    }
}

/// Joining appends the components.
pub proof fn lemma_joined_components(base: Seq<char>, rel: Seq<char>)
    requires
        !is_absolute(rel),
        text::segments(rel)[0] != seq!['.'],
    ensures
        components(joined(base, rel)) == components(base) + components(rel),
{
    let whole = joined(base, rel);
    lemma_first_segment(rel);
    if base.len() == 0 {
        assert(whole =~= rel);
        assert(text::segments(base) =~= seq![Seq::<char>::empty()]);
        assert(parts(text::segments(base).drop_last()).len() == 0);
        assert(components(base) + components(rel) =~= components(rel));
    } else if base.last() == '/' {
        let front = base.drop_last();
        assert(base =~= front + seq!['/'] + Seq::<char>::empty());
        assert(whole =~= front + seq!['/'] + rel);
        lemma_segments_concat(front, Seq::<char>::empty());
        lemma_segments_concat(front, rel);
        lemma_first_segment(front);
        let e = seq![Seq::<char>::empty()];
        assert(text::segments(Seq::<char>::empty()) =~= e);
        assert(parts(e.drop_last()).len() == 0);
        assert(parts(e) =~= Seq::<Seq<char>>::empty());
        assert(e[0] != seq!['.']) by {
            assert(e[0].len() == 0);
            assert(seq!['.'].len() == 1);
        }
        lemma_parts_concat(text::segments(front), e);
        lemma_parts_concat(text::segments(front), text::segments(rel));
        assert(whole[0] == base[0]);
        assert(components(whole) =~= components(base) + components(rel));
    } else {
        lemma_segments_concat(base, rel);
        lemma_first_segment(base);
        lemma_parts_concat(text::segments(base), text::segments(rel));
        assert(whole[0] == base[0]);
        assert(components(whole) =~= components(base) + components(rel));
    }
}

/// A path is its relative form joined onto the base that was stripped.
pub proof fn law_strip_then_join(p: Seq<char>, base: Seq<char>)
    requires
        within(p, base),
    ensures
        same_path(joined(base, stripped(p, base)->0), p),
{
    let n = components(base).len();
    let r = rest(p, n);
    lemma_rest_components(p, n);
    if n == 0 {
        assert(components(p).skip(0) =~= components(p));
        if base.len() > 0 {
            lemma_first_segment(base);
            assert(!is_absolute(base));
            lemma_part_before_end(text::segments(base), 0);
            lemma_parts_end(text::segments(base));
        }
        if !is_absolute(r) {
            assert(joined(base, r) =~= r);
        }
    } else {
        lemma_first_segment(r);
        if n == components(p).len() {
            assert(components(r).len() == 0);
            if r.len() > 0 {
                lemma_part_before_end(text::segments(r), 0);
                lemma_parts_end(text::segments(r));
            }
            assert(text::segments(r) =~= seq![Seq::<char>::empty()]);
            assert(text::segments(r)[0].len() == 0);
            assert(seq!['.'].len() == 1);
        }
        lemma_joined_components(base, r);
        assert(components(base) + components(r) =~= components(p));
    }
}

/// What is joined onto a base lies within it, unless it is absolute.
pub proof fn law_join_is_within(base: Seq<char>, rel: Seq<char>)
    requires
        !is_absolute(rel),
    ensures
        within(joined(base, rel), base),
{
    let whole = joined(base, rel);
    if base.len() == 0 {
        assert(text::segments(base) =~= seq![Seq::<char>::empty()]);
        assert(parts(text::segments(base).drop_last()).len() == 0);
        assert(components(whole).take(0) =~= components(base));
    } else {
        assert(whole[0] == base[0]);
        if base.last() == '/' {
            let front = base.drop_last();
            assert(base =~= front + seq!['/'] + Seq::<char>::empty());
            assert(whole =~= front + seq!['/'] + rel);
            lemma_segments_concat(front, Seq::<char>::empty());
            lemma_segments_concat(front, rel);
            let e = seq![Seq::<char>::empty()];
            assert(text::segments(Seq::<char>::empty()) =~= e);
            assert((text::segments(front) + e).drop_last() =~= text::segments(front));
            assert(parts(text::segments(base)) == parts(text::segments(front)));
            lemma_parts_lead(text::segments(front), text::segments(rel));
        } else {
            lemma_segments_concat(base, rel);
            lemma_parts_lead(text::segments(base), text::segments(rel));
        }
        let k = parts(text::segments(base)).len() as int;
        assert(parts(text::segments(whole)).take(k) == parts(text::segments(base)));
        assert(components(whole).take(components(base).len() as int) =~= root(base) + parts(
            text::segments(whole),
        ).take(k));
    }
}

proof fn lemma_parts_lead(a: Seq<Seq<char>>, b: Seq<Seq<char>>)
    ensures
        parts(a).len() <= parts(a + b).len(),
        parts(a + b).take(parts(a).len() as int) == parts(a),
    decreases b.len(),
{
    if b.len() == 0 {
        assert(a + b =~= a);
    } else {
        lemma_parts_lead(a, b.drop_last());
        assert((a + b).drop_last() =~= a + b.drop_last());
        let k = parts(a).len() as int;
        assert(parts(a + b).take(k) =~= parts(a + b.drop_last()).take(k));
    }
}

/// Whether a name is that of one entry of a directory.
pub open spec fn is_plain(name: Seq<char>) -> bool {
    name.len() > 0 && !name.contains('/') && name != seq!['.']
}

/// The path of a directory's entry has the entry's name as its last component.
pub proof fn lemma_entry_components(dir: Seq<char>, name: Seq<char>)
    requires
        is_plain(name),
    ensures
        components(joined(dir, name)) == components(dir).push(name),
{
    lemma_segments_single(name);
    assert(!is_absolute(name)) by {
        if is_absolute(name) {
            assert(name[0] == '/');
        }
    }
    let segs = text::segments(name);
    assert(segs.drop_last() =~= Seq::<Seq<char>>::empty());
    assert(parts(segs.drop_last()) =~= Seq::<Seq<char>>::empty());
    assert(parts(segs) =~= seq![name]);
    assert(components(name) =~= seq![name]);
    lemma_joined_components(dir, name);
    assert(components(dir) + seq![name] =~= components(dir).push(name));
}

/// A suffix without a slash lengthens the last component, where the text ends
/// with it.
pub proof fn lemma_suffixed_components(p: Seq<char>, suffix: Seq<char>)
    requires
        !suffix.contains('/'),
        is_part(text::segments(p).last(), text::segments(p).len() - 1),
    ensures
        components(p).len() > 0,
        components(p + suffix) == components(p).drop_last().push(components(p).last() + suffix),
{
    let segs = text::segments(p);
    lemma_suffixed_segments(p, suffix);
    let all = text::segments(p + suffix);
    text::lemma_split_nonempty(p, seq!['/']);
    assert(all.drop_last() =~= segs.drop_last());
    assert(is_part(all.last(), all.len() - 1)) by {
        if suffix.len() == 0 {
            assert(segs.last() + suffix =~= segs.last());
        } else {
            assert(all.last().len() >= 2);
        }
    }
    assert(p.len() > 0) by {
        if p.len() == 0 {
            assert(segs.last().len() == 0);
        }
    }
    assert((p + suffix)[0] == p[0]);
    assert(components(p).drop_last() =~= root(p) + parts(segs.drop_last()));
    assert(components(p).last() == segs.last());
    assert(components(p + suffix) =~= (root(p) + parts(segs.drop_last())).push(
        segs.last() + suffix,
    ));
}

proof fn lemma_suffixed_segments(p: Seq<char>, suffix: Seq<char>)
    requires
        !suffix.contains('/'),
    ensures
        text::segments(p + suffix) == text::segments(p).drop_last().push(
            text::segments(p).last() + suffix,
        ),
    decreases suffix.len(),
{
    let segs = text::segments(p);
    text::lemma_split_nonempty(p, seq!['/']);
    if suffix.len() == 0 {
        assert(p + suffix =~= p);
        assert(segs.last() + suffix =~= segs.last());
        assert(segs.drop_last().push(segs.last()) =~= segs);
    } else {
        let less = suffix.drop_last();
        assert(suffix[suffix.len() - 1] != '/');
        assert forall|i: int| 0 <= i < less.len() implies less[i] != '/' by {
            assert(suffix[i] != '/');
        }
        lemma_suffixed_segments(p, less);
        assert((p + suffix).drop_last() =~= p + less);
        assert(!seq!['/'].contains(suffix.last()));
        assert((segs.last() + less).push(suffix.last()) =~= segs.last() + suffix);
        let before = text::segments(p + less);
        assert(before.drop_last() =~= segs.drop_last());
    }
}

// ---------------------------------------------------------------------------
// Operations
// ---------------------------------------------------------------------------

/// Whether the path begins at the root.
pub fn absolute(p: &str) -> (r: bool)
    ensures
        r == is_absolute(p@),
{
    let cs = text::chars(p);
    cs.len() > 0 && cs[0] == '/'
}

/// Whether the segment at `index` of a path is one of its components.
fn part(segment: &str, index: usize) -> (r: bool)
    ensures
        r == is_part(segment@, index as int),
{
    let cs = text::chars(segment);
    let dot: [char; 1] = ['.'];
    assert(dot@ =~= seq!['.']);
    cs.len() > 0 && (!text::same_chars(cs.as_slice(), dot.as_slice()) || index == 0)
}

/// The components of a path.
pub fn components_of(p: &str) -> (r: Vec<String>)
    ensures
        r.deep_view() == components(p@),
{
    let segs = text::split_segments(p);
    let mut r: Vec<String> = Vec::new();
    if absolute(p) {
        r.push("/".to_owned());
        proof {
            reveal_strlit("/");
        }
        assert("/"@ =~= seq!['/']);
    }
    assert(r.deep_view() =~= root(p@));
    let mut i: usize = 0;
    assert(segs.deep_view().take(0) =~= Seq::<Seq<char>>::empty());
    assert(r.deep_view() =~= root(p@) + parts(segs.deep_view().take(0)));
    while i < segs.len()
        invariant
            i <= segs@.len(),
            segs.deep_view() == text::segments(p@),
            r.deep_view() == root(p@) + parts(segs.deep_view().take(i as int)),
        decreases segs@.len() - i,
    {
        let ghost now = segs.deep_view().take(i + 1);
        let ghost sofar = r.deep_view();
        assert(now.drop_last() =~= segs.deep_view().take(i as int));
        assert(now.last() == segs@[i as int]@);
        if part(segs[i].as_str(), i) {
            r.push(segs[i].clone());
            assert(r.deep_view() =~= sofar.push(segs@[i as int]@));
            assert(r.deep_view() =~= root(p@) + parts(now));
        }
        i += 1;
    }
    assert(segs.deep_view().take(i as int) =~= segs.deep_view());
    r
}

/// Whether two lists of strings hold the same texts.
fn same_list(a: &Vec<String>, b: &Vec<String>, n: usize) -> (r: bool)
    requires
        n <= a@.len(),
        n <= b@.len(),
    ensures
        r == (a.deep_view().take(n as int) == b.deep_view().take(n as int)),
{
    let mut i: usize = 0;
    while i < n
        invariant
            i <= n <= a@.len(),
            n <= b@.len(),
            forall|j: int| 0 <= j < i ==> a.deep_view()[j] == b.deep_view()[j],
        decreases n - i,
    {
        if !text::same(a[i].as_str(), b[i].as_str()) {
            assert(a.deep_view().take(n as int)[i as int] != b.deep_view().take(
                n as int,
            )[i as int]);
            return false;
        }
        i += 1;
    }
    assert(a.deep_view().take(n as int) =~= b.deep_view().take(n as int));
    true
}

/// Whether two texts name the same path.
pub fn same(a: &str, b: &str) -> (r: bool)
    ensures
        r == same_path(a@, b@),
{
    let x = components_of(a);
    let y = components_of(b);
    if x.len() != y.len() {
        assert(x.deep_view().len() != y.deep_view().len());
        return false;
    }
    assert(x.deep_view().take(x@.len() as int) =~= x.deep_view());
    assert(y.deep_view().take(y@.len() as int) =~= y.deep_view());
    same_list(&x, &y, x.len())
}

/// Whether `base` is `p` or one of its ancestors.
pub fn is_within(p: &str, base: &str) -> (r: bool)
    ensures
        r == within(p@, base@),
{
    let x = components_of(p);
    let y = components_of(base);
    if y.len() > x.len() {
        return false;
    }
    assert(y.deep_view().take(y@.len() as int) =~= y.deep_view());
    same_list(&x, &y, y.len())
}

/// The path `rel` as seen from `base`.
pub fn join_path(base: &str, rel: &str) -> (r: String)
    ensures
        r@ == joined(base@, rel@),
{
    if absolute(rel) {
        return rel.to_owned();
    }
    let cs = text::chars(base);
    let mut r = base.to_owned();
    if cs.len() > 0 && cs[cs.len() - 1] != '/' {
        r.push('/');
        assert(r@ =~= base@ + seq!['/']);
    }
    r.append(rel);
    r
}

/// The position after the last component.
fn end_of_parts(segs: &Vec<String>, n: usize) -> (r: usize)
    requires
        n <= segs@.len(),
    ensures
        r == parts_end(segs.deep_view().take(n as int)),
{
    let mut e: usize = n;
    while e > 0
        invariant
            e <= n <= segs@.len(),
            parts_end(segs.deep_view().take(n as int)) == parts_end(
                segs.deep_view().take(e as int),
            ),
        decreases e,
    {
        let ghost now = segs.deep_view().take(e as int);
        assert(now.last() == segs@[e - 1]@);
        assert(now.drop_last() =~= segs.deep_view().take(e - 1));
        if part(segs[e - 1].as_str(), e - 1) {
            return e;
        }
        e -= 1;
    }
    0
}

/// The text of the segments from `from` up to `to`.
fn segment_text(segs: &Vec<String>, from: usize, to: usize) -> (r: String)
    requires
        from <= to <= segs@.len(),
    ensures
        r@ == text::join(segs.deep_view().subrange(from as int, to as int), seq!['/']),
{
    proof {
        reveal_strlit("/");
    }
    assert("/"@ =~= seq!['/']);
    let slice = &segs.as_slice()[from..to];
    let r = text::join_text(slice, "/");
    assert(text::texts(slice@) =~= segs.deep_view().subrange(from as int, to as int));
    r
}

/// The text of the first `n` segments of `p` without trailing slashes and dots.
fn trim_segments(p: &str, segs: &Vec<String>, n: usize) -> (r: String)
    requires
        n <= segs@.len(),
    ensures
        r@ == trimmed(p@, segs.deep_view().take(n as int)),
{
    let e = end_of_parts(segs, n);
    proof {
        lemma_parts_end(segs.deep_view().take(n as int));
    }
    if e > 0 {
        assert(segs.deep_view().subrange(0, e as int) =~= segs.deep_view().take(n as int).take(
            e as int,
        ));
        segment_text(segs, 0, e)
    } else if absolute(p) {
        proof {
            reveal_strlit("/");
        }
        assert("/"@ =~= seq!['/']);
        "/".to_owned()
    } else {
        String::new()
    }
}

/// The path of `p` relative to `base`, when `base` is `p` or an ancestor.
pub fn strip_prefix(p: &str, base: &str) -> (r: Option<String>)
    ensures
        r.deep_view() == stripped(p@, base@),
{
    if !is_within(p, base) {
        return None;
    }
    let n = components_of(base).len();
    let segs = text::split_segments(p);
    assert(segs.deep_view().take(segs@.len() as int) =~= segs.deep_view());
    if n == 0 {
        return Some(trim_segments(p, &segs, segs.len()));
    }
    let end = end_of_parts(&segs, segs.len());
    proof {
        lemma_parts_end(segs.deep_view());
    }
    let lead: usize = if absolute(p) {
        1
    } else {
        0
    };
    let mut left: usize = n - lead;
    let mut i: usize = 0;
    while i < segs.len()
        invariant
            i <= segs@.len(),
            nth_part(segs.deep_view(), n - lead, 0) == nth_part(
                segs.deep_view(),
                left as int,
                i as int,
            ),
        ensures
            i <= segs@.len(),
            i == nth_part(segs.deep_view(), n - lead, 0),
        decreases segs@.len() - i,
    {
        if part(segs[i].as_str(), i) {
            if left == 0 {
                break;
            }
            left -= 1;
        }
        i += 1;
    }
    if i < end {
        Some(segment_text(&segs, i, end))
    } else {
        Some(String::new())
    }
}

/// The path without its last component; `None` for the root and the empty path.
pub fn parent_of(p: &str) -> (r: Option<String>)
    ensures
        r.deep_view() == parent(p@),
{
    let segs = text::split_segments(p);
    assert(segs.deep_view().take(segs@.len() as int) =~= segs.deep_view());
    let end = end_of_parts(&segs, segs.len());
    proof {
        lemma_parts_end(segs.deep_view());
    }
    if end > 0 {
        Some(trim_segments(p, &segs, end - 1))
    } else {
        None
    }
}

/// A path and the paths that contain it, from the inside out.
pub open spec fn ancestry(p: Seq<char>) -> Seq<Seq<char>>
    decreases components(p).len(),
{
    proof {
        lemma_parent_components(p);
    }
    match parent(p) {
        Some(d) => if components(d).len() < components(p).len() {
            seq![p] + ancestry(d)
        } else {
            seq![p]
        },
        None => seq![p],
    }
}

/// A path and the paths that contain it, from the inside out.
pub fn ancestors(p: &str) -> (r: Vec<String>)
    ensures
        r.deep_view() == ancestry(p@),
{
    let mut r: Vec<String> = Vec::new();
    let mut at = p.to_owned();
    loop
        invariant
            r.deep_view() + ancestry(at@) == ancestry(p@),
        decreases components(at@).len(),
    {
        let ghost sofar = r.deep_view();
        let ghost here = at@;
        proof {
            lemma_parent_components(here);
        }
        r.push(at.clone());
        assert(r.deep_view() =~= sofar.push(here));
        match parent_of(at.as_str()) {
            Some(d) => {
                at = d;
                assert(components(at@).len() < components(here).len());
                assert(ancestry(here) == seq![here] + ancestry(at@));
                assert(r.deep_view() + ancestry(at@) =~= sofar + ancestry(here));
            },
            None => {
                assert(r.deep_view() =~= sofar + ancestry(here));
                return r;
            },
        }
    }
}

// ---------------------------------------------------------------------------
// What names the same path
// ---------------------------------------------------------------------------

/// Names joined by slashes have those names as components, whatever they are, two
/// dots too; behind a leading slash the root comes first. So two paths of plain
/// names are the same exactly when their names are.
pub proof fn law_names_are_the_components(names: Seq<Seq<char>>)
    requires
        names.len() > 0,
        forall|i: int| 0 <= i < names.len() ==> is_plain(#[trigger] names[i]),
    ensures
        components(text::join(names, seq!['/'])) == names,
        components(seq!['/'] + text::join(names, seq!['/'])) == seq![seq!['/']] + names,
{
    let p = text::join(names, seq!['/']);
    assert forall|i: int| 0 <= i < names.len() implies !(#[trigger] names[i]).contains('/') by {
        assert(is_plain(names[i]));
    }
    lemma_segments_of_join(names);
    lemma_all_parts(names);
    lemma_join_begins(names);
    assert(is_plain(names[0]));
    assert(components(p) =~= names);
    let e = Seq::<char>::empty();
    assert(seq!['/'] + p =~= e + seq!['/'] + p);
    lemma_segments_concat(e, p);
    assert(text::segments(e) =~= seq![e]);
    let one = seq![e];
    assert(parts(one.drop_last()).len() == 0);
    assert(parts(one) =~= Seq::<Seq<char>>::empty());
    lemma_parts_concat(seq![e], names);
    assert((seq!['/'] + p)[0] == '/');
    assert(components(seq!['/'] + p) =~= seq![seq!['/']] + names);
}

proof fn lemma_all_parts(names: Seq<Seq<char>>)
    requires
        forall|i: int| 0 <= i < names.len() ==> is_plain(#[trigger] names[i]),
    ensures
        parts(names) == names,
    decreases names.len(),
{
    if names.len() > 0 {
        let front = names.drop_last();
        assert forall|i: int| 0 <= i < front.len() implies is_plain(#[trigger] front[i]) by {
            assert(front[i] == names[i]);
        }
        lemma_all_parts(front);
        assert(is_plain(names[names.len() - 1]));
        assert(front.push(names.last()) =~= names);
    }
}

proof fn lemma_join_begins(names: Seq<Seq<char>>)
    requires
        names.len() > 0,
        is_plain(names[0]),
    ensures
        text::join(names, seq!['/']).len() > 0,
        text::join(names, seq!['/'])[0] == names[0][0],
        names[0][0] != '/',
    decreases names.len(),
{
    assert(names[0].contains(names[0][0]));
    if names.len() > 1 {
        lemma_join_begins(names.drop_last());
    }
}

/// How a path is spelled does not matter: not a slash at its end, nor slashes
/// doubled, nor a dot between slashes.
pub proof fn law_spelling_does_not_matter(a: Seq<char>, b: Seq<char>)
    requires
        a.len() > 0,
    ensures
        components(a + seq!['/']) == components(a),
        components(a + seq!['/'] + seq!['/'] + b) == components(a + seq!['/'] + b),
        components(a + seq!['/'] + seq!['.', '/'] + b) == components(a + seq!['/'] + b),
{
    let e = Seq::<char>::empty();
    let (sa, sb) = (text::segments(a), text::segments(b));
    let empty = seq![e];
    let dot = seq![seq!['.']];
    lemma_first_segment(a);
    assert(text::segments(e) =~= empty);
    assert(a + seq!['/'] =~= a + seq!['/'] + e);
    lemma_segments_concat(a, e);
    assert((sa + empty).drop_last() =~= sa);
    assert((a + seq!['/'])[0] == a[0]);
    lemma_segments_concat(a, b);
    let twice = a + seq!['/'] + seq!['/'] + b;
    assert(twice =~= a + seq!['/'] + (e + seq!['/'] + b));
    lemma_segments_concat(e, b);
    lemma_segments_concat(a, e + seq!['/'] + b);
    assert(sa + (empty + sb) =~= sa + empty + sb);
    lemma_unseen_segment(sa, e, sb);
    assert(twice[0] == a[0]);
    assert((a + seq!['/'] + b)[0] == a[0]);
    let dotted = a + seq!['/'] + seq!['.', '/'] + b;
    assert(dotted =~= a + seq!['/'] + (seq!['.'] + seq!['/'] + b));
    lemma_segments_single(seq!['.']);
    lemma_segments_concat(seq!['.'], b);
    lemma_segments_concat(a, seq!['.'] + seq!['/'] + b);
    assert(sa + (dot + sb) =~= sa + dot + sb);
    lemma_unseen_segment(sa, seq!['.'], sb);
    assert(dotted[0] == a[0]);
}

proof fn lemma_unseen_segment(a: Seq<Seq<char>>, x: Seq<char>, b: Seq<Seq<char>>)
    requires
        a.len() > 0,
        x.len() == 0 || x == seq!['.'],
    ensures
        parts(a + seq![x] + b) == parts(a + b),
    decreases b.len(),
{
    if b.len() == 0 {
        assert((a + seq![x] + b).drop_last() =~= a);
        assert(a + b =~= a);
    } else {
        lemma_unseen_segment(a, x, b.drop_last());
        assert((a + seq![x] + b).drop_last() =~= a + seq![x] + b.drop_last());
        assert((a + b).drop_last() =~= a + b.drop_last());
    }
}

/// The ancestors of a path begin with the path and lose one component each, down to
/// what has no component but the root.
pub proof fn law_ancestors_lose_one_component_each(p: Seq<char>, i: int)
    requires
        0 <= i < ancestry(p).len(),
    ensures
        ancestry(p)[0] == p,
        ancestry(p).len() <= components(p).len() + 1,
        components(ancestry(p)[i]) == components(p).take(components(p).len() - i),
        parent(ancestry(p).last()) is None,
    decreases components(p).len(),
{
    lemma_parent_components(p);
    match parent(p) {
        Some(d) => {
            let rest = ancestry(d);
            let all = ancestry(p);
            assert(all == seq![p] + rest);
            lemma_ancestry_nonempty(d);
            assert(all.last() == rest.last());
            if i == 0 {
                law_ancestors_lose_one_component_each(d, 0);
                assert(components(p).take(components(p).len() as int) =~= components(p));
            } else {
                law_ancestors_lose_one_component_each(d, i - 1);
                assert(all[i] == rest[i - 1]);
                assert(components(d).take(components(d).len() - (i - 1)) =~= components(p).take(
                    components(p).len() - i,
                ));
            }
        },
        None => {
            assert(components(p).take(components(p).len() as int) =~= components(p));
        },
    }
}

proof fn lemma_ancestry_nonempty(p: Seq<char>)
    ensures
        ancestry(p).len() > 0,
    decreases components(p).len(),
{
    lemma_parent_components(p);
    match parent(p) {
        Some(d) => {
            lemma_ancestry_nonempty(d);
        },
        None => {},
    }
}

/// A path lies within another exactly when its components begin with those of the
/// other; what its text begins with does not count.
pub proof fn law_within_is_by_whole_components(p: Seq<char>, base: Seq<char>)
    ensures
        within(p, base) <==> exists|names: Seq<Seq<char>>| #[trigger]
            (components(base) + names) == components(p),
        stripped(p, base) is Some <==> within(p, base),
{
    if within(p, base) {
        let names = components(p).skip(components(base).len() as int);
        assert(components(base) + names =~= components(p));
    }
    if exists|names: Seq<Seq<char>>| #[trigger] (components(base) + names) == components(p) {
        let names = choose|names: Seq<Seq<char>>| #[trigger]
            (components(base) + names) == components(p);
        assert((components(base) + names).take(components(base).len() as int) =~= components(base));
    }
}

} // verus!
