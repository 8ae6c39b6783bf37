//! Groups: the names they may have, and the names that are suggested.
//!
//! Group names and mapping names share the space of selectors (`install
//! <name>`), so a group name may hold no `/`, may not begin with `.`, and may
//! not be a mapping's name.
use vstd::prelude::*;
use vstd::string::*;

use crate::error::{Error, ErrorView};
use crate::mapping;
use crate::mapping::{MappingsFile, MappingsView};
use crate::order;
use crate::path;
use crate::text;

verus! {

/// What is wrong with a group name, if anything.
pub open spec fn name_problem(name: Seq<char>) -> Option<ErrorView> {
    let n = text::trim(name);
    if n.len() == 0 {
        Some(ErrorView::GroupNameEmpty)
    } else if n.contains('/') {
        Some(ErrorView::GroupNameSlash)
    } else if n[0] == '.' {
        Some(ErrorView::GroupNameDot)
    } else {
        None
    }
}

/// Validate a group name.
pub fn validate_group_name(name: &str) -> (r: Result<(), Error>)
    ensures
        match r {
            Ok(_) => name_problem(name@) is None,
            Err(e) => name_problem(name@) == Some(e@),
        },
{
    let n = text::trim_text(name);
    let cs = text::chars(n.as_str());
    if cs.len() == 0 {
        return Err(Error::GroupNameEmpty);
    }
    if text::has_char(n.as_str(), '/') {
        return Err(Error::GroupNameSlash);
    }
    if cs[0] == '.' {
        return Err(Error::GroupNameDot);
    }
    Ok(())
}

/// Refuse a group name that is a mapping's name.
pub fn ensure_free_of_mapping(name: &str, mappings: &MappingsFile) -> (r: Result<(), Error>)
    ensures
        match r {
            Ok(_) => !mapping::has_name(mappings@.mappings, text::trim(name@)),
            Err(e) => mapping::has_name(mappings@.mappings, text::trim(name@)) && e@ == (
            ErrorView::NameIsMapping { name: text::trim(name@) }),
        },
{
    let n = text::trim_text(name);
    if mappings.find(n.as_str()).is_some() {
        return Err(Error::NameIsMapping { name: n });
    }
    Ok(())
}

/// Refuse a mapping name that is a group's name.
pub fn ensure_free_of_group(name: &str, mappings: &MappingsFile) -> (r: Result<(), Error>)
    ensures
        match r {
            Ok(_) => !mapping::has_group(mappings@.mappings, name@),
            Err(e) => mapping::has_group(mappings@.mappings, name@) && e@ == (
            ErrorView::NameIsGroup { name: name@ }),
        },
{
    let groups = mappings.groups();
    proof {
        law_groups_are_the_labels(mappings@);
    }
    if text::list_has(&groups, name) {
        return Err(Error::NameIsGroup { name: name.to_owned() });
    }
    Ok(())
}

// ---------------------------------------------------------------------------
// The sorted labels
// ---------------------------------------------------------------------------

/// Adding a label keeps a list strictly sorted and adds exactly that label.
proof fn lemma_label_added(s: Seq<Seq<char>>, label: Seq<char>)
    requires
        mapping::strictly_sorted(s),
    ensures
        mapping::strictly_sorted(mapping::label_added(s, label)),
        forall|x: Seq<char>|
            #![trigger mapping::label_added(s, label).contains(x)]
            #![trigger s.contains(x)]
            mapping::label_added(s, label).contains(x) <==> s.contains(x) || x == label,
    decreases s.len(),
{
    let r = mapping::label_added(s, label);
    if s.len() == 0 {
        assert(r =~= seq![label]);
        assert(r[0] == label);
    } else if s.last() == label {
        assert(s[s.len() - 1] == label);
    } else if order::before(label, s.last()) {
        let front = s.drop_last();
        lemma_label_added(front, label);
        let f = mapping::label_added(front, label);
        assert forall|i: int| 0 <= i < f.len() implies order::before(
            #[trigger] f[i],
            s.last(),
        ) by {
            assert(f.contains(f[i]));
            if f[i] != label {
                let j = choose|j: int| 0 <= j < front.len() && front[j] == f[i];
                assert(order::before(s[j], s[s.len() - 1]));
            }
        }
        assert forall|i: int, j: int| 0 <= i < j < r.len() implies order::before(
            #[trigger] r[i],
            #[trigger] r[j],
        ) by {
            if j < f.len() {
                assert(order::before(f[i], f[j]));
            } else {
                assert(order::before(f[i], s.last()));
            }
        }
        assert forall|x: Seq<char>|
            #![trigger r.contains(x)]
            #![trigger s.contains(x)]
            r.contains(x) <==> s.contains(x) || x == label by {
            if r.contains(x) {
                let i = choose|i: int| 0 <= i < r.len() && r[i] == x;
                if i < f.len() {
                    assert(f.contains(x));
                    if x != label {
                        let j = choose|j: int| 0 <= j < front.len() && front[j] == x;
                        assert(s[j] == x);
                    }
                } else {
                    assert(s[s.len() - 1] == x);
                }
            }
            if s.contains(x) {
                let j = choose|j: int| 0 <= j < s.len() && s[j] == x;
                if j < front.len() {
                    assert(front[j] == x);
                    assert(f.contains(x));
                    let i = choose|i: int| 0 <= i < f.len() && f[i] == x;
                    assert(r[i] == x);
                } else {
                    assert(r[f.len() as int] == x);
                }
            }
            if x == label {
                assert(f.contains(x));
                let i = choose|i: int| 0 <= i < f.len() && f[i] == x;
                assert(r[i] == x);
            }
        }
    } else {
        order::lemma_before_total(s.last(), label);
        assert forall|i: int, j: int| 0 <= i < j < r.len() implies order::before(
            #[trigger] r[i],
            #[trigger] r[j],
        ) by {
            if j == s.len() {
                if i < s.len() - 1 {
                    assert(order::before(s[i], s[s.len() - 1]));
                    order::lemma_before_transitive(s[i], s.last(), label);
                }
            } else {
                assert(order::before(s[i], s[j]));
            }
        }
        assert forall|x: Seq<char>|
            #![trigger r.contains(x)]
            #![trigger s.contains(x)]
            r.contains(x) <==> s.contains(x) || x == label by {
            if s.contains(x) {
                let j = choose|j: int| 0 <= j < s.len() && s[j] == x;
                assert(r[j] == x);
            }
            if x == label {
                assert(r[s.len() as int] == x);
            }
        }
    }
}

/// The sorted labels are strictly sorted, and hold exactly the labels.
pub proof fn lemma_labels(s: Seq<Option<Seq<char>>>)
    ensures
        mapping::strictly_sorted(mapping::labels(s)),
        forall|x: Seq<char>|
            #![trigger mapping::labels(s).contains(x)]
            #![trigger s.contains(Some(x))]
            mapping::labels(s).contains(x) <==> s.contains(Some(x)),
    decreases s.len(),
{
    if s.len() > 0 {
        let front = s.drop_last();
        lemma_labels(front);
        match s.last() {
            Some(label) => {
                lemma_label_added(mapping::labels(front), label);
            },
            None => {},
        }
        assert forall|x: Seq<char>|
            #![trigger mapping::labels(s).contains(x)]
            #![trigger s.contains(Some(x))]
            mapping::labels(s).contains(x) <==> s.contains(Some(x)) by {
            if s.contains(Some(x)) {
                let j = choose|j: int| 0 <= j < s.len() && s[j] == Some(x);
                if j < front.len() {
                    assert(front[j] == Some(x));
                    assert(front.contains(Some(x)));
                }
            }
            if front.contains(Some(x)) {
                let j = choose|j: int| 0 <= j < front.len() && front[j] == Some(x);
                assert(s[j] == Some(x));
            }
            if s.last() == Some(x) {
                assert(s[s.len() - 1] == Some(x));
            }
        }
    }
}

/// The groups of a document are the labels of its mappings, each once, in order.
pub proof fn law_groups_are_the_labels(f: MappingsView)
    ensures
        mapping::strictly_sorted(f.group_names()),
        forall|g: Seq<char>|
            #![trigger f.group_names().contains(g)]
            #![trigger mapping::has_group(f.mappings, g)]
            f.group_names().contains(g) <==> mapping::has_group(f.mappings, g),
{
    let all = mapping::group_labels(f.mappings);
    lemma_labels(all);
    assert forall|g: Seq<char>|
        #![trigger f.group_names().contains(g)]
        #![trigger mapping::has_group(f.mappings, g)]
        f.group_names().contains(g) <==> mapping::has_group(f.mappings, g) by {
        if all.contains(Some(g)) {
            let i = choose|i: int| 0 <= i < all.len() && all[i] == Some(g);
            assert(f.mappings[i].group == Some(g));
        }
        if mapping::has_group(f.mappings, g) {
            let i = choose|i: int|
                0 <= i < f.mappings.len() && (#[trigger] f.mappings[i]).group == Some(g);
            assert(all[i] == Some(g));
        }
    }
}

// ---------------------------------------------------------------------------
// Shared directories and suggestions
// ---------------------------------------------------------------------------

/// The directory segments of a home-relative path: all but the last.
pub open spec fn dirs(p: Seq<char>) -> Seq<Seq<char>> {
    text::segments(p).drop_last()
}

/// How many leading pieces two lists share.
pub open spec fn shared_len(a: Seq<Seq<char>>, b: Seq<Seq<char>>) -> nat
    decreases a.len(),
{
    if a.len() > 0 && b.len() > 0 && a[0] == b[0] {
        1 + shared_len(a.skip(1), b.skip(1))
    } else {
        0
    }
}

/// The leading directory segments that all the paths share.
pub open spec fn shared_dirs(paths: Seq<Seq<char>>) -> Seq<Seq<char>>
    decreases paths.len(),
{
    if paths.len() == 0 {
        Seq::<Seq<char>>::empty()
    } else if paths.len() == 1 {
        dirs(paths[0])
    } else {
        let before = shared_dirs(paths.drop_last());
        before.take(shared_len(before, dirs(paths.last())) as int)
    }
}

/// The deepest directory that all the paths share, if any.
pub open spec fn shared_parent(paths: Seq<Seq<char>>) -> Option<Seq<char>> {
    if shared_dirs(paths).len() > 0 {
        Some(text::join(shared_dirs(paths), seq!['/']))
    } else {
        None
    }
}

/// The name that a group of these paths would have, before it is put in lower
/// case: the last segment of the shared parent of several paths, else of the
/// first path, without leading dots and without the extension.
pub open spec fn suggestion_stem(paths: Seq<Seq<char>>) -> Seq<char> {
    let pick = if paths.len() > 1 {
        match shared_parent(paths) {
            Some(p) => p,
            None => paths[0],
        }
    } else if paths.len() == 1 {
        paths[0]
    } else {
        Seq::<char>::empty()
    };
    text::before_last_dot(text::trim_char(text::segments(pick).last(), '.'))
}

/// A group name that is suggested is empty or one that a group may have, before
/// it is put in lower case: it holds no slash and begins with no dot. (One that
/// begins with white space may have a dot behind it, or nothing.)
pub proof fn law_suggested_stem_is_empty_or_valid(paths: Seq<Seq<char>>)
    ensures
        ({
            let stem = suggestion_stem(paths);
            &&& !stem.contains('/')
            &&& stem.len() > 0 ==> stem[0] != '.'
            &&& !begins_white(stem) ==> stem.len() == 0 || name_problem(stem) is None
        }),
{
    let pick = if paths.len() > 1 {
        match shared_parent(paths) {
            Some(p) => p,
            None => paths[0],
        }
    } else if paths.len() == 1 {
        paths[0]
    } else {
        Seq::<char>::empty()
    };
    let last = text::segments(pick).last();
    text::lemma_split_nonempty(pick, seq!['/']);
    text::lemma_split_pieces(pick, seq!['/']);
    assert(seq!['/'][0] == '/');
    assert(seq!['/'].contains('/'));
    assert(!text::segments(pick)[text::segments(pick).len() - 1].contains('/'));
    lemma_trimmed_of_dots(last);
    let bare = text::trim_char(last, '.');
    lemma_last_dot(bare);
    let stem = text::before_last_dot(bare);
    assert forall|i: int| 0 <= i < stem.len() implies stem[i] != '/' by {
        assert(bare[i] == stem[i]);
    }
    if stem.len() > 0 && !begins_white(stem) {
        lemma_trim_keeps_start(stem);
    }
}

/// A name that is suggested is empty or one that a group may have, where it
/// begins with no white space and putting it in lower case makes no slash, and no
/// dot or white space at its beginning, out of other characters.
pub proof fn law_suggestion_is_empty_or_valid(paths: Seq<Seq<char>>)
    requires
        !begins_white(suggestion_stem(paths)),
        makes_no_marks(suggestion_stem(paths), text::unicode_lower(suggestion_stem(paths))),
    ensures
        ({
            let name = text::unicode_lower(suggestion_stem(paths));
            name.len() == 0 || name_problem(name) is None
        }),
{
    let name = text::unicode_lower(suggestion_stem(paths));
    law_suggested_stem_is_empty_or_valid(paths);
    if name.len() > 0 {
        lemma_trim_keeps_start(name);
    }
}

/// Whether `low` has a slash, or a dot or white space at its beginning, only
/// where `s` has.
pub open spec fn makes_no_marks(s: Seq<char>, low: Seq<char>) -> bool {
    &&& low.contains('/') ==> s.contains('/')
    &&& low.len() > 0 && low[0] == '.' ==> s.len() > 0 && s[0] == '.'
    &&& begins_white(low) ==> begins_white(s)
}

/// Whether a text begins with white space.
pub open spec fn begins_white(s: Seq<char>) -> bool {
    s.len() > 0 && text::is_white(s[0])
}

proof fn lemma_trim_keeps_start(s: Seq<char>)
    requires
        s.len() > 0,
        !begins_white(s),
    ensures
        text::trim(s).len() > 0,
        text::trim(s)[0] == s[0],
        !s.contains('/') ==> !text::trim(s).contains('/'),
    decreases s.len(),
{
    if text::is_white(s.last()) {
        let front = s.drop_last();
        lemma_trim_keeps_start(front);
        if !s.contains('/') {
            assert forall|i: int| 0 <= i < front.len() implies front[i] != '/' by {
                assert(s[i] != '/');
            }
        }
    }
}

proof fn lemma_trimmed_of_dots(s: Seq<char>)
    ensures
        ({
            let bare = text::trim_char(s, '.');
            &&& bare.len() > 0 ==> bare[0] != '.'
            &&& !s.contains('/') ==> !bare.contains('/')
        }),
    decreases s.len(),
{
    if s.len() > 0 && s[0] == '.' {
        lemma_trimmed_of_dots(s.skip(1));
        if !s.contains('/') {
            assert forall|i: int| 0 <= i < s.skip(1).len() implies s.skip(1)[i] != '/' by {
                assert(s[i + 1] != '/');
            }
        }
    }
}

proof fn lemma_last_dot(s: Seq<char>)
    ensures
        -1 <= text::last_dot(s) < s.len(),
        text::last_dot(s) >= 0 ==> s[text::last_dot(s)] == '.',
    decreases s.len(),
{
    if s.len() > 0 && s.last() != '.' {
        lemma_last_dot(s.drop_last());
    }
}

/// The number of shared leading pieces is at most either length, the pieces up
/// to it agree, and the next ones do not.
pub proof fn lemma_shared_len(a: Seq<Seq<char>>, b: Seq<Seq<char>>)
    ensures
        shared_len(a, b) <= a.len(),
        shared_len(a, b) <= b.len(),
        a.take(shared_len(a, b) as int) == b.take(shared_len(a, b) as int),
        shared_len(a, b) < a.len() && shared_len(a, b) < b.len() ==> a[shared_len(a, b) as int]
            != b[shared_len(a, b) as int],
    decreases a.len(),
{
    if a.len() > 0 && b.len() > 0 && a[0] == b[0] {
        lemma_shared_len(a.skip(1), b.skip(1));
        let n = shared_len(a, b) as int;
        assert forall|i: int| 0 <= i < n implies a[i] == b[i] by {
            if i > 0 {
                assert(a.skip(1).take(n - 1)[i - 1] == b.skip(1).take(n - 1)[i - 1]);
            }
        }
        assert(a.take(n) =~= b.take(n));
    } else {
        assert(a.take(0) =~= b.take(0));
    }
}

/// The number of shared leading pieces is determined by what it says.
proof fn lemma_shared_len_is(a: Seq<Seq<char>>, b: Seq<Seq<char>>, n: int)
    requires
        0 <= n <= a.len(),
        n <= b.len(),
        forall|i: int| 0 <= i < n ==> a[i] == b[i],
        n < a.len() && n < b.len() ==> a[n] != b[n],
    ensures
        shared_len(a, b) == n,
    decreases a.len(),
{
    if n > 0 {
        assert(a[0] == b[0]);
        assert forall|i: int| 0 <= i < n - 1 implies a.skip(1)[i] == b.skip(1)[i] by {
            assert(a[i + 1] == b[i + 1]);
        }
        lemma_shared_len_is(a.skip(1), b.skip(1), n - 1);
    }
}

/// Whether `a` is a prefix of `b`.
pub open spec fn leads(a: Seq<Seq<char>>, b: Seq<Seq<char>>) -> bool {
    a.len() <= b.len() && b.take(a.len() as int) == a
}

/// The shared directory is the deepest one: every path lies in it, and any
/// directory that every path lies in contains it.
pub proof fn law_shared_parent_is_deepest(paths: Seq<Seq<char>>, other: Seq<Seq<char>>)
    requires
        paths.len() > 0,
    ensures
        forall|i: int| 0 <= i < paths.len() ==> leads(shared_dirs(paths), dirs(#[trigger] paths[i])),
        (forall|i: int| 0 <= i < paths.len() ==> leads(other, dirs(#[trigger] paths[i]))) ==> leads(
            other,
            shared_dirs(paths),
        ),
    decreases paths.len(),
{
    let common = shared_dirs(paths);
    if paths.len() == 1 {
        assert(dirs(paths[0]).take(dirs(paths[0]).len() as int) =~= dirs(paths[0]));
        if forall|i: int| 0 <= i < paths.len() ==> leads(other, dirs(#[trigger] paths[i])) {
            assert(leads(other, dirs(paths[0])));
        }
    } else {
        let front = paths.drop_last();
        law_shared_parent_is_deepest(front, other);
        let before = shared_dirs(front);
        let last = dirs(paths.last());
        lemma_shared_len(before, last);
        let n = shared_len(before, last) as int;
        assert forall|i: int| 0 <= i < paths.len() implies leads(
            common,
            dirs(#[trigger] paths[i]),
        ) by {
            if i < front.len() {
                assert(leads(before, dirs(front[i])));
                assert(dirs(paths[i]).take(n) =~= dirs(front[i]).take(before.len() as int).take(n));
            }
        }
        if forall|i: int| 0 <= i < paths.len() ==> leads(other, dirs(#[trigger] paths[i])) {
            assert forall|i: int| 0 <= i < front.len() implies leads(
                other,
                dirs(#[trigger] front[i]),
            ) by {
                assert(leads(other, dirs(paths[i])));
            }
            assert(leads(other, before));
            assert(leads(other, dirs(paths[paths.len() - 1])));
            if other.len() > n {
                assert(before[n] == before.take(other.len() as int)[n]);
                assert(last[n] == last.take(other.len() as int)[n]);
            }
            assert(common.take(other.len() as int) =~= before.take(other.len() as int));
        }
    }
}

/// How many leading pieces two lists share.
fn shared_count(a: &Vec<String>, a_len: usize, b: &Vec<String>, b_len: usize) -> (r: usize)
    requires
        a_len <= a@.len(),
        b_len <= b@.len(),
    ensures
        r == shared_len(a.deep_view().take(a_len as int), b.deep_view().take(b_len as int)),
        r <= a_len,
        r <= b_len,
{
    let ghost x = a.deep_view().take(a_len as int);
    let ghost y = b.deep_view().take(b_len as int);
    let mut i: usize = 0;
    while i < a_len && i < b_len && text::same(a[i].as_str(), b[i].as_str())
        invariant
            i <= a_len <= a@.len(),
            i <= b_len <= b@.len(),
            x == a.deep_view().take(a_len as int),
            y == b.deep_view().take(b_len as int),
            forall|j: int| 0 <= j < i ==> x[j] == y[j],
        decreases a_len - i,
    {
        i += 1;
    }
    proof {
        lemma_shared_len_is(x, y, i as int);
    }
    i
}

/// The number of leading directory segments that two home-relative paths share.
pub fn shared_dir_depth(a: &str, b: &str) -> (r: usize)
    ensures
        r == shared_len(dirs(a@), dirs(b@)),
{
    let x = text::split_segments(a);
    let y = text::split_segments(b);
    proof {
        text::lemma_split_nonempty(a@, seq!['/']);
        text::lemma_split_nonempty(b@, seq!['/']);
    }
    assert(x.deep_view().len() > 0);
    assert(y.deep_view().len() > 0);
    assert(x.deep_view().take(x@.len() - 1) =~= dirs(a@));
    assert(y.deep_view().take(y@.len() - 1) =~= dirs(b@));
    shared_count(&x, x.len() - 1, &y, y.len() - 1)
}

/// The deepest shared parent directory of several home-relative paths, if any.
pub fn common_parent(paths: &[String]) -> (r: Option<String>)
    ensures
        r.deep_view() == shared_parent(text::texts(paths@)),
{
    let ghost all = text::texts(paths@);
    if paths.len() == 0 {
        return None;
    }
    let first = text::split_segments(paths[0].as_str());
    proof {
        text::lemma_split_nonempty(paths@[0]@, seq!['/']);
    }
    assert(first.deep_view().len() > 0);
    let mut n: usize = first.len() - 1;
    let mut i: usize = 1;
    assert(all.take(1)[0] == paths@[0]@);
    assert(first.deep_view().take(n as int) =~= shared_dirs(all.take(1)));
    while i < paths.len()
        invariant
            1 <= i <= paths@.len(),
            all == text::texts(paths@),
            n <= first@.len(),
            first.deep_view().take(n as int) == shared_dirs(all.take(i as int)),
        decreases paths@.len() - i,
    {
        let segs = text::split_segments(paths[i].as_str());
        proof {
            text::lemma_split_nonempty(paths@[i as int]@, seq!['/']);
        }
        assert(segs.deep_view().len() > 0);
        assert(segs.deep_view().take(segs@.len() - 1) =~= dirs(paths@[i as int]@));
        let k = shared_count(&first, n, &segs, segs.len() - 1);
        assert(all.take(i + 1).drop_last() =~= all.take(i as int));
        assert(all.take(i + 1).last() == paths@[i as int]@);
        assert(first.deep_view().take(n as int).take(k as int) =~= first.deep_view().take(
            k as int,
        ));
        n = k;
        i += 1;
    }
    assert(all.take(i as int) =~= all);
    if n == 0 {
        None
    } else {
        proof {
            reveal_strlit("/");
        }
        assert("/"@ =~= seq!['/']);
        let slice = &first.as_slice()[0..n];
        assert(text::texts(slice@) =~= first.deep_view().take(n as int));
        Some(text::join_text(slice, "/"))
    }
}

/// The name that a group of these paths would have, before it is put in lower case.
pub fn group_stem(paths: &[String]) -> (r: String)
    ensures
        r@ == suggestion_stem(text::texts(paths@)),
{
    let pick = if paths.len() > 1 {
        match common_parent(paths) {
            Some(p) => p,
            None => paths[0].clone(),
        }
    } else if paths.len() == 1 {
        paths[0].clone()
    } else {
        String::new()
    };
    let segs = text::split_segments(pick.as_str());
    proof {
        text::lemma_split_nonempty(pick@, seq!['/']);
    }
    assert(segs.deep_view().len() > 0);
    let base = text::trim_leading(segs[segs.len() - 1].as_str(), '.');
    text::stem(base.as_str())
}

/// Suggest a group name from the paths being adopted: the shared parent
/// directory of several paths, else the path's last segment, without leading
/// dots and the extension, in lower case. `.config/zed` gives `zed`.
pub fn suggest_group_name(paths: &[String]) -> (r: String)
    ensures
        r@ == text::unicode_lower(suggestion_stem(text::texts(paths@))),
{
    let stem = group_stem(paths);
    text::to_lowercase(stem.as_str())
}

// ---------------------------------------------------------------------------
// What is suggested
// ---------------------------------------------------------------------------

/// For one path the bare name of its last segment is suggested: without the dots
/// before it and without the last extension, wherever the path lies.
pub proof fn law_the_bare_name_is_suggested(
    dir: Seq<char>,
    dots: nat,
    base: Seq<char>,
    ext: Seq<char>,
)
    requires
        base.len() > 0,
        base[0] != '.',
        !base.contains('/'),
        !ext.contains('/'),
        !ext.contains('.'),
    ensures
        ({
            let file = Seq::new(dots, |i: int| '.') + base + seq!['.'] + ext;
            &&& suggestion_stem(seq![file]) == base
            &&& suggestion_stem(seq![dir + seq!['/'] + file]) == base
            &&& !base.contains('.') ==> suggestion_stem(
                seq![dir + seq!['/'] + (Seq::new(dots, |i: int| '.') + base)],
            ) == base
        }),
{
    let lead = Seq::new(dots, |i: int| '.');
    let full = base + seq!['.'] + ext;
    let file = lead + base + seq!['.'] + ext;
    assert(file =~= lead + full);
    assert forall|i: int| 0 <= i < file.len() implies file[i] != '/' by {
        if i < dots {
        } else if i < dots + base.len() {
            assert(base[i - dots] != '/');
        } else if i > dots + base.len() {
            assert(ext[i - dots - base.len() - 1] != '/');
        }
    }
    path::lemma_last_segment(dir, file);
    lemma_undotted(dots, full);
    lemma_extension(base, ext);
    let bare = lead + base;
    assert forall|i: int| 0 <= i < bare.len() implies bare[i] != '/' by {
        if i >= dots {
            assert(base[i - dots] != '/');
        }
    }
    path::lemma_last_segment(dir, bare);
    lemma_undotted(dots, base);
    if !base.contains('.') {
        lemma_no_dot(base);
    }
}

proof fn lemma_undotted(dots: nat, rest: Seq<char>)
    requires
        rest.len() > 0,
        rest[0] != '.',
    ensures
        text::trim_char(Seq::new(dots, |i: int| '.') + rest, '.') == rest,
    decreases dots,
{
    let whole = Seq::new(dots, |i: int| '.') + rest;
    if dots > 0 {
        let fewer = (dots - 1) as nat;
        lemma_undotted(fewer, rest);
        assert(whole.skip(1) =~= Seq::new(fewer, |i: int| '.') + rest);
    } else {
        assert(whole =~= rest);
    }
}

proof fn lemma_extension(base: Seq<char>, ext: Seq<char>)
    requires
        !ext.contains('.'),
    ensures
        text::before_last_dot(base + seq!['.'] + ext) == base,
        text::last_dot(base + seq!['.'] + ext) == base.len(),
    decreases ext.len(),
{
    let whole = base + seq!['.'] + ext;
    if ext.len() > 0 {
        let front = ext.drop_last();
        assert forall|i: int| 0 <= i < front.len() implies front[i] != '.' by {
            assert(ext[i] != '.');
        }
        lemma_extension(base, front);
        assert(ext[ext.len() - 1] != '.');
        assert(whole.drop_last() =~= base + seq!['.'] + front);
        assert(whole.last() == ext.last());
    } else {
        assert(whole.last() == '.');
    }
    assert(whole.take(base.len() as int) =~= base);
}

proof fn lemma_no_dot(s: Seq<char>)
    requires
        !s.contains('.'),
    ensures
        text::last_dot(s) == -1,
    decreases s.len(),
{
    if s.len() > 0 {
        let front = s.drop_last();
        assert forall|i: int| 0 <= i < front.len() implies front[i] != '.' by {
            assert(s[i] != '.');
        }
        assert(s[s.len() - 1] != '.');
        lemma_no_dot(front);
    }
}

/// For several paths the directory that they share is what is named, and the first
/// of them where they share none. The shared directory is spelled by the directories
/// that lead to it.
pub proof fn law_what_paths_share_is_suggested(paths: Seq<Seq<char>>)
    requires
        paths.len() > 1,
    ensures
        shared_parent(paths) matches Some(dir) ==> suggestion_stem(paths) == suggestion_stem(
            seq![dir],
        ) && text::segments(dir) == shared_dirs(paths),
        shared_parent(paths) is None <==> shared_dirs(paths).len() == 0,
        shared_parent(paths) is None ==> suggestion_stem(paths) == suggestion_stem(seq![paths[0]]),
{
    let shared = shared_dirs(paths);
    if shared.len() > 0 {
        law_shared_parent_is_deepest(paths, shared);
        assert(leads(shared, dirs(paths[0])));
        text::lemma_split_pieces(paths[0], seq!['/']);
        assert(seq!['/'][0] == '/');
        assert(seq!['/'].contains('/'));
        assert forall|k: int| 0 <= k < shared.len() implies !(#[trigger] shared[k]).contains(
            '/',
        ) by {
            assert(shared[k] == dirs(paths[0]).take(shared.len() as int)[k]);
            assert(shared[k] == text::segments(paths[0])[k]);
        }
        path::lemma_segments_of_join(shared);
    }
}

} // verus!
