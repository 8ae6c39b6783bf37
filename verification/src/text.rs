//! Text as sequences of characters: the string operations that the rest of the
//! crate is written with, each with its meaning.
use vstd::prelude::*;
use vstd::string::*;

verus! {

/// `String::push` appends one character at the end.
pub assume_specification[ String::push ](s: &mut String, c: char)
    ensures
        final(s)@ == old(s)@.push(c),
;

// ---------------------------------------------------------------------------
// Characters and strings
// ---------------------------------------------------------------------------

/// The characters of `s`.
pub fn chars(s: &str) -> (r: Vec<char>)
    ensures
        r@ == s@,
{
    let mut r: Vec<char> = Vec::new();
    for c in it: s.chars()
        invariant
            r@ == it.seq().take(it.index() as int),
            it.seq() == s@,
    {
        r.push(c);
    }
    r
}

/// The string with exactly the characters `cs`.
pub fn text(cs: &[char]) -> (r: String)
    ensures
        r@ == cs@,
{
    let mut r = String::new();
    let mut i: usize = 0;
    while i < cs.len()
        invariant
            i <= cs@.len(),
            r@ == cs@.take(i as int),
        decreases cs@.len() - i,
    {
        r.push(cs[i]);
        assert(cs@.take(i + 1) =~= cs@.take(i as int).push(cs@[i as int]));
        i += 1;
    }
    assert(cs@.take(i as int) =~= cs@);
    r
}

/// The characters of `cs` from `from` up to `to`, as a string.
pub fn slice_text(cs: &[char], from: usize, to: usize) -> (r: String)
    requires
        from <= to <= cs@.len(),
    ensures
        r@ == cs@.subrange(from as int, to as int),
{
    let mut r = String::new();
    let mut i: usize = from;
    while i < to
        invariant
            from <= i <= to <= cs@.len(),
            r@ == cs@.subrange(from as int, i as int),
        decreases to - i,
    {
        r.push(cs[i]);
        assert(cs@.subrange(from as int, i + 1) =~= cs@.subrange(from as int, i as int).push(
            cs@[i as int],
        ));
        i += 1;
    }
    r
}

/// Whether two slices hold the same characters in the same order.
pub fn same_chars(a: &[char], b: &[char]) -> (r: bool)
    ensures
        r == (a@ == b@),
{
    if a.len() != b.len() {
        return false;
    }
    let mut i: usize = 0;
    while i < a.len()
        invariant
            i <= a@.len(),
            a@.len() == b@.len(),
            forall|j: int| 0 <= j < i ==> a@[j] == b@[j],
        decreases a@.len() - i,
    {
        if a[i] != b[i] {
            return false;
        }
        i += 1;
    }
    assert(a@ =~= b@);
    true
}

/// Whether two strings hold the same text.
pub fn same(a: &str, b: &str) -> (r: bool)
    ensures
        r == (a@ == b@),
{
    same_chars(chars(a).as_slice(), chars(b).as_slice())
}

/// Whether an optional label is exactly `name`.
pub fn is_label(label: &Option<String>, name: &str) -> (r: bool)
    ensures
        r == (label.deep_view() == Some(name@)),
{
    match label {
        Some(l) => same(l.as_str(), name),
        None => false,
    }
}

/// A copy of an optional string.
pub fn copy_option(s: &Option<String>) -> (r: Option<String>)
    ensures
        r == *s,
{
    match s {
        Some(t) => Some(t.clone()),
        None => None,
    }
}

/// Whether `name` occurs in `list`.
pub fn list_has(list: &Vec<String>, name: &str) -> (r: bool)
    ensures
        r == list.deep_view().contains(name@),
{
    let mut i: usize = 0;
    while i < list.len()
        invariant
            i <= list@.len(),
            forall|j: int| 0 <= j < i ==> list.deep_view()[j] != name@,
        decreases list@.len() - i,
    {
        if same(list[i].as_str(), name) {
            assert(list.deep_view()[i as int] == name@);
            return true;
        }
        i += 1;
    }
    false
}

// ---------------------------------------------------------------------------
// Prefixes, suffixes, substrings
// ---------------------------------------------------------------------------

/// Whether `s` begins with `p`.
pub open spec fn starts_with(s: Seq<char>, p: Seq<char>) -> bool {
    p.len() <= s.len() && s.take(p.len() as int) == p
}

/// Whether `s` ends with `p`.
pub open spec fn ends_with(s: Seq<char>, p: Seq<char>) -> bool {
    p.len() <= s.len() && s.skip(s.len() - p.len()) == p
}

/// Whether `p` occurs in `s` at position `i`.
pub open spec fn occurs_at(s: Seq<char>, p: Seq<char>, i: int) -> bool {
    0 <= i && i + p.len() <= s.len() && s.subrange(i, i + p.len()) == p
}

/// Whether `p` occurs somewhere in `s`.
pub open spec fn has_text(s: Seq<char>, p: Seq<char>) -> bool {
    exists|i: int| occurs_at(s, p, i)
}

/// Whether `p` occurs in `s` at position `i`.
pub fn chars_occur_at(s: &[char], p: &[char], i: usize) -> (r: bool)
    ensures
        r == occurs_at(s@, p@, i as int),
{
    let size: usize = s.len();
    if i > size || p.len() > size - i {
        return false;
    }
    let mut j: usize = 0;
    while j < p.len()
        invariant
            size == s@.len(),
            i + p@.len() <= size,
            j <= p@.len(),
            forall|k: int| 0 <= k < j ==> s@[i + k] == p@[k],
        decreases p@.len() - j,
    {
        if s[i + j] != p[j] {
            assert(s@.subrange(i as int, i + p@.len())[j as int] != p@[j as int]);
            return false;
        }
        j += 1;
    }
    assert(s@.subrange(i as int, i + p@.len()) =~= p@);
    true
}

/// Whether `s` begins with `p`.
pub fn has_prefix(s: &str, p: &str) -> (r: bool)
    ensures
        r == starts_with(s@, p@),
{
    let a = chars(s);
    let b = chars(p);
    let r = chars_occur_at(a.as_slice(), b.as_slice(), 0);
    assert(p@.len() <= s@.len() ==> s@.subrange(0, p@.len() as int) =~= s@.take(p@.len() as int));
    r
}

/// Whether `s` ends with `p`.
pub fn has_suffix(s: &str, p: &str) -> (r: bool)
    ensures
        r == ends_with(s@, p@),
{
    let a = chars(s);
    let b = chars(p);
    if b.len() > a.len() {
        return false;
    }
    let at: usize = a.len() - b.len();
    assert(s@.subrange(at as int, at + p@.len()) =~= s@.skip(s@.len() - p@.len()));
    chars_occur_at(a.as_slice(), b.as_slice(), at)
}

/// Whether `p` occurs somewhere in `s`.
pub fn contains(s: &str, p: &str) -> (r: bool)
    ensures
        r == has_text(s@, p@),
{
    let a = chars(s);
    let b = chars(p);
    if b.len() > a.len() {
        return false;
    }
    let last: usize = a.len() - b.len();
    let mut i: usize = 0;
    while i <= last
        invariant
            a@ == s@,
            b@ == p@,
            last == a@.len() - b@.len(),
            i <= last + 1,
            a@.len() <= usize::MAX,
            forall|j: int| 0 <= j < i ==> !occurs_at(s@, p@, j),
        decreases last + 1 - i,
    {
        if chars_occur_at(a.as_slice(), b.as_slice(), i) {
            return true;
        }
        if i == last {
            assert forall|j: int| !occurs_at(s@, p@, j) by {
                if 0 <= j && j + p@.len() <= s@.len() {
                    assert(j <= last);
                }
            }
            return false;
        }
        i += 1;
    }
    false
}

/// Whether the character `c` occurs in `s`.
pub fn has_char(s: &str, c: char) -> (r: bool)
    ensures
        r == s@.contains(c),
{
    let a = chars(s);
    let mut i: usize = 0;
    while i < a.len()
        invariant
            a@ == s@,
            i <= a@.len(),
            forall|j: int| 0 <= j < i ==> a@[j] != c,
        decreases a@.len() - i,
    {
        if a[i] == c {
            assert(s@[i as int] == c);
            return true;
        }
        i += 1;
    }
    false
}

// ---------------------------------------------------------------------------
// Splitting and joining
// ---------------------------------------------------------------------------

/// The pieces of `s` between the separators `seps`: read from the left, a
/// separator opens a new piece and any other character extends the last one.
pub open spec fn split(s: Seq<char>, seps: Seq<char>) -> Seq<Seq<char>>
    decreases s.len(),
{
    if s.len() == 0 {
        seq![Seq::<char>::empty()]
    } else {
        let before = split(s.drop_last(), seps);
        if seps.contains(s.last()) {
            before.push(Seq::<char>::empty())
        } else {
            before.drop_last().push(before.last().push(s.last()))
        }
    }
}

/// The pieces of `s` between its `/` characters.
pub open spec fn segments(s: Seq<char>) -> Seq<Seq<char>> {
    split(s, seq!['/'])
}

/// The pieces in order, with `sep` between each two of them.
pub open spec fn join(pieces: Seq<Seq<char>>, sep: Seq<char>) -> Seq<char>
    decreases pieces.len(),
{
    if pieces.len() == 0 {
        Seq::<char>::empty()
    } else if pieces.len() == 1 {
        pieces[0]
    } else {
        join(pieces.drop_last(), sep) + sep + pieces.last()
    }
}

/// Splitting always gives at least one piece.
pub proof fn lemma_split_nonempty(s: Seq<char>, seps: Seq<char>)
    ensures
        split(s, seps).len() > 0,
    decreases s.len(),
{
    if s.len() > 0 {
        lemma_split_nonempty(s.drop_last(), seps);
    }
}

/// No piece holds a separator.
pub proof fn lemma_split_pieces(s: Seq<char>, seps: Seq<char>)
    ensures
        forall|i: int, c: char|
            0 <= i < split(s, seps).len() && #[trigger] split(s, seps)[i].contains(c)
                ==> !seps.contains(c),
    decreases s.len(),
{
    if s.len() > 0 {
        lemma_split_pieces(s.drop_last(), seps);
        lemma_split_nonempty(s.drop_last(), seps);
        let before = split(s.drop_last(), seps);
        assert forall|i: int, c: char|
            0 <= i < split(s, seps).len() && #[trigger] split(s, seps)[i].contains(
                c,
            ) implies !seps.contains(c) by {
            let piece = split(s, seps)[i];
            if i < before.len() - 1 {
                assert(piece == before[i]);
            } else if !seps.contains(s.last()) {
                let k = choose|k: int| 0 <= k < piece.len() && piece[k] == c;
                if k < before.last().len() {
                    assert(before[before.len() - 1][k] == c);
                    assert(before[before.len() - 1].contains(c));
                }
            } else if i == before.len() - 1 {
                assert(piece == before[i]);
            }
        }
    }
}

/// Joining the pieces of a split with its one separator gives the text back.
pub proof fn lemma_join_of_split(s: Seq<char>, sep: char)
    ensures
        join(split(s, seq![sep]), seq![sep]) == s,
    decreases s.len(),
{
    let pieces = split(s, seq![sep]);
    lemma_split_nonempty(s, seq![sep]);
    if s.len() == 0 {
        assert(join(pieces, seq![sep]) == pieces[0]);
    } else {
        let before = split(s.drop_last(), seq![sep]);
        lemma_split_nonempty(s.drop_last(), seq![sep]);
        lemma_join_of_split(s.drop_last(), sep);
        assert(s.drop_last().push(s.last()) =~= s);
        if s.last() == sep {
            assert(seq![sep][0] == sep);
            assert(seq![sep].contains(s.last()));
            assert(pieces.drop_last() =~= before);
            assert(join(pieces, seq![sep]) =~= s.drop_last().push(sep));
        } else {
            assert(!seq![sep].contains(s.last()));
            assert(pieces.drop_last() =~= before.drop_last());
            assert(pieces.last() =~= before.last().push(s.last()));
            assert(join(pieces, seq![sep]) =~= s.drop_last().push(s.last()));
        }
    }
}

/// The pieces of `s` between the separators `seps`.
pub fn split_text(s: &str, seps: &[char]) -> (r: Vec<String>)
    ensures
        r.deep_view() == split(s@, seps@),
{
    let cs = chars(s);
    let mut done: Vec<String> = Vec::new();
    let mut last = String::new();
    let mut i: usize = 0;
    assert(cs@.take(0) =~= Seq::<char>::empty());
    assert(done.deep_view().push(last@) =~= seq![Seq::<char>::empty()]);
    while i < cs.len()
        invariant
            cs@ == s@,
            i <= cs@.len(),
            done.deep_view().push(last@) == split(cs@.take(i as int), seps@),
        decreases cs@.len() - i,
    {
        let c = cs[i];
        let ghost before = done.deep_view().push(last@);
        let ghost now = cs@.take(i + 1);
        assert(now.drop_last() =~= cs@.take(i as int));
        assert(now.last() == c);
        assert(before.drop_last() =~= done.deep_view());
        if has_item(seps, c) {
            let ghost old_done = done.deep_view();
            let ghost old_last = last@;
            done.push(last);
            last = String::new();
            assert(done.deep_view() =~= old_done.push(old_last));
        } else {
            last.push(c);
        }
        i += 1;
    }
    assert(cs@.take(i as int) =~= s@);
    let ghost old_done = done.deep_view();
    let ghost old_last = last@;
    done.push(last);
    assert(done.deep_view() =~= old_done.push(old_last));
    done
}

/// Whether `c` is one of `set`.
pub fn has_item(set: &[char], c: char) -> (r: bool)
    ensures
        r == set@.contains(c),
{
    let mut i: usize = 0;
    while i < set.len()
        invariant
            i <= set@.len(),
            forall|j: int| 0 <= j < i ==> set@[j] != c,
        decreases set@.len() - i,
    {
        if set[i] == c {
            assert(set@[i as int] == c);
            return true;
        }
        i += 1;
    }
    false
}

/// The pieces of `s` between its `/` characters.
pub fn split_segments(s: &str) -> (r: Vec<String>)
    ensures
        r.deep_view() == segments(s@),
{
    let seps: [char; 1] = ['/'];
    let r = split_text(s, seps.as_slice());
    assert(seps@ =~= seq!['/']);
    r
}

/// The pieces in order, with `sep` between each two of them.
pub fn join_text(pieces: &[String], sep: &str) -> (r: String)
    ensures
        r@ == join(texts(pieces@), sep@),
{
    let mut r = String::new();
    let mut i: usize = 0;
    while i < pieces.len()
        invariant
            i <= pieces@.len(),
            r@ == join(texts(pieces@.take(i as int)), sep@),
        decreases pieces@.len() - i,
    {
        let ghost now = texts(pieces@.take(i + 1));
        assert(now.drop_last() =~= texts(pieces@.take(i as int)));
        assert(now.last() == pieces@[i as int]@);
        if i > 0 {
            r.append(sep);
            r.append(pieces[i].as_str());
        } else {
            r = pieces[i].clone();
        }
        i += 1;
    }
    assert(pieces@.take(i as int) =~= pieces@);
    r
}

/// The texts of a sequence of strings.
pub open spec fn texts(s: Seq<String>) -> Seq<Seq<char>> {
    Seq::new(s.len(), |i: int| s[i]@)
}

// ---------------------------------------------------------------------------
// Trimming, case, replacement
// ---------------------------------------------------------------------------

/// The characters with the Unicode property White_Space.
pub open spec fn is_white(c: char) -> bool {
    ||| '\u{9}' <= c <= '\u{d}'
    ||| c == ' '
    ||| c == '\u{85}'
    ||| c == '\u{a0}'
    ||| c == '\u{1680}'
    ||| '\u{2000}' <= c <= '\u{200a}'
    ||| c == '\u{2028}'
    ||| c == '\u{2029}'
    ||| c == '\u{202f}'
    ||| c == '\u{205f}'
    ||| c == '\u{3000}'
}

/// Whether `c` has the Unicode property White_Space.
pub fn white(c: char) -> (r: bool)
    ensures
        r == is_white(c),
{
    ('\u{9}' <= c && c <= '\u{d}') || c == ' ' || c == '\u{85}' || c == '\u{a0}' || c == '\u{1680}'
        || ('\u{2000}' <= c && c <= '\u{200a}') || c == '\u{2028}' || c == '\u{2029}' || c
        == '\u{202f}' || c == '\u{205f}' || c == '\u{3000}'
}

/// `s` without the white space at its beginning.
pub open spec fn trim_start(s: Seq<char>) -> Seq<char>
    decreases s.len(),
{
    if s.len() > 0 && is_white(s[0]) {
        trim_start(s.skip(1))
    } else {
        s
    }
}

/// `s` without the white space at its end.
pub open spec fn trim_end(s: Seq<char>) -> Seq<char>
    decreases s.len(),
{
    if s.len() > 0 && is_white(s.last()) {
        trim_end(s.drop_last())
    } else {
        s
    }
}

/// `s` without the white space at either end.
pub open spec fn trim(s: Seq<char>) -> Seq<char> {
    trim_end(trim_start(s))
}

/// What was trimmed has nothing left to trim.
pub proof fn lemma_trim_idempotent(s: Seq<char>)
    ensures
        trim(trim(s)) == trim(s),
{
    let a = trim_start(s);
    lemma_trim_start_stops(s);
    lemma_trim_end_keeps(a);
}

proof fn lemma_trim_start_stops(s: Seq<char>)
    ensures
        trim_start(s).len() > 0 ==> !is_white(trim_start(s)[0]),
    decreases s.len(),
{
    if s.len() > 0 && is_white(s[0]) {
        lemma_trim_start_stops(s.skip(1));
    }
}

proof fn lemma_trim_end_keeps(s: Seq<char>)
    ensures
        trim_end(s).len() > 0 ==> trim_end(s)[0] == s[0] && !is_white(trim_end(s).last()),
    decreases s.len(),
{
    if s.len() > 0 && is_white(s.last()) {
        lemma_trim_end_keeps(s.drop_last());
    }
}

/// `s` without the white space at either end.
pub fn trim_text(s: &str) -> (r: String)
    ensures
        r@ == trim(s@),
{
    let cs = chars(s);
    let mut from: usize = 0;
    assert(cs@.skip(0) =~= s@);
    while from < cs.len() && white(cs[from])
        invariant
            cs@ == s@,
            from <= cs@.len(),
            trim_start(s@) == trim_start(cs@.skip(from as int)),
        decreases cs@.len() - from,
    {
        assert(cs@.skip(from as int).skip(1) =~= cs@.skip(from + 1));
        from += 1;
    }
    assert(trim_start(s@) == cs@.skip(from as int));
    let mut to: usize = cs.len();
    assert(cs@.subrange(from as int, to as int) =~= cs@.skip(from as int));
    while to > from && white(cs[to - 1])
        invariant
            cs@ == s@,
            from <= to <= cs@.len(),
            trim(s@) == trim_end(cs@.subrange(from as int, to as int)),
        decreases to,
    {
        assert(cs@.subrange(from as int, to as int).drop_last() =~= cs@.subrange(
            from as int,
            to - 1,
        ));
        to -= 1;
    }
    slice_text(cs.as_slice(), from, to)
}

/// `s` without the leading repetitions of the character `c`.
pub open spec fn trim_char(s: Seq<char>, c: char) -> Seq<char>
    decreases s.len(),
{
    if s.len() > 0 && s[0] == c {
        trim_char(s.skip(1), c)
    } else {
        s
    }
}

/// `s` without the leading repetitions of the character `c`.
pub fn trim_leading(s: &str, c: char) -> (r: String)
    ensures
        r@ == trim_char(s@, c),
{
    let cs = chars(s);
    let mut from: usize = 0;
    assert(cs@.skip(0) =~= s@);
    while from < cs.len() && cs[from] == c
        invariant
            cs@ == s@,
            from <= cs@.len(),
            trim_char(s@, c) == trim_char(cs@.skip(from as int), c),
        decreases cs@.len() - from,
    {
        assert(cs@.skip(from as int).skip(1) =~= cs@.skip(from + 1));
        from += 1;
    }
    assert(cs@.subrange(from as int, cs@.len() as int) =~= cs@.skip(from as int));
    slice_text(cs.as_slice(), from, cs.len())
}

/// `s` without the leading repetitions of `0o`.
pub open spec fn trim_octal_mark(s: Seq<char>) -> Seq<char>
    decreases s.len(),
{
    if s.len() >= 2 && s[0] == '0' && s[1] == 'o' {
        trim_octal_mark(s.skip(2))
    } else {
        s
    }
}

/// `s` without the leading repetitions of `0o`.
pub fn trim_octal(s: &str) -> (r: String)
    ensures
        r@ == trim_octal_mark(s@),
{
    let cs = chars(s);
    let mut from: usize = 0;
    assert(cs@.skip(0) =~= s@);
    while cs.len() - from >= 2 && cs[from] == '0' && cs[from + 1] == 'o'
        invariant
            cs@ == s@,
            from <= cs@.len(),
            trim_octal_mark(s@) == trim_octal_mark(cs@.skip(from as int)),
        decreases cs@.len() - from,
    {
        assert(cs@.skip(from as int).skip(2) =~= cs@.skip(from + 2));
        from += 2;
    }
    assert(cs@.subrange(from as int, cs@.len() as int) =~= cs@.skip(from as int));
    slice_text(cs.as_slice(), from, cs.len())
}

/// The position of the last `.` in `s`, or -1 when it has none.
pub open spec fn last_dot(s: Seq<char>) -> int
    decreases s.len(),
{
    if s.len() == 0 {
        -1
    } else if s.last() == '.' {
        s.len() - 1
    } else {
        last_dot(s.drop_last())
    }
}

/// The part of `s` before its last `.`, or the whole of `s` when it has none.
pub open spec fn before_last_dot(s: Seq<char>) -> Seq<char> {
    if last_dot(s) >= 0 {
        s.take(last_dot(s))
    } else {
        s
    }
}

/// The part of `s` before its last `.`, or the whole of `s` when it has none.
pub fn stem(s: &str) -> (r: String)
    ensures
        r@ == before_last_dot(s@),
{
    let cs = chars(s);
    let mut i: usize = cs.len();
    assert(cs@.take(i as int) =~= s@);
    while i > 0
        invariant
            cs@ == s@,
            i <= cs@.len(),
            last_dot(s@) == last_dot(cs@.take(i as int)),
        decreases i,
    {
        assert(cs@.take(i as int).drop_last() =~= cs@.take(i - 1));
        if cs[i - 1] == '.' {
            assert(s@.subrange(0, i - 1) =~= s@.take(i - 1));
            return slice_text(cs.as_slice(), 0, i - 1);
        }
        i -= 1;
    }
    s.to_owned()
}

/// `c` in lower case when it is one of `A` to `Z`, else `c`.
pub open spec fn ascii_lower_char(c: char) -> char {
    if 'A' <= c <= 'Z' {
        (c as u8 + 32) as char
    } else {
        c
    }
}

/// `s` with its ASCII letters in lower case.
pub open spec fn ascii_lower(s: Seq<char>) -> Seq<char> {
    Seq::new(s.len(), |i: int| ascii_lower_char(s[i]))
}

/// `s` with its ASCII letters in lower case.
pub fn lower(s: &str) -> (r: String)
    ensures
        r@ == ascii_lower(s@),
{
    let cs = chars(s);
    let mut r = String::new();
    let mut i: usize = 0;
    while i < cs.len()
        invariant
            cs@ == s@,
            i <= cs@.len(),
            r@ == ascii_lower(cs@.take(i as int)),
        decreases cs@.len() - i,
    {
        let c = cs[i];
        if 'A' <= c && c <= 'Z' {
            r.push((c as u8 + 32) as char);
        } else {
            r.push(c);
        }
        assert(r@ =~= ascii_lower(cs@.take(i + 1)));
        i += 1;
    }
    assert(cs@.take(i as int) =~= s@);
    r
}

/// `s` with every character `from` replaced by `to`.
pub open spec fn replace_char(s: Seq<char>, from: char, to: char) -> Seq<char> {
    Seq::new(s.len(), |i: int| if s[i] == from { to } else { s[i] })
}

/// `s` with every character `from` replaced by `to`.
pub fn replace_chars(s: &str, from: char, to: char) -> (r: String)
    ensures
        r@ == replace_char(s@, from, to),
{
    let cs = chars(s);
    let mut r = String::new();
    let mut i: usize = 0;
    while i < cs.len()
        invariant
            cs@ == s@,
            i <= cs@.len(),
            r@ == replace_char(cs@.take(i as int), from, to),
        decreases cs@.len() - i,
    {
        if cs[i] == from {
            r.push(to);
        } else {
            r.push(cs[i]);
        }
        assert(r@ =~= replace_char(cs@.take(i + 1), from, to));
        i += 1;
    }
    assert(cs@.take(i as int) =~= s@);
    r
}

/// `s` with every occurrence of `from` replaced by `to`, found from the left
/// and without overlap. The empty text occurs before every character and at
/// the end.
pub open spec fn replace(s: Seq<char>, from: Seq<char>, to: Seq<char>) -> Seq<char>
    decreases s.len(),
{
    if from.len() == 0 {
        if s.len() == 0 {
            to
        } else {
            to + seq![s[0]] + replace(s.skip(1), from, to)
        }
    } else if starts_with(s, from) {
        to + replace(s.skip(from.len() as int), from, to)
    } else if s.len() > 0 {
        seq![s[0]] + replace(s.skip(1), from, to)
    } else {
        s
    }
}

/// `s` with every occurrence of `from` replaced by `to`.
pub fn replace_text(s: &str, from: &str, to: &str) -> (r: String)
    ensures
        r@ == replace(s@, from@, to@),
{
    let cs = chars(s);
    let pat = chars(from);
    let mut r = String::new();
    let mut i: usize = 0;
    assert(cs@.skip(0) =~= s@);
    while i < cs.len()
        invariant
            cs@ == s@,
            pat@ == from@,
            i <= cs@.len(),
            r@ + replace(cs@.skip(i as int), from@, to@) == replace(s@, from@, to@),
        decreases cs@.len() - i,
    {
        let ghost rest = cs@.skip(i as int);
        let ghost sofar = r@;
        if pat.len() == 0 {
            r.append(to);
            r.push(cs[i]);
            assert(rest.skip(1) =~= cs@.skip(i + 1));
            assert(r@ + replace(rest.skip(1), from@, to@) =~= sofar + replace(rest, from@, to@));
            i += 1;
        } else {
            let hit = chars_occur_at(cs.as_slice(), pat.as_slice(), i);
            assert(rest.len() >= from@.len() ==> rest.take(from@.len() as int) =~= cs@.subrange(
                i as int,
                i + from@.len(),
            ));
            if hit {
                r.append(to);
                assert(rest.skip(from@.len() as int) =~= cs@.skip(i + from@.len()));
                assert(r@ + replace(rest.skip(from@.len() as int), from@, to@) =~= sofar + replace(
                    rest,
                    from@,
                    to@,
                ));
                i += pat.len();
            } else {
                r.push(cs[i]);
                assert(rest.skip(1) =~= cs@.skip(i + 1));
                assert(r@ + replace(rest.skip(1), from@, to@) =~= sofar + replace(rest, from@, to@));
                i += 1;
            }
        }
    }
    assert(cs@.skip(i as int) =~= Seq::<char>::empty());
    if pat.len() == 0 {
        r.append(to);
    }
    r
}

/// Different texts that all occur in a list are no more than the list holds.
pub proof fn lemma_distinct_fit(found: Seq<Seq<char>>, list: Seq<Seq<char>>)
    requires
        found.no_duplicates(),
        forall|i: int| 0 <= i < found.len() ==> list.contains(#[trigger] found[i]),
    ensures
        found.len() <= list.len(),
{
    found.unique_seq_to_set();
    list.lemma_cardinality_of_set();
    assert(found.to_set().subset_of(list.to_set()));
    vstd::set_lib::lemma_len_subset(found.to_set(), list.to_set());
}

/// What `str::to_lowercase` makes of a text.
pub uninterp spec fn unicode_lower(s: Seq<char>) -> Seq<char>;

/// `str::to_lowercase`: the lowercase equivalent of the text by the Unicode
/// tables. Only that it depends on the text alone is claimed.
#[verifier::external_body]
pub(crate) fn to_lowercase(s: &str) -> (r: String)
    ensures
        r@ == unicode_lower(s@),
{
    s.to_lowercase()
}

/// How `{:?}` writes a text: between double quotes, with escapes.
pub uninterp spec fn quoted(s: Seq<char>) -> Seq<char>;

/// `<str as Debug>`: the text between double quotes, with the characters that
/// need it escaped. Only that it depends on the text alone is claimed.
#[verifier::external_body]
pub(crate) fn quote(s: &str) -> (r: String)
    ensures
        r@ == quoted(s@),
{
    format!("{:?}", s)
}

/// Trimming takes the white space at both ends, all of it and nothing else.
pub proof fn law_trimming_takes_the_white_ends(s: Seq<char>)
    ensures
        exists|a: int, b: int|
            0 <= a <= b <= s.len() && trim(s) == #[trigger] s.subrange(a, b) && (forall|i: int|
                0 <= i < a || b <= i < s.len() ==> is_white(#[trigger] s[i])),
        trim(s).len() > 0 ==> !is_white(trim(s)[0]) && !is_white(trim(s).last()),
{
    lemma_trimmed_start(s);
    let a = choose|a: int|
        0 <= a <= s.len() && trim_start(s) == #[trigger] s.skip(a) && forall|i: int|
            0 <= i < a ==> is_white(#[trigger] s[i]);
    let t = s.skip(a);
    lemma_trimmed_end(t);
    let n = choose|n: int|
        0 <= n <= t.len() && trim_end(t) == #[trigger] t.take(n) && forall|i: int|
            n <= i < t.len() ==> is_white(#[trigger] t[i]);
    assert(t.take(n) =~= s.subrange(a, a + n));
    assert forall|i: int| 0 <= i < a || a + n <= i < s.len() implies is_white(#[trigger] s[i]) by {
        if i >= a {
            assert(t[i - a] == s[i]);
        }
    }
    lemma_trim_start_stops(s);
    lemma_trim_end_keeps(trim_start(s));
}

proof fn lemma_trimmed_start(s: Seq<char>)
    ensures
        exists|a: int|
            0 <= a <= s.len() && trim_start(s) == #[trigger] s.skip(a) && forall|i: int|
                0 <= i < a ==> is_white(#[trigger] s[i]),
    decreases s.len(),
{
    if s.len() > 0 && is_white(s[0]) {
        let r = s.skip(1);
        lemma_trimmed_start(r);
        let a = choose|a: int|
            0 <= a <= r.len() && trim_start(r) == #[trigger] r.skip(a) && forall|i: int|
                0 <= i < a ==> is_white(#[trigger] r[i]);
        assert(r.skip(a) =~= s.skip(a + 1));
        assert forall|i: int| 0 <= i < a + 1 implies is_white(#[trigger] s[i]) by {
            if i > 0 {
                assert(r[i - 1] == s[i]);
            }
        }
    } else {
        assert(s.skip(0) =~= s);
    }
}

proof fn lemma_trimmed_end(s: Seq<char>)
    ensures
        exists|n: int|
            0 <= n <= s.len() && trim_end(s) == #[trigger] s.take(n) && forall|i: int|
                n <= i < s.len() ==> is_white(#[trigger] s[i]),
    decreases s.len(),
{
    if s.len() > 0 && is_white(s.last()) {
        let r = s.drop_last();
        lemma_trimmed_end(r);
        let n = choose|n: int|
            0 <= n <= r.len() && trim_end(r) == #[trigger] r.take(n) && forall|i: int|
                n <= i < r.len() ==> is_white(#[trigger] r[i]);
        assert(r.take(n) =~= s.take(n));
        assert forall|i: int| n <= i < s.len() implies is_white(#[trigger] s[i]) by {
            if i < r.len() {
                assert(r[i] == s[i]);
            }
        }
    } else {
        assert(s.take(s.len() as int) =~= s);
    }
}

/// Lower-casing within ASCII changes the letters of the alphabet alone, each to its
/// small one, and nothing twice.
pub proof fn law_ascii_lower_changes_capitals_alone(s: Seq<char>, i: int)
    requires
        0 <= i < s.len(),
    ensures
        ascii_lower(s).len() == s.len(),
        !('A' <= s[i] <= 'Z') ==> ascii_lower(s)[i] == s[i],
        'A' <= s[i] <= 'Z' ==> ascii_lower(s)[i] as u32 == s[i] as u32 + 32,
{
}

/// Replacing a character replaces it wherever it is and keeps all else.
pub proof fn law_replacing_replaces_everywhere(s: Seq<char>, from: char, to: char, i: int)
    requires
        0 <= i < s.len(),
    ensures
        replace_char(s, from, to).len() == s.len(),
        s[i] == from ==> replace_char(s, from, to)[i] == to,
        s[i] != from ==> replace_char(s, from, to)[i] == s[i],
{
}

/// Replacing a text replaces it wherever it comes up, from the front, and keeps what
/// is before it; where it does not occur nothing changes.
pub proof fn law_every_occurrence_is_replaced(
    s: Seq<char>,
    from: Seq<char>,
    to: Seq<char>,
    rest: Seq<char>,
)
    requires
        from.len() > 0,
    ensures
        !has_text(s, from) ==> replace(s, from, to) == s,
        replace(from + rest, from, to) == to + replace(rest, from, to),
    decreases s.len(),
{
    assert((from + rest).take(from.len() as int) =~= from);
    assert((from + rest).skip(from.len() as int) =~= rest);
    if !has_text(s, from) {
        if starts_with(s, from) {
            assert(s.subrange(0, from.len() as int) =~= s.take(from.len() as int));
            assert(occurs_at(s, from, 0));
        } else if s.len() > 0 {
            let t = s.skip(1);
            assert(!has_text(t, from)) by {
                if has_text(t, from) {
                    let i = choose|i: int| occurs_at(t, from, i);
                    assert(s.subrange(i + 1, i + 1 + from.len()) =~= t.subrange(i, i + from.len()));
                    assert(occurs_at(s, from, i + 1));
                }
            }
            law_every_occurrence_is_replaced(t, from, to, rest);
            assert(seq![s[0]] + t =~= s);
        }
    }
}

} // verus!
