//! Where a mapping leads: which of its targets wins on which system, what a
//! leading tilde stands for, and which number a mode or a version spells.
use vstd::prelude::*;
use vstd::string::*;

use crate::mapping;
use crate::mapping::MappingView;
use crate::number;
use crate::path;
use crate::text;

verus! {

// ---------------------------------------------------------------------------
// Targets
// ---------------------------------------------------------------------------

/// On a system that has a target of its own, that target wins, whatever the
/// general one is; the target of another system never counts.
pub proof fn law_own_target_wins(m: MappingView, home: Seq<char>, other: MappingView)
    ensures
        m.target_mac matches Some(t) ==> m.target_path(home, "mac"@) == Some(
            mapping::tilde_expanded(t, home),
        ) && m.shown_target("mac"@) == t,
        m.target_linux matches Some(t) ==> m.target_path(home, "linux"@) == Some(
            mapping::tilde_expanded(t, home),
        ) && m.shown_target("linux"@) == t,
        m.target_mac is Some && other.target_mac == m.target_mac ==> other.target_path(
            home,
            "mac"@,
        ) == m.target_path(home, "mac"@),
        m.target_linux is Some && other.target_linux == m.target_linux ==> other.target_path(
            home,
            "linux"@,
        ) == m.target_path(home, "linux"@),
{
    reveal_strlit("mac");
    reveal_strlit("linux");
    assert("mac"@.len() != "linux"@.len());
}

/// The general target serves every system that has none of its own. Without
/// either, a mapping that is for no system in particular mirrors its name under
/// the home base, and one that is for another system leads nowhere.
pub proof fn law_general_target_serves_the_rest(m: MappingView, home: Seq<char>, os: Seq<char>)
    requires
        os == "mac"@ ==> m.target_mac is None,
        os == "linux"@ ==> m.target_linux is None,
    ensures
        m.target matches Some(t) ==> m.target_path(home, os) == Some(
            mapping::tilde_expanded(t, home),
        ) && m.shown_target(os) == t,
        m.target is None && m.target_mac is None && m.target_linux is None ==> m.target_path(
            home,
            os,
        ) == Some(path::joined(home, m.name)) && m.shown_target(os) == "~/"@ + m.name,
        m.target is None && (m.target_mac is Some || m.target_linux is Some) ==> m.target_path(
            home,
            os,
        ) is None,
{
    reveal_strlit("mac");
    reveal_strlit("linux");
    assert("mac"@.len() != "linux"@.len());
}

/// The name, the mode, the conflict policy and the group of a mapping do not
/// decide where a written target leads.
pub proof fn law_only_targets_decide_the_target(a: MappingView, b: MappingView, home: Seq<char>, os: Seq<char>)
    requires
        a.target == b.target,
        a.target_mac == b.target_mac,
        a.target_linux == b.target_linux,
    ensures
        a.applies(os) == b.applies(os),
        a.name == b.name ==> a.target_path(home, os) == b.target_path(home, os),
        a.target is Some ==> a.target_path(home, os) == b.target_path(home, os),
{
}

/// The systems that are shown for a mapping are those that it applies to.
pub proof fn law_shown_systems_are_those_it_applies_to(a: MappingView, b: MappingView)
    ensures
        a.systems() == b.systems() <==> (a.applies("mac"@) == b.applies("mac"@) && a.applies(
            "linux"@,
        ) == b.applies("linux"@)),
        text::has_text(a.systems(), "mac"@) <==> a.applies("mac"@),
        text::has_text(a.systems(), "linux"@) <==> a.applies("linux"@),
{
    reveal_strlit("mac");
    reveal_strlit("linux");
    reveal_strlit("mac,linux");
    reveal_strlit("");
    let both = "mac,linux"@;
    assert(both.subrange(0, 3) =~= "mac"@);
    assert(text::occurs_at(both, "mac"@, 0));
    assert(both.subrange(4, 9) =~= "linux"@);
    assert(text::occurs_at(both, "linux"@, 4));
    assert("mac"@.subrange(0, 3) =~= "mac"@);
    assert(text::occurs_at("mac"@, "mac"@, 0));
    assert("linux"@.subrange(0, 5) =~= "linux"@);
    assert(text::occurs_at("linux"@, "linux"@, 0));
    assert forall|i: int| !text::occurs_at("linux"@, "mac"@, i) by {
        if text::occurs_at("linux"@, "mac"@, i) {
            assert("linux"@.subrange(i, i + 3)[0] == "mac"@[0]);
        }
    }
    assert(""@.len() == 0);
    assert(both.len() == 9 && "mac"@.len() == 3 && "linux"@.len() == 5);
}

/// The sync copy of a mapping lies in the sync folder at the mapping's name,
/// whatever its targets are.
pub proof fn law_source_mirrors_the_name(a: MappingView, b: MappingView, sync_dir: Seq<char>)
    requires
        a.name == b.name,
    ensures
        a.source_path(sync_dir) == b.source_path(sync_dir),
        a.name.len() > 0 && a.name[0] != '/' ==> path::within(a.source_path(sync_dir), sync_dir),
        sync_dir.len() > 0 && sync_dir.last() != '/' && a.name.len() > 0 && a.name[0] != '/'
            ==> a.source_path(sync_dir) == sync_dir + "/"@ + a.name,
{
    reveal_strlit("/");
    assert("/"@ =~= seq!['/']);
    if a.name.len() > 0 && a.name[0] != '/' {
        path::law_join_is_within(sync_dir, a.name);
    }
}

// ---------------------------------------------------------------------------
// Tildes
// ---------------------------------------------------------------------------

/// A tilde alone stands for the home base, and before a slash for the home base
/// that the rest is joined onto. Nothing else is expanded: not a tilde further on,
/// nor one before a name.
pub proof fn law_tilde_stands_for_the_home_base(p: Seq<char>, rel: Seq<char>, home: Seq<char>)
    ensures
        mapping::tilde_expanded(seq!['~'], home) == home,
        mapping::tilde_expanded(seq!['~', '/'] + rel, home) == path::joined(home, rel),
        p.len() == 0 || p[0] != '~' ==> mapping::tilde_expanded(p, home) == p,
        p.len() > 1 && p[1] != '/' ==> mapping::tilde_expanded(p, home) == p,
{
    reveal_strlit("~");
    reveal_strlit("~/");
    assert("~"@ =~= seq!['~']);
    assert("~/"@ =~= seq!['~', '/']);
    let whole = seq!['~', '/'] + rel;
    assert(whole.take(2) =~= "~/"@);
    assert(whole.skip(2) =~= rel);
    assert(whole.len() >= 2);
    if text::starts_with(p, "~/"@) {
        assert(p.take(2)[0] == '~' && p.take(2)[1] == '/');
        assert(p[0] == '~' && p[1] == '/');
    }
}

/// Collapsing shortens exactly what lies under the home base: the home base to a
/// tilde, what is in it to a tilde, a slash and its relative path. Anything else
/// stays as it is.
pub proof fn law_collapsed_iff_under_the_home_base(p: Seq<char>, home: Seq<char>)
    ensures
        !path::within(p, home) ==> mapping::tilde_collapsed(p, home) == p,
        path::components(p) == path::components(home) ==> mapping::tilde_collapsed(p, home)
            == seq!['~'],
        path::within(p, home) && path::components(p) != path::components(home) ==> {
            let c = mapping::tilde_collapsed(p, home);
            &&& c.len() >= 2
            &&& c[0] == '~'
            &&& c[1] == '/'
            &&& path::components(path::joined(home, c.skip(2))) == path::components(p)
        },
{
    reveal_strlit("~");
    reveal_strlit("~/");
    assert("~"@ =~= seq!['~']);
    if path::components(p) == path::components(home) {
        assert(path::components(p).take(path::components(home).len() as int) =~= path::components(
            home,
        ));
    } else if path::within(p, home) {
        let rel = path::stripped(p, home)->0;
        let c = mapping::tilde_collapsed(p, home);
        assert(c.skip(2) =~= rel);
        path::law_strip_then_join(p, home);
    }
}

// ---------------------------------------------------------------------------
// Modes
// ---------------------------------------------------------------------------

/// The octal text of a number, after any zeros and with or without the mark of an
/// octal number, is read as that number; a mode that is not set is none.
pub proof fn law_mode_is_read_in_octal(m: MappingView, n: nat, zeros: nat)
    requires
        n <= u32::MAX,
    ensures
        (MappingView { mode: Some(padded(n, zeros)), ..m }).mode_number() == Some(n),
        (MappingView { mode: Some(seq!['0', 'o'] + padded(n, zeros)), ..m }).mode_number() == Some(
            n,
        ),
        m.mode is None ==> m.mode_number() is None,
{
    let s = padded(n, zeros);
    lemma_padded(n, zeros);
    assert(s[0] != '+');
    assert(s.len() >= 2 ==> s[1] != 'o');
    assert(text::trim_octal_mark(s) == s);
    let marked = seq!['0', 'o'] + s;
    assert(marked.skip(2) =~= s);
    assert(text::trim_octal_mark(marked) == text::trim_octal_mark(s));
}

/// A number in octal, after some zeros.
pub open spec fn padded(n: nat, zeros: nat) -> Seq<char> {
    Seq::new(zeros, |i: int| '0') + number::octal(n)
}

proof fn lemma_padded(n: nat, zeros: nat)
    ensures
        padded(n, zeros).len() > 0,
        forall|i: int| 0 <= i < padded(n, zeros).len() ==> '0' <= #[trigger] padded(n, zeros)[i] <= '7',
        number::value(padded(n, zeros), 8) == Some(n),
    decreases n,
{
    let s = padded(n, zeros);
    let z = Seq::new(zeros, |i: int| '0');
    if n < 8 {
        lemma_zeros(zeros);
        assert(s.drop_last() =~= z);
        assert(s.last() == number::digit_char(n));
    } else {
        lemma_padded(n / 8, zeros);
        assert(s.drop_last() =~= padded(n / 8, zeros));
        assert(s.last() == number::digit_char(n % 8));
        assert forall|i: int| 0 <= i < s.len() implies '0' <= #[trigger] s[i] <= '7' by {
            if i < s.len() - 1 {
                assert(s[i] == s.drop_last()[i]);
                assert(s[i] == padded(n / 8, zeros)[i]);
            }
        }
    }
}

proof fn lemma_zeros(zeros: nat)
    ensures
        number::value(Seq::new(zeros, |i: int| '0'), 8) == Some(0nat),
    decreases zeros,
{
    let z = Seq::new(zeros, |i: int| '0');
    if zeros > 0 {
        lemma_zeros((zeros - 1) as nat);
        assert(z.drop_last() =~= Seq::new((zeros - 1) as nat, |i: int| '0'));
    }
}

// ---------------------------------------------------------------------------
// Versions
// ---------------------------------------------------------------------------

/// A version of three numbers, and what follows them.
pub open spec fn dotted(x: nat, y: nat, z: nat, tail: Seq<char>) -> Seq<char> {
    number::decimal(x) + seq!['.'] + number::decimal(y) + seq!['.'] + number::decimal(z) + tail
}

/// A version is newer than another exactly when its first number that differs is
/// greater, as a number; what follows the third number does not count.
pub proof fn law_first_difference_makes_newer(
    a: (nat, nat, nat),
    b: (nat, nat, nat),
    tail: Seq<char>,
    end: Seq<char>,
)
    requires
        a.0 <= u64::MAX && a.1 <= u64::MAX && a.2 <= u64::MAX,
        b.0 <= u64::MAX && b.1 <= u64::MAX && b.2 <= u64::MAX,
        tail.len() > 0 ==> tail[0] == '.' || tail[0] == '-' || tail[0] == '+',
        end.len() > 0 ==> end[0] == '.' || end[0] == '-' || end[0] == '+',
    ensures
        mapping::newer(dotted(a.0, a.1, a.2, tail), dotted(b.0, b.1, b.2, end)) <==> (if a.0 != b.0 {
            a.0 > b.0
        } else if a.1 != b.1 {
            a.1 > b.1
        } else {
            a.2 > b.2
        }),
{
    lemma_dotted(a.0, a.1, a.2, tail);
    lemma_dotted(b.0, b.1, b.2, end);
}

proof fn lemma_dotted(x: nat, y: nat, z: nat, tail: Seq<char>)
    requires
        x <= u64::MAX,
        y <= u64::MAX,
        z <= u64::MAX,
        tail.len() > 0 ==> tail[0] == '.' || tail[0] == '-' || tail[0] == '+',
    ensures
        mapping::version_number(dotted(x, y, z, tail), 0) == x,
        mapping::version_number(dotted(x, y, z, tail), 1) == y,
        mapping::version_number(dotted(x, y, z, tail), 2) == z,
{
    let seps = seq!['.', '-', '+'];
    assert(seps[0] == '.' && seps[1] == '-' && seps[2] == '+');
    assert(seps.contains('.') && seps.contains('-') && seps.contains('+'));
    let (dx, dy, dz) = (number::decimal(x), number::decimal(y), number::decimal(z));
    number::law_decimal_reads_back(x, u64::MAX as nat);
    number::law_decimal_reads_back(y, u64::MAX as nat);
    number::law_decimal_reads_back(z, u64::MAX as nat);
    lemma_decimal_whole(x);
    lemma_decimal_whole(y);
    lemma_decimal_whole(z);
    let xy = dx + seq!['.'] + dy;
    let xyz = xy + seq!['.'] + dz;
    lemma_split_concat(dx, '.', dy, seps);
    lemma_split_concat(xy, '.', dz, seps);
    let all = dotted(x, y, z, tail);
    let three = seq![dx, dy, dz];
    assert(text::split(xyz, seps) =~= three);
    if tail.len() == 0 {
        assert(all =~= xyz);
    } else {
        let rest = tail.skip(1);
        assert(all =~= xyz + seq![tail[0]] + rest);
        lemma_split_concat(xyz, tail[0], rest, seps);
    }
    let pieces = text::split(all, seps);
    assert(pieces[0] == dx && pieces[1] == dy && pieces[2] == dz);
}

proof fn lemma_decimal_whole(n: nat)
    ensures
        text::split(number::decimal(n), seq!['.', '-', '+']) == seq![number::decimal(n)],
{
    number::lemma_decimal_digits(n);
    lemma_split_whole(number::decimal(n));
}

proof fn lemma_split_whole(s: Seq<char>)
    requires
        forall|i: int| 0 <= i < s.len() ==> '0' <= #[trigger] s[i] <= '9',
    ensures
        text::split(s, seq!['.', '-', '+']) == seq![s],
    decreases s.len(),
{
    let seps = seq!['.', '-', '+'];
    if s.len() > 0 {
        assert forall|i: int| 0 <= i < s.drop_last().len() implies '0' <= #[trigger] s.drop_last()[i]
            <= '9' by {
            assert(s.drop_last()[i] == s[i]);
        }
        lemma_split_whole(s.drop_last());
        assert('0' <= s[s.len() - 1] <= '9');
        assert(!seps.contains(s.last()));
        assert(s.drop_last().push(s.last()) =~= s);
        assert(text::split(s, seps) =~= seq![s]);
    } else {
        assert(s =~= Seq::<char>::empty());
        assert(text::split(s, seps) =~= seq![s]);
    }
}

/// Splitting a concatenation at a separator splits both sides.
pub proof fn lemma_split_concat(a: Seq<char>, c: char, b: Seq<char>, seps: Seq<char>)
    requires
        seps.contains(c),
    ensures
        text::split(a + seq![c] + b, seps) == text::split(a, seps) + text::split(b, seps),
    decreases b.len(),
{
    let whole = a + seq![c] + b;
    text::lemma_split_nonempty(b, seps);
    if b.len() == 0 {
        assert(whole.drop_last() =~= a);
        assert(whole.last() == c);
        assert(text::split(whole, seps) =~= text::split(a, seps) + text::split(b, seps));
    } else {
        lemma_split_concat(a, c, b.drop_last(), seps);
        text::lemma_split_nonempty(b.drop_last(), seps);
        assert(whole.drop_last() =~= a + seq![c] + b.drop_last());
        assert(whole.last() == b.last());
        assert(text::split(whole, seps) =~= text::split(a, seps) + text::split(b, seps));
    }
}

/// A document warns exactly when it was stamped by a version newer than the running
/// one, number by number, and names that version; one without a stamp never does.
pub proof fn law_only_a_newer_stamp_warns(a: (nat, nat, nat), tail: Seq<char>)
    requires
        a.0 <= u64::MAX && a.1 <= u64::MAX && a.2 <= u64::MAX,
        tail.len() > 0 ==> tail[0] == '.' || tail[0] == '-' || tail[0] == '+',
    ensures
        ({
            let stamp = dotted(a.0, a.1, a.2, tail);
            &&& mapping::newer_stamp(Some(stamp)) is Some <==> (if a.0 != 2 {
                a.0 > 2
            } else if a.1 != 1 {
                a.1 > 1
            } else {
                a.2 > 0
            })
            &&& mapping::newer_stamp(Some(stamp)) matches Some(v) ==> v == stamp
        }),
        mapping::newer_stamp(None) is None,
{
    reveal_strlit("2.1.0");
    let none = Seq::<char>::empty();
    assert(number::decimal(2) =~= seq!['2']);
    assert(number::decimal(1) =~= seq!['1']);
    assert(number::decimal(0) =~= seq!['0']);
    assert(dotted(2, 1, 0, none) =~= mapping::VERSION@);
    law_first_difference_makes_newer(a, (2, 1, 0), tail, none);
}

} // verus!
