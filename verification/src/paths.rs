//! Windows paths as the standard library reads them: a path is a sequence
//! of components (a prefix such as `C:` or `\\server\share`, the root, `.`
//! at the start, `..`, and names), both `/` and `\` separate them, repeated
//! separators, a trailing separator and inner `.` are ignored. Paths are
//! ordered and compared component by component. Verbatim (`\\?\`) and
//! device (`\\.\`) prefixes are read as UNC server and share names.
use vstd::prelude::*;

use crate::environment::{lemma_lex_irreflexive, lemma_lex_total, lemma_lex_transitive, lex_less, lex_lt};
use vstd::string::*;

use crate::text::{ascii_upper, chars_of, same_chars};

verus! {

/// One component: its kind, ranked as the standard library orders kinds
/// (`UNC_PART` and `DISK` are prefixes, a UNC prefix sorting before a
/// drive), and its text.
pub type Comp = (u8, Seq<char>);

/// A part of a UNC prefix (`\\server\share`): the server, then the share.
pub const UNC_PART: u8 = 0;
/// A drive prefix such as `C:`; its text is the drive letter in upper case.
pub const DISK: u8 = 1;
/// The root separator.
pub const ROOT: u8 = 2;
/// A `.` at the start of a relative path.
pub const CUR_DIR: u8 = 3;
/// `..`.
pub const PARENT_DIR: u8 = 4;
/// A name.
pub const NORMAL: u8 = 5;

pub open spec fn is_sep(c: char) -> bool {
    c == '/' || c == '\\'
}

pub open spec fn is_ascii_letter(c: char) -> bool {
    ('a' <= c && c <= 'z') || ('A' <= c && c <= 'Z')
}

/// Splitting at separators, from position `i`, with the piece `cur` begun
/// and the pieces `acc` done.
pub open spec fn split_go(s: Seq<char>, i: int, cur: Seq<char>, acc: Seq<Seq<char>>) -> Seq<Seq<char>>
    decreases s.len() - i,
{
    if i >= s.len() {
        acc.push(cur)
    } else if is_sep(s[i]) {
        split_go(s, i + 1, Seq::empty(), acc.push(cur))
    } else {
        split_go(s, i + 1, cur.push(s[i]), acc)
    }
}

/// The pieces between separators, empty ones included.
pub open spec fn pieces(s: Seq<char>) -> Seq<Seq<char>> {
    split_go(s, 0, Seq::empty(), Seq::empty())
}

/// The components the pieces name: empty pieces and `.` are skipped.
pub open spec fn piece_comps(ps: Seq<Seq<char>>) -> Seq<Comp>
    decreases ps.len(),
{
    if ps.len() == 0 {
        Seq::empty()
    } else {
        let prev = piece_comps(ps.drop_last());
        let p = ps.last();
        if p.len() == 0 || p == seq!['.'] {
            prev
        } else if p == seq!['.', '.'] {
            prev.push((PARENT_DIR, p))
        } else {
            prev.push((NORMAL, p))
        }
    }
}

/// A relative path that begins with `.` keeps it as its first component.
pub open spec fn lead_dot(ps: Seq<Seq<char>>) -> Seq<Comp> {
    if ps.len() > 0 && ps[0] == seq!['.'] {
        seq![(CUR_DIR, seq!['.'])]
    } else {
        Seq::empty()
    }
}

pub open spec fn is_drive(s: Seq<char>) -> bool {
    s.len() >= 2 && is_ascii_letter(s[0]) && s[1] == ':'
}

pub open spec fn is_unc(s: Seq<char>) -> bool {
    s.len() >= 2 && is_sep(s[0]) && is_sep(s[1])
}

/// The root, then a leading `.` of a relative path, then the names.
pub open spec fn rooted_comps(root: bool, ps: Seq<Seq<char>>) -> Seq<Comp> {
    if root {
        seq![(ROOT, Seq::<char>::empty())] + piece_comps(ps)
    } else {
        lead_dot(ps) + piece_comps(ps)
    }
}

/// The components of a path.
pub open spec fn path_components(s: Seq<char>) -> Seq<Comp> {
    if is_drive(s) {
        let rest = s.skip(2);
        seq![(DISK, seq![ascii_upper(s[0])])] + rooted_comps(rest.len() > 0 && is_sep(rest[0]), pieces(rest))
    } else if is_unc(s) {
        let ps = pieces(s.skip(2));
        let share = if ps.len() > 1 {
            ps[1]
        } else {
            Seq::empty()
        };
        let names = if ps.len() > 2 {
            ps.skip(2)
        } else {
            Seq::empty()
        };
        seq![(UNC_PART, ps[0]), (UNC_PART, share), (ROOT, Seq::<char>::empty())] + piece_comps(names)
    } else {
        rooted_comps(s.len() > 0 && is_sep(s[0]), pieces(s))
    }
}

pub open spec fn comp_views(v: Seq<(u8, Vec<char>)>) -> Seq<Comp> {
    v.map_values(|c: (u8, Vec<char>)| (c.0, c.1@))
}

pub open spec fn piece_views(v: Seq<Vec<char>>) -> Seq<Seq<char>> {
    v.map_values(|p: Vec<char>| p@)
}

// ── Reading the components ──────────────────────────────────────────────────

proof fn lemma_split_step(s: Seq<char>, i: int, cur: Seq<char>, acc: Seq<Seq<char>>)
    requires
        0 <= i < s.len(),
    ensures
        split_go(s, i, cur, acc) == if is_sep(s[i]) {
            split_go(s, i + 1, Seq::empty(), acc.push(cur))
        } else {
            split_go(s, i + 1, cur.push(s[i]), acc)
        },
{
}

/// The pieces between separators.
fn split_pieces(s: &[char]) -> (res: Vec<Vec<char>>)
    ensures
        piece_views(res@) == pieces(s@),
        res@.len() >= 1,
{
    let mut acc: Vec<Vec<char>> = Vec::new();
    let mut cur: Vec<char> = Vec::new();
    let mut i: usize = 0;
    assert(piece_views(acc@) =~= Seq::<Seq<char>>::empty());
    while i < s.len()
        invariant
            i <= s@.len(),
            split_go(s@, i as int, cur@, piece_views(acc@)) == pieces(s@),
        decreases s.len() - i,
    {
        proof {
            lemma_split_step(s@, i as int, cur@, piece_views(acc@));
        }
        if s[i] == '/' || s[i] == '\\' {
            let done = cur;
            let ghost before = piece_views(acc@);
            acc.push(done);
            assert(piece_views(acc@) =~= before.push(done@));
            cur = Vec::new();
            assert(cur@ =~= Seq::<char>::empty());
        } else {
            cur.push(s[i]);
        }
        i += 1;
    }
    let ghost before = piece_views(acc@);
    acc.push(cur);
    assert(piece_views(acc@) =~= before.push(cur@));
    acc
}

fn is_dot(p: &Vec<char>) -> (res: bool)
    ensures
        res == (p@ == seq!['.']),
{
    if p.len() == 1 && p[0] == '.' {
        assert(p@ =~= seq!['.']);
        true
    } else {
        false
    }
}

fn is_dot_dot(p: &Vec<char>) -> (res: bool)
    ensures
        res == (p@ == seq!['.', '.']),
{
    if p.len() == 2 && p[0] == '.' && p[1] == '.' {
        assert(p@ =~= seq!['.', '.']);
        true
    } else {
        false
    }
}

fn push_comp(v: &mut Vec<(u8, Vec<char>)>, kind: u8, text: Vec<char>)
    ensures
        comp_views(final(v)@) == comp_views(old(v)@).push((kind, text@)),
{
    v.push((kind, text));
    assert(comp_views(final(v)@) =~= comp_views(old(v)@).push((kind, text@)));
}

/// Appends the components that `ps[from..]` name.
fn push_piece_comps(out: &mut Vec<(u8, Vec<char>)>, ps: &Vec<Vec<char>>, from: usize)
    requires
        from <= ps@.len(),
    ensures
        comp_views(final(out)@) == comp_views(old(out)@) + piece_comps(piece_views(ps@).skip(from as int)),
{
    let ghost start = comp_views(out@);
    let ghost pv = piece_views(ps@).skip(from as int);
    let mut i: usize = from;
    assert(pv.take(0) =~= Seq::<Seq<char>>::empty());
    assert(start + Seq::<Comp>::empty() =~= start);
    while i < ps.len()
        invariant
            from <= i <= ps@.len(),
            pv == piece_views(ps@).skip(from as int),
            comp_views(out@) == start + piece_comps(pv.take(i - from)),
        decreases ps.len() - i,
    {
        let ghost t = pv.take(i - from + 1);
        assert(t.drop_last() =~= pv.take(i - from));
        assert(t.last() == ps@[i as int]@);
        let p = &ps[i];
        if p.len() == 0 || is_dot(p) {
        } else if is_dot_dot(p) {
            push_comp(out, PARENT_DIR, p.clone());
        } else {
            push_comp(out, NORMAL, p.clone());
        }
        i += 1;
        assert(comp_views(out@) =~= start + piece_comps(pv.take(i - from)));
    }
    assert(pv.take(ps.len() - from) =~= pv);
}

/// Appends the root or a leading `.`, then the names (see `rooted_comps`).
fn push_rooted(out: &mut Vec<(u8, Vec<char>)>, root: bool, ps: &Vec<Vec<char>>)
    ensures
        comp_views(final(out)@) == comp_views(old(out)@) + rooted_comps(root, piece_views(ps@)),
{
    let ghost start = comp_views(out@);
    let ghost pv = piece_views(ps@);
    if root {
        push_comp(out, ROOT, Vec::new());
    } else if ps.len() > 0 && is_dot(&ps[0]) {
        let dot = vec!['.'];
        assert(dot@ =~= seq!['.']);
        push_comp(out, CUR_DIR, dot);
    }
    let ghost mid = comp_views(out@);
    push_piece_comps(out, ps, 0);
    assert(pv.skip(0) =~= pv);
    proof {
        if root {
            assert(mid =~= start + seq![(ROOT, Seq::<char>::empty())]);
        } else {
            assert(mid =~= start + lead_dot(pv));
        }
    }
    assert(comp_views(out@) =~= start + rooted_comps(root, pv));
}

/// The components of a path (see `path_components`).
pub fn components_of(path: &str) -> (res: Vec<(u8, Vec<char>)>)
    ensures
        comp_views(res@) == path_components(path@),
{
    let s = chars_of(path);
    let mut out: Vec<(u8, Vec<char>)> = Vec::new();
    assert(comp_views(out@) =~= Seq::<Comp>::empty());
    if s.len() >= 2 && (('a' <= s[0] && s[0] <= 'z') || ('A' <= s[0] && s[0] <= 'Z')) && s[1] == ':' {
        let letter = if 'a' <= s[0] && s[0] <= 'z' {
            ((s[0] as u32) - 32) as u8 as char
        } else {
            s[0]
        };
        proof {
            if 'a' <= s@[0] && s@[0] <= 'z' {
                assert((((s@[0] as u32) - 32) as u8 as char) == ascii_upper(s@[0]));
            }
        }
        let drive = vec![letter];
        assert(drive@ =~= seq![ascii_upper(s@[0])]);
        push_comp(&mut out, DISK, drive);
        let rest = crate::text::copy_range(&s, 2, s.len());
        assert(rest@ =~= s@.skip(2));
        let root = rest.len() > 0 && (rest[0] == '/' || rest[0] == '\\');
        let ps = split_pieces(&rest);
        push_rooted(&mut out, root, &ps);
        assert(comp_views(out@) =~= path_components(path@));
    } else if s.len() >= 2 && (s[0] == '/' || s[0] == '\\') && (s[1] == '/' || s[1] == '\\') {
        let rest = crate::text::copy_range(&s, 2, s.len());
        assert(rest@ =~= s@.skip(2));
        let ps = split_pieces(&rest);
        let ghost pv = piece_views(ps@);
        push_comp(&mut out, UNC_PART, ps[0].clone());
        let share = if ps.len() > 1 {
            ps[1].clone()
        } else {
            Vec::new()
        };
        push_comp(&mut out, UNC_PART, share);
        push_comp(&mut out, ROOT, Vec::new());
        let ghost head = comp_views(out@);
        if ps.len() > 2 {
            push_piece_comps(&mut out, &ps, 2);
        } else {
            assert(head + piece_comps(Seq::<Seq<char>>::empty()) =~= head);
        }
        proof {
            let share_v = if pv.len() > 1 {
                pv[1]
            } else {
                Seq::<char>::empty()
            };
            assert(head =~= seq![(UNC_PART, pv[0]), (UNC_PART, share_v), (ROOT, Seq::<char>::empty())]);
        }
        assert(comp_views(out@) =~= path_components(path@));
    } else {
        let root = s.len() > 0 && (s[0] == '/' || s[0] == '\\');
        let ps = split_pieces(&s);
        push_rooted(&mut out, root, &ps);
        assert(comp_views(out@) =~= path_components(path@));
    }
    out
}

// ── Order and equality ──────────────────────────────────────────────────────

/// Components are ordered by kind, then by text code point by code point.
pub open spec fn comp_lt(a: Comp, b: Comp) -> bool {
    a.0 < b.0 || (a.0 == b.0 && lex_lt(a.1, b.1))
}

/// Component sequences are ordered lexicographically by `comp_lt`; a
/// sequence sorts before the longer ones it begins.
pub open spec fn comps_lt(a: Seq<Comp>, b: Seq<Comp>) -> bool
    decreases a.len(),
{
    if b.len() == 0 {
        false
    } else if a.len() == 0 {
        true
    } else if a[0] != b[0] {
        comp_lt(a[0], b[0])
    } else {
        comps_lt(a.drop_first(), b.drop_first())
    }
}

/// `Path`'s order: by components.
pub open spec fn path_lt(a: Seq<char>, b: Seq<char>) -> bool {
    comps_lt(path_components(a), path_components(b))
}

/// `Path`'s equality: the same components.
pub open spec fn same_path(a: Seq<char>, b: Seq<char>) -> bool {
    path_components(a) == path_components(b)
}

/// `Path::starts_with`: the base's components begin the path's.
pub open spec fn path_starts_with(path: Seq<char>, base: Seq<char>) -> bool {
    comps_start_with(path_components(path), path_components(base))
}

proof fn lemma_comp_lt_irreflexive(a: Comp)
    ensures
        !comp_lt(a, a),
{
    lemma_lex_irreflexive(a.1);
}

proof fn lemma_comp_lt_transitive(a: Comp, b: Comp, c: Comp)
    requires
        comp_lt(a, b),
        comp_lt(b, c),
    ensures
        comp_lt(a, c),
{
    if a.0 == b.0 && b.0 == c.0 {
        lemma_lex_transitive(a.1, b.1, c.1);
    }
}

proof fn lemma_comp_lt_total(a: Comp, b: Comp)
    ensures
        a == b || comp_lt(a, b) || comp_lt(b, a),
{
    lemma_lex_total(a.1, b.1);
}

pub proof fn lemma_comps_lt_irreflexive(a: Seq<Comp>)
    ensures
        !comps_lt(a, a),
    decreases a.len(),
{
    if a.len() > 0 {
        lemma_comps_lt_irreflexive(a.drop_first());
    }
}

pub proof fn lemma_comps_lt_transitive(a: Seq<Comp>, b: Seq<Comp>, c: Seq<Comp>)
    requires
        comps_lt(a, b),
        comps_lt(b, c),
    ensures
        comps_lt(a, c),
    decreases a.len(),
{
    if a.len() > 0 && b.len() > 0 && c.len() > 0 {
        if a[0] != b[0] {
            if b[0] != c[0] {
                lemma_comp_lt_transitive(a[0], b[0], c[0]);
                if a[0] == c[0] {
                    lemma_comp_lt_transitive(b[0], c[0], b[0]);
                    lemma_comp_lt_irreflexive(b[0]);
                }
            }
        } else if b[0] == c[0] {
            lemma_comps_lt_transitive(a.drop_first(), b.drop_first(), c.drop_first());
        }
    }
}

pub proof fn lemma_comps_lt_total(a: Seq<Comp>, b: Seq<Comp>)
    ensures
        a == b || comps_lt(a, b) || comps_lt(b, a),
    decreases a.len(),
{
    if a.len() == 0 && b.len() == 0 {
        assert(a =~= b);
    } else if a.len() > 0 && b.len() > 0 {
        if a[0] == b[0] {
            lemma_comps_lt_total(a.drop_first(), b.drop_first());
            if a.drop_first() == b.drop_first() {
                assert(a =~= seq![a[0]] + a.drop_first());
                assert(b =~= seq![b[0]] + b.drop_first());
            }
        } else {
            lemma_comp_lt_total(a[0], b[0]);
        }
    }
}

fn comp_less(a: &(u8, Vec<char>), b: &(u8, Vec<char>)) -> (res: bool)
    ensures
        res == comp_lt((a.0, a.1@), (b.0, b.1@)),
{
    a.0 < b.0 || (a.0 == b.0 && lex_less(&a.1, &b.1))
}

fn comp_same(a: &(u8, Vec<char>), b: &(u8, Vec<char>)) -> (res: bool)
    ensures
        res == ((a.0, a.1@) == (b.0, b.1@)),
{
    a.0 == b.0 && same_chars(&a.1, &b.1)
}

/// Whether component sequence `a` sorts before `b`.
pub fn comps_less(a: &Vec<(u8, Vec<char>)>, b: &Vec<(u8, Vec<char>)>) -> (res: bool)
    ensures
        res == comps_lt(comp_views(a@), comp_views(b@)),
{
    let ghost av = comp_views(a@);
    let ghost bv = comp_views(b@);
    let mut i: usize = 0;
    assert(av.skip(0) =~= av);
    assert(bv.skip(0) =~= bv);
    while i < a.len() && i < b.len() && comp_same(&a[i], &b[i])
        invariant
            i <= a@.len(),
            i <= b@.len(),
            av == comp_views(a@),
            bv == comp_views(b@),
            comps_lt(av.skip(i as int), bv.skip(i as int)) == comps_lt(av, bv),
        decreases a.len() - i,
    {
        assert(av.skip(i as int)[0] == av[i as int]);
        assert(bv.skip(i as int)[0] == bv[i as int]);
        assert(av.skip(i as int).drop_first() =~= av.skip(i + 1));
        assert(bv.skip(i as int).drop_first() =~= bv.skip(i + 1));
        i += 1;
    }
    if i == b.len() {
        false
    } else if i == a.len() {
        true
    } else {
        assert(av.skip(i as int)[0] == av[i as int]);
        assert(bv.skip(i as int)[0] == bv[i as int]);
        comp_less(&a[i], &b[i])
    }
}

/// Whether two component sequences are equal.
pub fn comps_equal(a: &Vec<(u8, Vec<char>)>, b: &Vec<(u8, Vec<char>)>) -> (res: bool)
    ensures
        res == (comp_views(a@) == comp_views(b@)),
{
    if a.len() != b.len() {
        assert(comp_views(a@).len() != comp_views(b@).len());
        return false;
    }
    let mut i: usize = 0;
    while i < a.len()
        invariant
            i <= a@.len(),
            a@.len() == b@.len(),
            forall|j: int| 0 <= j < i ==> comp_views(a@)[j] == comp_views(b@)[j],
        decreases a.len() - i,
    {
        if !comp_same(&a[i], &b[i]) {
            assert(comp_views(a@)[i as int] != comp_views(b@)[i as int]);
            return false;
        }
        i += 1;
    }
    assert(comp_views(a@) =~= comp_views(b@));
    true
}

/// Whether `path` sorts before `other` as paths.
pub fn path_less(path: &str, other: &str) -> (res: bool)
    ensures
        res == path_lt(path@, other@),
{
    comps_less(&components_of(path), &components_of(other))
}

/// Whether two texts name the same path.
pub fn paths_equal(path: &str, other: &str) -> (res: bool)
    ensures
        res == same_path(path@, other@),
{
    comps_equal(&components_of(path), &components_of(other))
}

/// `b` begins `a`.
pub open spec fn comps_start_with(a: Seq<Comp>, b: Seq<Comp>) -> bool {
    b.len() <= a.len() && a.take(b.len() as int) == b
}

/// Whether component sequence `b` begins `a`.
pub fn comps_begin_with(a: &Vec<(u8, Vec<char>)>, b: &Vec<(u8, Vec<char>)>) -> (res: bool)
    ensures
        res == comps_start_with(comp_views(a@), comp_views(b@)),
{
    let ghost av = comp_views(a@);
    let ghost bv = comp_views(b@);
    if b.len() > a.len() {
        return false;
    }
    let mut i: usize = 0;
    while i < b.len()
        invariant
            i <= b@.len() <= a@.len(),
            av == comp_views(a@),
            bv == comp_views(b@),
            forall|j: int| 0 <= j < i ==> av[j] == bv[j],
        decreases b.len() - i,
    {
        if !comp_same(&a[i], &b[i]) {
            assert(av[i as int] == (a@[i as int].0, a@[i as int].1@));
            assert(bv[i as int] == (b@[i as int].0, b@[i as int].1@));
            assert(av.take(bv.len() as int)[i as int] != bv[i as int]);
            return false;
        }
        i += 1;
    }
    assert(av.take(bv.len() as int) =~= bv);
    true
}

/// Whether `path` lies at or below `base` (`Path::starts_with`).
pub fn starts_with_path(path: &str, base: &str) -> (res: bool)
    ensures
        res == path_starts_with(path@, base@),
{
    comps_begin_with(&components_of(path), &components_of(base))
}

/// Whether `path` lies at or below one of the `bases`.
pub fn within_any(path: &str, bases: &[String]) -> (res: bool)
    ensures
        res == exists|k: int| 0 <= k < bases@.len() && path_starts_with(path@, #[trigger] bases@[k]@),
{
    let mut k: usize = 0;
    while k < bases.len()
        invariant
            k <= bases@.len(),
            forall|j: int| 0 <= j < k ==> !path_starts_with(path@, #[trigger] bases@[j]@),
        decreases bases.len() - k,
    {
        if starts_with_path(path, bases[k].as_str()) {
            return true;
        }
        k += 1;
    }
    false
}

// ── Laws of paths ───────────────────────────────────────────────────────────

/// `s` with every `/` written as `\`.
pub open spec fn backslashed(s: Seq<char>) -> Seq<char> {
    s.map_values(|c: char| if c == '/' { '\\' } else { c })
}

proof fn lemma_split_backslashed(s: Seq<char>, i: int, cur: Seq<char>, acc: Seq<Seq<char>>)
    requires
        0 <= i <= s.len(),
    ensures
        split_go(backslashed(s), i, cur, acc) == split_go(s, i, cur, acc),
    decreases s.len() - i,
{
    if i < s.len() {
        let b = backslashed(s);
        assert(b[i] == if s[i] == '/' { '\\' } else { s[i] });
        if is_sep(s[i]) {
            lemma_split_backslashed(s, i + 1, Seq::empty(), acc.push(cur));
        } else {
            lemma_split_backslashed(s, i + 1, cur.push(s[i]), acc);
        }
    }
}

/// `/` and `\` separate alike: writing every `/` as `\` names the same path.
pub proof fn law_separators_alike(s: Seq<char>)
    ensures
        path_components(backslashed(s)) == path_components(s),
        same_path(backslashed(s), s),
{
    let b = backslashed(s);
    lemma_split_backslashed(s, 0, Seq::empty(), Seq::empty());
    if s.len() >= 2 {
        assert(b.skip(2) =~= backslashed(s.skip(2)));
        lemma_split_backslashed(s.skip(2), 0, Seq::empty(), Seq::empty());
        assert(b[0] == if s[0] == '/' { '\\' } else { s[0] });
        assert(b[1] == if s[1] == '/' { '\\' } else { s[1] });
        if s.skip(2).len() > 0 {
            assert(b.skip(2)[0] == b[2]);
            assert(b[2] == if s[2] == '/' { '\\' } else { s[2] });
        }
    }
    if s.len() > 0 {
        assert(b[0] == if s[0] == '/' { '\\' } else { s[0] });
    }
}

/// A drive letter names the same drive in either case.
pub proof fn law_drive_letter_case(s: Seq<char>)
    requires
        is_drive(s),
    ensures
        same_path(s.update(0, ascii_upper(s[0])), s),
        same_path(s.update(0, crate::text::ascii_lower(s[0])), s),
{
    let u = s.update(0, ascii_upper(s[0]));
    let l = s.update(0, crate::text::ascii_lower(s[0]));
    assert(u.skip(2) =~= s.skip(2));
    assert(l.skip(2) =~= s.skip(2));
    assert(ascii_upper(u[0]) == ascii_upper(s[0]));
    assert(ascii_upper(l[0]) == ascii_upper(s[0]));
}

proof fn lemma_split_push(s: Seq<char>, c: char, i: int, cur: Seq<char>, acc: Seq<Seq<char>>)
    requires
        0 <= i <= s.len(),
        is_sep(c),
    ensures
        split_go(s.push(c), i, cur, acc) == split_go(s, i, cur, acc).push(Seq::empty()),
    decreases s.len() - i,
{
    let t = s.push(c);
    assert(t[i] == if i < s.len() { s[i] } else { c });
    if i < s.len() {
        if is_sep(s[i]) {
            lemma_split_push(s, c, i + 1, Seq::empty(), acc.push(cur));
        } else {
            lemma_split_push(s, c, i + 1, cur.push(s[i]), acc);
        }
    } else {
        assert(split_go(t, i + 1, Seq::empty(), acc.push(cur)) == acc.push(cur).push(Seq::empty()));
    }
}

proof fn lemma_pieces_len(s: Seq<char>, i: int, cur: Seq<char>, acc: Seq<Seq<char>>)
    requires
        0 <= i <= s.len(),
    ensures
        split_go(s, i, cur, acc).len() >= acc.len() + 1,
    decreases s.len() - i,
{
    if i < s.len() {
        if is_sep(s[i]) {
            lemma_pieces_len(s, i + 1, Seq::empty(), acc.push(cur));
        } else {
            lemma_pieces_len(s, i + 1, cur.push(s[i]), acc);
        }
    }
}

/// A trailing separator does not change a path (of three or more
/// characters, so that it cannot turn a drive or a name into a root).
pub proof fn law_trailing_separator(s: Seq<char>, c: char)
    requires
        s.len() >= 3,
        is_sep(c),
    ensures
        same_path(s.push(c), s),
{
    let t = s.push(c);
    assert(t.skip(2) =~= s.skip(2).push(c));
    lemma_split_push(s, c, 0, Seq::empty(), Seq::empty());
    lemma_split_push(s.skip(2), c, 0, Seq::empty(), Seq::empty());
    lemma_pieces_len(s, 0, Seq::empty(), Seq::empty());
    lemma_pieces_len(s.skip(2), 0, Seq::empty(), Seq::empty());
    assert(t[0] == s[0] && t[1] == s[1] && t[2] == s[2]);
    assert(t.skip(2)[0] == s.skip(2)[0]);
    let ps = pieces(s);
    let qs = pieces(s.skip(2));
    assert(piece_comps(ps.push(Seq::empty())) == piece_comps(ps)) by {
        assert(ps.push(Seq::empty()).drop_last() =~= ps);
    }
    assert(piece_comps(qs.push(Seq::empty())) == piece_comps(qs)) by {
        assert(qs.push(Seq::empty()).drop_last() =~= qs);
    }
    assert(lead_dot(ps.push(Seq::empty())) == lead_dot(ps));
    assert(lead_dot(qs.push(Seq::empty())) == lead_dot(qs));
    if qs.len() > 2 {
        assert(qs.push(Seq::empty()).skip(2) =~= qs.skip(2).push(Seq::empty()));
        assert(piece_comps(qs.skip(2).push(Seq::empty())) == piece_comps(qs.skip(2))) by {
            assert(qs.skip(2).push(Seq::empty()).drop_last() =~= qs.skip(2));
        }
    } else if qs.len() == 2 {
        assert(qs.push(Seq::empty()).skip(2) =~= seq![Seq::<char>::empty()]);
        let one = seq![Seq::<char>::empty()];
        assert(one.drop_last() =~= Seq::<Seq<char>>::empty());
        assert(one.last() == Seq::<char>::empty());
        assert(piece_comps(Seq::<Seq<char>>::empty()) == Seq::<Comp>::empty());
        assert(piece_comps(one) == piece_comps(one.drop_last()));
    }
}

/// `Path`'s order is a strict total order on paths: no path sorts before
/// itself, it is transitive, and two paths are the same or one sorts first.
pub proof fn law_path_order(a: Seq<char>, b: Seq<char>, c: Seq<char>)
    ensures
        !path_lt(a, a),
        path_lt(a, b) && path_lt(b, c) ==> path_lt(a, c),
        same_path(a, b) || path_lt(a, b) || path_lt(b, a),
        path_lt(a, b) ==> !path_lt(b, a),
{
    lemma_comps_lt_irreflexive(path_components(a));
    lemma_comps_lt_total(path_components(a), path_components(b));
    if path_lt(a, b) && path_lt(b, c) {
        lemma_comps_lt_transitive(path_components(a), path_components(b), path_components(c));
    }
    if path_lt(a, b) && path_lt(b, a) {
        lemma_comps_lt_transitive(path_components(a), path_components(b), path_components(a));
    }
}

proof fn lemma_prefix_sorts_first(a: Seq<Comp>, b: Seq<Comp>)
    requires
        comps_start_with(b, a),
        a != b,
    ensures
        comps_lt(a, b),
    decreases a.len(),
{
    if a.len() > 0 {
        assert(b.take(a.len() as int)[0] == a[0]);
        assert(b[0] == a[0]);
        assert(b.drop_first().take(a.drop_first().len() as int) =~= a.drop_first()) by {
            assert forall|j: int| 0 <= j < a.drop_first().len() implies b.drop_first()[j] == a.drop_first()[j] by {
                assert(b.take(a.len() as int)[j + 1] == a[j + 1]);
            }
        }
        if a.drop_first() == b.drop_first() {
            assert(a =~= seq![a[0]] + a.drop_first());
            assert(b =~= seq![b[0]] + b.drop_first());
        }
        lemma_prefix_sorts_first(a.drop_first(), b.drop_first());
    } else {
        assert(b.len() > 0) by {
            if b.len() == 0 {
                assert(a =~= b);
            }
        }
    }
}

/// A folder sorts before everything below it: when `b` lies below `a`
/// (component-wise `starts_with`) and is another path, `a` comes first,
/// whatever characters follow in the text (`/a` before `/a/b` before `/a.b`).
pub proof fn law_folder_before_contents(a: Seq<char>, b: Seq<char>)
    requires
        path_starts_with(b, a),
        !same_path(a, b),
    ensures
        path_lt(a, b),
{
    lemma_prefix_sorts_first(path_components(a), path_components(b));
}

// ── Parents and joining ─────────────────────────────────────────────────────

/// How many leading components are prefix parts or the root.
pub open spec fn anchor_len(c: Seq<Comp>) -> nat
    decreases c.len(),
{
    if c.len() > 0 && c[0].0 <= ROOT {
        1 + anchor_len(c.drop_first())
    } else {
        0
    }
}

proof fn lemma_anchor_len_bound(c: Seq<Comp>)
    ensures
        anchor_len(c) <= c.len(),
    decreases c.len(),
{
    if c.len() > 0 && c[0].0 <= ROOT {
        lemma_anchor_len_bound(c.drop_first());
    }
}

/// The components of the folders above a path, nearest first: `parent()`
/// drops the last component while it is not a prefix part or the root.
pub open spec fn ancestor_comps(c: Seq<Comp>) -> Seq<Seq<Comp>> {
    Seq::new((c.len() - anchor_len(c)) as nat, |i: int| c.take(c.len() - 1 - i))
}

/// The text written for one component, given the kind before it.
pub open spec fn comp_text(prev: Option<u8>, c: Comp) -> Seq<char> {
    if c.0 == UNC_PART {
        if prev is None {
            seq!['\\', '\\'] + c.1
        } else {
            seq!['\\'] + c.1
        }
    } else if c.0 == DISK {
        c.1 + seq![':']
    } else if c.0 == ROOT {
        seq!['\\']
    } else {
        match prev {
            Some(k) => if k >= CUR_DIR {
                seq!['\\'] + c.1
            } else {
                c.1
            },
            None => c.1,
        }
    }
}

/// The text of a component sequence, written with `\` separators.
pub open spec fn join_comps(c: Seq<Comp>) -> Seq<char>
    decreases c.len(),
{
    if c.len() == 0 {
        Seq::empty()
    } else {
        join_comps(c.drop_last()) + comp_text(
            if c.len() > 1 {
                Some(c[c.len() - 2].0)
            } else {
                None
            },
            c.last(),
        )
    }
}

/// Writes the first `n` components as text.
fn join_prefix(c: &Vec<(u8, Vec<char>)>, n: usize) -> (res: Vec<char>)
    requires
        n <= c@.len(),
    ensures
        res@ == join_comps(comp_views(c@).take(n as int)),
{
    let ghost cv = comp_views(c@);
    let mut out: Vec<char> = Vec::new();
    let mut i: usize = 0;
    assert(cv.take(0) =~= Seq::<Comp>::empty());
    while i < n
        invariant
            i <= n <= c@.len(),
            cv == comp_views(c@),
            out@ == join_comps(cv.take(i as int)),
        decreases n - i,
    {
        let ghost t = cv.take(i + 1);
        assert(t.drop_last() =~= cv.take(i as int));
        assert(t.last() == cv[i as int]);
        assert(cv[i as int] == (c@[i as int].0, c@[i as int].1@));
        if i > 0 {
            assert(t[t.len() - 2] == cv[i - 1]);
            assert(cv[i - 1] == (c@[i - 1].0, c@[i - 1].1@));
        }
        let ghost before = out@;
        let kind = c[i].0;
        let text = &c[i].1;
        if kind == UNC_PART {
            out.push('\\');
            if i == 0 {
                out.push('\\');
            }
            crate::text::push_chars(&mut out, text);
        } else if kind == DISK {
            crate::text::push_chars(&mut out, text);
            out.push(':');
        } else if kind == ROOT {
            out.push('\\');
        } else {
            if i > 0 && c[i - 1].0 >= CUR_DIR {
                out.push('\\');
            }
            crate::text::push_chars(&mut out, text);
        }
        proof {
            let prev = if i > 0 {
                Some(cv[i - 1].0)
            } else {
                None::<u8>
            };
            assert(out@ =~= before + comp_text(prev, cv[i as int]));
        }
        i += 1;
    }
    out
}

/// One folder above a path: its text, whether it lies at or below one of
/// the scope folders, and whether it is the profile folder itself.
pub open spec fn ancestor_entry(a: Seq<Comp>, scopes: Seq<Seq<char>>, profile: Option<Seq<char>>) -> (
    Seq<char>,
    bool,
    bool,
) {
    (
        join_comps(a),
        exists|k: int| 0 <= k < scopes.len() && comps_start_with(a, path_components(#[trigger] scopes[k])),
        profile matches Some(p) && path_components(p) == a,
    )
}

pub open spec fn parent_chain_spec(path: Seq<char>, scopes: Seq<Seq<char>>, profile: Option<Seq<char>>) -> Seq<
    (Seq<char>, bool, bool),
> {
    ancestor_comps(path_components(path)).map_values(|a: Seq<Comp>| ancestor_entry(a, scopes, profile))
}

pub open spec fn entry_triples(v: Seq<(String, bool, bool)>) -> Seq<(Seq<char>, bool, bool)> {
    v.map_values(|t: (String, bool, bool)| (t.0@, t.1, t.2))
}

/// The first `n` components.
fn comps_prefix(c: &Vec<(u8, Vec<char>)>, n: usize) -> (res: Vec<(u8, Vec<char>)>)
    requires
        n <= c@.len(),
    ensures
        comp_views(res@) == comp_views(c@).take(n as int),
{
    let mut out: Vec<(u8, Vec<char>)> = Vec::new();
    let mut i: usize = 0;
    while i < n
        invariant
            i <= n <= c@.len(),
            comp_views(out@) == comp_views(c@).take(i as int),
        decreases n - i,
    {
        push_comp(&mut out, c[i].0, c[i].1.clone());
        i += 1;
        assert(comp_views(out@) =~= comp_views(c@).take(i as int));
    }
    out
}

/// The folders above `path`, nearest first, as `Path::parent` walks them:
/// each written with `\` separators, with whether it lies at or below one
/// of `scopes` and whether it is the `profile` folder.
pub fn parent_chain(path: &str, scopes: &[String], profile: &Option<String>) -> (res: Vec<(String, bool, bool)>)
    ensures
        entry_triples(res@) == parent_chain_spec(path@, crate::proxy::string_views(scopes@), crate::proxy::opt_view(*profile)),
{
    let c = components_of(path);
    let ghost cv = comp_views(c@);
    let ghost sv = crate::proxy::string_views(scopes@);
    let ghost pv = crate::proxy::opt_view(*profile);
    let mut anchor: usize = 0;
    assert(cv.skip(0) =~= cv);
    while anchor < c.len() && c[anchor].0 <= ROOT
        invariant
            anchor <= c@.len(),
            cv == comp_views(c@),
            anchor_len(cv) == anchor + anchor_len(cv.skip(anchor as int)),
        decreases c.len() - anchor,
    {
        assert(cv.skip(anchor as int)[0] == cv[anchor as int]);
        assert(cv.skip(anchor as int).drop_first() =~= cv.skip(anchor + 1));
        anchor += 1;
    }
    proof {
        if anchor < c.len() {
            assert(cv.skip(anchor as int)[0] == cv[anchor as int]);
        }
        assert(anchor_len(cv.skip(anchor as int)) == 0);
    }
    let scope_comps = scope_components(scopes);
    let profile_comps = match profile {
        Some(p) => Some(components_of(p.as_str())),
        None => None,
    };
    let ghost want = parent_chain_spec(path@, sv, pv);
    let mut out: Vec<(String, bool, bool)> = Vec::new();
    let mut m: usize = c.len();
    while m > anchor
        invariant
            anchor <= m <= c@.len(),
            anchor == anchor_len(cv),
            cv == comp_views(c@),
            cv == path_components(path@),
            want == parent_chain_spec(path@, sv, pv),
            sv == crate::proxy::string_views(scopes@),
            pv == crate::proxy::opt_view(*profile),
            scope_comps@.len() == scopes@.len(),
            forall|k: int| 0 <= k < scopes@.len() ==> comp_views(#[trigger] scope_comps@[k]@) == path_components(sv[k]),
            profile_comps matches Some(q) ==> pv matches Some(p) && comp_views(q@) == path_components(p),
            profile_comps is None ==> pv is None,
            out@.len() == c@.len() - m,
            forall|j: int| 0 <= j < out@.len() ==> entry_triples(out@)[j] == #[trigger] want[j],
        decreases m,
    {
        m -= 1;
        let a = comps_prefix(&c, m);
        let text = string_of_chars(join_prefix(&c, m));
        let mut within = false;
        let mut k: usize = 0;
        while k < scope_comps.len()
            invariant
                k <= scope_comps@.len(),
                within == exists|j: int| 0 <= j < k && comps_start_with(comp_views(a@), comp_views(#[trigger] scope_comps@[j]@)),
            decreases scope_comps.len() - k,
        {
            if comps_begin_with(&a, &scope_comps[k]) {
                within = true;
            }
            k += 1;
        }
        let is_root = match &profile_comps {
            Some(q) => comps_equal(q, &a),
            None => false,
        };
        let ghost j = out@.len() as int;
        let ghost before = out@;
        out.push((text, within, is_root));
        proof {
            lemma_anchor_len_bound(cv);
            let anc = ancestor_comps(cv);
            assert(anc[j] == cv.take(m as int));
            assert(comp_views(a@) == anc[j]);
            let e = ancestor_entry(anc[j], sv, pv);
            assert(want[j] == e);
            assert(within == e.1) by {
                if within {
                    let q = choose|q: int| 0 <= q < k && comps_start_with(comp_views(a@), comp_views(#[trigger] scope_comps@[q]@));
                    assert(comps_start_with(anc[j], path_components(sv[q])));
                }
                if e.1 {
                    let q = choose|q: int| 0 <= q < sv.len() && comps_start_with(anc[j], path_components(#[trigger] sv[q]));
                    assert(comps_start_with(comp_views(a@), comp_views(scope_comps@[q]@)));
                }
            }
            assert(entry_triples(out@)[j] == e);
            assert forall|i: int| 0 <= i < out@.len() implies entry_triples(out@)[i] == #[trigger] want[i] by {
                if i < j {
                    assert(entry_triples(out@)[i] == entry_triples(before)[i]);
                }
            }
        }
    }
    assert(entry_triples(out@) =~= want);
    out
}

/// The components of each scope folder.
fn scope_components(scopes: &[String]) -> (res: Vec<Vec<(u8, Vec<char>)>>)
    ensures
        res@.len() == scopes@.len(),
        forall|k: int| 0 <= k < scopes@.len() ==> comp_views(#[trigger] res@[k]@) == path_components(scopes@[k]@),
{
    let mut out: Vec<Vec<(u8, Vec<char>)>> = Vec::new();
    let mut k: usize = 0;
    while k < scopes.len()
        invariant
            k <= scopes@.len(),
            out@.len() == k,
            forall|j: int| 0 <= j < k ==> comp_views(#[trigger] out@[j]@) == path_components(scopes@[j]@),
        decreases scopes.len() - k,
    {
        out.push(components_of(scopes[k].as_str()));
        k += 1;
    }
    out
}

fn string_of_chars(v: Vec<char>) -> (res: String)
    ensures
        res@ == v@,
{
    crate::text::string_of(&v)
}

/// `PathBuf::join` with a relative name: a `\` goes between them unless the
/// base is empty, ends with a separator, or is a bare drive such as `C:`.
pub open spec fn join_path_spec(base: Seq<char>, name: Seq<char>) -> Seq<char> {
    if base.len() == 0 || is_sep(base.last()) || (base.len() == 2 && is_drive(base)) {
        base + name
    } else {
        base + seq!['\\'] + name
    }
}

/// Joins a relative name to a folder (see `join_path_spec`).
pub fn join_path(base: &str, name: &str) -> (res: String)
    ensures
        res@ == join_path_spec(base@, name@),
{
    let b = chars_of(base);
    let n = b.len();
    let bare = n == 0 || b[n - 1] == '/' || b[n - 1] == '\\' || (n == 2 && (('a' <= b[0] && b[0] <= 'z') || ('A' <= b[0] && b[0] <= 'Z')) && b[1] == ':');
    let mut out = base.to_owned();
    if !bare {
        out.append("\\");
    }
    out.append(name);
    proof {
        reveal_strlit("\\");
        if n > 0 {
            assert(b@.last() == b@[n - 1]);
        }
    }
    out
}

} // verus!
