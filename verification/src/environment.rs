//! The environment block of the sandboxed process: the inherited variables
//! merged with the overrides (names compared without regard to ASCII case),
//! sorted by name, and written as a UTF-16 block.
use vstd::prelude::*;

use crate::proxy::pair_views;
use crate::text::{ascii_lower_char, chars_of, has_char, has_char_exec, lower_ascii, same_chars};

verus! {

/// A variable: its name (as written) and its value.
pub type EnvVar = (Seq<char>, Seq<char>);

/// Lexicographic order of character sequences by code point, which is the
/// order of `String`'s `cmp` (UTF-8 preserves code-point order).
pub open spec fn lex_lt(a: Seq<char>, b: Seq<char>) -> bool
    decreases a.len(),
{
    if b.len() == 0 {
        false
    } else if a.len() == 0 {
        true
    } else if a[0] != b[0] {
        (a[0] as u32) < (b[0] as u32)
    } else {
        lex_lt(a.drop_first(), b.drop_first())
    }
}

/// Setting one variable: names holding `=` are ignored; otherwise the
/// variable replaces any variable whose name has the same lower case.
pub open spec fn env_set(m: Map<Seq<char>, EnvVar>, p: EnvVar) -> Map<Seq<char>, EnvVar> {
    if has_char(p.0, '=') {
        m
    } else {
        m.insert(lower_ascii(p.0), p)
    }
}

/// Setting the variables one after the other.
pub open spec fn env_set_all(m: Map<Seq<char>, EnvVar>, ps: Seq<EnvVar>) -> Map<Seq<char>, EnvVar>
    decreases ps.len(),
{
    if ps.len() == 0 {
        m
    } else {
        env_set(env_set_all(m, ps.drop_last()), ps.last())
    }
}

/// The inherited variables with the overrides set on top, keyed by lower-case name.
pub open spec fn merged_env(base: Seq<EnvVar>, overrides: Seq<EnvVar>) -> Map<Seq<char>, EnvVar> {
    env_set_all(env_set_all(Map::empty(), base), overrides)
}

/// Strictly increasing by lower-case name.
pub open spec fn sorted_by_name(v: Seq<EnvVar>) -> bool {
    forall|i: int, j: int|
        0 <= i < j < v.len() ==> lex_lt(lower_ascii(#[trigger] v[i].0), lower_ascii(#[trigger] v[j].0))
}

/// `v` lists exactly the entries of `m`.
pub open spec fn lists_exactly(v: Seq<EnvVar>, m: Map<Seq<char>, EnvVar>) -> bool {
    &&& forall|i: int|
        0 <= i < v.len() ==> m.contains_key(lower_ascii(#[trigger] v[i].0)) && m[lower_ascii(v[i].0)]
            == v[i]
    &&& forall|k: Seq<char>|
        #[trigger] m.contains_key(k) ==> exists|i: int| 0 <= i < v.len() && lower_ascii(v[i].0) == k
}

// ── Lexicographic order ─────────────────────────────────────────────────────

pub proof fn lemma_lex_irreflexive(a: Seq<char>)
    ensures
        !lex_lt(a, a),
    decreases a.len(),
{
    if a.len() > 0 {
        lemma_lex_irreflexive(a.drop_first());
    }
}

pub proof fn lemma_lex_transitive(a: Seq<char>, b: Seq<char>, c: Seq<char>)
    requires
        lex_lt(a, b),
        lex_lt(b, c),
    ensures
        lex_lt(a, c),
    decreases a.len(),
{
    if a.len() > 0 && b.len() > 0 && c.len() > 0 && a[0] == b[0] && b[0] == c[0] {
        lemma_lex_transitive(a.drop_first(), b.drop_first(), c.drop_first());
    }
}

pub proof fn lemma_lex_total(a: Seq<char>, b: Seq<char>)
    ensures
        a == b || lex_lt(a, b) || lex_lt(b, a),
    decreases a.len(),
{
    if a.len() > 0 && b.len() > 0 && a[0] == b[0] {
        lemma_lex_total(a.drop_first(), b.drop_first());
        if a.drop_first() == b.drop_first() {
            assert(a =~= seq![a[0]] + a.drop_first());
            assert(b =~= seq![b[0]] + b.drop_first());
        }
    } else if a.len() == 0 && b.len() == 0 {
        assert(a =~= b);
    } else if a.len() > 0 && b.len() > 0 {
        if (a[0] as u32) == (b[0] as u32) {
            vstd::utf8::char_u32_cast(a[0], a[0] as u32);
            vstd::utf8::char_u32_cast(b[0], b[0] as u32);
        }
    }
}

proof fn lemma_lex_skip(a: Seq<char>, b: Seq<char>, i: int)
    requires
        0 <= i <= a.len(),
        i <= b.len(),
        forall|j: int| 0 <= j < i ==> a[j] == b[j],
    ensures
        lex_lt(a, b) == lex_lt(a.skip(i), b.skip(i)),
    decreases i,
{
    if i > 0 {
        assert forall|j: int| 0 <= j < i - 1 implies a.drop_first()[j] == b.drop_first()[j] by {
            assert(a.drop_first()[j] == a[j + 1]);
            assert(b.drop_first()[j] == b[j + 1]);
        }
        lemma_lex_skip(a.drop_first(), b.drop_first(), i - 1);
        assert(a.drop_first().skip(i - 1) =~= a.skip(i));
        assert(b.drop_first().skip(i - 1) =~= b.skip(i));
    } else {
        assert(a.skip(0) =~= a);
        assert(b.skip(0) =~= b);
    }
}

/// Whether `a` sorts before `b`.
pub fn lex_less(a: &[char], b: &[char]) -> (res: bool)
    ensures
        res == lex_lt(a@, b@),
{
    let mut i: usize = 0;
    while i < a.len() && i < b.len() && a[i] == b[i]
        invariant
            i <= a.len(),
            i <= b.len(),
            forall|j: int| 0 <= j < i ==> a@[j] == b@[j],
        decreases a.len() - i,
    {
        i += 1;
    }
    proof {
        lemma_lex_skip(a@, b@, i as int);
    }
    if i == b.len() {
        false
    } else if i == a.len() {
        true
    } else {
        assert(a@.skip(i as int)[0] == a@[i as int]);
        assert(b@.skip(i as int)[0] == b@[i as int]);
        (a[i] as u32) < (b[i] as u32)
    }
}

fn lower_ascii_exec(s: &[char]) -> (res: Vec<char>)
    ensures
        res@ == lower_ascii(s@),
{
    let mut out: Vec<char> = Vec::new();
    let mut i: usize = 0;
    while i < s.len()
        invariant
            i <= s.len(),
            out@ == lower_ascii(s@.take(i as int)),
        decreases s.len() - i,
    {
        out.push(ascii_lower_char(s[i]));
        i += 1;
        assert(out@ =~= lower_ascii(s@.take(i as int)));
    }
    assert(s@.take(s.len() as int) =~= s@);
    out
}

// ── Merging ─────────────────────────────────────────────────────────────────

/// The sorted list being built, with the lower-case names kept beside it.
struct SortedEnv {
    vars: Vec<(String, String)>,
    keys: Vec<Vec<char>>,
}

impl SortedEnv {
    spec fn wf(&self) -> bool {
        &&& self.keys@.len() == self.vars@.len()
        &&& forall|i: int|
            0 <= i < self.keys@.len() ==> (#[trigger] self.keys@[i])@ == lower_ascii(
                self.vars@[i].0@,
            )
        &&& sorted_by_name(pair_views(self.vars@))
    }

    fn set(&mut self, name: &String, value: &String)
        requires
            old(self).wf(),
        ensures
            final(self).wf(),
            forall|m: Map<Seq<char>, EnvVar>|
                lists_exactly(pair_views(old(self).vars@), m) ==> lists_exactly(
                    pair_views(final(self).vars@),
                    env_set(m, (name@, value@)),
                ),
    {
        let ghost old_vars = pair_views(self.vars@);
        let nm = chars_of(name.as_str());
        if has_char_exec(&nm, '=') {
            return;
        }
        let lk = lower_ascii_exec(&nm);
        let mut p: usize = 0;
        while p < self.keys.len() && lex_less(&self.keys[p], &lk)
            invariant
                self.wf(),
                p <= self.keys@.len(),
                forall|j: int| 0 <= j < p ==> lex_lt(lower_ascii(self.vars@[j].0@), lk@),
            decreases self.keys@.len() - p,
        {
            p += 1;
        }
        let ghost pv = pair_views(self.vars@);
        let entry = (name.clone(), value.clone());
        assert(pair_views(seq![entry])[0] == (name@, value@));
        // every name at or after `p` sorts at or after the new one
        proof {
            assert forall|j: int| p <= j < pv.len() implies !lex_lt(lower_ascii(#[trigger] pv[j].0), lk@) by {
                assert(pv[j].0 == self.vars@[j].0@);
                assert(pv[p as int].0 == self.vars@[p as int].0@);
                assert(!lex_lt(self.keys@[p as int]@, lk@));
                if j > p {
                    assert(lex_lt(lower_ascii(pv[p as int].0), lower_ascii(pv[j].0)));
                    if lex_lt(lower_ascii(pv[j].0), lk@) {
                        lemma_lex_transitive(lower_ascii(pv[p as int].0), lower_ascii(pv[j].0), lk@);
                    }
                }
            }
        }
        if p < self.keys.len() && same_chars(&self.keys[p], &lk) {
            self.vars.set(p, entry);
            let ghost nv = pair_views(self.vars@);
            assert(nv =~= pv.update(p as int, (name@, value@)));
            proof {
                assert forall|i: int| 0 <= i < self.keys@.len() implies (#[trigger] self.keys@[i])@
                    == lower_ascii(self.vars@[i].0@) by {}
                assert forall|i: int, j: int| 0 <= i < j < nv.len() implies lex_lt(
                    lower_ascii(#[trigger] nv[i].0),
                    lower_ascii(#[trigger] nv[j].0),
                ) by {
                    assert(lower_ascii(nv[i].0) == lower_ascii(pv[i].0));
                    assert(lower_ascii(nv[j].0) == lower_ascii(pv[j].0));
                }
                assert forall|m: Map<Seq<char>, EnvVar>|
                    lists_exactly(pv, m) implies lists_exactly(nv, env_set(m, (name@, value@))) by {
                    let m2 = env_set(m, (name@, value@));
                    assert forall|i: int| 0 <= i < nv.len() implies m2.contains_key(
                        lower_ascii(#[trigger] nv[i].0),
                    ) && m2[lower_ascii(nv[i].0)] == nv[i] by {
                        if i != p {
                            assert(lower_ascii(pv[i].0) != lk@) by {
                                if i < p {
                                    lemma_lex_irreflexive(lk@);
                                } else {
                                    lemma_lex_irreflexive(lk@);
                                    assert(lex_lt(lower_ascii(pv[p as int].0), lower_ascii(pv[i].0)));
                                }
                            }
                        }
                    }
                    assert forall|k: Seq<char>| #[trigger] m2.contains_key(k) implies exists|i: int|
                        0 <= i < nv.len() && lower_ascii(nv[i].0) == k by {
                        if k == lk@ {
                            assert(lower_ascii(nv[p as int].0) == k);
                        } else {
                            assert(m.contains_key(k));
                            let i = choose|i: int| 0 <= i < pv.len() && lower_ascii(pv[i].0) == k;
                            assert(lower_ascii(nv[i].0) == k);
                        }
                    }
                }
            }
        } else {
            self.vars.insert(p, entry);
            self.keys.insert(p, lk);
            let ghost nv = pair_views(self.vars@);
            assert(nv =~= pv.insert(p as int, (name@, value@)));
            proof {
                if p < pv.len() {
                    assert(lower_ascii(pv[p as int].0) != lk@);
                    lemma_lex_total(lower_ascii(pv[p as int].0), lk@);
                }
                assert forall|i: int| 0 <= i < self.keys@.len() implies (#[trigger] self.keys@[i])@
                    == lower_ascii(self.vars@[i].0@) by {
                    if i < p {
                        assert(self.vars@[i] == old(self).vars@[i]);
                    } else if i > p {
                        assert(self.vars@[i] == old(self).vars@[i - 1]);
                    }
                }
                assert forall|i: int, j: int| 0 <= i < j < nv.len() implies lex_lt(
                    lower_ascii(#[trigger] nv[i].0),
                    lower_ascii(#[trigger] nv[j].0),
                ) by {
                    if j < p {
                    } else if j == p {
                        assert(nv[i] == pv[i]);
                    } else if i < p {
                        assert(nv[j] == pv[j - 1]);
                        assert(nv[i] == pv[i]);
                    } else if i == p {
                        assert(nv[j] == pv[j - 1]);
                        if j - 1 > p {
                            assert(lex_lt(lower_ascii(pv[p as int].0), lower_ascii(pv[j - 1].0)));
                            lemma_lex_transitive(lk@, lower_ascii(pv[p as int].0), lower_ascii(pv[j - 1].0));
                        }
                    } else {
                        assert(nv[j] == pv[j - 1]);
                        assert(nv[i] == pv[i - 1]);
                    }
                }
                assert forall|m: Map<Seq<char>, EnvVar>|
                    lists_exactly(pv, m) implies lists_exactly(nv, env_set(m, (name@, value@))) by {
                    let m2 = env_set(m, (name@, value@));
                    assert forall|i: int| 0 <= i < nv.len() implies m2.contains_key(
                        lower_ascii(#[trigger] nv[i].0),
                    ) && m2[lower_ascii(nv[i].0)] == nv[i] by {
                        if i < p {
                            assert(nv[i] == pv[i]);
                            if lower_ascii(pv[i].0) == lk@ {
                                lemma_lex_irreflexive(lk@);
                            }
                        } else if i > p {
                            assert(nv[i] == pv[i - 1]);
                            if lower_ascii(pv[i - 1].0) == lk@ {
                                if i - 1 == p {
                                } else {
                                    lemma_lex_irreflexive(lk@);
                                }
                            }
                        }
                    }
                    assert forall|k: Seq<char>| #[trigger] m2.contains_key(k) implies exists|i: int|
                        0 <= i < nv.len() && lower_ascii(nv[i].0) == k by {
                        if k == lk@ {
                            assert(lower_ascii(nv[p as int].0) == k);
                        } else {
                            assert(m.contains_key(k));
                            let i = choose|i: int| 0 <= i < pv.len() && lower_ascii(pv[i].0) == k;
                            if i < p {
                                assert(lower_ascii(nv[i].0) == k);
                            } else {
                                assert(lower_ascii(nv[i + 1].0) == k);
                            }
                        }
                    }
                }
            }
        }
    }
}

proof fn lemma_env_set_all_step(m: Map<Seq<char>, EnvVar>, ps: Seq<EnvVar>, i: int)
    requires
        0 <= i < ps.len(),
    ensures
        env_set_all(m, ps.take(i + 1)) == env_set(env_set_all(m, ps.take(i)), ps[i]),
{
    assert(ps.take(i + 1).drop_last() =~= ps.take(i));
}

/// The inherited variables with the overrides applied: names holding `=`
/// are dropped, a later variable replaces an earlier one whose name has the
/// same lower case (keeping the later spelling), and the result is sorted by
/// lower-case name.
pub fn merge_environment(base: &[(String, String)], overrides: &[(String, String)]) -> (res: Vec<
    (String, String),
>)
    ensures
        sorted_by_name(pair_views(res@)),
        lists_exactly(pair_views(res@), merged_env(pair_views(base@), pair_views(overrides@))),
{
    let mut acc = SortedEnv { vars: Vec::new(), keys: Vec::new() };
    let ghost b = pair_views(base@);
    let ghost o = pair_views(overrides@);
    assert(b.take(0) =~= Seq::<EnvVar>::empty());
    let mut i: usize = 0;
    while i < base.len()
        invariant
            i <= base@.len(),
            b == pair_views(base@),
            acc.wf(),
            lists_exactly(pair_views(acc.vars@), env_set_all(Map::empty(), b.take(i as int))),
        decreases base.len() - i,
    {
        proof {
            lemma_env_set_all_step(Map::empty(), b, i as int);
        }
        acc.set(&base[i].0, &base[i].1);
        i += 1;
    }
    assert(b.take(base.len() as int) =~= b);
    let ghost start = env_set_all(Map::empty(), b);
    assert(o.take(0) =~= Seq::<EnvVar>::empty());
    let mut j: usize = 0;
    while j < overrides.len()
        invariant
            j <= overrides@.len(),
            o == pair_views(overrides@),
            acc.wf(),
            lists_exactly(pair_views(acc.vars@), env_set_all(start, o.take(j as int))),
        decreases overrides.len() - j,
    {
        proof {
            lemma_env_set_all_step(start, o, j as int);
        }
        acc.set(&overrides[j].0, &overrides[j].1);
        j += 1;
    }
    assert(o.take(overrides.len() as int) =~= o);
    acc.vars
}

proof fn lemma_override_kept(start: Map<Seq<char>, EnvVar>, o: Seq<EnvVar>, i: int, n: int)
    requires
        0 <= i < n <= o.len(),
        !has_char(o[i].0, '='),
        forall|j: int|
            i < j < o.len() && !has_char(#[trigger] o[j].0, '=') ==> lower_ascii(o[j].0) != lower_ascii(
                o[i].0,
            ),
    ensures
        env_set_all(start, o.take(n)).contains_key(lower_ascii(o[i].0)),
        env_set_all(start, o.take(n))[lower_ascii(o[i].0)] == o[i],
    decreases n - i,
{
    lemma_env_set_all_step(start, o, n - 1);
    if n - 1 > i {
        lemma_override_kept(start, o, i, n - 1);
    }
}

/// An override takes effect unless a later override with the same name (in
/// any ASCII case) replaces it; names holding `=` are never set.
pub proof fn law_override_wins(base: Seq<EnvVar>, overrides: Seq<EnvVar>, i: int)
    requires
        0 <= i < overrides.len(),
        !has_char(overrides[i].0, '='),
        forall|j: int|
            i < j < overrides.len() && !has_char(#[trigger] overrides[j].0, '=') ==> lower_ascii(
                overrides[j].0,
            ) != lower_ascii(overrides[i].0),
    ensures
        merged_env(base, overrides).contains_key(lower_ascii(overrides[i].0)),
        merged_env(base, overrides)[lower_ascii(overrides[i].0)] == overrides[i],
{
    let start = env_set_all(Map::empty(), base);
    lemma_override_kept(start, overrides, i, overrides.len() as int);
    assert(overrides.take(overrides.len() as int) =~= overrides);
}

proof fn lemma_untouched_key(m: Map<Seq<char>, EnvVar>, o: Seq<EnvVar>, k: Seq<char>)
    requires
        forall|j: int| 0 <= j < o.len() && !has_char(#[trigger] o[j].0, '=') ==> lower_ascii(o[j].0) != k,
    ensures
        env_set_all(m, o).contains_key(k) == m.contains_key(k),
        m.contains_key(k) ==> env_set_all(m, o)[k] == m[k],
    decreases o.len(),
{
    if o.len() > 0 {
        let r = o.drop_last();
        assert forall|j: int| 0 <= j < r.len() && !has_char(#[trigger] r[j].0, '=') implies lower_ascii(r[j].0) != k by {
            assert(r[j] == o[j]);
        }
        lemma_untouched_key(m, r, k);
        assert(o.last() == o[o.len() - 1]);
    }
}

/// An inherited variable stays as it is unless an override has the same
/// name (in any ASCII case) or a later inherited variable replaces it.
pub proof fn law_inherited_kept(base: Seq<EnvVar>, overrides: Seq<EnvVar>, i: int)
    requires
        0 <= i < base.len(),
        !has_char(base[i].0, '='),
        forall|j: int|
            i < j < base.len() && !has_char(#[trigger] base[j].0, '=') ==> lower_ascii(base[j].0)
                != lower_ascii(base[i].0),
        forall|j: int|
            0 <= j < overrides.len() && !has_char(#[trigger] overrides[j].0, '=') ==> lower_ascii(
                overrides[j].0,
            ) != lower_ascii(base[i].0),
    ensures
        merged_env(base, overrides).contains_key(lower_ascii(base[i].0)),
        merged_env(base, overrides)[lower_ascii(base[i].0)] == base[i],
{
    lemma_override_kept(Map::empty(), base, i, base.len() as int);
    assert(base.take(base.len() as int) =~= base);
    lemma_untouched_key(env_set_all(Map::empty(), base), overrides, lower_ascii(base[i].0));
}

// ── UTF-16 ──────────────────────────────────────────────────────────────────

/// The UTF-16 code units of one character.
pub open spec fn utf16_of(c: char) -> Seq<u16> {
    let u = c as u32;
    if u < 0x10000 {
        seq![u as u16]
    } else {
        seq![
            (0xD800 + (u - 0x10000) / 0x400) as u16,
            (0xDC00 + (u - 0x10000) % 0x400) as u16,
        ]
    }
}

/// The UTF-16 encoding of a text.
pub open spec fn utf16(s: Seq<char>) -> Seq<u16>
    decreases s.len(),
{
    if s.len() == 0 {
        Seq::empty()
    } else {
        utf16(s.drop_last()) + utf16_of(s.last())
    }
}

/// Appends the UTF-16 encoding of `s` to `out`.
pub fn push_utf16(out: &mut Vec<u16>, s: &[char])
    ensures
        final(out)@ == old(out)@ + utf16(s@),
{
    let ghost start = out@;
    let mut i: usize = 0;
    assert(s@.take(0) =~= Seq::<char>::empty());
    assert(start + utf16(Seq::<char>::empty()) =~= start);
    while i < s.len()
        invariant
            i <= s.len(),
            out@ == start + utf16(s@.take(i as int)),
        decreases s.len() - i,
    {
        let u = s[i] as u32;
        assert(s@.take(i + 1).drop_last() =~= s@.take(i as int));
        assert(u <= 0x10FFFF) by {
            vstd::utf8::char_is_scalar(s@[i as int]);
        }
        if u < 0x10000 {
            out.push(u as u16);
        } else {
            out.push((0xD800 + (u - 0x10000) / 0x400) as u16);
            out.push((0xDC00 + (u - 0x10000) % 0x400) as u16);
        }
        i += 1;
        assert(out@ =~= start + utf16(s@.take(i as int)));
    }
    assert(s@.take(s.len() as int) =~= s@);
}

/// A string as a NUL-terminated UTF-16 string.
pub fn to_wide_null(value: &str) -> (res: Vec<u16>)
    ensures
        res@ == utf16(value@).push(0),
{
    let mut out: Vec<u16> = Vec::new();
    push_utf16(&mut out, &chars_of(value));
    out.push(0);
    assert(Seq::<u16>::empty() + utf16(value@) =~= utf16(value@));
    out
}

/// The environment block: `name=value` for each variable, each ended by a
/// NUL, and a final NUL.
pub open spec fn env_block(vars: Seq<EnvVar>) -> Seq<u16>
    decreases vars.len(),
{
    if vars.len() == 0 {
        seq![0u16]
    } else {
        let v = vars.last();
        env_block(vars.drop_last()).drop_last() + utf16(v.0 + seq!['='] + v.1) + seq![0u16, 0u16]
    }
}

/// The block lists each variable as `name=value` followed by a NUL, in
/// order, and ends with one more NUL: a single variable gives its entry and
/// two NULs, adding a variable puts its entry before the final NUL, and the
/// block always ends with NUL (twice when it holds a variable).
pub proof fn law_env_block_layout(vars: Seq<EnvVar>, v: EnvVar)
    ensures
        env_block(seq![v]) == utf16(v.0 + seq!['='] + v.1) + seq![0u16, 0u16],
        env_block(vars.push(v)) == env_block(vars).take(env_block(vars).len() - 1) + utf16(
            v.0 + seq!['='] + v.1,
        ) + seq![0u16, 0u16],
        env_block(vars).len() >= 1 && env_block(vars).last() == 0u16,
        vars.len() > 0 ==> env_block(vars).len() >= 2 && env_block(vars)[env_block(vars).len() - 2] == 0u16,
        env_block(Seq::<EnvVar>::empty()) == seq![0u16],
{
    assert(seq![v].drop_last() =~= Seq::<EnvVar>::empty());
    assert(seq![v].last() == v);
    assert(env_block(Seq::<EnvVar>::empty()).drop_last() =~= Seq::<u16>::empty());
    assert(env_block(seq![v]) =~= utf16(v.0 + seq!['='] + v.1) + seq![0u16, 0u16]);
    assert(vars.push(v).drop_last() =~= vars);
    let b = env_block(vars);
    assert(b.drop_last() =~= b.take(b.len() - 1));
    if vars.len() > 0 {
        let r = vars.drop_last();
        let e = env_block(r).drop_last() + utf16(vars.last().0 + seq!['='] + vars.last().1) + seq![0u16, 0u16];
        assert(b == e);
        assert(b[b.len() - 2] == 0u16);
    }
}

/// A character below U+10000 is one UTF-16 unit with its own value; any
/// other is a surrogate pair, high unit first.
pub proof fn law_utf16_units(c: char)
    ensures
        (c as u32) < 0x10000 ==> utf16_of(c) == seq![(c as u32) as u16],
        (c as u32) >= 0x10000 ==> utf16_of(c).len() == 2 && 0xD800 <= utf16_of(c)[0] < 0xDC00
            && 0xDC00 <= utf16_of(c)[1] < 0xE000 && (utf16_of(c)[0] - 0xD800) * 0x400 + (utf16_of(c)[1]
            - 0xDC00) + 0x10000 == c as u32,
{
    let u = c as u32;
    if u >= 0x10000 {
        assert(u <= 0x10FFFF);
        let hi = (u - 0x10000) / 0x400;
        let lo = (u - 0x10000) % 0x400;
        assert(hi < 0x400);
        assert(hi * 0x400 + lo == u - 0x10000);
    }
}

/// Writes the environment block for `CreateProcessW` from the merged variables.
pub fn build_env_block(vars: &[(String, String)]) -> (res: Vec<u16>)
    ensures
        res@ == env_block(pair_views(vars@)),
{
    let ghost pv = pair_views(vars@);
    let mut out: Vec<u16> = Vec::new();
    let mut i: usize = 0;
    assert(pv.take(0) =~= Seq::<EnvVar>::empty());
    while i < vars.len()
        invariant
            i <= vars@.len(),
            pv == pair_views(vars@),
            out@.push(0) == env_block(pv.take(i as int)),
        decreases vars.len() - i,
    {
        let ghost before = out@;
        let mut entry = chars_of(vars[i].0.as_str());
        entry.push('=');
        let value = chars_of(vars[i].1.as_str());
        let mut k: usize = 0;
        while k < value.len()
            invariant
                k <= value@.len(),
                entry@ == vars@[i as int].0@ + seq!['='] + value@.take(k as int),
            decreases value.len() - k,
        {
            entry.push(value[k]);
            k += 1;
            assert(entry@ =~= vars@[i as int].0@ + seq!['='] + value@.take(k as int));
        }
        assert(value@.take(value@.len() as int) =~= value@);
        push_utf16(&mut out, &entry);
        out.push(0);
        proof {
            let t = pv.take(i + 1);
            assert(t.drop_last() =~= pv.take(i as int));
            assert(t.last() == pv[i as int]);
            assert(env_block(pv.take(i as int)).drop_last() =~= before);
            assert(out@.push(0) =~= env_block(t));
        }
        i += 1;
    }
    assert(pv.take(vars.len() as int) =~= pv);
    out.push(0);
    out
}

} // verus!
