//! Character-level text primitives used by the request parsers, the
//! command-line builder and the path rules. Every operation works on the
//! `Seq<char>` view of a string and is specified by a spec function that
//! states the standard-library behaviour it stands for.
use vstd::prelude::*;

verus! {

// ── Specifications ──────────────────────────────────────────────────────────

/// `char::is_whitespace`: the Unicode `White_Space` property.
pub open spec fn is_ws(c: char) -> bool {
    let u = c as u32;
    ||| 0x09 <= u <= 0x0D
    ||| u == 0x20
    ||| u == 0x85
    ||| u == 0xA0
    ||| u == 0x1680
    ||| 0x2000 <= u <= 0x200A
    ||| u == 0x2028
    ||| u == 0x2029
    ||| u == 0x202F
    ||| u == 0x205F
    ||| u == 0x3000
}

/// `char::to_ascii_lowercase`.
pub open spec fn ascii_lower(c: char) -> char {
    if 'A' <= c && c <= 'Z' {
        ((c as u32) + 32) as char
    } else {
        c
    }
}

/// `str::to_ascii_lowercase`.
pub open spec fn lower_ascii(s: Seq<char>) -> Seq<char> {
    s.map_values(|c: char| ascii_lower(c))
}

/// `char::to_ascii_uppercase`.
pub open spec fn ascii_upper(c: char) -> char {
    if 'a' <= c && c <= 'z' {
        ((c as u32) - 32) as char
    } else {
        c
    }
}

/// `str::to_ascii_uppercase`.
pub open spec fn upper_ascii(s: Seq<char>) -> Seq<char> {
    s.map_values(|c: char| ascii_upper(c))
}

/// `str::is_ascii`: every character is below 128.
pub open spec fn is_ascii_text(s: Seq<char>) -> bool {
    forall|i: int| 0 <= i < s.len() ==> (#[trigger] s[i] as u32) < 128
}

/// `str::eq_ignore_ascii_case`.
pub open spec fn eq_ignore_ascii_case(a: Seq<char>, b: Seq<char>) -> bool {
    lower_ascii(a) == lower_ascii(b)
}

/// `str::starts_with` with a string pattern.
pub open spec fn starts_with(s: Seq<char>, p: Seq<char>) -> bool {
    p.len() <= s.len() && s.take(p.len() as int) == p
}

/// `str::ends_with` with a string pattern.
pub open spec fn ends_with(s: Seq<char>, p: Seq<char>) -> bool {
    p.len() <= s.len() && s.skip(s.len() - p.len()) == p
}

/// Whether `c` occurs in `s`.
pub open spec fn has_char(s: Seq<char>, c: char) -> bool {
    exists|i: int| 0 <= i < s.len() && s[i] == c
}

/// `s.split(c).next().unwrap()`: the text before the first `c`, or all of `s`.
pub open spec fn prefix_before(s: Seq<char>, c: char) -> Seq<char>
    decreases s.len(),
{
    if s.len() == 0 {
        s
    } else if s[0] == c {
        Seq::empty()
    } else {
        seq![s[0]] + prefix_before(s.drop_first(), c)
    }
}

/// `str::trim_start_matches` with a non-empty string pattern: removes the
/// pattern from the front as many times as it occurs there.
pub open spec fn strip_prefix_all(s: Seq<char>, p: Seq<char>) -> Seq<char>
    decreases s.len(),
{
    if p.len() > 0 && starts_with(s, p) {
        strip_prefix_all(s.skip(p.len() as int), p)
    } else {
        s
    }
}

/// `str::trim_start`.
pub open spec fn trim_start(s: Seq<char>) -> Seq<char>
    decreases s.len(),
{
    if s.len() > 0 && is_ws(s[0]) {
        trim_start(s.drop_first())
    } else {
        s
    }
}

/// `str::trim_end`.
pub open spec fn trim_end(s: Seq<char>) -> Seq<char>
    decreases s.len(),
{
    if s.len() > 0 && is_ws(s.last()) {
        trim_end(s.drop_last())
    } else {
        s
    }
}

/// `str::trim`.
pub open spec fn trim(s: Seq<char>) -> Seq<char> {
    trim_end(trim_start(s))
}

/// One line as `str::lines` yields it: the line ending `\n` is gone
/// already; a `\r` right before it is removed too.
pub open spec fn strip_cr(line: Seq<char>) -> Seq<char> {
    if line.len() > 0 && line.last() == '\r' {
        line.drop_last()
    } else {
        line
    }
}

/// `str::lines`: split at `\n` (and `\r\n`); a final line ending adds no
/// empty line, and the empty text has no lines.
pub open spec fn lines(s: Seq<char>) -> Seq<Seq<char>>
    decreases s.len(),
{
    if s.len() == 0 {
        Seq::empty()
    } else {
        let line = prefix_before(s, '\n');
        proof {
            lemma_prefix_before_shape(s, '\n');
        }
        if line.len() == s.len() {
            seq![s]
        } else {
            seq![strip_cr(line)] + lines(s.skip((line.len() + 1) as int))
        }
    }
}

/// `text.lines().next().unwrap_or("")`.
pub open spec fn first_line(s: Seq<char>) -> Seq<char> {
    if lines(s).len() > 0 {
        lines(s)[0]
    } else {
        Seq::empty()
    }
}

/// The maximal run of non-whitespace characters at the front of `s`.
pub open spec fn leading_word(s: Seq<char>) -> Seq<char>
    decreases s.len(),
{
    if s.len() == 0 || is_ws(s[0]) {
        Seq::empty()
    } else {
        seq![s[0]] + leading_word(s.drop_first())
    }
}

/// `str::split_whitespace`: the non-empty runs of non-whitespace characters.
pub open spec fn words(s: Seq<char>) -> Seq<Seq<char>>
    decreases s.len(),
{
    if s.len() == 0 {
        Seq::empty()
    } else if is_ws(s[0]) {
        words(s.drop_first())
    } else {
        let w = leading_word(s);
        proof {
            lemma_leading_word_len(s);
        }
        seq![w] + words(s.skip(w.len() as int))
    }
}

/// The decimal digit character for `d < 10`.
pub open spec fn digit_char(d: nat) -> char {
    ((d + 48) as u32) as char
}

/// The decimal representation of `n`, as `format!("{}", n)` writes it.
pub open spec fn decimal(n: nat) -> Seq<char>
    decreases n,
{
    if n < 10 {
        seq![digit_char(n)]
    } else {
        decimal(n / 10).push(digit_char(n % 10))
    }
}

// ── Lemmas ──────────────────────────────────────────────────────────────────

pub proof fn lemma_leading_word_len(s: Seq<char>)
    ensures
        leading_word(s).len() <= s.len(),
        s.len() > 0 && !is_ws(s[0]) ==> leading_word(s).len() > 0,
        leading_word(s) == s.take(leading_word(s).len() as int),
        forall|i: int| 0 <= i < leading_word(s).len() ==> !is_ws(#[trigger] s[i]),
        leading_word(s).len() < s.len() ==> is_ws(s[leading_word(s).len() as int]),
    decreases s.len(),
{
    if s.len() > 0 && !is_ws(s[0]) {
        lemma_leading_word_len(s.drop_first());
        let r = s.drop_first();
        assert forall|i: int| 0 <= i < leading_word(s).len() implies !is_ws(#[trigger] s[i]) by {
            if i > 0 {
                assert(s[i] == r[i - 1]);
            }
        }
        assert(leading_word(s) =~= s.take(leading_word(s).len() as int));
    } else {
        assert(leading_word(s) =~= s.take(0));
    }
}

pub proof fn lemma_prefix_before_shape(s: Seq<char>, c: char)
    ensures
        prefix_before(s, c).len() <= s.len(),
        prefix_before(s, c) == s.take(prefix_before(s, c).len() as int),
        forall|i: int| 0 <= i < prefix_before(s, c).len() ==> #[trigger] s[i] != c,
        prefix_before(s, c).len() < s.len() ==> s[prefix_before(s, c).len() as int] == c,
    decreases s.len(),
{
    if s.len() > 0 && s[0] != c {
        let r = s.drop_first();
        lemma_prefix_before_shape(r, c);
        assert forall|i: int| 0 <= i < prefix_before(s, c).len() implies #[trigger] s[i] != c by {
            if i > 0 {
                assert(s[i] == r[i - 1]);
            }
        }
        assert(prefix_before(s, c) =~= s.take(prefix_before(s, c).len() as int));
    } else {
        assert(prefix_before(s, c) =~= s.take(0));
    }
}

/// `prefix_before` is determined by the position of the first `c`.
pub proof fn lemma_prefix_before_at(s: Seq<char>, c: char, k: int)
    requires
        0 <= k <= s.len(),
        forall|i: int| 0 <= i < k ==> s[i] != c,
        k < s.len() ==> s[k] == c,
    ensures
        prefix_before(s, c) == s.take(k),
    decreases s.len(),
{
    if s.len() == 0 {
        assert(s.take(k) =~= s);
    } else if s[0] == c {
        assert(k == 0);
        assert(s.take(k) =~= Seq::<char>::empty());
    } else {
        let r = s.drop_first();
        lemma_prefix_before_at(r, c, k - 1);
        assert(s.take(k) =~= seq![s[0]] + r.take(k - 1));
    }
}

pub proof fn lemma_no_char_prefix_before(s: Seq<char>, c: char)
    requires
        !has_char(s, c),
    ensures
        prefix_before(s, c) == s,
{
    lemma_prefix_before_at(s, c, s.len() as int);
    assert(s.take(s.len() as int) =~= s);
}

// ── Executable operations ───────────────────────────────────────────────────

/// Appends one character to a string.
/// Trusted: `String::push` appends `c` at the end, as its documentation says.
#[verifier::external_body]
pub fn push_char(s: &mut String, c: char)
    ensures
        final(s)@ == old(s)@.push(c),
{
    s.push(c);
}

/// Whether two character sequences are equal.
pub fn same_chars(a: &[char], b: &[char]) -> (res: bool)
    ensures
        res == (a@ == b@),
{
    if a.len() != b.len() {
        return false;
    }
    let mut i: usize = 0;
    while i < a.len()
        invariant
            a.len() == b.len(),
            i <= a.len(),
            forall|j: int| 0 <= j < i ==> a@[j] == b@[j],
        decreases a.len() - i,
    {
        if a[i] != b[i] {
            return false;
        }
        i += 1;
    }
    assert(a@ =~= b@);
    true
}

/// Whether a string has exactly the characters of `lit`.
pub fn string_eq(s: &String, lit: &str) -> (res: bool)
    ensures
        res == (s@ == lit@),
{
    let a = chars_of(s.as_str());
    let b = chars_of(lit);
    if a.len() != b.len() {
        return false;
    }
    let mut i: usize = 0;
    while i < a.len()
        invariant
            a.len() == b.len(),
            a@ == s@,
            b@ == lit@,
            i <= a.len(),
            forall|j: int| 0 <= j < i ==> a@[j] == b@[j],
        decreases a.len() - i,
    {
        if a[i] != b[i] {
            return false;
        }
        i += 1;
    }
    assert(a@ =~= b@);
    true
}

/// The characters of `s`, in order.
pub fn chars_of(s: &str) -> (res: Vec<char>)
    ensures
        res@ == s@,
{
    let mut v: Vec<char> = Vec::new();
    for c in it: s.chars()
        invariant
            v@ == it.seq().take(it.index() as int),
            it.seq() == s@,
    {
        v.push(c);
    }
    v
}

/// The string made of the characters of `v`.
pub fn string_of(v: &[char]) -> (res: String)
    ensures
        res@ == v@,
{
    let mut s = String::new();
    let mut i: usize = 0;
    while i < v.len()
        invariant
            i <= v.len(),
            s@ == v@.take(i as int),
        decreases v.len() - i,
    {
        push_char(&mut s, v[i]);
        i += 1;
        assert(s@ =~= v@.take(i as int));
    }
    assert(v@.take(v.len() as int) =~= v@);
    s
}

/// The characters `v[lo..hi]`.
pub fn copy_range(v: &[char], lo: usize, hi: usize) -> (res: Vec<char>)
    requires
        lo <= hi <= v.len(),
    ensures
        res@ == v@.subrange(lo as int, hi as int),
{
    let mut r: Vec<char> = Vec::new();
    let mut i = lo;
    while i < hi
        invariant
            lo <= i <= hi <= v.len(),
            r@ == v@.subrange(lo as int, i as int),
        decreases hi - i,
    {
        r.push(v[i]);
        i += 1;
        assert(r@ =~= v@.subrange(lo as int, i as int));
    }
    r
}

/// `a + b` for character vectors.
pub fn concat_chars(a: &[char], b: &[char]) -> (res: Vec<char>)
    ensures
        res@ == a@ + b@,
{
    let mut r = copy_range(a, 0, a.len());
    let mut i: usize = 0;
    while i < b.len()
        invariant
            i <= b.len(),
            r@ == a@ + b@.take(i as int),
        decreases b.len() - i,
    {
        r.push(b[i]);
        i += 1;
        assert(r@ =~= a@ + b@.take(i as int));
    }
    assert(b@.take(b.len() as int) =~= b@);
    assert(a@.subrange(0, a@.len() as int) =~= a@);
    r
}

/// Appends the characters of `b` to `out`.
pub fn push_chars(out: &mut Vec<char>, b: &[char])
    ensures
        final(out)@ == old(out)@ + b@,
{
    let ghost start = out@;
    let mut i: usize = 0;
    assert(start + b@.take(0) =~= start);
    while i < b.len()
        invariant
            i <= b.len(),
            out@ == start + b@.take(i as int),
        decreases b.len() - i,
    {
        out.push(b[i]);
        i += 1;
        assert(out@ =~= start + b@.take(i as int));
    }
    assert(b@.take(b.len() as int) =~= b@);
}

pub fn is_ws_char(c: char) -> (res: bool)
    ensures
        res == is_ws(c),
{
    let u = c as u32;
    (0x09 <= u && u <= 0x0D) || u == 0x20 || u == 0x85 || u == 0xA0 || u == 0x1680 || (0x2000 <= u
        && u <= 0x200A) || u == 0x2028 || u == 0x2029 || u == 0x202F || u == 0x205F || u == 0x3000
}

pub fn ascii_lower_char(c: char) -> (res: char)
    ensures
        res == ascii_lower(c),
{
    if 'A' <= c && c <= 'Z' {
        let b: u8 = c as u8;
        let l: u8 = b + 32;
        let r = l as char;
        assert(r == ((c as u32) + 32) as char);
        r
    } else {
        c
    }
}

/// `str::eq_ignore_ascii_case`.
pub fn eq_ignore_case_chars(a: &[char], b: &[char]) -> (res: bool)
    ensures
        res == eq_ignore_ascii_case(a@, b@),
{
    if a.len() != b.len() {
        proof {
            assert(lower_ascii(a@).len() != lower_ascii(b@).len());
        }
        return false;
    }
    let mut i: usize = 0;
    while i < a.len()
        invariant
            a.len() == b.len(),
            i <= a.len(),
            forall|j: int| 0 <= j < i ==> ascii_lower(a@[j]) == ascii_lower(b@[j]),
        decreases a.len() - i,
    {
        if ascii_lower_char(a[i]) != ascii_lower_char(b[i]) {
            proof {
                assert(lower_ascii(a@)[i as int] != lower_ascii(b@)[i as int]);
            }
            return false;
        }
        i += 1;
    }
    assert(lower_ascii(a@) =~= lower_ascii(b@));
    true
}

/// `str::starts_with`.
pub fn starts_with_chars(s: &[char], p: &[char]) -> (res: bool)
    ensures
        res == starts_with(s@, p@),
{
    if p.len() > s.len() {
        return false;
    }
    let mut i: usize = 0;
    while i < p.len()
        invariant
            p.len() <= s.len(),
            i <= p.len(),
            forall|j: int| 0 <= j < i ==> s@[j] == p@[j],
        decreases p.len() - i,
    {
        if s[i] != p[i] {
            proof {
                assert(s@.take(p.len() as int)[i as int] != p@[i as int]);
            }
            return false;
        }
        i += 1;
    }
    assert(s@.take(p.len() as int) =~= p@);
    true
}

/// `str::ends_with`.
pub fn ends_with_chars(s: &[char], p: &[char]) -> (res: bool)
    ensures
        res == ends_with(s@, p@),
{
    if p.len() > s.len() {
        return false;
    }
    let off = s.len() - p.len();
    let mut i: usize = 0;
    while i < p.len()
        invariant
            p.len() <= s.len(),
            off == s.len() - p.len(),
            i <= p.len(),
            forall|j: int| 0 <= j < i ==> s@[off + j] == p@[j],
        decreases p.len() - i,
    {
        if s[off + i] != p[i] {
            proof {
                assert(s@.skip(off as int)[i as int] != p@[i as int]);
            }
            return false;
        }
        i += 1;
    }
    assert(s@.skip(off as int) =~= p@);
    true
}

/// Whether `c` occurs in `s`.
pub fn has_char_exec(s: &[char], c: char) -> (res: bool)
    ensures
        res == has_char(s@, c),
{
    let mut i: usize = 0;
    while i < s.len()
        invariant
            i <= s.len(),
            forall|j: int| 0 <= j < i ==> s@[j] != c,
        decreases s.len() - i,
    {
        if s[i] == c {
            return true;
        }
        i += 1;
    }
    false
}

/// The position of the first `c` in `s`, or `s.len()`.
pub fn find_char(s: &[char], c: char) -> (k: usize)
    ensures
        k <= s.len(),
        forall|i: int| 0 <= i < k ==> s@[i] != c,
        k < s.len() ==> s@[k as int] == c,
        prefix_before(s@, c) == s@.take(k as int),
{
    let mut i: usize = 0;
    while i < s.len()
        invariant
            i <= s.len(),
            forall|j: int| 0 <= j < i ==> s@[j] != c,
        decreases s.len() - i,
    {
        if s[i] == c {
            proof {
                lemma_prefix_before_at(s@, c, i as int);
            }
            return i;
        }
        i += 1;
    }
    proof {
        lemma_prefix_before_at(s@, c, i as int);
    }
    i
}

/// `s.split(c).next().unwrap()`.
pub fn prefix_before_exec(s: &[char], c: char) -> (res: Vec<char>)
    ensures
        res@ == prefix_before(s@, c),
{
    let k = find_char(s, c);
    copy_range(s, 0, k)
}

/// `str::trim_start_matches` with a non-empty pattern.
pub fn strip_prefix_all_exec(s: &[char], p: &[char]) -> (res: Vec<char>)
    requires
        p.len() > 0,
    ensures
        res@ == strip_prefix_all(s@, p@),
{
    let mut i: usize = 0;
    assert(s@.skip(0) =~= s@);
    while p.len() <= s.len() - i && starts_with_chars(&copy_range(s, i, s.len()), p)
        invariant
            p.len() > 0,
            i <= s.len(),
            strip_prefix_all(s@, p@) == strip_prefix_all(s@.skip(i as int), p@),
        decreases s.len() - i,
    {
        proof {
            let t = s@.skip(i as int);
            assert(s@.subrange(i as int, s@.len() as int) =~= t);
            assert(t.skip(p@.len() as int) =~= s@.skip(i + p.len()));
        }
        i = i + p.len();
    }
    proof {
        let t = s@.skip(i as int);
        assert(s@.subrange(i as int, s@.len() as int) =~= t);
        if p.len() > s.len() - i {
            assert(!starts_with(t, p@));
        }
    }
    copy_range(s, i, s.len())
}

proof fn lemma_trim_start_skip(s: Seq<char>, i: int)
    requires
        0 <= i <= s.len(),
        forall|j: int| 0 <= j < i ==> is_ws(s[j]),
    ensures
        trim_start(s) == trim_start(s.skip(i)),
    decreases i,
{
    if i > 0 {
        assert(s.drop_first().skip(i - 1) =~= s.skip(i));
        assert forall|j: int| 0 <= j < i - 1 implies is_ws(s.drop_first()[j]) by {
            assert(s.drop_first()[j] == s[j + 1]);
        }
        lemma_trim_start_skip(s.drop_first(), i - 1);
    } else {
        assert(s.skip(0) =~= s);
    }
}

proof fn lemma_trim_end_take(s: Seq<char>, k: int)
    requires
        0 <= k <= s.len(),
        forall|j: int| k <= j < s.len() ==> is_ws(s[j]),
    ensures
        trim_end(s) == trim_end(s.take(k)),
    decreases s.len() - k,
{
    if k < s.len() {
        assert(s.drop_last().take(k) =~= s.take(k));
        lemma_trim_end_take(s.drop_last(), k);
    } else {
        assert(s.take(k) =~= s);
    }
}

/// `str::trim`.
pub fn trim_exec(s: &[char]) -> (res: Vec<char>)
    ensures
        res@ == trim(s@),
{
    let mut lo: usize = 0;
    while lo < s.len() && is_ws_char(s[lo])
        invariant
            lo <= s.len(),
            forall|j: int| 0 <= j < lo ==> is_ws(s@[j]),
        decreases s.len() - lo,
    {
        lo += 1;
    }
    let mut hi: usize = s.len();
    while hi > lo && is_ws_char(s[hi - 1])
        invariant
            lo <= hi <= s.len(),
            forall|j: int| hi <= j < s.len() ==> is_ws(s@[j]),
        decreases hi,
    {
        hi -= 1;
    }
    proof {
        lemma_trim_start_skip(s@, lo as int);
        let t = s@.skip(lo as int);
        if lo < s.len() {
            assert(t[0] == s@[lo as int]);
        }
        assert(trim_start(t) == t);
        lemma_trim_end_take(t, hi - lo);
        let u = t.take(hi - lo);
        assert(u =~= s@.subrange(lo as int, hi as int));
        if hi > lo {
            assert(u.last() == s@[hi - 1]);
        }
        assert(trim_end(u) == u);
    }
    copy_range(s, lo, hi)
}

/// `str::lines`.
pub fn lines_exec(s: &[char]) -> (res: Vec<Vec<char>>)
    ensures
        res@.len() == lines(s@).len(),
        forall|i: int| 0 <= i < res@.len() ==> (#[trigger] res@[i])@ == lines(s@)[i],
{
    let mut out: Vec<Vec<char>> = Vec::new();
    let mut pos: usize = 0;
    let ghost mut done: Seq<Seq<char>> = Seq::empty();
    assert(s@.skip(0) =~= s@);
    assert(done + lines(s@) =~= lines(s@));
    while pos < s.len()
        invariant
            pos <= s.len(),
            out@.len() == done.len(),
            forall|i: int| 0 <= i < out@.len() ==> (#[trigger] out@[i])@ == done[i],
            lines(s@) == done + lines(s@.skip(pos as int)),
        decreases s.len() - pos,
    {
        let rest = copy_range(s, pos, s.len());
        assert(rest@ =~= s@.skip(pos as int));
        let k = find_char(&rest, '\n');
        if k == rest.len() {
            proof {
                assert(rest@.take(k as int) =~= rest@);
                assert(lines(rest@) =~= seq![rest@]);
                done = done.push(rest@);
                assert(s@.skip(s.len() as int) =~= Seq::<char>::empty());
            }
            out.push(rest);
            pos = s.len();
        } else {
            let mut line = copy_range(&rest, 0, k);
            if k > 0 && line[k - 1] == '\r' {
                line.pop();
            }
            proof {
                assert(line@ == strip_cr(rest@.take(k as int)));
                assert(rest@.skip(k + 1) =~= s@.skip(pos + k + 1));
                assert(lines(rest@) =~= seq![line@] + lines(s@.skip(pos + k + 1)));
                done = done.push(line@);
            }
            out.push(line);
            pos = pos + k + 1;
        }
        proof {
            assert forall|i: int| 0 <= i < out@.len() implies (#[trigger] out@[i])@ == done[i] by {}
        }
    }
    proof {
        assert(s@.skip(pos as int) =~= Seq::<char>::empty());
        assert(done + Seq::<Seq<char>>::empty() =~= done);
    }
    out
}

/// `text.lines().next().unwrap_or("")`.
pub fn first_line_exec(s: &[char]) -> (res: Vec<char>)
    ensures
        res@ == first_line(s@),
{
    let k = find_char(s, '\n');
    proof {
        reveal_with_fuel(lines, 2);
    }
    if s.len() == 0 {
        return Vec::new();
    }
    let mut line = copy_range(s, 0, k);
    if k < s.len() && k > 0 && line[k - 1] == '\r' {
        line.pop();
    }
    proof {
        assert(lines(s@)[0] == line@);
    }
    line
}

proof fn lemma_words_skip_ws(s: Seq<char>, i: int)
    requires
        0 <= i <= s.len(),
        forall|j: int| 0 <= j < i ==> is_ws(s[j]),
    ensures
        words(s) == words(s.skip(i)),
    decreases i,
{
    if i > 0 {
        assert(s.drop_first().skip(i - 1) =~= s.skip(i));
        assert forall|j: int| 0 <= j < i - 1 implies is_ws(s.drop_first()[j]) by {
            assert(s.drop_first()[j] == s[j + 1]);
        }
        lemma_words_skip_ws(s.drop_first(), i - 1);
    } else {
        assert(s.skip(0) =~= s);
    }
}

proof fn lemma_leading_word_at(s: Seq<char>, k: int)
    requires
        0 < k <= s.len(),
        forall|j: int| 0 <= j < k ==> !is_ws(s[j]),
        k < s.len() ==> is_ws(s[k]),
    ensures
        leading_word(s) == s.take(k),
{
    lemma_leading_word_len(s);
    let n = leading_word(s).len() as int;
    if n < k {
        assert(is_ws(s[n]));
    }
    if n > k {
        assert(!is_ws(s[k]));
    }
}

/// The first `n` words of `split_whitespace`.
pub fn first_words(s: &[char], n: usize) -> (res: Vec<Vec<char>>)
    ensures
        res@.len() == if words(s@).len() < n { words(s@).len() } else { n as nat },
        forall|i: int| 0 <= i < res@.len() ==> (#[trigger] res@[i])@ == words(s@)[i],
{
    let mut out: Vec<Vec<char>> = Vec::new();
    let mut pos: usize = 0;
    let ghost mut done: Seq<Seq<char>> = Seq::empty();
    assert(s@.skip(0) =~= s@);
    assert(done + words(s@) =~= words(s@));
    while out.len() < n
        invariant
            pos <= s.len(),
            out@.len() == done.len(),
            out@.len() <= n,
            forall|i: int| 0 <= i < out@.len() ==> (#[trigger] out@[i])@ == done[i],
            words(s@) == done + words(s@.skip(pos as int)),
        ensures
            out@.len() == done.len(),
            out@.len() <= n,
            forall|i: int| 0 <= i < out@.len() ==> (#[trigger] out@[i])@ == done[i],
            words(s@) == done + words(s@.skip(pos as int)),
            out@.len() == n || words(s@.skip(pos as int)).len() == 0,
        decreases n - out@.len(), s.len() - pos,
    {
        let mut lo = pos;
        while lo < s.len() && is_ws_char(s[lo])
            invariant
                pos <= lo <= s.len(),
                forall|j: int| pos <= j < lo ==> is_ws(s@[j]),
            decreases s.len() - lo,
        {
            lo += 1;
        }
        proof {
            let t = s@.skip(pos as int);
            assert forall|j: int| 0 <= j < lo - pos implies is_ws(t[j]) by {
                assert(t[j] == s@[pos + j]);
            }
            lemma_words_skip_ws(t, lo - pos);
            assert(t.skip(lo - pos) =~= s@.skip(lo as int));
        }
        if lo == s.len() {
            proof {
                assert(s@.skip(lo as int) =~= Seq::<char>::empty());
                assert(done + Seq::<Seq<char>>::empty() =~= done);
            }
            pos = lo;
            assert(words(s@.skip(pos as int)) =~= Seq::<Seq<char>>::empty());
            break;
        }
        let mut hi = lo;
        while hi < s.len() && !is_ws_char(s[hi])
            invariant
                lo <= hi <= s.len(),
                forall|j: int| lo <= j < hi ==> !is_ws(s@[j]),
            decreases s.len() - hi,
        {
            hi += 1;
        }
        let w = copy_range(s, lo, hi);
        proof {
            let t = s@.skip(lo as int);
            assert(t[0] == s@[lo as int]);
            assert forall|j: int| 0 <= j < hi - lo implies !is_ws(t[j]) by {
                assert(t[j] == s@[lo + j]);
            }
            if hi < s.len() {
                assert(t[hi - lo] == s@[hi as int]);
            }
            lemma_leading_word_at(t, hi - lo);
            assert(t.take(hi - lo) =~= w@);
            assert(t.skip(hi - lo) =~= s@.skip(hi as int));
            assert(words(t) == seq![w@] + words(s@.skip(hi as int)));
            done = done.push(w@);
        }
        out.push(w);
        pos = hi;
        proof {
            assert forall|i: int| 0 <= i < out@.len() implies (#[trigger] out@[i])@ == done[i] by {}
        }
    }
    out
}

/// The decimal representation of `n`.
pub fn decimal_exec(n: usize) -> (res: Vec<char>)
    ensures
        res@ == decimal(n as nat),
    decreases n,
{
    let d = (n % 10) as u8;
    let c = (48u8 + d) as char;
    assert(c == digit_char((n % 10) as nat));
    if n < 10 {
        let mut v: Vec<char> = Vec::new();
        v.push(c);
        assert(v@ =~= seq![digit_char(n as nat)]);
        v
    } else {
        let mut v = decimal_exec(n / 10);
        v.push(c);
        v
    }
}

} // verus!
