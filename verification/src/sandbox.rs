//! The rules of the process sandbox: how the agent's command line and
//! environment are built, which file-system grants are applied or taken
//! from the grant cache, which child processes may live, and the `icacls`
//! grants for a path.
use vstd::prelude::*;
use vstd::string::*;

use crate::proxy::string_views;
use crate::paths::{
    comp_views, components_of, comps_equal, comps_less, comps_lt, lemma_comps_lt_total,
    lemma_comps_lt_transitive, join_path, join_path_spec, path_components, path_lt, path_starts_with,
    same_path, within_any,
};
use crate::text::{chars_of, ends_with, has_char, lower_ascii, has_char_exec, same_chars, starts_with, string_eq, string_of};
use crate::unicode::{spec_to_lowercase, to_lowercase};

verus! {

/// The name of the AppContainer profile the agent runs in.
pub const APP_CONTAINER_NAME: &'static str = "CrabCage.OpenClaw";

/// A path the agent may use; `writable` grants modify, otherwise read and execute.
pub struct AllowedPathRule {
    pub path: String,
    pub writable: bool,
}

// ── Command line ────────────────────────────────────────────────────────────

/// `s` with every `"` written as `\"`.
pub open spec fn escape_quotes(s: Seq<char>) -> Seq<char>
    decreases s.len(),
{
    if s.len() == 0 {
        s
    } else {
        let prev = escape_quotes(s.drop_last());
        if s.last() == '"' {
            prev + seq!['\\', '"']
        } else {
            prev.push(s.last())
        }
    }
}

/// An argument needs quotes when it holds a space, a tab or a quote.
pub open spec fn needs_quotes(a: Seq<char>) -> bool {
    has_char(a, ' ') || has_char(a, '\t') || has_char(a, '"')
}

/// An argument as it is written into a command line.
pub open spec fn quoted_arg(a: Seq<char>) -> Seq<char> {
    if a.len() == 0 {
        seq!['"', '"']
    } else if !needs_quotes(a) {
        a
    } else {
        seq!['"'] + escape_quotes(a) + seq!['"']
    }
}

/// The parts joined by single spaces.
pub open spec fn join_spaced(parts: Seq<Seq<char>>) -> Seq<char>
    decreases parts.len(),
{
    if parts.len() == 0 {
        Seq::empty()
    } else if parts.len() == 1 {
        parts[0]
    } else {
        join_spaced(parts.drop_last()) + seq![' '] + parts.last()
    }
}

/// The command line for an executable and its arguments.
pub open spec fn command_line(exe: Seq<char>, args: Seq<Seq<char>>) -> Seq<char> {
    join_spaced(seq![quoted_arg(exe)] + args.map_values(|a: Seq<char>| quoted_arg(a)))
}

/// Quotes one command-line argument: `""` for an empty one, unchanged when it
/// holds no space, tab or quote, and otherwise inside quotes with each inner
/// quote escaped as `\"`.
pub fn quote_arg(arg: &str) -> (res: String)
    ensures
        res@ == quoted_arg(arg@),
{
    let a = chars_of(arg);
    if a.len() == 0 {
        let r = "\"\"".to_owned();
        proof {
            reveal_strlit("\"\"");
            assert(r@ =~= seq!['"', '"']);
        }
        return r;
    }
    if !has_char_exec(&a, ' ') && !has_char_exec(&a, '\t') && !has_char_exec(&a, '"') {
        return arg.to_owned();
    }
    let mut out: Vec<char> = Vec::new();
    out.push('"');
    let mut i: usize = 0;
    assert(a@.take(0) =~= Seq::<char>::empty());
    while i < a.len()
        invariant
            i <= a.len(),
            a@ == arg@,
            out@ == seq!['"'] + escape_quotes(a@.take(i as int)),
        decreases a.len() - i,
    {
        assert(a@.take(i + 1).drop_last() =~= a@.take(i as int));
        if a[i] == '"' {
            out.push('\\');
            out.push('"');
        } else {
            out.push(a[i]);
        }
        i += 1;
        assert(out@ =~= seq!['"'] + escape_quotes(a@.take(i as int)));
    }
    out.push('"');
    assert(a@.take(a.len() as int) =~= a@);
    string_of(&out)
}

/// Builds the command line: the quoted executable and the quoted arguments,
/// separated by single spaces.
pub fn build_command_line(executable_path: &str, args: &[String]) -> (res: String)
    ensures
        res@ == command_line(executable_path@, string_views(args@)),
{
    let mut line = quote_arg(executable_path);
    let ghost parts = seq![quoted_arg(executable_path@)] + string_views(args@).map_values(
        |a: Seq<char>| quoted_arg(a),
    );
    let mut i: usize = 0;
    assert(parts.take(1) =~= seq![quoted_arg(executable_path@)]);
    while i < args.len()
        invariant
            i <= args.len(),
            parts == seq![quoted_arg(executable_path@)] + string_views(args@).map_values(
                |a: Seq<char>| quoted_arg(a),
            ),
            line@ == join_spaced(parts.take(i + 1)),
        decreases args.len() - i,
    {
        let q = quote_arg(args[i].as_str());
        line.append(" ");
        line.append(q.as_str());
        proof {
            reveal_strlit(" ");
            let t = parts.take(i + 2);
            assert(t.drop_last() =~= parts.take(i + 1));
            assert(t.last() == q@);
        }
        i += 1;
    }
    assert(parts.take(args.len() + 1) =~= parts);
    line
}

/// A plain argument (non-empty, no space, tab or quote) is passed unchanged.
pub proof fn law_plain_argument_unchanged(a: Seq<char>)
    requires
        a.len() > 0,
        !needs_quotes(a),
    ensures
        quoted_arg(a) == a,
{
}

proof fn lemma_escape_quotes_escaped(s: Seq<char>)
    ensures
        forall|i: int|
            0 <= i < escape_quotes(s).len() && #[trigger] escape_quotes(s)[i] == '"' ==> i > 0
                && escape_quotes(s)[i - 1] == '\\',
    decreases s.len(),
{
    if s.len() > 0 {
        lemma_escape_quotes_escaped(s.drop_last());
        let prev = escape_quotes(s.drop_last());
        let e = escape_quotes(s);
        assert forall|i: int|
            0 <= i < e.len() && #[trigger] e[i] == '"' implies i > 0 && e[i - 1] == '\\' by {
            if i < prev.len() {
                assert(e[i] == prev[i]);
                assert(e[i - 1] == prev[i - 1]);
            }
        }
    }
}

/// Inside a quoted argument every quote is escaped: it cannot end the argument early.
pub proof fn law_quoted_argument_closed(a: Seq<char>)
    requires
        needs_quotes(a),
    ensures
        quoted_arg(a)[0] == '"',
        quoted_arg(a).last() == '"',
        forall|i: int|
            1 <= i < quoted_arg(a).len() - 1 && #[trigger] quoted_arg(a)[i] == '"' ==> quoted_arg(
                a,
            )[i - 1] == '\\',
{
    lemma_escape_quotes_escaped(a);
    let e = escape_quotes(a);
    let q = quoted_arg(a);
    assert forall|i: int| 1 <= i < q.len() - 1 && #[trigger] q[i] == '"' implies q[i - 1]
        == '\\' by {
        assert(q[i] == e[i - 1]);
        if i - 1 > 0 {
            assert(q[i - 1] == e[i - 2]);
        }
    }
}

// ── The grant cache ─────────────────────────────────────────────────────────

/// A grant that was applied: the path, whether it was writable, and the
/// modification time the path had then.
pub struct AclCacheEntry {
    pub path: String,
    pub writable: bool,
    pub mtime: Option<u64>,
}

/// The grants applied in earlier sessions.
pub struct AclCache {
    pub entries: Vec<AclCacheEntry>,
}

pub open spec fn entry_view(e: AclCacheEntry) -> (Seq<char>, bool, Option<u64>) {
    (e.path@, e.writable, e.mtime)
}

pub open spec fn cache_view(entries: Seq<AclCacheEntry>) -> Seq<(Seq<char>, bool, Option<u64>)> {
    entries.map_values(|e: AclCacheEntry| entry_view(e))
}

/// The grants whose path differs from `path`, in order.
pub open spec fn without_path(
    s: Seq<(Seq<char>, bool, Option<u64>)>,
    path: Seq<char>,
) -> Seq<(Seq<char>, bool, Option<u64>)>
    decreases s.len(),
{
    if s.len() == 0 {
        s
    } else {
        let prev = without_path(s.drop_last(), path);
        if s.last().0 == path {
            prev
        } else {
            prev.push(s.last())
        }
    }
}

/// The cache after recording a grant: any older grant of the path is gone,
/// the new one comes last.
pub open spec fn remembered(
    s: Seq<(Seq<char>, bool, Option<u64>)>,
    g: (Seq<char>, bool, Option<u64>),
) -> Seq<(Seq<char>, bool, Option<u64>)> {
    without_path(s, g.0).push(g)
}

/// No two grants in the cache name the same path.
pub open spec fn paths_unique(s: Seq<(Seq<char>, bool, Option<u64>)>) -> bool {
    forall|i: int, j: int| 0 <= i < j < s.len() ==> s[i].0 != s[j].0
}

fn clone_entry(e: &AclCacheEntry) -> (res: AclCacheEntry)
    ensures
        entry_view(res) == entry_view(*e),
{
    AclCacheEntry { path: e.path.clone(), writable: e.writable, mtime: e.mtime }
}

/// A grant needs applying unless the cache holds exactly this grant (same
/// path, same access, same modification time).
pub fn should_apply_acl(cache: &AclCache, path: &str, writable: bool, mtime: Option<u64>) -> (res:
    bool)
    ensures
        res == !cache_view(cache.entries@).contains((path@, writable, mtime)),
{
    let ghost v = cache_view(cache.entries@);
    let mut i: usize = 0;
    while i < cache.entries.len()
        invariant
            i <= cache.entries@.len(),
            v == cache_view(cache.entries@),
            forall|j: int| 0 <= j < i ==> v[j] != (path@, writable, mtime),
        decreases cache.entries.len() - i,
    {
        let e = &cache.entries[i];
        if e.writable == writable && e.mtime == mtime && string_eq(&e.path, path) {
            assert(v[i as int] == (path@, writable, mtime));
            return false;
        }
        i += 1;
    }
    true
}

/// Records an applied grant, replacing any older grant of the same path.
pub fn remember_acl(cache: &mut AclCache, path: &str, writable: bool, mtime: Option<u64>)
    ensures
        cache_view(final(cache).entries@) == remembered(
            cache_view(old(cache).entries@),
            (path@, writable, mtime),
        ),
{
    let ghost v = cache_view(cache.entries@);
    let mut kept: Vec<AclCacheEntry> = Vec::new();
    let mut i: usize = 0;
    assert(v.take(0) =~= Seq::<(Seq<char>, bool, Option<u64>)>::empty());
    while i < cache.entries.len()
        invariant
            i <= cache.entries@.len(),
            v == cache_view(cache.entries@),
            cache_view(kept@) == without_path(v.take(i as int), path@),
        decreases cache.entries.len() - i,
    {
        assert(v.take(i + 1).drop_last() =~= v.take(i as int));
        if !string_eq(&cache.entries[i].path, path) {
            kept.push(clone_entry(&cache.entries[i]));
            assert(cache_view(kept@) =~= without_path(v.take(i + 1), path@));
        }
        i += 1;
    }
    assert(v.take(cache.entries.len() as int) =~= v);
    kept.push(AclCacheEntry { path: path.to_owned(), writable, mtime });
    assert(cache_view(kept@) =~= remembered(v, (path@, writable, mtime)));
    cache.entries = kept;
}

proof fn lemma_without_path(s: Seq<(Seq<char>, bool, Option<u64>)>, path: Seq<char>)
    ensures
        forall|i: int| 0 <= i < without_path(s, path).len() ==> (#[trigger] without_path(s, path)[i]).0 != path,
        forall|x| #[trigger] without_path(s, path).contains(x) ==> s.contains(x),
        forall|x: (Seq<char>, bool, Option<u64>)| s.contains(x) && x.0 != path ==> #[trigger] without_path(s, path).contains(x),
        paths_unique(s) ==> paths_unique(without_path(s, path)),
    decreases s.len(),
{
    if s.len() > 0 {
        let r = s.drop_last();
        lemma_without_path(r, path);
        let w = without_path(r, path);
        assert forall|x| #[trigger] without_path(s, path).contains(x) implies s.contains(x) by {
            if x != s.last() {
                assert(w.contains(x));
                let k = choose|k: int| 0 <= k < r.len() && r[k] == x;
                assert(s[k] == x);
            } else {
                assert(s[s.len() - 1] == x);
            }
        }
        assert forall|x: (Seq<char>, bool, Option<u64>)| s.contains(x) && x.0 != path implies #[trigger] without_path(s, path).contains(x) by {
            let k = choose|k: int| 0 <= k < s.len() && s[k] == x;
            if k < s.len() - 1 {
                assert(r[k] == x);
                assert(w.contains(x));
                let m = choose|m: int| 0 <= m < w.len() && w[m] == x;
                assert(without_path(s, path)[m] == x);
            } else {
                assert(without_path(s, path)[w.len() as int] == x);
            }
        }
        if paths_unique(s) {
            assert(paths_unique(r));
            assert forall|i: int, j: int| 0 <= i < j < without_path(s, path).len() implies without_path(s, path)[i].0 != without_path(s, path)[j].0 by {
                if s.last().0 != path && j == w.len() {
                    let wi = w[i];
                    assert(w.contains(wi));
                    assert(r.contains(wi));
                    let k = choose|k: int| 0 <= k < r.len() && r[k] == wi;
                    assert(s[k] == wi);
                    assert(s[s.len() - 1] == s.last());
                }
            }
        }
    }
}

/// After a grant is recorded, the same grant is not applied again; grants
/// of other paths stay; and no path appears twice if none did before.
pub proof fn law_remember_then_cached(
    s: Seq<(Seq<char>, bool, Option<u64>)>,
    g: (Seq<char>, bool, Option<u64>),
)
    ensures
        remembered(s, g).contains(g),
        forall|x: (Seq<char>, bool, Option<u64>)| s.contains(x) && x.0 != g.0 ==> #[trigger] remembered(s, g).contains(x),
        forall|x| #[trigger] remembered(s, g).contains(x) ==> x == g || (s.contains(x) && x.0 != g.0),
        paths_unique(s) ==> paths_unique(remembered(s, g)),
{
    lemma_without_path(s, g.0);
    let w = without_path(s, g.0);
    let r = remembered(s, g);
    assert(r[w.len() as int] == g);
    assert forall|x: (Seq<char>, bool, Option<u64>)| s.contains(x) && x.0 != g.0 implies #[trigger] r.contains(x) by {
        assert(w.contains(x));
        let m = choose|m: int| 0 <= m < w.len() && w[m] == x;
        assert(r[m] == x);
    }
    assert forall|x| #[trigger] r.contains(x) implies x == g || (s.contains(x) && x.0 != g.0) by {
        let m = choose|m: int| 0 <= m < r.len() && r[m] == x;
        if m < w.len() {
            assert(w[m] == x);
            assert(w.contains(x));
        }
    }
    if paths_unique(s) {
        assert forall|i: int, j: int| 0 <= i < j < r.len() implies r[i].0 != r[j].0 by {
            if j == w.len() {
                assert(r[i] == w[i]);
            }
        }
    }
}

/// Recording the same grant twice leaves the cache as recording it once.
pub proof fn law_remember_idempotent(
    s: Seq<(Seq<char>, bool, Option<u64>)>,
    g: (Seq<char>, bool, Option<u64>),
)
    ensures
        remembered(remembered(s, g), g) == remembered(s, g),
{
    let w = without_path(s, g.0);
    lemma_without_path(s, g.0);
    assert(without_path(w, g.0) == w) by {
        lemma_without_path_noop(w, g.0);
    }
    let r = remembered(s, g);
    assert(r.drop_last() =~= w);
    assert(without_path(r, g.0) == without_path(w, g.0));
}

proof fn lemma_without_path_noop(s: Seq<(Seq<char>, bool, Option<u64>)>, path: Seq<char>)
    requires
        forall|i: int| 0 <= i < s.len() ==> (#[trigger] s[i]).0 != path,
    ensures
        without_path(s, path) == s,
    decreases s.len(),
{
    if s.len() > 0 {
        let r = s.drop_last();
        assert forall|i: int| 0 <= i < r.len() implies (#[trigger] r[i]).0 != path by {
            assert(r[i] == s[i]);
        }
        lemma_without_path_noop(r, path);
        assert(s.last() == s[s.len() - 1]);
        assert(r.push(s.last()) =~= s);
    }
}

// ── Runtime paths ───────────────────────────────────────────────────────────

/// An argument of the agent's command line, with what the file system says
/// of it: whether it exists, its file name and its parent folder.
pub struct RuntimeArg {
    pub path: String,
    pub exists: bool,
    pub file_name: Option<String>,
    pub parent: Option<String>,
}

pub open spec fn flag_views(v: Seq<(String, bool)>) -> Seq<(Seq<char>, bool)> {
    v.map_values(|p: (String, bool)| (p.0@, p.1))
}

pub open spec fn runtime_arg_view(a: RuntimeArg) -> (Seq<char>, bool, Option<Seq<char>>, Option<Seq<char>>) {
    (a.path@, a.exists, crate::proxy::opt_view(a.file_name), crate::proxy::opt_view(a.parent))
}

/// The read-only paths one argument adds: the argument when it exists, and
/// the folder of an existing `openclaw.mjs` (any ASCII case).
pub open spec fn arg_runtime_paths(a: (Seq<char>, bool, Option<Seq<char>>, Option<Seq<char>>)) -> Seq<(Seq<char>, bool)> {
    if !a.1 {
        Seq::empty()
    } else {
        let entry_script = match a.2 {
            Some(f) => crate::text::eq_ignore_ascii_case(f, "openclaw.mjs"@),
            None => false,
        };
        seq![(a.0, false)] + match a.3 {
            Some(p) => if entry_script {
                seq![(p, false)]
            } else {
                Seq::empty()
            },
            None => Seq::empty(),
        }
    }
}

pub open spec fn args_runtime_paths(args: Seq<(Seq<char>, bool, Option<Seq<char>>, Option<Seq<char>>)>) -> Seq<(Seq<char>, bool)>
    decreases args.len(),
{
    if args.len() == 0 {
        Seq::empty()
    } else {
        args_runtime_paths(args.drop_last()) + arg_runtime_paths(args.last())
    }
}

/// The paths the agent's runtime needs read access to, before sorting: the
/// executable and its folder when it exists, then what each argument adds.
pub open spec fn runtime_paths(
    exe: Seq<char>,
    exe_exists: bool,
    exe_parent: Option<Seq<char>>,
    args: Seq<(Seq<char>, bool, Option<Seq<char>>, Option<Seq<char>>)>,
) -> Seq<(Seq<char>, bool)> {
    (if exe_exists {
        seq![(exe, false)] + match exe_parent {
            Some(p) => seq![(p, false)],
            None => Seq::empty(),
        }
    } else {
        Seq::empty()
    }) + args_runtime_paths(args)
}

fn push_path(v: &mut Vec<(String, bool)>, p: String, w: bool)
    ensures
        flag_views(final(v)@) == flag_views(old(v)@).push((p@, w)),
{
    v.push((p, w));
    assert(flag_views(final(v)@) =~= flag_views(old(v)@).push((p@, w)));
}

/// An existing argument is always read-only accessible, and so is the
/// folder of an existing `openclaw.mjs` entry script (file name compared
/// without regard to ASCII case); a missing argument adds nothing.
pub proof fn law_entry_script_folder(
    path: Seq<char>,
    exists: bool,
    file_name: Option<Seq<char>>,
    parent: Option<Seq<char>>,
)
    ensures
        !exists ==> arg_runtime_paths((path, exists, file_name, parent)).len() == 0,
        exists ==> arg_runtime_paths((path, exists, file_name, parent))[0] == (path, false),
        (exists && file_name is Some && lower_ascii(file_name->0) == "openclaw.mjs"@ && parent is Some)
            ==> arg_runtime_paths((path, exists, file_name, parent)) == seq![(path, false), (parent->0, false)],
        (exists && (file_name is None || lower_ascii(file_name->0) != "openclaw.mjs"@))
            ==> arg_runtime_paths((path, exists, file_name, parent)) == seq![(path, false)],
{
    reveal_strlit("openclaw.mjs");
    assert(lower_ascii("openclaw.mjs"@) =~= "openclaw.mjs"@);
}

/// Lists the runtime paths the agent needs, in the order of `runtime_paths`.
fn list_runtime_paths(
    executable_path: &str,
    exe_exists: bool,
    exe_parent: Option<String>,
    args: &[RuntimeArg],
) -> (res: Vec<(String, bool)>)
    ensures
        flag_views(res@) == runtime_paths(
            executable_path@,
            exe_exists,
            crate::proxy::opt_view(exe_parent),
            args@.map_values(|a: RuntimeArg| runtime_arg_view(a)),
        ),
{
    let mut v: Vec<(String, bool)> = Vec::new();
    if exe_exists {
        push_path(&mut v, executable_path.to_owned(), false);
        match exe_parent {
            Some(p) => push_path(&mut v, p, false),
            None => {},
        }
    }
    let ghost first = flag_views(v@);
    let ghost av = args@.map_values(|a: RuntimeArg| runtime_arg_view(a));
    let mut i: usize = 0;
    assert(av.take(0) =~= Seq::<(Seq<char>, bool, Option<Seq<char>>, Option<Seq<char>>)>::empty());
    assert(first + Seq::<(Seq<char>, bool)>::empty() =~= first);
    while i < args.len()
        invariant
            i <= args@.len(),
            av == args@.map_values(|a: RuntimeArg| runtime_arg_view(a)),
            flag_views(v@) == first + args_runtime_paths(av.take(i as int)),
        decreases args.len() - i,
    {
        let a = &args[i];
        let ghost before = flag_views(v@);
        assert(av.take(i + 1).drop_last() =~= av.take(i as int));
        assert(av.take(i + 1).last() == runtime_arg_view(*a));
        if a.exists {
            push_path(&mut v, a.path.clone(), false);
            let entry_script = match &a.file_name {
                Some(f) => crate::text::eq_ignore_case_chars(&chars_of(f.as_str()), &chars_of("openclaw.mjs")),
                None => false,
            };
            if entry_script {
                match &a.parent {
                    Some(p) => push_path(&mut v, p.clone(), false),
                    None => {},
                }
            }
            assert(flag_views(v@) =~= before + arg_runtime_paths(runtime_arg_view(*a)));
        } else {
            assert(flag_views(v@) =~= before + arg_runtime_paths(runtime_arg_view(*a)));
        }
        i += 1;
        assert(flag_views(v@) =~= first + args_runtime_paths(av.take(i as int)));
    }
    assert(av.take(args.len() as int) =~= av);
    v
}

/// Strictly increasing in `Path`'s order (component by component), so no
/// path occurs twice.
pub open spec fn sorted_strictly(v: Seq<(Seq<char>, bool)>) -> bool {
    forall|i: int, j: int| 0 <= i < j < v.len() ==> path_lt(#[trigger] v[i].0, #[trigger] v[j].0)
}

/// Some entry of `v` is for the same path as `p` (equal components).
pub open spec fn has_path(v: Seq<(Seq<char>, bool)>, p: Seq<char>) -> bool {
    exists|i: int| 0 <= i < v.len() && same_path(v[i].0, p)
}

/// `v` holds entries of `w` only, and every path of `w`.
pub open spec fn lists_paths_of(v: Seq<(Seq<char>, bool)>, w: Seq<(Seq<char>, bool)>) -> bool {
    &&& forall|i: int| 0 <= i < v.len() ==> w.contains(#[trigger] v[i])
    &&& forall|k: int| 0 <= k < w.len() ==> has_path(v, (#[trigger] w[k]).0)
}

/// Adds `entry` to a list kept sorted by path, unless its path is already there.
fn insert_path(v: &mut Vec<(String, bool)>, entry: (String, bool))
    requires
        sorted_strictly(flag_views(old(v)@)),
    ensures
        sorted_strictly(flag_views(final(v)@)),
        forall|i: int|
            0 <= i < final(v)@.len() ==> flag_views(old(v)@).contains(#[trigger] flag_views(final(v)@)[i])
                || flag_views(final(v)@)[i] == (entry.0@, entry.1),
        forall|k: int|
            0 <= k < old(v)@.len() ==> exists|i: int|
                0 <= i < final(v)@.len() && flag_views(final(v)@)[i] == #[trigger] flag_views(old(v)@)[k],
        has_path(flag_views(final(v)@), entry.0@),
{
    let ghost fv = flag_views(v@);
    let key = components_of(entry.0.as_str());
    let ghost kc = path_components(entry.0@);
    let mut p: usize = 0;
    while p < v.len() && comps_less(&components_of(v[p].0.as_str()), &key)
        invariant
            p <= v@.len(),
            v@ == old(v)@,
            fv == flag_views(v@),
            sorted_strictly(fv),
            comp_views(key@) == kc,
            kc == path_components(entry.0@),
            forall|j: int| 0 <= j < p ==> comps_lt(path_components(#[trigger] fv[j].0), kc),
        decreases v@.len() - p,
    {
        assert(fv[p as int].0 == v@[p as int].0@);
        p += 1;
    }
    // every path at or after `p` sorts at or after the new one
    proof {
        assert forall|j: int| p <= j < fv.len() implies !comps_lt(path_components(#[trigger] fv[j].0), kc) by {
            assert(fv[p as int].0 == v@[p as int].0@);
            if j > p && comps_lt(path_components(fv[j].0), kc) {
                assert(path_lt(fv[p as int].0, fv[j].0));
                lemma_comps_lt_transitive(path_components(fv[p as int].0), path_components(fv[j].0), kc);
            }
        }
    }
    if p < v.len() && comps_equal(&components_of(v[p].0.as_str()), &key) {
        assert(fv[p as int].0 == v@[p as int].0@);
        assert(same_path(fv[p as int].0, entry.0@));
        assert forall|i: int| 0 <= i < v@.len() implies fv.contains(#[trigger] flag_views(v@)[i]) by {
            assert(fv[i] == flag_views(v@)[i]);
        }
        return;
    }
    v.insert(p, entry);
    let ghost nv = flag_views(v@);
    assert(nv =~= fv.insert(p as int, (entry.0@, entry.1)));
    proof {
        if p < fv.len() {
            assert(fv[p as int].0 == old(v)@[p as int].0@);
            lemma_comps_lt_total(path_components(fv[p as int].0), kc);
        }
        assert forall|i: int, j: int| 0 <= i < j < nv.len() implies path_lt(
            #[trigger] nv[i].0,
            #[trigger] nv[j].0,
        ) by {
            if j < p {
            } else if j == p {
                assert(nv[i] == fv[i]);
            } else if i < p {
                assert(nv[j] == fv[j - 1]);
                assert(nv[i] == fv[i]);
                if j - 1 == i {
                }
            } else if i == p {
                assert(nv[j] == fv[j - 1]);
                if j - 1 > p {
                    assert(path_lt(fv[p as int].0, fv[j - 1].0));
                    lemma_comps_lt_transitive(kc, path_components(fv[p as int].0), path_components(fv[j - 1].0));
                }
            } else {
                assert(nv[j] == fv[j - 1]);
                assert(nv[i] == fv[i - 1]);
            }
        }
        assert forall|i: int| 0 <= i < nv.len() implies fv.contains(#[trigger] nv[i]) || nv[i] == (
            entry.0@,
            entry.1,
        ) by {
            if i < p {
                assert(nv[i] == fv[i]);
            } else if i > p {
                assert(nv[i] == fv[i - 1]);
            }
        }
        assert forall|k: int| 0 <= k < fv.len() implies exists|i: int|
            0 <= i < nv.len() && nv[i] == #[trigger] fv[k] by {
            if k < p {
                assert(nv[k] == fv[k]);
            } else {
                assert(nv[k + 1] == fv[k]);
            }
        }
        assert(nv[p as int].0 == entry.0@);
    }
}

proof fn lemma_sorted_step(
    before: Seq<(Seq<char>, bool)>,
    after: Seq<(Seq<char>, bool)>,
    w: Seq<(Seq<char>, bool)>,
    i: int,
)
    requires
        0 <= i < w.len(),
        forall|j: int| 0 <= j < before.len() ==> w.contains(#[trigger] before[j]),
        forall|k: int| 0 <= k < i ==> has_path(before, (#[trigger] w[k]).0),
        forall|j: int| 0 <= j < after.len() ==> before.contains(#[trigger] after[j]) || after[j] == w[i],
        forall|k: int|
            0 <= k < before.len() ==> exists|j: int| 0 <= j < after.len() && after[j] == #[trigger] before[k],
        has_path(after, w[i].0),
    ensures
        forall|j: int| 0 <= j < after.len() ==> w.contains(#[trigger] after[j]),
        forall|k: int| 0 <= k < i + 1 ==> has_path(after, (#[trigger] w[k]).0),
{
    assert forall|j: int| 0 <= j < after.len() implies w.contains(#[trigger] after[j]) by {
        if after[j] == w[i] {
        } else {
            assert(before.contains(after[j]));
            let m = choose|m: int| 0 <= m < before.len() && before[m] == after[j];
            assert(w.contains(before[m]));
        }
    }
    assert forall|k: int| 0 <= k < i + 1 implies has_path(after, (#[trigger] w[k]).0) by {
        if k < i {
            let m = choose|m: int| 0 <= m < before.len() && same_path(before[m].0, w[k].0);
            let n = choose|n: int| 0 <= n < after.len() && after[n] == before[m];
            assert(same_path(after[n].0, w[k].0));
        }
    }
}

/// The entries of `w` in `Path`'s order, each path once (the first entry
/// of a path is kept, as a stable sort followed by removing repeats does).
pub fn sorted_unique_paths(w: Vec<(String, bool)>) -> (res: Vec<(String, bool)>)
    ensures
        sorted_strictly(flag_views(res@)),
        lists_paths_of(flag_views(res@), flag_views(w@)),
{
    let ghost wv = flag_views(w@);
    let mut out: Vec<(String, bool)> = Vec::new();
    let mut i: usize = 0;
    while i < w.len()
        invariant
            i <= w@.len(),
            wv == flag_views(w@),
            sorted_strictly(flag_views(out@)),
            forall|j: int| 0 <= j < out@.len() ==> wv.contains(#[trigger] flag_views(out@)[j]),
            forall|k: int| 0 <= k < i ==> has_path(flag_views(out@), (#[trigger] wv[k]).0),
        decreases w@.len() - i,
    {
        let ghost before = flag_views(out@);
        let e = (w[i].0.clone(), w[i].1);
        assert(wv[i as int] == (e.0@, e.1));
        insert_path(&mut out, e);
        proof {
            lemma_sorted_step(before, flag_views(out@), wv, i as int);
        }
        i += 1;
    }
    out
}

/// No entry asks for write access.
pub open spec fn read_only(v: Seq<(Seq<char>, bool)>) -> bool {
    forall|i: int| 0 <= i < v.len() ==> !(#[trigger] v[i]).1
}

proof fn lemma_args_paths_read_only(args: Seq<(Seq<char>, bool, Option<Seq<char>>, Option<Seq<char>>)>)
    ensures
        read_only(args_runtime_paths(args)),
    decreases args.len(),
{
    if args.len() > 0 {
        lemma_args_paths_read_only(args.drop_last());
        let a = args_runtime_paths(args.drop_last());
        let b = arg_runtime_paths(args.last());
        assert forall|i: int| 0 <= i < (a + b).len() implies !(#[trigger] (a + b)[i]).1 by {
            if i >= a.len() {
                assert((a + b)[i] == b[i - a.len()]);
            }
        }
    }
}

/// The paths the agent's runtime needs read access to, in `Path`'s order
/// (component by component) with each path once: every path of
/// `runtime_paths` and no other, all read-only.
pub fn collect_runtime_paths(
    executable_path: &str,
    exe_exists: bool,
    exe_parent: Option<String>,
    args: &[RuntimeArg],
) -> (res: Vec<(String, bool)>)
    ensures
        sorted_strictly(flag_views(res@)),
        lists_paths_of(
            flag_views(res@),
            runtime_paths(
                executable_path@,
                exe_exists,
                crate::proxy::opt_view(exe_parent),
                args@.map_values(|a: RuntimeArg| runtime_arg_view(a)),
            ),
        ),
        read_only(flag_views(res@)),
{
    let ghost all = runtime_paths(
        executable_path@,
        exe_exists,
        crate::proxy::opt_view(exe_parent),
        args@.map_values(|a: RuntimeArg| runtime_arg_view(a)),
    );
    let listed = list_runtime_paths(executable_path, exe_exists, exe_parent, args);
    let res = sorted_unique_paths(listed);
    proof {
        let av = args@.map_values(|a: RuntimeArg| runtime_arg_view(a));
        lemma_args_paths_read_only(av);
        assert(read_only(all)) by {
            assert forall|i: int| 0 <= i < all.len() implies !(#[trigger] all[i]).1 by {
                let tail = args_runtime_paths(av);
                let h = all.len() - tail.len();
                if i >= h {
                    assert(all[i] == tail[i - h]);
                }
            }
        }
        let rv = flag_views(res@);
        assert forall|i: int| 0 <= i < rv.len() implies !(#[trigger] rv[i]).1 by {
            assert(all.contains(rv[i]));
        }
    }
    res
}

/// A read-only path that every AppContainer may read anyway: it lies at or
/// below one of the system folders (`%ProgramFiles%`, `%ProgramFiles(x86)%`,
/// `%SystemRoot%`, `%WINDIR%`, those that are set).
pub fn is_implicitly_readable_system_path(path: &str, system_roots: &[String]) -> (res: bool)
    ensures
        res == exists|k: int|
            0 <= k < system_roots@.len() && path_starts_with(path@, #[trigger] system_roots@[k]@),
{
    within_any(path, system_roots)
}

/// The folder under which the app keeps its data: `CrabCage` in
/// `%APPDATA%`, else in `$HOME`, else in the current folder.
pub fn data_dir_path(appdata: Option<String>, home: Option<String>) -> (res: String)
    ensures
        res@ == join_path_spec(
            crate::config::data_base_spec(crate::proxy::opt_view(appdata), crate::proxy::opt_view(home)),
            "CrabCage"@,
        ),
{
    let base = crate::config::data_dir_base(appdata, home);
    join_path(base.as_str(), "CrabCage")
}

/// The container's folder when Windows cannot name it:
/// `%LOCALAPPDATA%\Packages\CrabCage.OpenClaw\AC`, with the app's data
/// folder in place of `%LOCALAPPDATA%` when that is not set.
pub open spec fn fallback_root_spec(local_appdata: Option<Seq<char>>, data_dir: Seq<char>) -> Seq<char> {
    let base = match local_appdata {
        Some(l) => l,
        None => data_dir,
    };
    join_path_spec(join_path_spec(join_path_spec(base, "Packages"@), APP_CONTAINER_NAME@), "AC"@)
}

/// The container's folder when Windows cannot name it (see `fallback_root_spec`).
pub fn fallback_container_root(local_appdata: Option<String>, data_dir: &str) -> (res: String)
    ensures
        res@ == fallback_root_spec(crate::proxy::opt_view(local_appdata), data_dir@),
{
    let base = match local_appdata {
        Some(l) => l,
        None => data_dir.to_owned(),
    };
    let packages = join_path(base.as_str(), "Packages");
    let named = join_path(packages.as_str(), APP_CONTAINER_NAME);
    join_path(named.as_str(), "AC")
}

/// The agent's folders inside the container folder: home, app data, local
/// app data, temp and runtime.
pub fn container_dir_paths(root: &str) -> (res: (String, String, String, String, String))
    ensures
        res.0@ == join_path_spec(root@, "home"@),
        res.1@ == join_path_spec(root@, "appdata"@),
        res.2@ == join_path_spec(root@, "localappdata"@),
        res.3@ == join_path_spec(root@, "temp"@),
        res.4@ == join_path_spec(root@, "runtime"@),
{
    (
        join_path(root, "home"),
        join_path(root, "appdata"),
        join_path(root, "localappdata"),
        join_path(root, "temp"),
        join_path(root, "runtime"),
    )
}

/// What to do about one path before the agent starts.
#[derive(Clone, Copy, PartialEq, Eq, Structural, Debug)]
pub enum AclAction {
    /// A read-only system path that every AppContainer may read: record it, grant nothing.
    SkipSystem,
    /// Grant access (parents first), then record the grant.
    Grant,
    /// The same grant was applied before: nothing to do.
    Cached,
}

/// Chooses the action for a path: read-only paths that are readable anyway
/// are skipped, grants found in the cache are not repeated, all else is granted.
pub fn acl_action(
    cache: &AclCache,
    path: &str,
    writable: bool,
    mtime: Option<u64>,
    implicitly_readable: bool,
) -> (res: AclAction)
    ensures
        res == (if !writable && implicitly_readable {
            AclAction::SkipSystem
        } else if !cache_view(cache.entries@).contains((path@, writable, mtime)) {
            AclAction::Grant
        } else {
            AclAction::Cached
        }),
{
    if !writable && implicitly_readable {
        AclAction::SkipSystem
    } else if should_apply_acl(cache, path, writable, mtime) {
        AclAction::Grant
    } else {
        AclAction::Cached
    }
}

/// A parent directory gets a traverse grant when it exists, lies within the
/// user's profile or app-data folders, and is not the profile folder itself.
pub fn needs_traverse_grant(exists: bool, within_user_scope: bool, is_profile_root: bool) -> (res:
    bool)
    ensures
        res == (exists && within_user_scope && !is_profile_root),
{
    exists && within_user_scope && !is_profile_root
}

/// The folders above a path that get a traverse grant, farthest first,
/// given the folders above it nearest first, each with whether it exists,
/// lies within the user's folders, and is the profile folder itself.
pub open spec fn traverse_plan(ancestors: Seq<(Seq<char>, bool, bool, bool)>) -> Seq<Seq<char>>
    decreases ancestors.len(),
{
    if ancestors.len() == 0 {
        Seq::empty()
    } else {
        let rest = traverse_plan(ancestors.drop_first());
        let a = ancestors[0];
        if a.1 && a.2 && !a.3 {
            rest.push(a.0)
        } else {
            rest
        }
    }
}

/// One of the folders exists, lies within the user's folders, is not the
/// profile folder, and has the text `x`.
pub open spec fn needed_ancestor(ancestors: Seq<(Seq<char>, bool, bool, bool)>, x: Seq<char>) -> bool {
    exists|k: int| 0 <= k < ancestors.len() && ancestors[k].0 == x && ancestors[k].1 && ancestors[k].2 && !ancestors[k].3
}

/// Traverse access goes exactly to the folders above the path that exist,
/// lie within the user's folders and are not the profile folder itself,
/// and a farther folder comes before a nearer one.
pub proof fn law_traverse_plan(ancestors: Seq<(Seq<char>, bool, bool, bool)>)
    ensures
        forall|i: int|
            0 <= i < traverse_plan(ancestors).len() ==> needed_ancestor(ancestors, #[trigger] traverse_plan(ancestors)[i]),
        forall|k: int|
            0 <= k < ancestors.len() && (#[trigger] ancestors[k]).1 && ancestors[k].2 && !ancestors[k].3
                ==> traverse_plan(ancestors).contains(ancestors[k].0),
        forall|k1: int, k2: int|
            0 <= k1 < k2 < ancestors.len() && ancestors[k1].1 && ancestors[k1].2 && !ancestors[k1].3
                && ancestors[k2].1 && ancestors[k2].2 && !ancestors[k2].3 ==> exists|i1: int, i2: int|
                0 <= i2 < i1 < traverse_plan(ancestors).len() && traverse_plan(ancestors)[i1] == (
                #[trigger] ancestors[k1]).0 && traverse_plan(ancestors)[i2] == (#[trigger] ancestors[k2]).0,
    decreases ancestors.len(),
{
    if ancestors.len() > 0 {
        let r = ancestors.drop_first();
        law_traverse_plan(r);
        let rest = traverse_plan(r);
        let plan = traverse_plan(ancestors);
        let a = ancestors[0];
        let needed = a.1 && a.2 && !a.3;
        assert forall|k: int| 0 <= k < r.len() implies r[k] == ancestors[k + 1] by {}
        assert forall|i: int| 0 <= i < plan.len() implies needed_ancestor(ancestors, #[trigger] plan[i]) by {
            if i < rest.len() {
                assert(plan[i] == rest[i]);
                assert(needed_ancestor(r, rest[i]));
                let k = choose|k: int| 0 <= k < r.len() && r[k].0 == rest[i] && r[k].1 && r[k].2 && !r[k].3;
                assert(ancestors[k + 1] == r[k]);
            } else {
                assert(needed && plan[i] == a.0);
                assert(ancestors[0].0 == plan[i] && ancestors[0].1 && ancestors[0].2 && !ancestors[0].3);
            }
        }
        assert forall|k: int|
            0 <= k < ancestors.len() && (#[trigger] ancestors[k]).1 && ancestors[k].2 && !ancestors[k].3
                implies plan.contains(ancestors[k].0) by {
            if k == 0 {
                assert(plan[rest.len() as int] == a.0);
            } else {
                assert(ancestors[k] == r[k - 1]);
                assert(rest.contains(r[k - 1].0));
                let i = choose|i: int| 0 <= i < rest.len() && rest[i] == r[k - 1].0;
                assert(plan[i] == rest[i]);
            }
        }
        assert forall|k1: int, k2: int|
            0 <= k1 < k2 < ancestors.len() && ancestors[k1].1 && ancestors[k1].2 && !ancestors[k1].3
                && ancestors[k2].1 && ancestors[k2].2 && !ancestors[k2].3 implies exists|i1: int, i2: int|
                0 <= i2 < i1 < plan.len() && plan[i1] == (#[trigger] ancestors[k1]).0 && plan[i2] == (
                #[trigger] ancestors[k2]).0 by {
            assert(ancestors[k2] == r[k2 - 1]);
            if k1 == 0 {
                assert(rest.contains(r[k2 - 1].0));
                let i2 = choose|i: int| 0 <= i < rest.len() && rest[i] == r[k2 - 1].0;
                assert(plan[i2] == rest[i2]);
                assert(plan[rest.len() as int] == a.0);
            } else {
                assert(ancestors[k1] == r[k1 - 1]);
                let (i1, i2) = choose|i1: int, i2: int|
                    0 <= i2 < i1 < rest.len() && rest[i1] == (#[trigger] r[k1 - 1]).0 && rest[i2] == (
                    #[trigger] r[k2 - 1]).0;
                assert(plan[i1] == rest[i1]);
                assert(plan[i2] == rest[i2]);
            }
        }
    }
}

pub open spec fn ancestor_views(v: Seq<(String, bool, bool, bool)>) -> Seq<(Seq<char>, bool, bool, bool)> {
    v.map_values(|a: (String, bool, bool, bool)| (a.0@, a.1, a.2, a.3))
}

/// The folders to grant traverse access to before a path, farthest first
/// (see `traverse_plan`).
pub fn traverse_grants(ancestors: &[(String, bool, bool, bool)]) -> (res: Vec<String>)
    ensures
        string_views(res@) == traverse_plan(ancestor_views(ancestors@)),
{
    let ghost av = ancestor_views(ancestors@);
    let mut out: Vec<String> = Vec::new();
    let mut i: usize = ancestors.len();
    assert(av.skip(av.len() as int) =~= Seq::<(Seq<char>, bool, bool, bool)>::empty());
    assert(string_views(out@) =~= Seq::<Seq<char>>::empty());
    while i > 0
        invariant
            i <= ancestors@.len(),
            av == ancestor_views(ancestors@),
            string_views(out@) == traverse_plan(av.skip(i as int)),
        decreases i,
    {
        i -= 1;
        let ghost before = string_views(out@);
        assert(av.skip(i as int).drop_first() =~= av.skip(i + 1));
        assert(av.skip(i as int)[0] == av[i as int]);
        let a = &ancestors[i];
        if needs_traverse_grant(a.1, a.2, a.3) {
            out.push(a.0.clone());
            assert(string_views(out@) =~= before.push(a.0@));
        }
    }
    assert(av.skip(0) =~= av);
    out
}

/// The access an ACL entry gives.
#[derive(Clone, Copy, PartialEq, Eq, Structural, Debug)]
pub enum DaclAccess {
    Read,
    ReadWrite,
}

/// How an ACL entry is inherited.
#[derive(Clone, Copy, PartialEq, Eq, Structural, Debug)]
pub enum DaclInheritance {
    /// By the folders and files below a directory.
    SubContainersAndObjects,
    /// By objects only (a file's entry).
    ObjectsOnly,
}

/// The ACL entry for a path: read and write when writable, read otherwise;
/// inherited by everything below a directory, by objects only for a file.
pub fn dacl_grant(writable: bool, is_dir: bool) -> (res: (DaclAccess, DaclInheritance))
    ensures
        res.0 == (if writable {
            DaclAccess::ReadWrite
        } else {
            DaclAccess::Read
        }),
        res.1 == (if is_dir {
            DaclInheritance::SubContainersAndObjects
        } else {
            DaclInheritance::ObjectsOnly
        }),
{
    let access = if writable {
        DaclAccess::ReadWrite
    } else {
        DaclAccess::Read
    };
    let inheritance = if is_dir {
        DaclInheritance::SubContainersAndObjects
    } else {
        DaclInheritance::ObjectsOnly
    };
    (access, inheritance)
}

/// A path to prepare before the agent starts.
pub struct GrantRequest {
    pub path: String,
    pub writable: bool,
    /// A read-only system path that every AppContainer may read anyway.
    pub implicitly_readable: bool,
}

pub open spec fn request_views(v: Seq<GrantRequest>) -> Seq<(Seq<char>, bool, bool)> {
    v.map_values(|r: GrantRequest| (r.path@, r.writable, r.implicitly_readable))
}

pub open spec fn triple_views(v: Seq<(String, bool, bool)>) -> Seq<(Seq<char>, bool, bool)> {
    v.map_values(|t: (String, bool, bool)| (t.0@, t.1, t.2))
}

/// The configured path rules that exist, given as path, writable and
/// whether the path exists.
pub open spec fn existing_rules(rules: Seq<(Seq<char>, bool, bool)>) -> Seq<(Seq<char>, bool, bool)>
    decreases rules.len(),
{
    if rules.len() == 0 {
        Seq::empty()
    } else {
        let prev = existing_rules(rules.drop_last());
        let r = rules.last();
        if r.2 {
            prev.push((r.0, r.1, false))
        } else {
            prev
        }
    }
}

/// The paths prepared before the agent starts, in order: the container's
/// own folders, writable; the runtime paths (path, writable, readable
/// anyway); the configured rules whose path exists.
pub open spec fn grant_plan(
    managed: Seq<Seq<char>>,
    runtime: Seq<(Seq<char>, bool, bool)>,
    rules: Seq<(Seq<char>, bool, bool)>,
) -> Seq<(Seq<char>, bool, bool)> {
    managed.map_values(|p: Seq<char>| (p, true, false)) + runtime + existing_rules(rules)
}

/// A rule whose path exists requests `x`: its path and write permission.
pub open spec fn existing_rule(rules: Seq<(Seq<char>, bool, bool)>, x: (Seq<char>, bool, bool)) -> bool {
    exists|k: int| 0 <= k < rules.len() && x == (rules[k].0, rules[k].1, false) && rules[k].2
}

/// The container's own folders are all granted writable, first; each
/// runtime path follows as given; then a configured rule is requested
/// exactly when its path exists, with its own write permission, never as
/// readable anyway.
pub proof fn law_grant_plan(
    managed: Seq<Seq<char>>,
    runtime: Seq<(Seq<char>, bool, bool)>,
    rules: Seq<(Seq<char>, bool, bool)>,
)
    ensures
        forall|i: int|
            0 <= i < managed.len() ==> #[trigger] grant_plan(managed, runtime, rules)[i] == (managed[i], true, false),
        forall|i: int|
            0 <= i < runtime.len() ==> #[trigger] grant_plan(managed, runtime, rules)[managed.len() + i] == runtime[i],
        forall|i: int|
            0 <= i < existing_rules(rules).len() ==> existing_rule(rules, #[trigger] existing_rules(rules)[i]),
        forall|k: int| 0 <= k < rules.len() && (#[trigger] rules[k]).2 ==> existing_rules(rules).contains(
            (rules[k].0, rules[k].1, false),
        ),
        grant_plan(managed, runtime, rules).len() == managed.len() + runtime.len() + existing_rules(rules).len(),
{
    lemma_existing_rules(rules);
}

proof fn lemma_existing_rules(rules: Seq<(Seq<char>, bool, bool)>)
    ensures
        forall|i: int|
            0 <= i < existing_rules(rules).len() ==> existing_rule(rules, #[trigger] existing_rules(rules)[i]),
        forall|k: int| 0 <= k < rules.len() && (#[trigger] rules[k]).2 ==> existing_rules(rules).contains(
            (rules[k].0, rules[k].1, false),
        ),
    decreases rules.len(),
{
    if rules.len() > 0 {
        let r = rules.drop_last();
        lemma_existing_rules(r);
        let prev = existing_rules(r);
        let e = existing_rules(rules);
        let last = rules.last();
        assert(last == rules[rules.len() - 1]);
        assert forall|i: int| 0 <= i < e.len() implies existing_rule(rules, #[trigger] e[i]) by {
            if i < prev.len() {
                assert(e[i] == prev[i]);
                assert(existing_rule(r, prev[i]));
                let k = choose|k: int| 0 <= k < r.len() && prev[i] == (r[k].0, r[k].1, false) && r[k].2;
                assert(rules[k] == r[k]);
                assert(e[i] == (rules[k].0, rules[k].1, false) && rules[k].2);
            } else {
                let k = rules.len() - 1;
                assert(rules[k] == last);
                assert(last.2 && e == prev.push((last.0, last.1, false)));
                assert(e[i] == (rules[k].0, rules[k].1, false) && rules[k].2);
            }
        }
        assert forall|k: int| 0 <= k < rules.len() && (#[trigger] rules[k]).2 implies e.contains(
            (rules[k].0, rules[k].1, false),
        ) by {
            if k < r.len() {
                assert(rules[k] == r[k]);
                let i = choose|i: int| 0 <= i < prev.len() && prev[i] == (r[k].0, r[k].1, false);
                assert(e[i] == prev[i]);
            } else {
                assert(e[prev.len() as int] == (last.0, last.1, false));
            }
        }
    }
}

fn push_request(v: &mut Vec<GrantRequest>, path: String, writable: bool, implicitly_readable: bool)
    ensures
        request_views(final(v)@) == request_views(old(v)@).push((path@, writable, implicitly_readable)),
{
    v.push(GrantRequest { path, writable, implicitly_readable });
    assert(request_views(final(v)@) =~= request_views(old(v)@).push((path@, writable, implicitly_readable)));
}

/// Lists the paths to prepare before the agent starts (see `grant_plan`).
pub fn grant_requests(
    managed: &[String],
    runtime: &[(String, bool, bool)],
    rules: &[(String, bool, bool)],
) -> (res: Vec<GrantRequest>)
    ensures
        request_views(res@) == grant_plan(string_views(managed@), triple_views(runtime@), triple_views(rules@)),
{
    let mut out: Vec<GrantRequest> = Vec::new();
    let ghost mv = string_views(managed@);
    let mut i: usize = 0;
    while i < managed.len()
        invariant
            i <= managed@.len(),
            mv == string_views(managed@),
            request_views(out@) == mv.take(i as int).map_values(|p: Seq<char>| (p, true, false)),
        decreases managed.len() - i,
    {
        push_request(&mut out, managed[i].clone(), true, false);
        i += 1;
        assert(request_views(out@) =~= mv.take(i as int).map_values(|p: Seq<char>| (p, true, false)));
    }
    assert(mv.take(managed.len() as int) =~= mv);
    let ghost first = request_views(out@);
    let ghost rv = triple_views(runtime@);
    let mut j: usize = 0;
    assert(first + rv.take(0) =~= first);
    while j < runtime.len()
        invariant
            j <= runtime@.len(),
            rv == triple_views(runtime@),
            request_views(out@) == first + rv.take(j as int),
        decreases runtime.len() - j,
    {
        let r = &runtime[j];
        push_request(&mut out, r.0.clone(), r.1, r.2);
        j += 1;
        assert(request_views(out@) =~= first + rv.take(j as int));
    }
    assert(rv.take(runtime.len() as int) =~= rv);
    let ghost second = request_views(out@);
    let ghost qv = triple_views(rules@);
    let mut k: usize = 0;
    assert(qv.take(0) =~= Seq::<(Seq<char>, bool, bool)>::empty());
    assert(second + existing_rules(qv.take(0)) =~= second);
    while k < rules.len()
        invariant
            k <= rules@.len(),
            qv == triple_views(rules@),
            request_views(out@) == second + existing_rules(qv.take(k as int)),
        decreases rules.len() - k,
    {
        let r = &rules[k];
        assert(qv.take(k + 1).drop_last() =~= qv.take(k as int));
        assert(qv.take(k + 1).last() == qv[k as int]);
        if r.2 {
            push_request(&mut out, r.0.clone(), r.1, false);
        }
        k += 1;
        assert(request_views(out@) =~= second + existing_rules(qv.take(k as int)));
    }
    assert(qv.take(rules.len() as int) =~= qv);
    out
}

// ── icacls ──────────────────────────────────────────────────────────────────

/// The `icacls` grant for a SID: `(OI)(CI)` inheritance on directories,
/// modify `(M)` when writable, read and execute `(RX)` otherwise.
pub open spec fn icacls_permission(sid: Seq<char>, is_dir: bool, writable: bool) -> Seq<char> {
    "*"@ + sid + ":"@ + (if is_dir {
        "(OI)(CI)"@
    } else {
        Seq::empty()
    }) + (if writable {
        "(M)"@
    } else {
        "(RX)"@
    })
}

/// The grant gives modify access exactly to writable paths and read and
/// execute access exactly to the others, for files and directories alike;
/// it names the SID first, and a directory's grant is a file's grant with
/// the inheritance flags `(OI)(CI)` put after the SID.
pub proof fn law_icacls_access_follows_writable(sid: Seq<char>, is_dir: bool, writable: bool)
    ensures
        ends_with(icacls_permission(sid, is_dir, writable), "(M)"@) <==> writable,
        ends_with(icacls_permission(sid, is_dir, writable), "(RX)"@) <==> !writable,
        starts_with(icacls_permission(sid, is_dir, writable), seq!['*'] + sid + seq![':']),
        writable ==> icacls_permission(sid, false, writable) == seq!['*'] + sid + seq![':', '(', 'M', ')'],
        !writable ==> icacls_permission(sid, false, writable) == seq!['*'] + sid + seq![':', '(', 'R', 'X', ')'],
        icacls_permission(sid, true, writable) == seq!['*'] + sid + seq![':', '(', 'O', 'I', ')', '(', 'C', 'I', ')']
            + icacls_permission(sid, false, writable).skip(sid.len() + 2int),
{
    reveal_strlit("*");
    reveal_strlit(":");
    reveal_strlit("(OI)(CI)");
    reveal_strlit("(M)");
    reveal_strlit("(RX)");
    let p = icacls_permission(sid, is_dir, writable);
    let head = seq!['*'] + sid + seq![':'];
    let flags = if is_dir {
        "(OI)(CI)"@
    } else {
        Seq::<char>::empty()
    };
    let tail = if writable {
        "(M)"@
    } else {
        "(RX)"@
    };
    assert(p =~= head + flags + tail);
    assert(p.skip(p.len() - tail.len()) =~= tail);
    assert(p.take(head.len() as int) =~= head);
    if writable {
        assert(p.skip(p.len() - 4)[0] != "(RX)"@[0]);
    } else {
        assert(p.skip(p.len() - 3)[0] != "(M)"@[0]);
    }
    let f = icacls_permission(sid, false, writable);
    assert(f =~= head + tail);
    assert(f.skip(sid.len() + 2int) =~= tail);
    assert(icacls_permission(sid, true, writable) =~= head + "(OI)(CI)"@ + tail);
}

/// The arguments after the path for `icacls <path> /grant <perm> /C /L /Q`,
/// with `/T` for a directory granted recursively.
pub fn icacls_grant_arguments(sid: &str, is_dir: bool, writable: bool, recursive: bool) -> (res:
    Vec<String>)
    ensures
        string_views(res@) == seq!["/grant"@, icacls_permission(sid@, is_dir, writable), "/C"@, "/L"@, "/Q"@]
            + (if is_dir && recursive {
            seq!["/T"@]
        } else {
            Seq::empty()
        }),
        ends_with(res@[1]@, "(M)"@) <==> writable,
        ends_with(res@[1]@, "(RX)"@) <==> !writable,
{
    proof {
        law_icacls_access_follows_writable(sid@, is_dir, writable);
    }
    let mut perm = "*".to_owned();
    perm.append(sid);
    perm.append(":");
    if is_dir {
        perm.append("(OI)(CI)");
    }
    if writable {
        perm.append("(M)");
    } else {
        perm.append("(RX)");
    }
    proof {
        assert(perm@ =~= icacls_permission(sid@, is_dir, writable));
    }
    let mut args: Vec<String> = Vec::new();
    args.push("/grant".to_owned());
    args.push(perm);
    args.push("/C".to_owned());
    args.push("/L".to_owned());
    args.push("/Q".to_owned());
    if is_dir && recursive {
        args.push("/T".to_owned());
    }
    proof {
        assert(string_views(args@) =~= seq!["/grant"@, icacls_permission(sid@, is_dir, writable), "/C"@, "/L"@, "/Q"@]
            + (if is_dir && recursive {
            seq!["/T"@]
        } else {
            Seq::empty()
        }));
    }
    args
}

// ── The AppContainer profile ───────────────────────────────────────────────

/// The hexadecimal digit for `d < 16`, upper case.
pub open spec fn hex_digit(d: int) -> char {
    if d < 10 {
        ((d + 48) as u32) as char
    } else {
        ((d + 55) as u32) as char
    }
}

/// Digits below ten are written `0` to `9`, the others as the upper-case
/// letters from `A`.
pub proof fn law_hex_digits(d: int)
    requires
        0 <= d < 16,
    ensures
        d < 10 ==> hex_digit(d) as u32 == ('0' as u32) + d,
        d >= 10 ==> hex_digit(d) as u32 == ('A' as u32) + (d - 10),
        ('0' <= hex_digit(d) && hex_digit(d) <= '9') || ('A' <= hex_digit(d) && hex_digit(d) <= 'F'),
{
}

/// `format!("{:08X}", v)`: eight upper-case hexadecimal digits.
pub open spec fn hex8(v: u32) -> Seq<char> {
    Seq::new(8, |i: int| hex_digit(((v as int) / pow16(7 - i)) % 16))
}

pub open spec fn pow16(k: int) -> int
    decreases k,
{
    if k <= 0 {
        1
    } else {
        16 * pow16(k - 1)
    }
}

/// An `HRESULT` as the unsigned number `{:08X}` prints.
pub open spec fn hresult_bits(hr: i32) -> u32 {
    if hr < 0 {
        ((hr as int) + 0x1_0000_0000) as u32
    } else {
        hr as u32
    }
}

fn hex8_exec(v: u32) -> (res: String)
    ensures
        res@ == hex8(v),
{
    let mut digits: Vec<char> = Vec::new();
    let mut k: u32 = 0;
    let mut div: u32 = 0x1000_0000;
    assert(pow16(7) == 0x1000_0000) by {
        reveal_with_fuel(pow16, 8);
    }
    while k < 8
        invariant
            k <= 8,
            div as int == pow16(7 - k as int),
            digits@.len() == k,
            forall|i: int| 0 <= i < k ==> #[trigger] digits@[i] == hex_digit(((v as int) / pow16(7 - i)) % 16),
        decreases 8 - k,
    {
        assert(pow16(7 - k as int) > 0) by {
            lemma_pow16_pos(7 - k as int);
        }
        let d = (v / div) % 16;
        let c = if d < 10 {
            (48u8 + d as u8) as char
        } else {
            (55u8 + d as u8) as char
        };
        assert(c == hex_digit(d as int));
        digits.push(c);
        if k < 7 {
            proof {
                assert(pow16(7 - k as int) == 16 * pow16(7 - (k + 1) as int));
            }
            div = div / 16;
        }
        k += 1;
    }
    assert(digits@ =~= hex8(v));
    string_of(&digits)
}

proof fn lemma_pow16_pos(k: int)
    ensures
        pow16(k) > 0,
    decreases k,
{
    if k > 0 {
        lemma_pow16_pos(k - 1);
    }
}

fn hresult_text(hr: i32) -> (res: String)
    ensures
        res@ == hex8(hresult_bits(hr)),
{
    let bits: u32 = if hr < 0 {
        (hr as i64 + 0x1_0000_0000i64) as u32
    } else {
        hr as u32
    };
    hex8_exec(bits)
}

/// What to do after trying to create the AppContainer profile.
pub enum ProfileStep {
    /// Use the SID that the creation returned.
    UseCreated,
    /// The creation returned no SID: derive it from the profile name again.
    DeriveAgain,
    /// Stop with this error.
    Failed(String),
}

/// The profile exists when its SID could be derived from its name (a
/// non-negative `HRESULT`); otherwise it must be created.
pub fn profile_needs_creation(derive_hr: i32) -> (res: bool)
    ensures
        res == (derive_hr < 0),
{
    derive_hr < 0
}

/// The step after creating the profile: an error for a failed creation, else
/// the created SID, or a second derivation when none came back.
pub fn after_profile_creation(create_hr: i32, sid_returned: bool) -> (res: ProfileStep)
    ensures
        match res {
            ProfileStep::Failed(e) => create_hr < 0 && e@
                == "AppContainer-Profil konnte nicht erstellt werden (HRESULT 0x"@ + hex8(
                hresult_bits(create_hr),
            ) + ")"@,
            ProfileStep::DeriveAgain => create_hr >= 0 && !sid_returned,
            ProfileStep::UseCreated => create_hr >= 0 && sid_returned,
        },
{
    if create_hr < 0 {
        let mut e = "AppContainer-Profil konnte nicht erstellt werden (HRESULT 0x".to_owned();
        e.append(hresult_text(create_hr).as_str());
        e.append(")");
        ProfileStep::Failed(e)
    } else if sid_returned {
        ProfileStep::UseCreated
    } else {
        ProfileStep::DeriveAgain
    }
}

/// The outcome of deriving the SID a second time.
pub fn after_second_derivation(derive_hr: i32) -> (res: Result<(), String>)
    ensures
        match res {
            Ok(()) => derive_hr >= 0,
            Err(e) => derive_hr < 0 && e@ == "AppContainer-SID konnte nicht abgeleitet werden (HRESULT 0x"@
                + hex8(hresult_bits(derive_hr)) + ")"@,
        },
{
    if derive_hr < 0 {
        let mut e = "AppContainer-SID konnte nicht abgeleitet werden (HRESULT 0x".to_owned();
        e.append(hresult_text(derive_hr).as_str());
        e.append(")");
        Err(e)
    } else {
        Ok(())
    }
}

// ── Child processes ─────────────────────────────────────────────────────────

/// The processes whose parent is `parent`, in snapshot order; a snapshot
/// entry is `(process id, parent process id)`.
pub open spec fn children_of(snapshot: Seq<(u32, u32)>, parent: u32) -> Seq<u32>
    decreases snapshot.len(),
{
    if snapshot.len() == 0 {
        Seq::empty()
    } else {
        let prev = children_of(snapshot.drop_last(), parent);
        if snapshot.last().1 == parent {
            prev.push(snapshot.last().0)
        } else {
            prev
        }
    }
}

/// The children of a process are exactly the snapshot's processes whose
/// parent it is, in snapshot order.
pub proof fn law_children(snapshot: Seq<(u32, u32)>, parent: u32)
    ensures
        forall|i: int|
            0 <= i < children_of(snapshot, parent).len() ==> snapshot.contains(
                (#[trigger] children_of(snapshot, parent)[i], parent),
            ),
        forall|k: int|
            0 <= k < snapshot.len() && (#[trigger] snapshot[k]).1 == parent ==> children_of(snapshot, parent).contains(
                snapshot[k].0,
            ),
    decreases snapshot.len(),
{
    if snapshot.len() > 0 {
        let r = snapshot.drop_last();
        law_children(r, parent);
        let prev = children_of(r, parent);
        let c = children_of(snapshot, parent);
        let last = snapshot.last();
        assert(last == snapshot[snapshot.len() - 1]);
        assert forall|i: int| 0 <= i < c.len() implies snapshot.contains((#[trigger] c[i], parent)) by {
            if i < prev.len() {
                assert(c[i] == prev[i]);
                assert(r.contains((prev[i], parent)));
                let k = choose|k: int| 0 <= k < r.len() && r[k] == (prev[i], parent);
                assert(snapshot[k] == r[k]);
            } else {
                assert(c[i] == last.0 && last.1 == parent);
                assert(snapshot[snapshot.len() - 1] == (c[i], parent));
            }
        }
        assert forall|k: int| 0 <= k < snapshot.len() && (#[trigger] snapshot[k]).1 == parent implies c.contains(
            snapshot[k].0,
        ) by {
            if k < r.len() {
                assert(snapshot[k] == r[k]);
                let i = choose|i: int| 0 <= i < prev.len() && prev[i] == r[k].0;
                assert(c[i] == prev[i]);
            } else {
                assert(c[prev.len() as int] == last.0);
            }
        }
    }
}

/// Each process of `pids` followed by its descendants, `depth` levels deep.
pub open spec fn descendants_list(snapshot: Seq<(u32, u32)>, pids: Seq<u32>, depth: nat) -> Seq<
    u32,
>
    decreases depth, pids.len(),
{
    if pids.len() == 0 {
        Seq::empty()
    } else {
        descendants_list(snapshot, pids.drop_last(), depth) + seq![pids.last()] + descendants(
            snapshot,
            pids.last(),
            depth,
        )
    }
}

/// The descendants of `root` in depth-first order (each child, then its own
/// descendants), `depth` levels deep.
pub open spec fn descendants(snapshot: Seq<(u32, u32)>, root: u32, depth: nat) -> Seq<u32>
    decreases depth, 0nat,
{
    if depth == 0 {
        Seq::empty()
    } else {
        descendants_list(snapshot, children_of(snapshot, root), (depth - 1) as nat)
    }
}

/// The processes whose parent is `parent`, in snapshot order.
pub fn child_pids(snapshot: &[(u32, u32)], parent: u32) -> (res: Vec<u32>)
    ensures
        res@ == children_of(snapshot@, parent),
{
    let mut out: Vec<u32> = Vec::new();
    let mut i: usize = 0;
    assert(snapshot@.take(0) =~= Seq::<(u32, u32)>::empty());
    while i < snapshot.len()
        invariant
            i <= snapshot@.len(),
            out@ == children_of(snapshot@.take(i as int), parent),
        decreases snapshot.len() - i,
    {
        assert(snapshot@.take(i + 1).drop_last() =~= snapshot@.take(i as int));
        if snapshot[i].1 == parent {
            out.push(snapshot[i].0);
        }
        i += 1;
    }
    assert(snapshot@.take(snapshot.len() as int) =~= snapshot@);
    out
}

fn descendants_to(snapshot: &[(u32, u32)], root: u32, depth: usize, out: &mut Vec<u32>)
    ensures
        final(out)@ == old(out)@ + descendants(snapshot@, root, depth as nat),
    decreases depth,
{
    if depth == 0 {
        assert(old(out)@ + Seq::<u32>::empty() =~= old(out)@);
        return;
    }
    let kids = child_pids(snapshot, root);
    let ghost start = out@;
    let mut i: usize = 0;
    assert(kids@.take(0) =~= Seq::<u32>::empty());
    assert(start + Seq::<u32>::empty() =~= start);
    while i < kids.len()
        invariant
            i <= kids@.len(),
            depth > 0,
            out@ == start + descendants_list(snapshot@, kids@.take(i as int), (depth - 1) as nat),
        decreases kids.len() - i,
    {
        let ghost before = out@;
        let c = kids[i];
        out.push(c);
        descendants_to(snapshot, c, depth - 1, out);
        proof {
            let t = kids@.take(i + 1);
            assert(t.drop_last() =~= kids@.take(i as int));
            assert(t.last() == c);
        }
        i += 1;
        assert(out@ =~= start + descendants_list(snapshot@, kids@.take(i as int), (depth - 1) as nat));
    }
    assert(kids@.take(kids.len() as int) =~= kids@);
}

/// All descendants of `root` in one process snapshot, depth first: each
/// child in snapshot order, followed by its own descendants. The walk goes
/// no deeper than the snapshot has entries, so a parent cycle (a reused
/// process id) cannot make it run forever.
pub fn child_pids_recursive(snapshot: &[(u32, u32)], root: u32) -> (res: Vec<u32>)
    ensures
        res@ == descendants(snapshot@, root, snapshot@.len()),
{
    let mut out: Vec<u32> = Vec::new();
    descendants_to(snapshot, root, snapshot.len(), &mut out);
    assert(Seq::<u32>::empty() + descendants(snapshot@, root, snapshot@.len()) =~= descendants(
        snapshot@,
        root,
        snapshot@.len(),
    ));
    out
}

// ── Allowed child processes ─────────────────────────────────────────────────

/// Programs that the agent may always start (the runtime, shells and the
/// tools the sandbox itself uses).
pub open spec fn always_allowed() -> Seq<Seq<char>> {
    seq![
        "node.exe"@, "node"@, "conhost.exe"@, "cmd.exe"@, "powershell.exe"@, "powershell"@,
        "pwsh.exe"@, "pwsh"@, "whoami.exe"@, "whoami"@, "icacls.exe"@, "icacls"@,
        "taskkill.exe"@, "taskkill"@,
    ]
}

/// The programs that the agent may always start.
pub fn always_allowed_processes() -> (res: Vec<String>)
    ensures
        string_views(res@) == always_allowed(),
{
    let names = vec![
        "node.exe".to_owned(), "node".to_owned(), "conhost.exe".to_owned(), "cmd.exe".to_owned(),
        "powershell.exe".to_owned(), "powershell".to_owned(), "pwsh.exe".to_owned(),
        "pwsh".to_owned(), "whoami.exe".to_owned(), "whoami".to_owned(),
        "icacls.exe".to_owned(), "icacls".to_owned(), "taskkill.exe".to_owned(),
        "taskkill".to_owned(),
    ];
    assert(string_views(names@) =~= always_allowed());
    names
}

/// The lower-case name under which a configured executable is allowed:
/// its file name when it has one, else the whole configured text.
pub open spec fn allowed_name(entry: (Seq<char>, Option<Seq<char>>)) -> Seq<char> {
    match entry.1 {
        Some(f) => spec_to_lowercase(f),
        None => spec_to_lowercase(entry.0),
    }
}

pub open spec fn entry_views(v: Seq<(String, Option<String>)>) -> Seq<(Seq<char>, Option<Seq<char>>)> {
    v.map_values(|p: (String, Option<String>)| (p.0@, crate::proxy::opt_view(p.1)))
}

/// The names of the programs the agent may start: the configured
/// executables (each given as its text and its file name, if any), the
/// programs always allowed, and the agent's own program.
pub open spec fn allowlist(
    configured: Seq<(Seq<char>, Option<Seq<char>>)>,
    own_file_name: Option<Seq<char>>,
) -> Seq<Seq<char>> {
    configured.map_values(|e: (Seq<char>, Option<Seq<char>>)| allowed_name(e)) + always_allowed()
        + match own_file_name {
        Some(f) => seq![spec_to_lowercase(f)],
        None => Seq::empty(),
    }
}

/// The programs always allowed stay allowed whatever else is configured.
pub proof fn law_always_allowed_stay(
    configured: Seq<(Seq<char>, Option<Seq<char>>)>,
    own_file_name: Option<Seq<char>>,
    k: int,
)
    requires
        0 <= k < always_allowed().len(),
    ensures
        allowlist(configured, own_file_name).contains(always_allowed()[k]),
{
    let l = allowlist(configured, own_file_name);
    let n = configured.len() as int;
    assert(l[n + k] == always_allowed()[k]);
}

/// The runtime, the shells, the console host and the tools the sandbox
/// itself runs are allowed whatever is configured, so the monitor never
/// stops them.
pub proof fn law_tools_always_allowed(
    configured: Seq<(Seq<char>, Option<Seq<char>>)>,
    own_file_name: Option<Seq<char>>,
)
    ensures
        ({
            let l = allowlist(configured, own_file_name);
            &&& l.contains("node.exe"@)
            &&& l.contains("node"@)
            &&& l.contains("conhost.exe"@)
            &&& l.contains("cmd.exe"@)
            &&& l.contains("powershell.exe"@)
            &&& l.contains("powershell"@)
            &&& l.contains("pwsh.exe"@)
            &&& l.contains("pwsh"@)
            &&& l.contains("whoami.exe"@)
            &&& l.contains("whoami"@)
            &&& l.contains("icacls.exe"@)
            &&& l.contains("icacls"@)
            &&& l.contains("taskkill.exe"@)
            &&& l.contains("taskkill"@)
        }),
{
    let l = allowlist(configured, own_file_name);
    let a = always_allowed();
    assert(a.len() == 14);
    assert forall|k: int| 0 <= k < 14 implies l.contains(#[trigger] a[k]) by {
        law_always_allowed_stay(configured, own_file_name, k);
    }
    assert(a[0] == "node.exe"@);
    assert(a[1] == "node"@);
    assert(a[2] == "conhost.exe"@);
    assert(a[3] == "cmd.exe"@);
    assert(a[4] == "powershell.exe"@);
    assert(a[5] == "powershell"@);
    assert(a[6] == "pwsh.exe"@);
    assert(a[7] == "pwsh"@);
    assert(a[8] == "whoami.exe"@);
    assert(a[9] == "whoami"@);
    assert(a[10] == "icacls.exe"@);
    assert(a[11] == "icacls"@);
    assert(a[12] == "taskkill.exe"@);
    assert(a[13] == "taskkill"@);
}

/// Every configured program is allowed under the lower case of its file
/// name (of the whole configured text when it has none), and the agent's
/// own program under the lower case of its file name.
pub proof fn law_configured_programs_allowed(
    configured: Seq<(Seq<char>, Option<Seq<char>>)>,
    own_file_name: Option<Seq<char>>,
    k: int,
)
    requires
        0 <= k < configured.len(),
    ensures
        configured[k].1 matches Some(f) ==> allowlist(configured, own_file_name).contains(spec_to_lowercase(f)),
        configured[k].1 is None ==> allowlist(configured, own_file_name).contains(spec_to_lowercase(configured[k].0)),
        own_file_name matches Some(f) ==> allowlist(configured, own_file_name).contains(spec_to_lowercase(f)),
{
    let l = allowlist(configured, own_file_name);
    assert(l[k] == allowed_name(configured[k]));
    if own_file_name is Some {
        assert(l[l.len() - 1] == spec_to_lowercase(own_file_name->0));
    }
}

/// Lists, in lower case, the programs the agent may start.
pub fn process_allowlist(configured: &[(String, Option<String>)], own_file_name: Option<String>) -> (res:
    Vec<String>)
    ensures
        string_views(res@) == allowlist(entry_views(configured@), crate::proxy::opt_view(own_file_name)),
        ({
            let l = string_views(res@);
            &&& l.contains("node.exe"@)
            &&& l.contains("node"@)
            &&& l.contains("conhost.exe"@)
            &&& l.contains("cmd.exe"@)
            &&& l.contains("powershell.exe"@)
            &&& l.contains("powershell"@)
            &&& l.contains("pwsh.exe"@)
            &&& l.contains("pwsh"@)
            &&& l.contains("whoami.exe"@)
            &&& l.contains("whoami"@)
            &&& l.contains("icacls.exe"@)
            &&& l.contains("icacls"@)
            &&& l.contains("taskkill.exe"@)
            &&& l.contains("taskkill"@)
        }),
{
    proof {
        law_tools_always_allowed(entry_views(configured@), crate::proxy::opt_view(own_file_name));
    }
    let ghost ev = entry_views(configured@);
    let ghost mapped = ev.map_values(|e: (Seq<char>, Option<Seq<char>>)| allowed_name(e));
    let mut out: Vec<String> = Vec::new();
    let mut i: usize = 0;
    while i < configured.len()
        invariant
            i <= configured@.len(),
            ev == entry_views(configured@),
            mapped == ev.map_values(|e: (Seq<char>, Option<Seq<char>>)| allowed_name(e)),
            out@.len() == i,
            forall|j: int| 0 <= j < i ==> (#[trigger] out@[j])@ == mapped[j],
        decreases configured.len() - i,
    {
        let name = match &configured[i].1 {
            Some(f) => to_lowercase(f.as_str()),
            None => to_lowercase(configured[i].0.as_str()),
        };
        assert(name@ == mapped[i as int]);
        out.push(name);
        i += 1;
    }
    let always = always_allowed_processes();
    let mut k: usize = 0;
    while k < always.len()
        invariant
            k <= always@.len(),
            string_views(always@) == always_allowed(),
            out@.len() == configured@.len() + k,
            forall|j: int| 0 <= j < configured@.len() ==> (#[trigger] out@[j])@ == mapped[j],
            forall|j: int| 0 <= j < k ==> (#[trigger] out@[configured@.len() + j])@ == always_allowed()[j],
        decreases always.len() - k,
    {
        out.push(always[k].clone());
        assert(always@[k as int]@ == always_allowed()[k as int]);
        k += 1;
    }
    match &own_file_name {
        Some(f) => out.push(to_lowercase(f.as_str())),
        None => {},
    }
    proof {
        let want = allowlist(ev, crate::proxy::opt_view(own_file_name));
        assert(string_views(out@).len() == want.len());
        assert forall|j: int| 0 <= j < want.len() implies string_views(out@)[j] == want[j] by {
            if j < configured@.len() {
            } else if j < configured@.len() + always_allowed().len() {
                assert(out@[configured@.len() + (j - configured@.len())] == out@[j]);
            }
        }
        assert(string_views(out@) =~= want);
    }
    out
}

/// A child process is stopped when its name is known and not on the allowlist.
pub fn should_terminate(allowlist: &[String], name: Option<String>) -> (res: bool)
    ensures
        res == match name {
            Some(n) => !string_views(allowlist@).contains(n@),
            None => false,
        },
{
    match &name {
        None => false,
        Some(n) => {
            assert(name == Some(*n));
            let mut i: usize = 0;
            while i < allowlist.len()
                invariant
                    i <= allowlist@.len(),
                    name == Some(*n),
                    forall|j: int| 0 <= j < i ==> (#[trigger] allowlist@[j])@ != n@,
                decreases allowlist.len() - i,
            {
                if string_eq(&allowlist[i], n.as_str()) {
                    assert(string_views(allowlist@)[i as int] == n@);
                    assert(string_views(allowlist@).contains(n@));
                    return false;
                }
                i += 1;
            }
            assert forall|j: int| 0 <= j < string_views(allowlist@).len() implies string_views(allowlist@)[j] != n@ by {
                assert(string_views(allowlist@)[j] == allowlist@[j]@);
            }
            true
        },
    }
}

// ── Watching the agent's descendants ───────────────────────────────────────

/// The descendants not yet seen, in order of first appearance, each once.
pub open spec fn fresh_pids(seen: Seq<u32>, desc: Seq<u32>) -> Seq<u32>
    decreases desc.len(),
{
    if desc.len() == 0 {
        Seq::empty()
    } else {
        let prev = fresh_pids(seen, desc.drop_last());
        let d = desc.last();
        if seen.contains(d) || prev.contains(d) {
            prev
        } else {
            prev.push(d)
        }
    }
}

/// Every fresh process is a descendant that was not seen before, none is
/// listed twice, and every descendant was either seen before or is fresh.
pub proof fn law_fresh_pids(seen: Seq<u32>, desc: Seq<u32>)
    ensures
        forall|i: int|
            0 <= i < fresh_pids(seen, desc).len() ==> desc.contains(#[trigger] fresh_pids(seen, desc)[i])
                && !seen.contains(fresh_pids(seen, desc)[i]),
        fresh_pids(seen, desc).no_duplicates(),
        forall|k: int|
            0 <= k < desc.len() ==> seen.contains(#[trigger] desc[k]) || fresh_pids(seen, desc).contains(
                desc[k],
            ),
    decreases desc.len(),
{
    if desc.len() > 0 {
        let r = desc.drop_last();
        law_fresh_pids(seen, r);
        let prev = fresh_pids(seen, r);
        let d = desc.last();
        let f = fresh_pids(seen, desc);
        assert forall|i: int| 0 <= i < f.len() implies desc.contains(#[trigger] f[i]) && !seen.contains(f[i]) by {
            if i < prev.len() {
                assert(f[i] == prev[i]);
                let j = choose|j: int| 0 <= j < r.len() && r[j] == prev[i];
                assert(desc[j] == r[j]);
            } else {
                assert(f[i] == d);
                assert(desc[desc.len() - 1] == d);
            }
        }
        assert forall|k: int| 0 <= k < desc.len() implies seen.contains(#[trigger] desc[k]) || f.contains(desc[k]) by {
            if k < r.len() {
                assert(desc[k] == r[k]);
                if prev.contains(desc[k]) {
                    let j = choose|j: int| 0 <= j < prev.len() && prev[j] == desc[k];
                    assert(f[j] == prev[j]);
                }
            } else {
                assert(desc[k] == d);
                if !seen.contains(d) && !prev.contains(d) {
                    assert(f[prev.len() as int] == d);
                } else if prev.contains(d) {
                    let j = choose|j: int| 0 <= j < prev.len() && prev[j] == d;
                    assert(f[j] == prev[j]);
                }
            }
        }
    }
}

/// A process is judged at most once: what one round finds fresh is seen in
/// the next round and never fresh again.
pub proof fn law_judged_once(seen: Seq<u32>, first: Seq<u32>, second: Seq<u32>)
    ensures
        forall|i: int|
            0 <= i < fresh_pids(seen + fresh_pids(seen, first), second).len() ==> !fresh_pids(
                seen,
                first,
            ).contains(#[trigger] fresh_pids(seen + fresh_pids(seen, first), second)[i]),
{
    let f1 = fresh_pids(seen, first);
    let s2 = seen + f1;
    let f2 = fresh_pids(s2, second);
    law_fresh_pids(s2, second);
    assert forall|i: int| 0 <= i < f2.len() implies !f1.contains(#[trigger] f2[i]) by {
        if f1.contains(f2[i]) {
            let j = choose|j: int| 0 <= j < f1.len() && f1[j] == f2[i];
            assert(s2[seen.len() + j] == f1[j]);
        }
    }
}

/// One round of watching: records the descendants not seen before and
/// returns them, in order of first appearance, each once.
pub fn monitor_new_pids(seen: &mut Vec<u32>, descendants: &[u32]) -> (res: Vec<u32>)
    ensures
        res@ == fresh_pids(old(seen)@, descendants@),
        final(seen)@ == old(seen)@ + res@,
{
    let ghost start = seen@;
    let mut out: Vec<u32> = Vec::new();
    let mut i: usize = 0;
    assert(descendants@.take(0) =~= Seq::<u32>::empty());
    assert(start + Seq::<u32>::empty() =~= start);
    while i < descendants.len()
        invariant
            i <= descendants@.len(),
            out@ == fresh_pids(start, descendants@.take(i as int)),
            seen@ == start + out@,
        decreases descendants.len() - i,
    {
        let d = descendants[i];
        let ghost t = descendants@.take(i + 1);
        assert(t.drop_last() =~= descendants@.take(i as int));
        assert(t.last() == d);
        let mut k: usize = 0;
        let mut known = false;
        while k < seen.len()
            invariant
                k <= seen@.len(),
                known == (exists|j: int| 0 <= j < k && seen@[j] == d),
            decreases seen.len() - k,
        {
            if seen[k] == d {
                known = true;
            }
            k += 1;
        }
        proof {
            let all = start + out@;
            if start.contains(d) {
                let j = choose|j: int| 0 <= j < start.len() && start[j] == d;
                assert(all[j] == d);
            }
            if out@.contains(d) {
                let j = choose|j: int| 0 <= j < out@.len() && out@[j] == d;
                assert(all[start.len() + j] == d);
            }
            if known {
                let j = choose|j: int| 0 <= j < all.len() && all[j] == d;
                if j < start.len() {
                    assert(start[j] == d);
                } else {
                    assert(out@[j - start.len()] == d);
                }
            }
            assert(known == (start.contains(d) || out@.contains(d)));
        }
        if !known {
            out.push(d);
            seen.push(d);
            assert(seen@ =~= start + out@);
        }
        i += 1;
    }
    assert(descendants@.take(descendants.len() as int) =~= descendants@);
    out
}

/// The processes to stop among those named: each whose name is known and
/// not on the allowlist, in the given order.
pub open spec fn pids_to_stop(allow: Seq<Seq<char>>, named: Seq<(u32, Option<Seq<char>>)>) -> Seq<u32>
    decreases named.len(),
{
    if named.len() == 0 {
        Seq::empty()
    } else {
        let prev = pids_to_stop(allow, named.drop_last());
        match named.last().1 {
            Some(n) => if allow.contains(n) {
                prev
            } else {
                prev.push(named.last().0)
            },
            None => prev,
        }
    }
}

/// A program that is always allowed is never stopped, whatever else is
/// configured.
pub proof fn law_always_allowed_never_stopped(
    configured: Seq<(Seq<char>, Option<Seq<char>>)>,
    own_file_name: Option<Seq<char>>,
    pid: u32,
    k: int,
)
    requires
        0 <= k < always_allowed().len(),
    ensures
        pids_to_stop(allowlist(configured, own_file_name), seq![(pid, Some(always_allowed()[k]))])
            == Seq::<u32>::empty(),
{
    law_always_allowed_stay(configured, own_file_name, k);
    let allow = allowlist(configured, own_file_name);
    let named = seq![(pid, Some(always_allowed()[k]))];
    assert(named.drop_last() =~= Seq::<(u32, Option<Seq<char>>)>::empty());
    assert(pids_to_stop(allow, named.drop_last()) == Seq::<u32>::empty());
    assert(named.last() == (pid, Some(always_allowed()[k])));
}

/// A known program name that is not on the allowlist.
pub open spec fn unallowed(allow: Seq<Seq<char>>, name: Option<Seq<char>>) -> bool {
    name matches Some(n) && !allow.contains(n)
}

proof fn lemma_stop_members(allow: Seq<Seq<char>>, named: Seq<(u32, Option<Seq<char>>)>, p: u32)
    ensures
        pids_to_stop(allow, named).contains(p) <==> exists|i: int|
            0 <= i < named.len() && (#[trigger] named[i]).0 == p && unallowed(allow, named[i].1),
    decreases named.len(),
{
    if named.len() > 0 {
        let r = named.drop_last();
        lemma_stop_members(allow, r, p);
        let prev = pids_to_stop(allow, r);
        let last = named.last();
        let stop = pids_to_stop(allow, named);
        assert(last == named[named.len() - 1]);
        if unallowed(allow, last.1) {
            assert(stop == prev.push(last.0));
        } else {
            assert(stop == prev);
        }
        if stop.contains(p) {
            if prev.contains(p) {
                let i = choose|i: int| 0 <= i < r.len() && (#[trigger] r[i]).0 == p && unallowed(allow, r[i].1);
                assert(named[i] == r[i]);
            } else {
                let k = choose|k: int| 0 <= k < stop.len() && stop[k] == p;
                assert(unallowed(allow, last.1) && k == prev.len());
            }
        }
        if exists|i: int| 0 <= i < named.len() && (#[trigger] named[i]).0 == p && unallowed(allow, named[i].1) {
            let i = choose|i: int| 0 <= i < named.len() && (#[trigger] named[i]).0 == p && unallowed(allow, named[i].1);
            if i < r.len() {
                assert(r[i] == named[i]);
                assert(prev.contains(p));
                let k = choose|k: int| 0 <= k < prev.len() && prev[k] == p;
                assert(stop[k] == p);
            } else {
                assert(stop[prev.len() as int] == p);
            }
        }
    }
}

/// One round of watching stops exactly what the sandbox promises: every
/// process that appeared since the last round is named and judged, and a
/// judged process is stopped if and only if its program is known and not
/// allowed, so an allowed program is never stopped.
pub proof fn law_round_stops_exactly_unallowed(
    allow: Seq<Seq<char>>,
    seen: Seq<u32>,
    desc: Seq<u32>,
    named: Seq<(u32, Option<Seq<char>>)>,
)
    requires
        named.len() == fresh_pids(seen, desc).len(),
        forall|i: int| 0 <= i < named.len() ==> (#[trigger] named[i]).0 == fresh_pids(seen, desc)[i],
    ensures
        forall|k: int|
            0 <= k < desc.len() && !seen.contains(#[trigger] desc[k]) ==> exists|i: int|
                0 <= i < named.len() && named[i].0 == desc[k],
        forall|i: int|
            0 <= i < named.len() ==> (pids_to_stop(allow, named).contains((#[trigger] named[i]).0)
                <==> unallowed(allow, named[i].1)),
{
    let f = fresh_pids(seen, desc);
    law_fresh_pids(seen, desc);
    assert forall|k: int| 0 <= k < desc.len() && !seen.contains(#[trigger] desc[k]) implies exists|i: int|
        0 <= i < named.len() && named[i].0 == desc[k] by {
        assert(f.contains(desc[k]));
        let i = choose|i: int| 0 <= i < f.len() && f[i] == desc[k];
        assert(named[i].0 == f[i]);
    }
    assert forall|i: int| 0 <= i < named.len() implies (pids_to_stop(allow, named).contains(
        (#[trigger] named[i]).0,
    ) <==> unallowed(allow, named[i].1)) by {
        lemma_stop_members(allow, named, named[i].0);
        if pids_to_stop(allow, named).contains(named[i].0) {
            let j = choose|j: int| 0 <= j < named.len() && (#[trigger] named[j]).0 == named[i].0 && unallowed(allow, named[j].1);
            assert(f[j] == f[i]);
            assert(j == i);
        }
    }
}

pub open spec fn named_views(v: Seq<(u32, Option<String>)>) -> Seq<(u32, Option<Seq<char>>)> {
    v.map_values(|p: (u32, Option<String>)| (p.0, crate::proxy::opt_view(p.1)))
}

/// Chooses, among freshly found processes with their program names, those
/// to stop: exactly the ones whose name is known and not allowed.
pub fn pids_to_terminate(allowlist: &[String], named: Vec<(u32, Option<String>)>) -> (res: Vec<u32>)
    ensures
        res@ == pids_to_stop(string_views(allowlist@), named_views(named@)),
{
    let ghost nv = named_views(named@);
    let mut out: Vec<u32> = Vec::new();
    let mut i: usize = 0;
    assert(nv.take(0) =~= Seq::<(u32, Option<Seq<char>>)>::empty());
    while i < named.len()
        invariant
            i <= named@.len(),
            nv == named_views(named@),
            out@ == pids_to_stop(string_views(allowlist@), nv.take(i as int)),
        decreases named.len() - i,
    {
        let ghost t = nv.take(i + 1);
        assert(t.drop_last() =~= nv.take(i as int));
        assert(t.last() == nv[i as int]);
        let name = named[i].1.clone();
        assert(crate::proxy::opt_view(name) == nv[i as int].1);
        if should_terminate(allowlist, name) {
            out.push(named[i].0);
        }
        i += 1;
    }
    assert(nv.take(named.len() as int) =~= nv);
    out
}

/// The character for one UTF-16 unit of a process name; a surrogate unit
/// (not a character by itself) becomes `?`.
pub open spec fn unit_char(u: u16) -> char {
    if 0xD800 <= u <= 0xDFFF {
        '?'
    } else {
        (u as u32) as char
    }
}

/// The units before the first NUL, each as a character.
pub open spec fn units_text(units: Seq<u16>) -> Seq<char>
    decreases units.len(),
{
    if units.len() == 0 || units[0] == 0 {
        Seq::empty()
    } else {
        seq![unit_char(units[0])] + units_text(units.drop_first())
    }
}

/// A process name is read up to the first NUL unit, one character per
/// unit, with `?` for each surrogate unit: a name's characters follow its
/// units one for one, and whatever comes after the NUL never matters.
pub proof fn law_process_name_units(units: Seq<u16>, tail: Seq<u16>, k: int)
    requires
        0 <= k < units.len(),
        forall|j: int| 0 <= j <= k ==> units[j] != 0,
    ensures
        units_text(units).len() > k,
        0xD800 <= units[k] <= 0xDFFF ==> units_text(units)[k] == '?',
        !(0xD800 <= units[k] <= 0xDFFF) ==> units_text(units)[k] as u32 == units[k] as u32,
        (forall|j: int| 0 <= j < units.len() ==> units[j] != 0) ==> units_text(units + seq![0u16] + tail)
            == units_text(units),
    decreases k,
{
    lemma_units_tail(units, tail);
    if k > 0 {
        law_process_name_units(units.drop_first(), tail, k - 1);
        assert(units_text(units) == seq![unit_char(units[0])] + units_text(units.drop_first()));
    }
}

proof fn lemma_units_tail(r: Seq<u16>, tail: Seq<u16>)
    ensures
        (forall|j: int| 0 <= j < r.len() ==> r[j] != 0) ==> units_text(r + seq![0u16] + tail) == units_text(r),
    decreases r.len(),
{
    if r.len() > 0 && (forall|j: int| 0 <= j < r.len() ==> r[j] != 0) {
        lemma_units_tail(r.drop_first(), tail);
        assert((r + seq![0u16] + tail).drop_first() =~= r.drop_first() + seq![0u16] + tail);
        assert forall|j: int| 0 <= j < r.drop_first().len() implies r.drop_first()[j] != 0 by {
            assert(r.drop_first()[j] == r[j + 1]);
        }
    } else if r.len() == 0 {
        assert((r + seq![0u16] + tail)[0] == 0u16);
    }
}

/// Calls `char::from_u32`.
/// Trusted: as documented, it gives the character with this code when the
/// code is a Unicode scalar value (at most `0x10FFFF`, not a surrogate), and
/// `None` otherwise.
#[verifier::external_body]
fn char_from_u32(u: u32) -> (res: Option<char>)
    ensures
        (res is Some) == (u <= 0x10FFFF && !(0xD800 <= u <= 0xDFFF)),
        res matches Some(c) ==> c == u as char,
{
    char::from_u32(u)
}

/// The lower-case name of a process from the NUL-terminated UTF-16 name in
/// a process snapshot entry.
pub fn process_name_from_units(units: &[u16]) -> (res: String)
    ensures
        res@ == spec_to_lowercase(units_text(units@)),
{
    let mut name: Vec<char> = Vec::new();
    let mut i: usize = 0;
    assert(units@.skip(0) =~= units@);
    assert(units_text(units@) =~= name@ + units_text(units@.skip(0)));
    while i < units.len() && units[i] != 0
        invariant
            i <= units.len(),
            forall|j: int| 0 <= j < i ==> units@[j] != 0,
            units_text(units@) == name@ + units_text(units@.skip(i as int)),
        decreases units.len() - i,
    {
        let c = match char_from_u32(units[i] as u32) {
            Some(c) => c,
            None => '?',
        };
        proof {
            let r = units@.skip(i as int);
            assert(r[0] == units@[i as int]);
            assert(r.drop_first() =~= units@.skip(i + 1));
            assert(c == unit_char(units@[i as int]));
        }
        name.push(c);
        i += 1;
        assert(units_text(units@) =~= name@ + units_text(units@.skip(i as int)));
    }
    proof {
        let r = units@.skip(i as int);
        if i < units.len() {
            assert(r[0] == units@[i as int]);
        }
        assert(name@ + units_text(r) =~= name@);
    }
    to_lowercase(string_of(&name).as_str())
}

// ── The agent's environment ─────────────────────────────────────────────────

/// The agent's `PATH`: its own folder, the launch folder, then the inherited path if any.
pub open spec fn search_path(exe_dir: Seq<char>, launch_dir: Seq<char>, inherited: Seq<char>) -> Seq<char> {
    if inherited.len() == 0 {
        exe_dir + seq![';'] + launch_dir
    } else {
        exe_dir + seq![';'] + launch_dir + seq![';'] + inherited
    }
}

/// The agent's search path puts its program's folder first, then the
/// launch folder, then the inherited search path (when there is one), all
/// separated by `;`.
pub proof fn law_search_path_order(exe_dir: Seq<char>, launch_dir: Seq<char>, inherited: Seq<char>)
    ensures
        starts_with(search_path(exe_dir, launch_dir, inherited), exe_dir + ";"@ + launch_dir),
        inherited.len() == 0 ==> search_path(exe_dir, launch_dir, inherited) == exe_dir + ";"@ + launch_dir,
        inherited.len() > 0 ==> search_path(exe_dir, launch_dir, inherited) == exe_dir + ";"@ + launch_dir + ";"@
            + inherited,
{
    reveal_strlit(";");
    let p = search_path(exe_dir, launch_dir, inherited);
    let a = exe_dir + ";"@ + launch_dir;
    assert(a =~= exe_dir + seq![';'] + launch_dir);
    if inherited.len() == 0 {
        assert(p =~= a);
    } else {
        assert(p =~= a + ";"@ + inherited);
    }
    assert(p.take(a.len() as int) =~= a);
}

/// Builds the agent's `PATH`.
pub fn build_search_path(exe_dir: &str, launch_dir: &str, inherited: &str) -> (res: String)
    ensures
        res@ == search_path(exe_dir@, launch_dir@, inherited@),
{
    let mut p = exe_dir.to_owned();
    p.append(";");
    p.append(launch_dir);
    if chars_of(inherited).len() > 0 {
        p.append(";");
        p.append(inherited);
    }
    proof {
        reveal_strlit(";");
        assert(p@ =~= search_path(exe_dir@, launch_dir@, inherited@));
    }
    p
}

/// The variables that point the agent at its own folders inside the container.
pub open spec fn container_env(
    home: Seq<char>,
    appdata: Seq<char>,
    local_appdata: Seq<char>,
    temp: Seq<char>,
    path: Seq<char>,
) -> Seq<(Seq<char>, Seq<char>)> {
    seq![
        ("HOME"@, home),
        ("USERPROFILE"@, home),
        ("APPDATA"@, appdata),
        ("LOCALAPPDATA"@, local_appdata),
        ("TEMP"@, temp),
        ("TMP"@, temp),
        ("CRABCAGE_APP_CONTAINER"@, "CrabCage.OpenClaw"@),
        ("CRABCAGE_FS_HARDENED"@, "1"@),
        ("PATH"@, path),
    ]
}

/// Inside the container the agent's profile, app data, local app data and
/// temporary folders are the container's own, its search path is the one
/// given, and the hardened file system is announced.
pub proof fn law_agent_folders_in_container(
    home: Seq<char>,
    appdata: Seq<char>,
    local_appdata: Seq<char>,
    temp: Seq<char>,
    path: Seq<char>,
)
    ensures
        container_env(home, appdata, local_appdata, temp, path).contains(("HOME"@, home)),
        container_env(home, appdata, local_appdata, temp, path).contains(("USERPROFILE"@, home)),
        container_env(home, appdata, local_appdata, temp, path).contains(("APPDATA"@, appdata)),
        container_env(home, appdata, local_appdata, temp, path).contains(("LOCALAPPDATA"@, local_appdata)),
        container_env(home, appdata, local_appdata, temp, path).contains(("TEMP"@, temp)),
        container_env(home, appdata, local_appdata, temp, path).contains(("TMP"@, temp)),
        container_env(home, appdata, local_appdata, temp, path).contains(("PATH"@, path)),
        container_env(home, appdata, local_appdata, temp, path).contains(("CRABCAGE_FS_HARDENED"@, "1"@)),
        container_env(home, appdata, local_appdata, temp, path).contains(
            ("CRABCAGE_APP_CONTAINER"@, "CrabCage.OpenClaw"@),
        ),
{
    let e = container_env(home, appdata, local_appdata, temp, path);
    assert(e[0] == ("HOME"@, home));
    assert(e[1] == ("USERPROFILE"@, home));
    assert(e[2] == ("APPDATA"@, appdata));
    assert(e[3] == ("LOCALAPPDATA"@, local_appdata));
    assert(e[4] == ("TEMP"@, temp));
    assert(e[5] == ("TMP"@, temp));
    assert(e[6] == ("CRABCAGE_APP_CONTAINER"@, "CrabCage.OpenClaw"@));
    assert(e[7] == ("CRABCAGE_FS_HARDENED"@, "1"@));
    assert(e[8] == ("PATH"@, path));
}

/// The variables the agent gets inside the container (they are set after,
/// and so override, the session's own variables).
pub fn container_env_pairs(
    home: &str,
    appdata: &str,
    local_appdata: &str,
    temp: &str,
    path: &str,
) -> (res: Vec<(String, String)>)
    ensures
        crate::proxy::pair_views(res@) == container_env(home@, appdata@, local_appdata@, temp@, path@),
{
    let v = vec![
        ("HOME".to_owned(), home.to_owned()),
        ("USERPROFILE".to_owned(), home.to_owned()),
        ("APPDATA".to_owned(), appdata.to_owned()),
        ("LOCALAPPDATA".to_owned(), local_appdata.to_owned()),
        ("TEMP".to_owned(), temp.to_owned()),
        ("TMP".to_owned(), temp.to_owned()),
        ("CRABCAGE_APP_CONTAINER".to_owned(), APP_CONTAINER_NAME.to_owned()),
        ("CRABCAGE_FS_HARDENED".to_owned(), "1".to_owned()),
        ("PATH".to_owned(), path.to_owned()),
    ];
    assert(crate::proxy::pair_views(v@) =~= container_env(home@, appdata@, local_appdata@, temp@, path@));
    v
}

} // verus!
