//! Finding, checking and installing the OpenClaw agent: which paths are
//! tried, in which order, and what a probe of a path reports.
use vstd::prelude::*;
use vstd::string::*;

use crate::proxy::opt_view;
use crate::text::{
    chars_of, decimal, decimal_exec, ends_with, ends_with_chars, eq_ignore_ascii_case,
    eq_ignore_case_chars, first_line, lower_ascii, lines, lines_exec, string_of, trim, trim_exec,
};
use crate::unicode::{spec_to_lowercase, spec_utf8_lossy, to_lowercase, utf8_lossy};

verus! {

/// The operating system the app runs on; the search for the agent differs.
#[derive(Clone, Copy, PartialEq, Eq, Structural, Debug)]
pub enum Platform {
    Windows,
    Unix,
}

/// What the setup screen shows about Node.js and OpenClaw.
pub struct EnvironmentStatus {
    pub node_installed: bool,
    pub node_version: Option<String>,
    pub openclaw_installed: bool,
    pub openclaw_version: Option<String>,
    pub openclaw_path: Option<String>,
}

/// One line of progress of the installation, with its kind
/// (`command`, `stdout`, `stderr`, `error`, `success`).
pub struct InstallProgressEvent {
    pub line: String,
    pub kind: String,
}

// ── Probing ─────────────────────────────────────────────────────────────────

/// What a probe (`program --version`) reports: for a successful run its
/// trimmed standard output, or else its trimmed error output, when not empty.
pub open spec fn probe_report(success: bool, stdout: Seq<u8>, stderr: Seq<u8>) -> Option<Seq<char>> {
    let out = trim(spec_utf8_lossy(stdout));
    let err = trim(spec_utf8_lossy(stderr));
    if !success {
        None
    } else if out.len() > 0 {
        Some(out)
    } else if err.len() > 0 {
        Some(err)
    } else {
        None
    }
}

/// A probe reports nothing when it failed; otherwise its standard output,
/// trimmed, when that is not blank, else its error output, trimmed, when
/// that is not blank; a report is never blank.
pub proof fn law_probe_report(success: bool, stdout: Seq<u8>, stderr: Seq<u8>)
    ensures
        !success ==> probe_report(success, stdout, stderr) is None,
        (success && trim(spec_utf8_lossy(stdout)).len() > 0) ==> probe_report(success, stdout, stderr) == Some(
            trim(spec_utf8_lossy(stdout)),
        ),
        (success && trim(spec_utf8_lossy(stdout)).len() == 0 && trim(spec_utf8_lossy(stderr)).len() > 0)
            ==> probe_report(success, stdout, stderr) == Some(trim(spec_utf8_lossy(stderr))),
        probe_report(success, stdout, stderr) matches Some(r) ==> r.len() > 0,
{
}

/// The report of a finished probe whose outputs are already decoded.
pub fn probe_report_from_text(success: bool, stdout: &str, stderr: &str) -> (res: Option<String>)
    ensures
        opt_view(res) == (if !success {
            None
        } else if trim(stdout@).len() > 0 {
            Some(trim(stdout@))
        } else if trim(stderr@).len() > 0 {
            Some(trim(stderr@))
        } else {
            None
        }),
{
    if !success {
        return None;
    }
    let out = trim_exec(&chars_of(stdout));
    if out.len() > 0 {
        return Some(string_of(&out));
    }
    let err = trim_exec(&chars_of(stderr));
    if err.len() > 0 {
        return Some(string_of(&err));
    }
    None
}

/// The report of a finished probe.
pub fn probe_output(success: bool, stdout: &[u8], stderr: &[u8]) -> (res: Option<String>)
    ensures
        opt_view(res) == probe_report(success, stdout@, stderr@),
{
    let out = utf8_lossy(stdout);
    let err = utf8_lossy(stderr);
    probe_report_from_text(success, out.as_str(), err.as_str())
}

// ── Normalizing and validating a path ───────────────────────────────────────

/// A file extension that names a script: `cmd` or `bat` in any ASCII case.
pub open spec fn script_extension(ext: Option<Seq<char>>) -> bool {
    match ext {
        Some(e) => eq_ignore_ascii_case(e, "cmd"@) || eq_ignore_ascii_case(e, "bat"@),
        None => false,
    }
}

/// Whether the extension (as `Path::extension` gives it) names a script.
pub fn is_script_extension(ext: &Option<String>) -> (res: bool)
    ensures
        res == script_extension(opt_view(*ext)),
{
    match ext {
        Some(e) => {
            let c = chars_of(e.as_str());
            eq_ignore_case_chars(&c, &chars_of("cmd")) || eq_ignore_case_chars(&c, &chars_of("bat"))
        },
        None => false,
    }
}

/// An extension names a script exactly when, in ASCII lower case, it is
/// `cmd` or `bat`.
pub proof fn law_script_extensions(e: Seq<char>)
    ensures
        script_extension(Some(e)) <==> (lower_ascii(e) == "cmd"@ || lower_ascii(e) == "bat"@),
        !script_extension(None),
{
    reveal_strlit("cmd");
    reveal_strlit("bat");
    assert(lower_ascii("cmd"@) =~= "cmd"@);
    assert(lower_ascii("bat"@) =~= "bat"@);
}

/// Whether `normalize_openclaw_path` needs to know if the script variants exist.
pub open spec fn variants_needed(platform: Platform, ext: Option<Seq<char>>) -> bool {
    platform == Platform::Windows && !script_extension(ext)
}

/// The path to use for an agent path: on Windows a path without a script
/// extension is replaced by its `.cmd` variant, or else its `.bat` variant,
/// when that exists; otherwise the path stays.
pub open spec fn normalized_path(
    path: Seq<char>,
    platform: Platform,
    ext: Option<Seq<char>>,
    cmd_exists: bool,
    bat_exists: bool,
) -> Seq<char> {
    if !variants_needed(platform, ext) {
        path
    } else if cmd_exists {
        path + ".cmd"@
    } else if bat_exists {
        path + ".bat"@
    } else {
        path
    }
}

/// On Windows a path without a script extension becomes its `.cmd`
/// variant when that exists, else its `.bat` variant when that exists;
/// a script, or any path elsewhere, stays as it is.
pub proof fn law_normalize_picks_scripts(
    path: Seq<char>,
    platform: Platform,
    ext: Option<Seq<char>>,
    cmd_exists: bool,
    bat_exists: bool,
)
    ensures
        (platform == Platform::Windows && !script_extension(ext) && cmd_exists) ==> normalized_path(
            path,
            platform,
            ext,
            cmd_exists,
            bat_exists,
        ) == path + ".cmd"@,
        (platform == Platform::Windows && !script_extension(ext) && !cmd_exists && bat_exists) ==> normalized_path(
            path,
            platform,
            ext,
            cmd_exists,
            bat_exists,
        ) == path + ".bat"@,
        (platform != Platform::Windows || script_extension(ext) || (!cmd_exists && !bat_exists)) ==> normalized_path(
            path,
            platform,
            ext,
            cmd_exists,
            bat_exists,
        ) == path,
{
}

/// Whether the `.cmd`/`.bat` variants of the path must be looked for.
pub fn needs_script_variants(platform: Platform, ext: &Option<String>) -> (res: bool)
    ensures
        res == variants_needed(platform, opt_view(*ext)),
{
    platform == Platform::Windows && !is_script_extension(ext)
}

/// The `.cmd` and `.bat` variants of a path.
pub fn script_variants(path: &str) -> (res: (String, String))
    ensures
        res.0@ == path@ + ".cmd"@,
        res.1@ == path@ + ".bat"@,
{
    let mut c = path.to_owned();
    c.append(".cmd");
    let mut b = path.to_owned();
    b.append(".bat");
    (c, b)
}

/// Chooses the path to use for an agent path (see `normalized_path`).
pub fn normalize_openclaw_path(
    path: &str,
    platform: Platform,
    ext: &Option<String>,
    cmd_exists: bool,
    bat_exists: bool,
) -> (res: String)
    ensures
        res@ == normalized_path(path@, platform, opt_view(*ext), cmd_exists, bat_exists),
{
    if !needs_script_variants(platform, ext) {
        return path.to_owned();
    }
    let (c, b) = script_variants(path);
    if cmd_exists {
        c
    } else if bat_exists {
        b
    } else {
        path.to_owned()
    }
}

/// Normalizing twice gives what normalizing once gives, when the second
/// round sees the same file system: a chosen `.cmd`/`.bat` variant has a
/// script extension and stays, and a path that stayed meets the same facts
/// again.
pub proof fn law_normalize_idempotent(
    path: Seq<char>,
    platform: Platform,
    ext: Option<Seq<char>>,
    cmd_exists: bool,
    bat_exists: bool,
    ext2: Option<Seq<char>>,
    cmd2: bool,
    bat2: bool,
)
    requires
        normalized_path(path, platform, ext, cmd_exists, bat_exists) == path + ".cmd"@ ==> ext2
            == Some("cmd"@),
        normalized_path(path, platform, ext, cmd_exists, bat_exists) == path + ".bat"@ ==> ext2
            == Some("bat"@),
        normalized_path(path, platform, ext, cmd_exists, bat_exists) == path ==> ext2 == ext
            && cmd2 == cmd_exists && bat2 == bat_exists,
    ensures
        normalized_path(
            normalized_path(path, platform, ext, cmd_exists, bat_exists),
            platform,
            ext2,
            cmd2,
            bat2,
        ) == normalized_path(path, platform, ext, cmd_exists, bat_exists),
{
    let n = normalized_path(path, platform, ext, cmd_exists, bat_exists);
    if n != path {
        reveal_strlit(".cmd");
        reveal_strlit(".bat");
        if n == path + ".cmd"@ {
            assert(script_extension(ext2));
        } else {
            assert(n == path + ".bat"@);
            assert(script_extension(ext2));
        }
    }
}

/// What a candidate's check may report: nothing, the candidate itself, or,
/// for a validated candidate, its `.cmd` or `.bat` variant.
pub open spec fn outcome_of_candidate(c: (Seq<char>, bool), o: Option<Seq<char>>) -> bool {
    match o {
        None => true,
        Some(p) => p == c.0 || (c.1 && (p == c.0 + ".cmd"@ || p == c.0 + ".bat"@)),
    }
}

/// The checks report only such outcomes: a validated candidate reports its
/// normalized path, a probed one itself.
pub proof fn law_checks_report_candidates(
    path: Seq<char>,
    platform: Platform,
    ext: Option<Seq<char>>,
    cmd_exists: bool,
    bat_exists: bool,
    exists: bool,
    probe_ok: bool,
)
    ensures
        outcome_of_candidate(
            (path, true),
            ({
                let n = normalized_path(path, platform, ext, cmd_exists, bat_exists);
                if n.len() > 0 && exists && probe_ok {
                    Some(n)
                } else {
                    None
                }
            }),
        ),
        outcome_of_candidate(
            (path, false),
            if probe_ok {
                Some(path)
            } else {
                None
            },
        ),
{
}

/// A found agent is at one of the places tried: the first outcome that found
/// it belongs to a candidate, and is that candidate or its script variant.
pub proof fn law_found_at_known_place(plan: Seq<(Seq<char>, bool)>, outcomes: Seq<Option<Seq<char>>>)
    requires
        outcomes.len() <= plan.len(),
        forall|k: int| 0 <= k < outcomes.len() ==> outcome_of_candidate(plan[k], #[trigger] outcomes[k]),
    ensures
        first_found(outcomes) matches Some(p) ==> exists|k: int|
            0 <= k < outcomes.len() && outcomes[k] == Some(p) && outcome_of_candidate(
                #[trigger] plan[k],
                Some(p),
            ),
    decreases outcomes.len(),
{
    if outcomes.len() > 0 {
        let r = outcomes.drop_last();
        assert forall|k: int| 0 <= k < r.len() implies outcome_of_candidate(plan[k], #[trigger] r[k]) by {
            assert(r[k] == outcomes[k]);
        }
        law_found_at_known_place(plan, r);
        match first_found(r) {
            Some(p) => {
                let k = choose|k: int|
                    0 <= k < r.len() && r[k] == Some(p) && outcome_of_candidate(#[trigger] plan[k], Some(p));
                assert(outcomes[k] == r[k]);
            },
            None => {
                let k = outcomes.len() - 1;
                assert(outcome_of_candidate(plan[k], outcomes[k]));
            },
        }
    }
}

/// The outcome of checking one candidate. A validated candidate is
/// normalized (`ext`, `cmd_exists` and `bat_exists` as for
/// `normalize_openclaw_path`) and counts when the normalized path is not
/// empty, exists and answers the probe; another candidate counts when it
/// answers the probe. `exists` and `probe_ok` are about the path checked.
pub fn candidate_outcome(
    candidate: &Candidate,
    platform: Platform,
    ext: &Option<String>,
    cmd_exists: bool,
    bat_exists: bool,
    exists: bool,
    probe_ok: bool,
) -> (res: Option<String>)
    ensures
        opt_view(res) == (if candidate.validate {
            let n = normalized_path(candidate.path@, platform, opt_view(*ext), cmd_exists, bat_exists);
            if n.len() > 0 && exists && probe_ok {
                Some(n)
            } else {
                None
            }
        } else if probe_ok {
            Some(candidate.path@)
        } else {
            None
        }),
        outcome_of_candidate((candidate.path@, candidate.validate), opt_view(res)),
{
    proof {
        law_checks_report_candidates(candidate.path@, platform, opt_view(*ext), cmd_exists, bat_exists, exists, probe_ok);
    }
    if candidate.validate {
        let n = normalize_openclaw_path(candidate.path.as_str(), platform, ext, cmd_exists, bat_exists);
        resolve_valid_openclaw_path(n.as_str(), exists, probe_ok)
    } else {
        probe_only_outcome(candidate.path.as_str(), probe_ok)
    }
}

/// Whether a normalized path is worth probing: it is not empty and exists.
pub fn should_probe_path(normalized: &str, exists: bool) -> (res: bool)
    ensures
        res == (normalized@.len() > 0 && exists),
{
    chars_of(normalized).len() > 0 && exists
}

/// A normalized path is valid when it is not empty, exists, and answers a
/// probe; then it is the result.
pub fn resolve_valid_openclaw_path(normalized: &str, exists: bool, probe_ok: bool) -> (res: Option<
    String,
>)
    ensures
        opt_view(res) == (if normalized@.len() > 0 && exists && probe_ok {
            Some(normalized@)
        } else {
            None
        }),
{
    if should_probe_path(normalized, exists) && probe_ok {
        Some(normalized.to_owned())
    } else {
        None
    }
}

/// The outcome of a candidate that is only probed: the path itself when the
/// probe answered.
pub fn probe_only_outcome(path: &str, probe_ok: bool) -> (res: Option<String>)
    ensures
        opt_view(res) == (if probe_ok {
            Some(path@)
        } else {
            None
        }),
{
    if probe_ok {
        Some(path.to_owned())
    } else {
        None
    }
}

// ── Detection ───────────────────────────────────────────────────────────────

/// A path to try: `validate` candidates are normalized and must exist
/// before they are probed; the others are only probed.
pub struct Candidate {
    pub path: String,
    pub validate: bool,
}

pub open spec fn candidate_views(v: Seq<Candidate>) -> Seq<(Seq<char>, bool)> {
    v.map_values(|c: Candidate| (c.path@, c.validate))
}

/// The first line that names a `.cmd` file, or else the first line.
pub open spec fn where_line(ls: Seq<Seq<char>>) -> Option<Seq<char>>
    decreases ls.len(),
{
    if ls.len() == 0 {
        None
    } else {
        match where_line(ls.drop_last()) {
            Some(l) => if ends_with(spec_to_lowercase(l), ".cmd"@) {
                Some(l)
            } else if ends_with(spec_to_lowercase(ls.last()), ".cmd"@) {
                Some(ls.last())
            } else {
                Some(l)
            },
            None => Some(ls.last()),
        }
    }
}

/// The line chosen from the output of `where openclaw`: the first line naming
/// a `.cmd` file, or else the first line, trimmed.
pub open spec fn where_choice(output: Seq<char>) -> Option<Seq<char>> {
    match where_line(lines(output)) {
        Some(l) => Some(trim(l)),
        None => None,
    }
}

/// Picks the agent path out of the output of `where openclaw`.
pub fn select_where_output(output: &str) -> (res: Option<String>)
    ensures
        opt_view(res) == where_choice(output@),
{
    let ls = lines_exec(&chars_of(output));
    let ghost all = lines(output@);
    let mut best: Option<Vec<char>> = None;
    let mut best_is_cmd = false;
    let mut i: usize = 0;
    assert(all.take(0) =~= Seq::<Seq<char>>::empty());
    while i < ls.len()
        invariant
            i <= ls@.len(),
            all == lines(output@),
            ls@.len() == all.len(),
            forall|j: int| 0 <= j < ls@.len() ==> (#[trigger] ls@[j])@ == all[j],
            match best {
                Some(b) => where_line(all.take(i as int)) == Some(b@) && best_is_cmd == ends_with(
                    spec_to_lowercase(b@),
                    ".cmd"@,
                ),
                None => where_line(all.take(i as int)) is None,
            },
        decreases ls.len() - i,
    {
        assert(all.take(i + 1).drop_last() =~= all.take(i as int));
        assert(all.take(i + 1).last() == ls@[i as int]@);
        let line_lc = chars_of(to_lowercase(string_of(&ls[i]).as_str()).as_str());
        let is_cmd = ends_with_chars(&line_lc, &chars_of(".cmd"));
        match &best {
            Some(_) => {
                if !best_is_cmd && is_cmd {
                    best = Some(crate::text::copy_range(&ls[i], 0, ls[i].len()));
                    assert(ls@[i as int]@.subrange(0, ls@[i as int]@.len() as int) =~= ls@[i as int]@);
                    best_is_cmd = true;
                }
            },
            None => {
                best = Some(crate::text::copy_range(&ls[i], 0, ls[i].len()));
                assert(ls@[i as int]@.subrange(0, ls@[i as int]@.len() as int) =~= ls@[i as int]@);
                best_is_cmd = is_cmd;
            },
        }
        i += 1;
    }
    assert(all.take(ls.len() as int) =~= all);
    match best {
        Some(b) => Some(string_of(&trim_exec(&b))),
        None => None,
    }
}

/// The agent's well-known places on Unix.
pub open spec fn unix_places() -> Seq<(Seq<char>, bool)> {
    seq![("/usr/local/bin/openclaw"@, false), ("/usr/bin/openclaw"@, false)]
}

/// The paths tried to find the agent, in order. On Windows: the line chosen
/// from `where openclaw` (when it succeeded), then the npm folders' shims,
/// all validated. On Unix: the output of `which openclaw` (when it succeeded
/// and is not blank), then the well-known places, only probed. Last, on
/// both, `openclaw` on the search path, only probed.
pub open spec fn detection_plan(
    platform: Platform,
    lookup: Option<Seq<u8>>,
    npm_paths: Seq<Seq<char>>,
) -> Seq<(Seq<char>, bool)> {
    detection_plan_text(
        platform,
        match lookup {
            Some(out) => Some(spec_utf8_lossy(out)),
            None => None,
        },
        npm_paths,
    )
}

/// The search always ends with `openclaw` on the search path, only
/// probed; on Unix it tries `/usr/local/bin/openclaw` and `/usr/bin/openclaw`
/// (only probed) just before; on Windows every npm shim is tried and
/// validated.
pub proof fn law_detection_places(platform: Platform, lookup: Option<Seq<char>>, npm_paths: Seq<Seq<char>>)
    ensures
        ({
            let plan = detection_plan_text(platform, lookup, npm_paths);
            &&& plan.len() >= 1
            &&& plan.last() == ("openclaw"@, false)
            &&& platform != Platform::Windows ==> plan.len() >= 3 && plan[plan.len() - 3] == (
                "/usr/local/bin/openclaw"@,
                false,
            ) && plan[plan.len() - 2] == ("/usr/bin/openclaw"@, false)
            &&& platform == Platform::Windows ==> forall|k: int|
                0 <= k < npm_paths.len() ==> plan.contains((#[trigger] npm_paths[k], true))
        }),
{
    let plan = detection_plan_text(platform, lookup, npm_paths);
    if platform == Platform::Windows {
        let places = npm_paths.map_values(|p: Seq<char>| (p, true));
        let f = if lookup is Some && where_choice(lookup->0) is Some {
            seq![(where_choice(lookup->0)->0, true)]
        } else {
            Seq::<(Seq<char>, bool)>::empty()
        };
        assert(plan =~= f + places + seq![("openclaw"@, false)]);
        assert forall|k: int| 0 <= k < npm_paths.len() implies plan.contains((#[trigger] npm_paths[k], true)) by {
            assert(plan[f.len() + k] == places[k]);
        }
    }
}

/// The line chosen from `where` output names a `.cmd` file whenever one of
/// the lines does, and it is the first such line; when none does, it is
/// the first line.
pub proof fn law_where_prefers_cmd(ls: Seq<Seq<char>>)
    ensures
        ls.len() == 0 <==> where_line(ls) is None,
        (exists|k: int| 0 <= k < ls.len() && ends_with(spec_to_lowercase(#[trigger] ls[k]), ".cmd"@)) ==> ({
            let l = where_line(ls)->0;
            &&& ends_with(spec_to_lowercase(l), ".cmd"@)
            &&& exists|k: int| 0 <= k < ls.len() && ls[k] == l && forall|j: int|
                0 <= j < k ==> !ends_with(spec_to_lowercase(#[trigger] ls[j]), ".cmd"@)
        }),
        ls.len() > 0 && (forall|k: int| 0 <= k < ls.len() ==> !ends_with(spec_to_lowercase(#[trigger] ls[k]), ".cmd"@))
            ==> where_line(ls) == Some(ls[0]),
    decreases ls.len(),
{
    if ls.len() > 0 {
        let r = ls.drop_last();
        law_where_prefers_cmd(r);
        let last = ls.last();
        assert(last == ls[ls.len() - 1]);
        assert forall|k: int| 0 <= k < r.len() implies r[k] == ls[k] by {}
        if r.len() == 0 {
            assert(where_line(ls) == Some(last));
        }
        if exists|k: int| 0 <= k < ls.len() && ends_with(spec_to_lowercase(#[trigger] ls[k]), ".cmd"@) {
            if exists|k: int| 0 <= k < r.len() && ends_with(spec_to_lowercase(#[trigger] r[k]), ".cmd"@) {
                let l = where_line(r)->0;
                let k = choose|k: int| 0 <= k < r.len() && r[k] == l && forall|j: int|
                    0 <= j < k ==> !ends_with(spec_to_lowercase(#[trigger] r[j]), ".cmd"@);
                assert(ls[k] == l);
                assert forall|j: int| 0 <= j < k implies !ends_with(spec_to_lowercase(#[trigger] ls[j]), ".cmd"@) by {
                    assert(ls[j] == r[j]);
                }
            } else {
                assert forall|j: int| 0 <= j < r.len() implies !ends_with(spec_to_lowercase(#[trigger] ls[j]), ".cmd"@) by {
                    assert(ls[j] == r[j]);
                    assert(!ends_with(spec_to_lowercase(r[j]), ".cmd"@));
                }
                let k = choose|k: int| 0 <= k < ls.len() && ends_with(spec_to_lowercase(#[trigger] ls[k]), ".cmd"@);
                assert(k == ls.len() - 1);
                if r.len() > 0 {
                    assert(where_line(r) == Some(r[0]));
                    assert(!ends_with(spec_to_lowercase(r[0]), ".cmd"@));
                }
                assert(where_line(ls) == Some(last));
            }
        }
        if forall|k: int| 0 <= k < ls.len() ==> !ends_with(spec_to_lowercase(#[trigger] ls[k]), ".cmd"@) {
            if r.len() > 0 {
                assert forall|k: int| 0 <= k < r.len() implies !ends_with(spec_to_lowercase(#[trigger] r[k]), ".cmd"@) by {
                    assert(r[k] == ls[k]);
                }
                assert(where_line(r) == Some(r[0]));
                assert(r[0] == ls[0]);
            }
        }
    }
}

/// `detection_plan` with the lookup's output already decoded.
pub open spec fn detection_plan_text(
    platform: Platform,
    lookup: Option<Seq<char>>,
    npm_paths: Seq<Seq<char>>,
) -> Seq<(Seq<char>, bool)> {
    let first = match lookup {
        Some(text) => {
            if platform == Platform::Windows {
                match where_choice(text) {
                    Some(l) => seq![(l, true)],
                    None => Seq::empty(),
                }
            } else if trim(text).len() > 0 {
                seq![(trim(text), false)]
            } else {
                Seq::empty()
            }
        },
        None => Seq::empty(),
    };
    let places = if platform == Platform::Windows {
        npm_paths.map_values(|p: Seq<char>| (p, true))
    } else {
        unix_places()
    };
    first + places + seq![("openclaw"@, false)]
}

fn push_candidate(v: &mut Vec<Candidate>, path: String, validate: bool)
    ensures
        candidate_views(final(v)@) == candidate_views(old(v)@).push((path@, validate)),
{
    v.push(Candidate { path, validate });
    assert(candidate_views(final(v)@) =~= candidate_views(old(v)@).push((path@, validate)));
}

/// Lists the paths to try (see `detection_plan_text`), the lookup's output
/// already decoded.
pub fn detection_candidates_from_text(platform: Platform, lookup: Option<String>, npm_paths: &[String]) -> (res:
    Vec<Candidate>)
    ensures
        candidate_views(res@) == detection_plan_text(
            platform,
            opt_view(lookup),
            crate::proxy::string_views(npm_paths@),
        ),
{
    let mut v: Vec<Candidate> = Vec::new();
    match &lookup {
        Some(text) => {
            if platform == Platform::Windows {
                match select_where_output(text.as_str()) {
                    Some(l) => push_candidate(&mut v, l, true),
                    None => {},
                }
            } else {
                let t = trim_exec(&chars_of(text.as_str()));
                if t.len() > 0 {
                    push_candidate(&mut v, string_of(&t), false);
                }
            }
        },
        None => {},
    }
    let ghost first = candidate_views(v@);
    if platform == Platform::Windows {
        let ghost np = crate::proxy::string_views(npm_paths@);
        let mut i: usize = 0;
        while i < npm_paths.len()
            invariant
                i <= npm_paths@.len(),
                np == crate::proxy::string_views(npm_paths@),
                candidate_views(v@) == first + np.take(i as int).map_values(
                    |p: Seq<char>| (p, true),
                ),
            decreases npm_paths.len() - i,
        {
            push_candidate(&mut v, npm_paths[i].clone(), true);
            i += 1;
            assert(candidate_views(v@) =~= first + np.take(i as int).map_values(
                |p: Seq<char>| (p, true),
            ));
        }
        assert(np.take(npm_paths.len() as int) =~= np);
    } else {
        push_candidate(&mut v, "/usr/local/bin/openclaw".to_owned(), false);
        push_candidate(&mut v, "/usr/bin/openclaw".to_owned(), false);
        assert(candidate_views(v@) =~= first + unix_places());
    }
    push_candidate(&mut v, "openclaw".to_owned(), false);
    assert(candidate_views(v@) =~= detection_plan_text(
        platform,
        opt_view(lookup),
        crate::proxy::string_views(npm_paths@),
    ));
    v
}

/// Lists the paths to try (see `detection_plan`); `lookup` is the standard
/// output of `where`/`which openclaw` when that command succeeded, and
/// `npm_paths` are the npm shims under `%APPDATA%` and `%USERPROFILE%`.
pub fn detection_candidates(platform: Platform, lookup: Option<&[u8]>, npm_paths: &[String]) -> (res:
    Vec<Candidate>)
    ensures
        candidate_views(res@) == detection_plan(
            platform,
            match lookup {
                Some(b) => Some(b@),
                None => None,
            },
            crate::proxy::string_views(npm_paths@),
        ),
{
    let text = match lookup {
        Some(out) => Some(utf8_lossy(out)),
        None => None,
    };
    detection_candidates_from_text(platform, text, npm_paths)
}

/// The next step of the search for the agent.
pub enum FindStep {
    /// Try the candidate at this position and report its outcome.
    Check(usize),
    /// The agent was found here.
    Found(String),
    /// No candidate answered.
    NotFound,
}

/// The first outcome that found the agent.
pub open spec fn first_found(outcomes: Seq<Option<Seq<char>>>) -> Option<Seq<char>>
    decreases outcomes.len(),
{
    if outcomes.len() == 0 {
        None
    } else {
        match first_found(outcomes.drop_last()) {
            Some(p) => Some(p),
            None => outcomes.last(),
        }
    }
}

/// The search ends with the earliest outcome that found the agent: it is
/// that outcome's path, and every outcome before it found nothing; when no
/// outcome found it, there is no result.
pub proof fn law_first_found_is_earliest(outcomes: Seq<Option<Seq<char>>>)
    ensures
        first_found(outcomes) matches Some(p) ==> exists|k: int|
            0 <= k < outcomes.len() && outcomes[k] == Some(p) && forall|j: int| 0 <= j < k ==> (#[trigger] outcomes[j]) is None,
        (forall|k: int| 0 <= k < outcomes.len() ==> (#[trigger] outcomes[k]) is None) <==> first_found(outcomes) is None,
    decreases outcomes.len(),
{
    if outcomes.len() > 0 {
        let r = outcomes.drop_last();
        law_first_found_is_earliest(r);
        assert forall|k: int| 0 <= k < r.len() implies r[k] == outcomes[k] by {}
        let last = outcomes.len() - 1;
        assert(outcomes.last() == outcomes[last]);
        match first_found(r) {
            Some(p) => {
                let k = choose|k: int|
                    0 <= k < r.len() && r[k] == Some(p) && forall|j: int| 0 <= j < k ==> (#[trigger] r[j]) is None;
                assert(outcomes[k] == Some(p));
                assert forall|j: int| 0 <= j < k implies (#[trigger] outcomes[j]) is None by {
                    assert(r[j] is None);
                }
                assert(!(forall|k: int| 0 <= k < outcomes.len() ==> (#[trigger] outcomes[k]) is None)) by {
                    assert(outcomes[k] is Some);
                }
            },
            None => {
                assert forall|j: int| 0 <= j < last implies (#[trigger] outcomes[j]) is None by {
                    assert(r[j] is None);
                }
            },
        }
    }
}

/// The outcomes of the candidates tried so far, as text.
pub open spec fn outcome_views(v: Seq<Option<String>>) -> Seq<Option<Seq<char>>> {
    v.map_values(|o: Option<String>| opt_view(o))
}

/// Tries to find the openclaw binary: given the outcomes of the candidates
/// tried so far, in order (the found path, or `None`), the search ends with
/// the first path found; otherwise the next candidate is tried, until none
/// is left.
pub fn find_openclaw(candidates: &[Candidate], outcomes: &[Option<String>]) -> (res: FindStep)
    ensures
        match res {
            FindStep::Found(p) => first_found(outcome_views(outcomes@)) == Some(p@),
            FindStep::Check(k) => first_found(outcome_views(outcomes@)) is None && k
                == outcomes@.len() && k < candidates@.len(),
            FindStep::NotFound => first_found(outcome_views(outcomes@)) is None && outcomes@.len()
                >= candidates@.len(),
        },
{
    let ghost ov = outcome_views(outcomes@);
    let mut i: usize = 0;
    assert(ov.take(0) =~= Seq::<Option<Seq<char>>>::empty());
    while i < outcomes.len()
        invariant
            i <= outcomes@.len(),
            ov == outcome_views(outcomes@),
            first_found(ov.take(i as int)) is None,
        decreases outcomes.len() - i,
    {
        assert(ov.take(i + 1).drop_last() =~= ov.take(i as int));
        match &outcomes[i] {
            Some(p) => {
                proof {
                    assert(ov.take(i + 1).last() == Some(p@));
                    lemma_first_found_prefix(ov, i + 1);
                }
                return FindStep::Found(p.clone());
            },
            None => {},
        }
        i += 1;
    }
    assert(ov.take(outcomes.len() as int) =~= ov);
    if outcomes.len() < candidates.len() {
        FindStep::Check(outcomes.len())
    } else {
        FindStep::NotFound
    }
}

proof fn lemma_first_found_prefix(ov: Seq<Option<Seq<char>>>, k: int)
    requires
        0 <= k <= ov.len(),
        first_found(ov.take(k)) is Some,
    ensures
        first_found(ov) == first_found(ov.take(k)),
    decreases ov.len() - k,
{
    if k < ov.len() {
        assert(ov.take(k + 1).drop_last() =~= ov.take(k));
        lemma_first_found_prefix(ov, k + 1);
    } else {
        assert(ov.take(k) =~= ov);
    }
}

// ── Setup screen ────────────────────────────────────────────────────────────

/// The setup status: Node.js is installed when it reported a version; the
/// agent's version is the one its found path reports, or else the one
/// `openclaw` on the search path reports.
pub fn check_environment(
    node_version: Option<String>,
    openclaw_path: Option<String>,
    version_at_path: Option<String>,
    version_on_search_path: Option<String>,
) -> (res: EnvironmentStatus)
    ensures
        res.node_installed == node_version is Some,
        opt_view(res.node_version) == opt_view(node_version),
        opt_view(res.openclaw_version) == (if version_at_path is Some {
            opt_view(version_at_path)
        } else {
            opt_view(version_on_search_path)
        }),
        res.openclaw_installed == (version_at_path is Some || version_on_search_path is Some),
        opt_view(res.openclaw_path) == opt_view(openclaw_path),
{
    let openclaw_version = match version_at_path {
        Some(v) => Some(v),
        None => version_on_search_path,
    };
    EnvironmentStatus {
        node_installed: node_version.is_some(),
        node_version,
        openclaw_installed: openclaw_version.is_some(),
        openclaw_version,
        openclaw_path,
    }
}

/// The answer to a path the user entered: the version the (trimmed,
/// normalized) path reports, or an error that names the path.
pub fn validate_openclaw_path(normalized: &str, version: Option<String>) -> (res: Result<
    String,
    String,
>)
    ensures
        match res {
            Ok(v) => version matches Some(w) && v@ == w@,
            Err(e) => version is None && e@ == "'"@ + normalized@
                + "' antwortet nicht als OpenClaw-Binary. Auf Windows ist oft die .cmd-Datei korrekt, z.B. C:\\Users\\<Name>\\AppData\\Roaming\\npm\\openclaw.cmd"@,
        },
{
    match version {
        Some(v) => Ok(v),
        None => {
            let mut e = "'".to_owned();
            e.append(normalized);
            e.append(
                "' antwortet nicht als OpenClaw-Binary. Auf Windows ist oft die .cmd-Datei korrekt, z.B. C:\\Users\\<Name>\\AppData\\Roaming\\npm\\openclaw.cmd",
            );
            Err(e)
        },
    }
}

/// A path as the user entered it, without surrounding whitespace.
pub fn trimmed_path(path: &str) -> (res: String)
    ensures
        res@ == trim(path@),
{
    string_of(&trim_exec(&chars_of(path)))
}

// ── Installation ────────────────────────────────────────────────────────────

/// The exit code as `{}` writes it: `-1` when the process had none.
pub open spec fn exit_code_text(code: Option<i32>) -> Seq<char> {
    let c: int = match code {
        Some(c) => c as int,
        None => -1,
    };
    if c < 0 {
        "-"@ + decimal((-c) as nat)
    } else {
        decimal(c as nat)
    }
}

fn exit_code_string(code: Option<i32>) -> (res: String)
    ensures
        res@ == exit_code_text(code),
{
    let c: i64 = match code {
        Some(c) => c as i64,
        None => -1,
    };
    if c < 0 {
        let mut s = "-".to_owned();
        s.append(string_of(&decimal_exec((-c) as usize)).as_str());
        s
    } else {
        string_of(&decimal_exec(c as usize))
    }
}

/// The progress line for a new step of the installation.
pub fn install_progress(line: &str, kind: &str) -> (res: InstallProgressEvent)
    ensures
        res.line@ == line@,
        res.kind@ == kind@,
{
    InstallProgressEvent { line: line.to_owned(), kind: kind.to_owned() }
}

/// The command line shown when the installation starts.
pub fn install_command_progress() -> (res: InstallProgressEvent)
    ensures
        res.line@ == "npm install -g openclaw"@,
        res.kind@ == "command"@,
{
    install_progress("npm install -g openclaw", "command")
}

/// A line the installer wrote, marked by the stream it came from.
pub fn install_output_progress(line: String, from_stderr: bool) -> (res: InstallProgressEvent)
    ensures
        res.line@ == line@,
        res.kind@ == (if from_stderr {
            "stderr"@
        } else {
            "stdout"@
        }),
{
    let kind = if from_stderr {
        "stderr".to_owned()
    } else {
        "stdout".to_owned()
    };
    InstallProgressEvent { line, kind }
}

/// The progress line when the installer failed.
pub fn install_failed_progress(code: Option<i32>) -> (res: InstallProgressEvent)
    ensures
        res.line@ == "Installation fehlgeschlagen (exit code "@ + exit_code_text(code) + ")"@,
        res.kind@ == "error"@,
{
    let mut l = "Installation fehlgeschlagen (exit code ".to_owned();
    l.append(exit_code_string(code).as_str());
    l.append(")");
    InstallProgressEvent { line: l, kind: "error".to_owned() }
}

/// The error returned when the installer failed.
pub fn install_failed_message(code: Option<i32>) -> (res: String)
    ensures
        res@ == "npm install -g openclaw ist fehlgeschlagen (Exit-Code "@ + exit_code_text(code)
            + "). Pruefe Node/npm-Rechte oder installiere OpenClaw manuell und trage danach den Pfad ein."@,
{
    let mut m = "npm install -g openclaw ist fehlgeschlagen (Exit-Code ".to_owned();
    m.append(exit_code_string(code).as_str());
    m.append(
        "). Pruefe Node/npm-Rechte oder installiere OpenClaw manuell und trage danach den Pfad ein.",
    );
    m
}

/// The error returned when npm could not be started.
pub fn npm_start_failed_message(reason: &str) -> (res: String)
    ensures
        res@ == "npm konnte nicht gestartet werden: "@ + reason@,
{
    let mut m = "npm konnte nicht gestartet werden: ".to_owned();
    m.append(reason);
    m
}

/// The error returned when the agent is not found after installing it.
pub fn installed_but_not_found_message() -> (res: String)
    ensures
        res@ == "OpenClaw wurde installiert, aber danach nicht automatisch gefunden. Nutze 'Pfad angeben' und waehle z.B. C:\\Users\\<Name>\\AppData\\Roaming\\npm\\openclaw.cmd"@,
{
    "OpenClaw wurde installiert, aber danach nicht automatisch gefunden. Nutze 'Pfad angeben' und waehle z.B. C:\\Users\\<Name>\\AppData\\Roaming\\npm\\openclaw.cmd".to_owned()
}

/// The progress line when the agent was installed and found.
pub fn install_success_progress(path: &str) -> (res: InstallProgressEvent)
    ensures
        res.line@ == "openclaw installiert: "@ + path@,
        res.kind@ == "success"@,
{
    let mut l = "openclaw installiert: ".to_owned();
    l.append(path);
    InstallProgressEvent { line: l, kind: "success".to_owned() }
}

} // verus!
