//! Running pacman: what is run, what its output and its end mean.

use vstd::prelude::*;

use crate::error::Error;
use crate::names::{PkgName, RepoName};
use crate::pacman::alpm_db::PkgRecord;
use crate::text::{
    from_utf8_lossy, join, join_spec, lossy_text, same, starts_with, str_views, trim_end_char,
    trim_end_char_spec, views,
};
use crate::version::Version;

verus! {

broadcast use {vstd::string::group_string_axioms, crate::seqs::lemma_map_push};

/// The repository of rows that come from the AUR.
pub const REPO_AUR: &'static str = "aur";

/// A package of which a newer version is to be had.
#[derive(Debug)]
pub struct PkgUpgrade {
    /// Where it comes from.
    pub repo: RepoName,
    /// Which package.
    pub name: PkgName,
    /// The installed version.
    pub old_ver: Version,
    /// The newer version.
    pub new_ver: Version,
}

/// The model of a [`PkgUpgrade`].
#[verifier::ext_equal]
pub struct UpgradeView {
    /// Where it comes from.
    pub repo: Seq<char>,
    /// Which package.
    pub name: Seq<char>,
    /// The installed version.
    pub old_ver: Seq<char>,
    /// The newer version.
    pub new_ver: Seq<char>,
}

impl View for PkgUpgrade {
    type V = UpgradeView;

    open spec fn view(&self) -> UpgradeView {
        UpgradeView {
            repo: self.repo@,
            name: self.name@,
            old_ver: self.old_ver@,
            new_ver: self.new_ver@,
        }
    }
}

impl Clone for PkgUpgrade {
    fn clone(&self) -> (r: Self)
        ensures
            r@ == self@,
    {
        PkgUpgrade {
            repo: self.repo.clone(),
            name: self.name.clone(),
            old_ver: self.old_ver.clone(),
            new_ver: self.new_ver.clone(),
        }
    }
}

/// The models of the upgrades.
pub open spec fn upgrade_list(v: Seq<PkgUpgrade>) -> Seq<UpgradeView> {
    v.map_values(|u: PkgUpgrade| u@)
}

/// A sync database.
pub struct SyncDb {
    /// The repository.
    pub name: RepoName,
    /// Its packages.
    pub pkgs: Vec<PkgRecord>,
}

/// The position of the first package called `name`; the length where there is
/// none.
pub open spec fn position(pkgs: Seq<PkgRecord>, name: Seq<char>) -> int
    decreases pkgs.len(),
{
    if pkgs.len() == 0 || pkgs[0].name@ == name {
        0
    } else {
        1 + position(pkgs.skip(1), name)
    }
}

/// What the first database that has the package called `name` offers for an
/// installed version.
pub open spec fn offer(dbs: Seq<SyncDb>, name: Seq<char>, old: Seq<char>) -> Option<UpgradeView>
    decreases dbs.len(),
{
    if dbs.len() == 0 {
        None
    } else {
        let i = position(dbs[0].pkgs@, name);
        if 0 <= i < dbs[0].pkgs@.len() {
            Some(
                UpgradeView {
                    repo: dbs[0].name@,
                    name,
                    old_ver: old,
                    new_ver: dbs[0].pkgs@[i].version@,
                },
            )
        } else {
            offer(dbs.skip(1), name, old)
        }
    }
}

/// Whether `older`, asked about two versions, can answer `yes`.
pub open spec fn told<F: Fn(&Version, &Version) -> bool>(
    older: F,
    old: Seq<char>,
    new: Seq<char>,
    yes: bool,
) -> bool {
    exists|a: Version, b: Version|
        a@ == old && b@ == new && #[trigger] call_ensures(older, (&a, &b), yes)
}

/// The offers for the installed packages that `outdated` marks.
pub open spec fn marked(
    local: Seq<PkgRecord>,
    dbs: Seq<SyncDb>,
    outdated: Seq<bool>,
) -> Seq<UpgradeView>
    decreases local.len(),
{
    if local.len() == 0 {
        seq![]
    } else {
        let rest = marked(local.drop_last(), dbs, outdated.drop_last());
        let o = offer(dbs, local.last().name@, local.last().version@);
        if o is Some && outdated.last() {
            rest.push(o->0)
        } else {
            rest
        }
    }
}

/// Whether `outdated` marks what `older` says of each offer.
pub open spec fn marks<F: Fn(&Version, &Version) -> bool>(
    local: Seq<PkgRecord>,
    dbs: Seq<SyncDb>,
    older: F,
    outdated: Seq<bool>,
) -> bool {
    &&& outdated.len() == local.len()
    &&& forall|i: int|
        #![trigger outdated[i]]
        0 <= i < local.len() ==> match offer(dbs, local[i].name@, local[i].version@) {
            Some(o) => told(older, o.old_ver, o.new_ver, outdated[i]),
            None => !outdated[i],
        }
}

fn find_pkg<'a>(pkgs: &'a Vec<PkgRecord>, name: &str) -> (r: Option<&'a PkgRecord>)
    ensures
        match r {
            Some(p) => 0 <= position(pkgs@, name@) < pkgs@.len() && *p == pkgs@[position(
                pkgs@,
                name@,
            )],
            None => position(pkgs@, name@) == pkgs@.len(),
        },
{
    let mut i: usize = 0;
    assert(pkgs@.skip(0) =~= pkgs@);
    while i < pkgs.len()
        invariant
            i <= pkgs.len(),
            position(pkgs@, name@) == i + position(pkgs@.skip(i as int), name@),
        decreases pkgs.len() - i,
    {
        assert(pkgs@.skip(i as int)[0] == pkgs@[i as int]);
        if same(pkgs[i].name.as_str(), name) {
            return Some(&pkgs[i]);
        }
        assert(pkgs@.skip(i as int).skip(1) =~= pkgs@.skip(i as int + 1));
        i = i + 1;
    }
    None
}

fn best_offer(dbs: &Vec<SyncDb>, installed: &PkgRecord) -> (r: Option<PkgUpgrade>)
    ensures
        match r {
            Some(u) => offer(dbs@, installed.name@, installed.version@) == Some(u@),
            None => offer(dbs@, installed.name@, installed.version@) is None,
        },
{
    let mut i: usize = 0;
    assert(dbs@.skip(0) =~= dbs@);
    while i < dbs.len()
        invariant
            i <= dbs.len(),
            offer(dbs@, installed.name@, installed.version@) == offer(
                dbs@.skip(i as int),
                installed.name@,
                installed.version@,
            ),
        decreases dbs.len() - i,
    {
        assert(dbs@.skip(i as int)[0] == dbs@[i as int]);
        match find_pkg(&dbs[i].pkgs, installed.name.as_str()) {
            Some(p) => {
                return Some(
                    PkgUpgrade {
                        repo: dbs[i].name.clone(),
                        name: installed.name.clone(),
                        old_ver: installed.version.clone(),
                        new_ver: p.version.clone(),
                    },
                );
            },
            None => {},
        }
        assert(dbs@.skip(i as int).skip(1) =~= dbs@.skip(i as int + 1));
        i = i + 1;
    }
    None
}

/// The installed packages of which a sync database has a newer version. The first
/// database that has the package counts, even if a later one has a newer version;
/// packages that no database has are left out. `older` says whether the first of
/// two versions is older.
pub fn query_repo_upgrades_in<F: Fn(&Version, &Version) -> bool>(
    local: &Vec<PkgRecord>,
    dbs: &Vec<SyncDb>,
    older: F,
) -> (r: Vec<PkgUpgrade>)
    requires
        forall|a: Version, b: Version| #[trigger] call_requires(older, (&a, &b)),
    ensures
        exists|outdated: Seq<bool>|
            #[trigger] marks(local@, dbs@, older, outdated) && upgrade_list(r@) == marked(
                local@,
                dbs@,
                outdated,
            ),
{
    let mut r: Vec<PkgUpgrade> = Vec::new();
    let mut i: usize = 0;
    let ghost mut outdated: Seq<bool> = seq![];
    assert(local@.take(0) =~= seq![]);
    assert(upgrade_list(r@) =~= seq![]);
    while i < local.len()
        invariant
            i <= local.len(),
            forall|a: Version, b: Version| #[trigger] call_requires(older, (&a, &b)),
            marks(local@.take(i as int), dbs@, older, outdated),
            upgrade_list(r@) == marked(local@.take(i as int), dbs@, outdated),
        decreases local.len() - i,
    {
        proof {
            crate::seqs::lemma_take_succ(local@, i as int);
        }
        let installed = &local[i];
        let ghost had = outdated;
        match best_offer(dbs, installed) {
            Some(u) => {
                let yes = older(&u.old_ver, &u.new_ver);
                proof {
                    outdated = had.push(yes);
                    assert(told(older, u@.old_ver, u@.new_ver, yes));
                }
                if yes {
                    r.push(u);
                }
            },
            None => {
                proof {
                    outdated = had.push(false);
                }
            },
        }
        proof {
            assert(outdated.drop_last() =~= had);
            assert forall|k: int|
                #![trigger outdated[k]]
                0 <= k < i + 1 implies match offer(
                dbs@,
                local@.take(i as int + 1)[k].name@,
                local@.take(i as int + 1)[k].version@,
            ) {
                Some(o) => told(older, o.old_ver, o.new_ver, outdated[k]),
                None => !outdated[k],
            } by {
                if k < i {
                    assert(outdated[k] == had[k]);
                    assert(local@.take(i as int + 1)[k] == local@.take(i as int)[k]);
                }
            }
        }
        i = i + 1;
    }
    assert(local@.take(i as int) =~= local@);
    r
}

/// Whether `argv` holds `flag`.
pub open spec fn holds(argv: Seq<Seq<char>>, flag: Seq<char>) -> bool {
    argv.contains(flag)
}

/// The operations that change the system.
pub open spec fn is_mutating(a: Seq<char>) -> bool {
    a == "-S"@ || a == "-Sy"@ || a == "-Syu"@ || a == "-Syyu"@ || a == "-R"@ || a == "-Rs"@ || a
        == "-Rns"@ || a == "-U"@ || a == "-Sc"@ || a == "-Scc"@ || a == "-D"@
}

/// Whether pacman needs to be root: for an operation that changes the system,
/// unless it only prints.
pub open spec fn needs_sudo_spec(argv: Seq<Seq<char>>) -> bool {
    &&& !holds(argv, "--print"@)
    &&& !holds(argv, "-p"@)
    &&& exists|i: int| 0 <= i < argv.len() && is_mutating(#[trigger] argv[i])
}

/// Whether `argv` holds `flag`.
pub fn has_flag(argv: &Vec<String>, flag: &str) -> (r: bool)
    ensures
        r == holds(views(argv@), flag@),
{
    let ghost all = views(argv@);
    let mut i: usize = 0;
    while i < argv.len()
        invariant
            all == views(argv@),
            i <= argv.len(),
            forall|k: int| 0 <= k < i ==> #[trigger] all[k] != flag@,
        decreases argv.len() - i,
    {
        assert(all[i as int] == argv@[i as int]@);
        if same(argv[i].as_str(), flag) {
            return true;
        }
        i = i + 1;
    }
    assert(all.len() == argv@.len());
    false
}

fn mutates(a: &str) -> (r: bool)
    ensures
        r == is_mutating(a@),
{
    same(a, "-S") || same(a, "-Sy") || same(a, "-Syu") || same(a, "-Syyu") || same(a, "-R") || same(
        a,
        "-Rs",
    ) || same(a, "-Rns") || same(a, "-U") || same(a, "-Sc") || same(a, "-Scc") || same(a, "-D")
}

/// Whether pacman needs to be root.
pub fn needs_sudo(argv: &Vec<String>) -> (r: bool)
    ensures
        r == needs_sudo_spec(views(argv@)),
{
    if has_flag(argv, "--print") || has_flag(argv, "-p") {
        return false;
    }
    let ghost all = views(argv@);
    let mut i: usize = 0;
    assert(all.len() == argv@.len());
    while i < argv.len()
        invariant
            all == views(argv@),
            all.len() == argv@.len(),
            !holds(all, "--print"@),
            !holds(all, "-p"@),
            i <= argv.len(),
            forall|k: int| 0 <= k < i ==> !is_mutating(#[trigger] all[k]),
        decreases argv.len() - i,
    {
        assert(all[i as int] == argv@[i as int]@);
        if mutates(argv[i].as_str()) {
            return true;
        }
        i = i + 1;
    }
    false
}

/// `pacman` and then `argv`.
pub fn with_pacman(argv: &Vec<String>) -> (r: Vec<String>)
    ensures
        views(r@) == seq!["pacman"@] + views(argv@),
{
    let ghost all = views(argv@);
    let mut r: Vec<String> = Vec::new();
    r.push("pacman".to_owned());
    let mut i: usize = 0;
    assert(views(r@) =~= seq!["pacman"@] + all.take(0));
    while i < argv.len()
        invariant
            all == views(argv@),
            i <= argv.len(),
            views(r@) == seq!["pacman"@] + all.take(i as int),
        decreases argv.len() - i,
    {
        r.push(argv[i].clone());
        proof {
            crate::seqs::lemma_take_succ(all, i as int);
            assert(all[i as int] == argv@[i as int]@);
        }
        assert(views(r@) =~= seq!["pacman"@] + all.take(i as int + 1));
        i = i + 1;
    }
    assert(all.take(i as int) =~= all);
    r
}

/// What is run.
#[derive(Debug)]
pub struct Spawn {
    /// The program.
    pub program: String,
    /// Its arguments.
    pub args: Vec<String>,
    /// Whether it runs as root, which the user is asked about first.
    pub escalate: bool,
}

/// How pacman is run with `argv`: itself, or through `escalator` where it needs to
/// be root.
pub fn spawn_plan(escalator: &str, argv: &Vec<String>) -> (r: Spawn)
    ensures
        r.escalate == needs_sudo_spec(views(argv@)),
        r.program@ == (if r.escalate {
            escalator@
        } else {
            "pacman"@
        }),
        views(r.args@) == (if r.escalate {
            seq!["pacman"@] + views(argv@)
        } else {
            views(argv@)
        }),
{
    let escalate = needs_sudo(argv);
    if escalate {
        Spawn { program: escalator.to_owned(), args: with_pacman(argv), escalate }
    } else {
        let args = argv.clone();
        assert(views(args@) =~= views(argv@)) by {
            assert forall|i: int| 0 <= i < argv@.len() implies args@[i]@ == argv@[i]@ by {
                assert(vstd::pervasive::cloned(argv@[i], args@[i]));
            }
        }
        Spawn { program: "pacman".to_owned(), args, escalate }
    }
}

/// What the user reads before a command runs as root.
pub fn escalation_notice(program: &str, args: &Vec<String>) -> (r: String)
    ensures
        r@ == "about to elevate via "@ + program@ + ":\n   "@ + program@ + " "@ + join_spec(
            views(args@),
            " "@,
        ),
{
    let mut r = "about to elevate via ".to_owned();
    r.append(program);
    r.append(":\n   ");
    r.append(program);
    r.append(" ");
    r.append(join(args, " ").as_str());
    r
}

/// What the user's answer leads to.
pub fn escalation_answer(yes: bool) -> (r: Result<(), Error>)
    ensures
        yes ==> r is Ok,
        !yes ==> r matches Err(Error::UserAbort),
{
    if yes {
        Ok(())
    } else {
        Err(Error::UserAbort)
    }
}

/// The exit code of a process that ended with a code or was killed by a signal. A
/// signal counts from 128, as in a shell.
pub open spec fn exit_code(code: Option<i32>, signal: Option<i32>) -> int {
    match code {
        Some(c) => c as int,
        None => 128 + match signal {
            Some(s) => s as int,
            None => 0,
        },
    }
}

/// The exit code of a process.
pub fn status_to_exit_code(code: Option<i32>, signal: Option<i32>) -> (r: i32)
    requires
        signal matches Some(s) ==> s <= i32::MAX - 128,
    ensures
        r == exit_code(code, signal),
{
    match code {
        Some(c) => c,
        None => {
            let sig: i32 = match signal {
                Some(s) => s,
                None => 0,
            };
            128 + sig
        },
    }
}

/// What an end of pacman means: only the code 0 is success.
pub fn pacman_result(code: Option<i32>, signal: Option<i32>) -> (r: Result<u8, Error>)
    requires
        signal matches Some(s) ==> s <= i32::MAX - 128,
    ensures
        code == Some(0i32) ==> r == Ok::<u8, Error>(0),
        code != Some(0i32) ==> (r matches Err(Error::PacmanExit(n)) && n == exit_code(code, signal)),
{
    match code {
        Some(0) => Ok(0),
        _ => Err(Error::PacmanExit(status_to_exit_code(code, signal))),
    }
}

/// The output of pacman, made ready for a log.
#[derive(Debug)]
pub struct CleanedPacmanCapture {
    /// What it wrote to its output.
    pub stdout: String,
    /// What it wrote to its error output.
    pub stderr: String,
}

/// What `console::strip_ansi_codes` leaves of a text.
pub uninterp spec fn stripped(s: Seq<char>) -> Seq<char>;

/// Whether `s` holds a character with which an escape sequence begins.
pub open spec fn has_escape(s: Seq<char>) -> bool {
    s.contains('\u{1b}') || s.contains('\u{9b}')
}

/// Takes escape sequences out of a text by `console::strip_ansi_codes`. A text in
/// which no sequence begins stays as it is; of others the result is only named.
#[verifier::external_body]
fn strip_ansi(s: &str) -> (r: String)
    ensures
        r@ == stripped(s@),
        !has_escape(s@) ==> r@ == s@,
{
    console::strip_ansi_codes(s).into_owned()
}

/// The two outputs, or nothing where both are empty.
pub fn keep_capture(stdout: String, stderr: String) -> (r: Option<CleanedPacmanCapture>)
    ensures
        r is None <==> stdout@.len() == 0 && stderr@.len() == 0,
        r matches Some(c) ==> c.stdout@ == stdout@ && c.stderr@ == stderr@,
{
    if stdout.as_str().is_empty() && stderr.as_str().is_empty() {
        return None;
    }
    Some(CleanedPacmanCapture { stdout, stderr })
}

/// Makes the output of pacman ready for a log: without the line feeds at its end
/// and without escape sequences. Nothing is left of two empty outputs.
pub fn clean_pacman_capture(captured_out: &str, captured_err: &str) -> (r: Option<
    CleanedPacmanCapture,
>)
    ensures
        ({
            let out = stripped(trim_end_char_spec(captured_out@, '\n'));
            let err = stripped(trim_end_char_spec(captured_err@, '\n'));
            &&& r is None <==> out.len() == 0 && err.len() == 0
            &&& r matches Some(c) ==> c.stdout@ == out && c.stderr@ == err
        }),
{
    let stdout = strip_ansi(trim_end_char(captured_out, '\n'));
    let stderr = strip_ansi(trim_end_char(captured_err, '\n'));
    keep_capture(stdout, stderr)
}

/// The chunks that come before the first empty one, which ends a stream.
pub open spec fn until_end(chunks: Seq<Seq<u8>>) -> Seq<Seq<u8>>
    decreases chunks.len(),
{
    if chunks.len() == 0 || chunks[0].len() == 0 {
        seq![]
    } else {
        seq![chunks[0]] + until_end(chunks.skip(1))
    }
}

/// The bytes of the chunks.
pub open spec fn chunk_bytes(chunks: Seq<Seq<u8>>) -> Seq<u8>
    decreases chunks.len(),
{
    if chunks.len() == 0 {
        seq![]
    } else {
        chunk_bytes(chunks.drop_last()) + chunks.last()
    }
}

/// The text of the chunks, each read by itself.
pub open spec fn chunk_text(chunks: Seq<Seq<u8>>) -> Seq<char>
    decreases chunks.len(),
{
    if chunks.len() == 0 {
        seq![]
    } else {
        chunk_text(chunks.drop_last()) + lossy_text(chunks.last())
    }
}

/// The bytes of each chunk.
pub open spec fn chunk_views(v: Seq<Vec<u8>>) -> Seq<Seq<u8>> {
    v.map_values(|c: Vec<u8>| c@)
}

/// A chunk that is not empty, before others.
proof fn lemma_until_end(chunks: Seq<Seq<u8>>, i: int)
    requires
        0 <= i < chunks.len(),
        forall|k: int| 0 <= k < i ==> #[trigger] chunks[k].len() > 0,
    ensures
        chunks[i].len() == 0 ==> until_end(chunks) == chunks.take(i),
    decreases i,
{
    if chunks[i].len() == 0 {
        if i == 0 {
            assert(chunks.take(0) =~= seq![]);
        } else {
            assert(chunks[0].len() > 0);
            let rest = chunks.skip(1);
            assert forall|k: int| 0 <= k < i - 1 implies #[trigger] rest[k].len() > 0 by {
                assert(rest[k] == chunks[k + 1]);
            }
            lemma_until_end(rest, i - 1);
            assert(seq![chunks[0]] + rest.take(i - 1) =~= chunks.take(i));
        }
    }
}

/// Where no chunk is empty, all of them count.
proof fn lemma_until_end_all(chunks: Seq<Seq<u8>>)
    requires
        forall|k: int| 0 <= k < chunks.len() ==> #[trigger] chunks[k].len() > 0,
    ensures
        until_end(chunks) == chunks,
    decreases chunks.len(),
{
    if chunks.len() > 0 {
        assert(chunks[0].len() > 0);
        let rest = chunks.skip(1);
        assert forall|k: int| 0 <= k < rest.len() implies #[trigger] rest[k].len() > 0 by {
            assert(rest[k] == chunks[k + 1]);
        }
        lemma_until_end_all(rest);
        assert(seq![chunks[0]] + rest =~= chunks);
    } else {
        assert(chunks =~= seq![]);
    }
}

/// Passes a stream on and keeps its text. The stream comes in chunks and an empty
/// chunk ends it. Every byte goes to `sink`; the text is put together chunk by
/// chunk, with replacement characters for what is no UTF-8.
pub fn tee_pipe(chunks: &Vec<Vec<u8>>, sink: &mut Vec<u8>) -> (r: String)
    ensures
        final(sink)@ == old(sink)@ + chunk_bytes(until_end(chunk_views(chunks@))),
        r@ == chunk_text(until_end(chunk_views(chunks@))),
{
    let ghost all = chunk_views(chunks@);
    let ghost before = sink@;
    let mut buf = String::new();
    let mut i: usize = 0;
    assert(all.take(0) =~= seq![]);
    assert(sink@ =~= before + chunk_bytes(all.take(0)));
    assert(buf@ =~= chunk_text(all.take(0)));
    while i < chunks.len()
        invariant
            all == chunk_views(chunks@),
            i <= chunks.len(),
            before == old(sink)@,
            forall|k: int| 0 <= k < i ==> #[trigger] all[k].len() > 0,
            sink@ == before + chunk_bytes(all.take(i as int)),
            buf@ == chunk_text(all.take(i as int)),
        decreases chunks.len() - i,
    {
        let chunk = &chunks[i];
        assert(all[i as int] == chunk@);
        if chunk.len() == 0 {
            proof {
                lemma_until_end(all, i as int);
            }
            return buf;
        }
        proof {
            crate::seqs::lemma_take_succ(all, i as int);
        }
        let text = from_utf8_lossy(chunk.as_slice());
        let ghost sunk = sink@;
        sink.extend_from_slice(chunk.as_slice());
        assert(sink@ =~= sunk + chunk@);
        assert(sink@ =~= before + chunk_bytes(all.take(i as int + 1)));
        buf.append(text.as_str());
        i = i + 1;
    }
    proof {
        lemma_until_end_all(all);
        assert(all.take(i as int) =~= all);
    }
    buf
}

/// The file arguments after the first `-U`.
pub open spec fn files_after(argv: Seq<Seq<char>>, seen: bool) -> Seq<Seq<char>>
    decreases argv.len(),
{
    if argv.len() == 0 {
        seq![]
    } else if argv[0] == "-U"@ {
        files_after(argv.skip(1), true)
    } else if seen && !crate::text::occurs_at(argv[0], "-"@, 0) {
        seq![argv[0]] + files_after(argv.skip(1), seen)
    } else {
        files_after(argv.skip(1), seen)
    }
}

/// The files of an installation from files: what follows `-U` and is no flag.
/// Nothing where there is no `-U`.
pub fn dash_u_paths<'a>(argv: &'a Vec<String>) -> (r: Option<Vec<&'a str>>)
    ensures
        r is Some <==> holds(views(argv@), "-U"@),
        r matches Some(paths) ==> str_views(paths@) == files_after(views(argv@), false),
{
    let ghost all = views(argv@);
    let mut found = false;
    let mut paths: Vec<&'a str> = Vec::new();
    let mut i: usize = 0;
    assert(all.len() == argv@.len());
    assert(all.skip(0) =~= all);
    assert(str_views(paths@) =~= seq![]);
    assert(seq![] + files_after(all, false) =~= files_after(all, false));
    while i < argv.len()
        invariant
            all == views(argv@),
            all.len() == argv@.len(),
            i <= argv.len(),
            found <==> exists|k: int| 0 <= k < i && #[trigger] all[k] == "-U"@,
            files_after(all, false) == str_views(paths@) + files_after(all.skip(i as int), found),
        decreases argv.len() - i,
    {
        let a = &argv[i];
        assert(all[i as int] == a@);
        assert(all.skip(i as int)[0] == a@);
        assert(all.skip(i as int).skip(1) =~= all.skip(i as int + 1));
        if same(a.as_str(), "-U") {
            found = true;
        } else if found && !starts_with(a.as_str(), "-") {
            let ghost had = paths@;
            paths.push(a.as_str());
            assert(str_views(paths@) =~= str_views(had).push(a@));
            assert(str_views(had) + (seq![a@] + files_after(all.skip(i as int + 1), found))
                =~= str_views(paths@) + files_after(all.skip(i as int + 1), found));
        }
        i = i + 1;
    }
    assert(all.skip(i as int) =~= seq![]);
    assert(str_views(paths@) + seq![] =~= str_views(paths@));
    if found {
        Some(paths)
    } else {
        None
    }
}

/// Nothing that only prints runs as root.
pub proof fn law_printing_needs_no_root(argv: Seq<Seq<char>>)
    requires
        holds(argv, "--print"@) || holds(argv, "-p"@),
    ensures
        !needs_sudo_spec(argv),
{
}

} // verus!
