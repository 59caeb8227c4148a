//! What is handed on to pacman, and what comes back.

use vstd::prelude::*;

use crate::pacman::alpm_db::PkgRecord;
use crate::pacman::invoke::{
    chunk_bytes, chunk_text, exit_code, files_after, is_mutating, marked, needs_sudo_spec, offer,
    position, spawn_plan, until_end, Spawn, SyncDb, UpgradeView,
};
use crate::text::{lossy_text, views};

verus! {

/// pacman runs as root exactly if one of the words is an operation that changes the
/// system, and none asks only to print what would be done.
pub proof fn law_what_changes_the_system_runs_as_root(argv: Seq<Seq<char>>)
    ensures
        needs_sudo_spec(argv) <==> {
            &&& !argv.contains("--print"@)
            &&& !argv.contains("-p"@)
            &&& {
                ||| argv.contains("-S"@)
                ||| argv.contains("-Sy"@)
                ||| argv.contains("-Syu"@)
                ||| argv.contains("-Syyu"@)
                ||| argv.contains("-Sc"@)
                ||| argv.contains("-Scc"@)
                ||| argv.contains("-R"@)
                ||| argv.contains("-Rs"@)
                ||| argv.contains("-Rns"@)
                ||| argv.contains("-U"@)
                ||| argv.contains("-D"@)
            }
        },
{
    assert forall|a: Seq<char>| is_mutating(a) && #[trigger] argv.contains(a) && !argv.contains(
        "--print"@,
    ) && !argv.contains("-p"@) implies needs_sudo_spec(argv) by {
        let i = choose|i: int| 0 <= i < argv.len() && argv[i] == a;
        assert(is_mutating(argv[i]));
    }
    if needs_sudo_spec(argv) {
        let i = choose|i: int| 0 <= i < argv.len() && is_mutating(#[trigger] argv[i]);
        assert(argv.contains(argv[i]));
    }
}

/// A command that only looks never runs as root.
pub proof fn law_looking_needs_no_root(argv: Seq<Seq<char>>)
    requires
        forall|i: int|
            0 <= i < argv.len() ==> (#[trigger] argv[i]).len() == 0 || argv[i][0] != '-' || (
            argv[i].len() > 1 && argv[i][1] == 'Q'),
    ensures
        !needs_sudo_spec(argv),
{
    reveal_strlit("-S");
    reveal_strlit("-Sy");
    reveal_strlit("-Syu");
    reveal_strlit("-Syyu");
    reveal_strlit("-Sc");
    reveal_strlit("-Scc");
    reveal_strlit("-R");
    reveal_strlit("-Rs");
    reveal_strlit("-Rns");
    reveal_strlit("-U");
    reveal_strlit("-D");
    if needs_sudo_spec(argv) {
        let i = choose|i: int| 0 <= i < argv.len() && is_mutating(#[trigger] argv[i]);
        assert(argv[i][1] != 'Q');
    }
}

/// A command with one of the words that change the system is run by the program that
/// makes it root, which gets `pacman` and then all the words; any other, and one that
/// only prints, is run by pacman itself with just the words.
pub proof fn law_how_pacman_is_run(escalator: &str, argv: &Vec<String>, r: Spawn)
    requires
        call_ensures(spawn_plan, (escalator, argv), r),
    ensures
        ({
            let words = views(argv@);
            let prints = words.contains("--print"@) || words.contains("-p"@);
            let changes = words.contains("-S"@) || words.contains("-Sy"@) || words.contains(
                "-Syu"@,
            ) || words.contains("-Syyu"@) || words.contains("-Sc"@) || words.contains("-Scc"@)
                || words.contains("-R"@) || words.contains("-Rs"@) || words.contains("-Rns"@)
                || words.contains("-U"@) || words.contains("-D"@);
            if changes && !prints {
                r.escalate && r.program@ == escalator@ && views(r.args@) == seq!["pacman"@] + words
            } else {
                !r.escalate && r.program@ == "pacman"@ && views(r.args@) == words
            }
        }),
{
    law_what_changes_the_system_runs_as_root(views(argv@));
}

/// A process that ended by itself has its own exit code; one that a signal killed has
/// the code that a shell gives it.
pub proof fn law_exit_codes_are_those_of_a_shell(code: i32, signal: i32)
    ensures
        exit_code(Some(code), None) == code,
        exit_code(Some(code), Some(signal)) == code,
        exit_code(None, Some(signal)) == signal + 128,
        exit_code(None, None) == 128,
{
}

proof fn lemma_files_after(argv: Seq<Seq<char>>, seen: bool, f: Seq<char>)
    ensures
        files_after(argv, seen).contains(f) <==> exists|j: int|
            0 <= j < argv.len() && #[trigger] argv[j] == f && f != "-U"@ && (f.len() == 0 || f[0]
                != '-') && (seen || exists|i: int| 0 <= i < j && #[trigger] argv[i] == "-U"@),
    decreases argv.len(),
{
    reveal_strlit("-U");
    reveal_strlit("-");
    if argv.len() > 0 {
        let first = argv[0];
        let r = argv.skip(1);
        let now = seen || first == "-U"@;
        lemma_files_after(r, now, f);
        let rest = files_after(r, now);
        let all = files_after(argv, seen);
        let flag = crate::text::occurs_at(first, "-"@, 0);
        assert(flag <==> first.len() > 0 && first[0] == '-') by {
            if first.len() > 0 {
                assert(first.subrange(0, 1)[0] == first[0]);
                if first[0] == '-' {
                    assert(first.subrange(0, 1) =~= "-"@);
                }
            }
        }
        let mine = first != "-U"@ && seen && !flag;
        assert(all == if mine {
            seq![first] + rest
        } else {
            rest
        });
        if all.contains(f) {
            let k = choose|k: int| 0 <= k < all.len() && all[k] == f;
            if mine && k == 0 {
                assert(argv[0] == f);
            } else {
                assert(rest[if mine {
                    k - 1
                } else {
                    k
                }] == f);
                assert(rest.contains(f));
                let j = choose|j: int|
                    0 <= j < r.len() && #[trigger] r[j] == f && f != "-U"@ && (f.len() == 0 || f[0]
                        != '-') && (now || exists|i: int| 0 <= i < j && #[trigger] r[i] == "-U"@);
                assert(argv[j + 1] == f);
                if !seen {
                    if first == "-U"@ {
                        assert(argv[0] == "-U"@);
                    } else {
                        let i = choose|i: int| 0 <= i < j && #[trigger] r[i] == "-U"@;
                        assert(argv[i + 1] == "-U"@);
                    }
                }
            }
        }
        if exists|j: int|
            0 <= j < argv.len() && #[trigger] argv[j] == f && f != "-U"@ && (f.len() == 0 || f[0]
                != '-') && (seen || exists|i: int| 0 <= i < j && #[trigger] argv[i] == "-U"@) {
            let j = choose|j: int|
                0 <= j < argv.len() && #[trigger] argv[j] == f && f != "-U"@ && (f.len() == 0
                    || f[0] != '-') && (seen || exists|i: int|
                    0 <= i < j && #[trigger] argv[i] == "-U"@);
            if j == 0 {
                assert(all[0] == f);
            } else {
                assert(r[j - 1] == f);
                if !now {
                    let i = choose|i: int| 0 <= i < j && #[trigger] argv[i] == "-U"@;
                    assert(r[i - 1] == "-U"@);
                }
                assert(rest.contains(f));
                let k = choose|k: int| 0 <= k < rest.len() && rest[k] == f;
                assert(all[if mine {
                    k + 1
                } else {
                    k
                }] == f);
            }
        }
    }
}

/// The files of an installation from files are exactly the words after a `-U` that do
/// not begin with a dash.
pub proof fn law_files_follow_their_flag(argv: Seq<Seq<char>>, f: Seq<char>)
    ensures
        files_after(argv, false).contains(f) <==> exists|i: int, j: int|
            0 <= i < j < argv.len() && #[trigger] argv[i] == "-U"@ && #[trigger] argv[j] == f && (
            f.len() == 0 || f[0] != '-'),
{
    reveal_strlit("-U");
    lemma_files_after(argv, false, f);
    if files_after(argv, false).contains(f) {
        let j = choose|j: int|
            0 <= j < argv.len() && #[trigger] argv[j] == f && f != "-U"@ && (f.len() == 0 || f[0]
                != '-') && (exists|i: int| 0 <= i < j && #[trigger] argv[i] == "-U"@);
        let i = choose|i: int| 0 <= i < j && #[trigger] argv[i] == "-U"@;
        assert(argv[i] == "-U"@ && argv[j] == f);
    }
}

/// Nothing that comes after an empty chunk counts, and everything before the first one
/// does, in order.
pub proof fn law_a_stream_ends_with_an_empty_chunk(chunks: Seq<Seq<u8>>, n: int)
    requires
        0 <= n <= chunks.len(),
        forall|i: int| 0 <= i < n ==> (#[trigger] chunks[i]).len() > 0,
        n < chunks.len() ==> chunks[n].len() == 0,
    ensures
        until_end(chunks) == chunks.take(n),
    decreases chunks.len(),
{
    if n > 0 {
        let r = chunks.skip(1);
        assert forall|i: int| 0 <= i < n - 1 implies (#[trigger] r[i]).len() > 0 by {
            assert(r[i] == chunks[i + 1]);
        }
        law_a_stream_ends_with_an_empty_chunk(r, n - 1);
        assert(seq![chunks[0]] + r.take(n - 1) =~= chunks.take(n));
    } else {
        assert(chunks.take(0) =~= seq![]);
    }
}

/// What is passed on of a stream is what its chunks hold, one after the other.
pub proof fn law_chunks_are_passed_on_in_order(a: Seq<Seq<u8>>, b: Seq<Seq<u8>>, c: Seq<u8>)
    ensures
        chunk_bytes(seq![c]) == c,
        chunk_text(seq![c]) == lossy_text(c),
        chunk_bytes(a + b) == chunk_bytes(a) + chunk_bytes(b),
        chunk_text(a + b) == chunk_text(a) + chunk_text(b),
    decreases b.len(),
{
    assert(seq![c].drop_last() =~= Seq::<Seq<u8>>::empty());
    assert(chunk_bytes(Seq::<Seq<u8>>::empty()) =~= Seq::<u8>::empty());
    assert(chunk_text(Seq::<Seq<u8>>::empty()) =~= Seq::<char>::empty());
    assert(chunk_bytes(seq![c]) =~= c);
    assert(chunk_text(seq![c]) =~= lossy_text(c));
    if b.len() == 0 {
        assert(a + b =~= a);
    } else {
        law_chunks_are_passed_on_in_order(a, b.drop_last(), c);
        assert((a + b).drop_last() =~= a + b.drop_last());
        assert((a + b).last() == b.last());
    }
}

/// `d` has the package called `n` at position `k`, and not before.
pub open spec fn has_first(d: SyncDb, n: Seq<char>, k: int) -> bool {
    &&& 0 <= k < d.pkgs@.len()
    &&& d.pkgs@[k].name@ == n
    &&& forall|j: int| 0 <= j < k ==> (#[trigger] d.pkgs@[j]).name@ != n
}

proof fn lemma_position(pkgs: Seq<PkgRecord>, n: Seq<char>)
    ensures
        0 <= position(pkgs, n) <= pkgs.len(),
        position(pkgs, n) < pkgs.len() ==> pkgs[position(pkgs, n)].name@ == n,
        forall|j: int| 0 <= j < position(pkgs, n) ==> (#[trigger] pkgs[j]).name@ != n,
    decreases pkgs.len(),
{
    if pkgs.len() > 0 && pkgs[0].name@ != n {
        let r = pkgs.skip(1);
        lemma_position(r, n);
        assert forall|j: int| 0 <= j < position(pkgs, n) implies (#[trigger] pkgs[j]).name@ != n by {
            if j > 0 {
                assert(r[j - 1] == pkgs[j]);
            }
        }
    }
}

/// The first database that has a package offers it, in the version that it has there;
/// later databases do not count.
pub proof fn law_the_first_database_offers(
    dbs: Seq<SyncDb>,
    n: Seq<char>,
    old: Seq<char>,
    i: int,
    k: int,
)
    requires
        0 <= i < dbs.len(),
        has_first(dbs[i], n, k),
        forall|j: int, l: int| 0 <= j < i ==> !#[trigger] has_first(dbs[j], n, l),
    ensures
        offer(dbs, n, old) == Some(
            UpgradeView {
                repo: dbs[i].name@,
                name: n,
                old_ver: old,
                new_ver: dbs[i].pkgs@[k].version@,
            },
        ),
    decreases dbs.len(),
{
    let at = position(dbs[0].pkgs@, n);
    lemma_position(dbs[0].pkgs@, n);
    if i == 0 {
        if k < at {
            assert(dbs[0].pkgs@[k].name@ != n);
        }
        if at < k {
            assert(dbs[0].pkgs@[at].name@ != n);
        }
    } else {
        if at < dbs[0].pkgs@.len() {
            assert(has_first(dbs[0], n, at));
        }
        let r = dbs.skip(1);
        assert(r[i - 1] == dbs[i]);
        assert forall|j: int, l: int| 0 <= j < i - 1 implies !#[trigger] has_first(r[j], n, l) by {
            assert(r[j] == dbs[j + 1]);
            assert(!has_first(dbs[j + 1], n, l));
        }
        law_the_first_database_offers(r, n, old, i - 1, k);
    }
}

/// A package that no database has is not offered.
pub proof fn law_nothing_else_is_offered(dbs: Seq<SyncDb>, n: Seq<char>, old: Seq<char>)
    requires
        forall|i: int, k: int| 0 <= i < dbs.len() ==> !#[trigger] has_first(dbs[i], n, k),
    ensures
        offer(dbs, n, old) is None,
    decreases dbs.len(),
{
    if dbs.len() > 0 {
        let at = position(dbs[0].pkgs@, n);
        lemma_position(dbs[0].pkgs@, n);
        if at < dbs[0].pkgs@.len() {
            assert(has_first(dbs[0], n, at));
        }
        let r = dbs.skip(1);
        assert forall|i: int, k: int| 0 <= i < r.len() implies !#[trigger] has_first(r[i], n, k) by {
            assert(r[i] == dbs[i + 1]);
            assert(!has_first(dbs[i + 1], n, k));
        }
        law_nothing_else_is_offered(r, n, old);
    }
}

/// An upgrade is listed exactly for the installed packages that are outdated and
/// offered, in the order of the installed packages: `at` says which.
pub proof fn law_outdated_packages_are_listed(
    local: Seq<PkgRecord>,
    dbs: Seq<SyncDb>,
    outdated: Seq<bool>,
) -> (at: Seq<int>)
    requires
        outdated.len() == local.len(),
    ensures
        at.len() == marked(local, dbs, outdated).len(),
        forall|k: int|
            0 <= k < at.len() ==> {
                &&& 0 <= #[trigger] at[k] < local.len()
                &&& outdated[at[k]]
                &&& offer(dbs, local[at[k]].name@, local[at[k]].version@) == Some(
                    marked(local, dbs, outdated)[k],
                )
            },
        forall|k: int, l: int| 0 <= k < l < at.len() ==> at[k] < at[l],
    decreases local.len(),
{
    if local.len() == 0 {
        Seq::empty()
    } else {
        let less = local.drop_last();
        let flags = outdated.drop_last();
        let a = law_outdated_packages_are_listed(less, dbs, flags);
        let all = marked(local, dbs, outdated);
        if offer(dbs, local.last().name@, local.last().version@) is Some && outdated.last() {
            let at = a.push(local.len() - 1);
            assert forall|k: int| 0 <= k < at.len() implies {
                &&& 0 <= #[trigger] at[k] < local.len()
                &&& outdated[at[k]]
                &&& offer(dbs, local[at[k]].name@, local[at[k]].version@) == Some(all[k])
            } by {
                if k < a.len() {
                    assert(at[k] == a[k]);
                    assert(flags[a[k]] == outdated[a[k]]);
                }
            }
            assert forall|k: int, l: int| 0 <= k < l < at.len() implies at[k] < at[l] by {
                assert(at[k] == a[k]);
                if l < a.len() {
                    assert(at[l] == a[l]);
                }
            }
            at
        } else {
            a
        }
    }
}

/// No upgrade that is due is left out.
pub proof fn law_every_outdated_package_is_listed(
    local: Seq<PkgRecord>,
    dbs: Seq<SyncDb>,
    outdated: Seq<bool>,
    i: int,
)
    requires
        outdated.len() == local.len(),
        0 <= i < local.len(),
        outdated[i],
        offer(dbs, local[i].name@, local[i].version@) is Some,
    ensures
        marked(local, dbs, outdated).contains(offer(dbs, local[i].name@, local[i].version@)->0),
    decreases local.len(),
{
    let u = offer(dbs, local[i].name@, local[i].version@)->0;
    let rest = marked(local.drop_last(), dbs, outdated.drop_last());
    if i < local.len() - 1 {
        law_every_outdated_package_is_listed(local.drop_last(), dbs, outdated.drop_last(), i);
        let k = choose|k: int| 0 <= k < rest.len() && rest[k] == u;
        assert(marked(local, dbs, outdated)[k] == u);
    } else {
        assert(marked(local, dbs, outdated)[rest.len() as int] == u);
    }
}

} // verus!
