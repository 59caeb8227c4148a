//! Files and their names: what is kept, what is swept and what is found.

use vstd::prelude::*;

use crate::git::{failure_text, graph_args, tip_lines};
use crate::laws::texts::is_without;
use crate::logging::{filter_spec, FilterVar};
use crate::mirror::loose_branches;
use crate::names::{anchor_spec, rank_spec, vcs_spec, NameMatch, RepoRank};
use crate::pacman::sync::is_db;
use crate::paths::{extension_spec, join_spec, last_dot, StatePath};
use crate::rotate::{is_prunable, times_of, RotationPolicy, Seen};
use crate::system::{doomed, every_kind, file_count, sizes, sum, Found, StateKind, Usage};
use crate::text::{occurs_at, same_ascii_caseless, trim_spec};

verus! {

/// Each part of the state has its own name.
pub proof fn law_where_the_state_lies()
    ensures
        StatePath::AurRepo.name_spec() == "aur"@,
        StatePath::FetchStamp.name_spec() == "last-fetch"@,
        StatePath::Pkgs.name_spec() == "pkgs"@,
        StatePath::Index.name_spec() == "index.bin"@,
        StatePath::SyncDb.name_spec() == "syncdb"@,
        StatePath::Logs.name_spec() == "logs"@,
        StatePath::Traces.name_spec() == "traces"@,
        StatePath::Metrics.name_spec() == "metrics.db"@,
        StatePath::ShellHistory.name_spec() == "shell_history"@,
{
}

/// A name is put below a directory with one slash between, and stands for itself where
/// it is absolute or there is no directory.
pub proof fn law_how_paths_are_joined(dir: Seq<char>, name: Seq<char>)
    ensures
        name.len() > 0 && name[0] == '/' ==> join_spec(dir, name) == name,
        dir.len() == 0 ==> join_spec(dir, name) == name,
        dir.len() > 0 && !(name.len() > 0 && name[0] == '/') && dir.last() == '/' ==> join_spec(
            dir,
            name,
        ) == dir + name,
        dir.len() > 0 && !(name.len() > 0 && name[0] == '/') && dir.last() != '/' ==> join_spec(
            dir,
            name,
        ) == dir + "/"@ + name,
{
}

proof fn lemma_last_dot(stem: Seq<char>, ext: Seq<char>)
    requires
        is_without(ext, '.'),
    ensures
        last_dot(stem + "."@ + ext) == stem.len(),
        last_dot(ext) == -1,
    decreases ext.len(),
{
    reveal_strlit(".");
    let all = stem + "."@ + ext;
    if ext.len() > 0 {
        let q = ext.drop_last();
        assert forall|i: int| 0 <= i < q.len() implies #[trigger] q[i] != '.' by {
            assert(q[i] == ext[i]);
        }
        lemma_last_dot(stem, q);
        assert(all.drop_last() =~= stem + "."@ + q);
        assert(all.last() == ext[ext.len() - 1]);
        assert(ext.last() == ext[ext.len() - 1]);
    } else {
        assert(all.last() == '.');
    }
}

/// The extension is what follows the last dot, unless the name begins with it.
pub proof fn law_what_an_extension_is(stem: Seq<char>, ext: Seq<char>)
    requires
        is_without(ext, '.'),
    ensures
        stem.len() > 0 && stem + "."@ + ext != ".."@ ==> extension_spec(stem + "."@ + ext) == Some(
            ext,
        ),
        extension_spec(ext) is None,
        extension_spec("."@ + ext) is None,
        extension_spec(".."@) is None,
{
    reveal_strlit(".");
    lemma_last_dot(stem, ext);
    let name = stem + "."@ + ext;
    assert(name.skip(stem.len() as int + 1) =~= ext);
    let none = Seq::<char>::empty();
    lemma_last_dot(none, ext);
    assert(none + "."@ + ext =~= "."@ + ext);
}

/// A file is a database exactly if its extension is `db`.
pub proof fn law_what_a_database_is(stem: Seq<char>, ext: Seq<char>)
    requires
        stem.len() > 0,
        is_without(ext, '.'),
        ext.len() > 0,
    ensures
        is_db(stem + "."@ + ext) <==> ext == "db"@,
        !is_db(ext),
{
    reveal_strlit(".");
    reveal_strlit("..");
    law_what_an_extension_is(stem, ext);
    let name = stem + "."@ + ext;
    assert(name != ".."@) by {
        assert(name[name.len() - 1] == ext[ext.len() - 1]);
    }
}

/// A file belongs to a family exactly if its name begins with `aurox-` and has the
/// extension of the family, in any case.
pub proof fn law_which_files_belong(p: RotationPolicy, stem: Seq<char>, ext: Seq<char>)
    requires
        is_without(ext, '.'),
    ensures
        p.owns_spec("aurox-"@ + stem + "."@ + ext) <==> same_ascii_caseless(ext, p.ext@),
        !p.owns_spec(ext),
        !("aurox-"@).is_prefix_of(stem) ==> !p.owns_spec(stem),
{
    reveal_strlit("aurox-");
    reveal_strlit("..");
    let s = "aurox-"@ + stem;
    let name = s + "."@ + ext;
    law_what_an_extension_is(s, ext);
    assert(name[0] == 'a');
    assert(name != ".."@);
    assert(name.subrange(0, 6) =~= "aurox-"@);
    if occurs_at(stem, "aurox-"@, 0) {
        assert("aurox-"@ =~= stem.subrange(0, 6));
    }
}

/// What can be made again is swept away, and nothing else.
pub proof fn law_what_can_be_made_again()
    ensures
        doomed(every_kind()) == seq![
            StatePath::AurRepo,
            StatePath::FetchStamp,
            StatePath::Index,
            StatePath::SyncDb,
            StatePath::Pkgs,
        ],
        every_kind().len() == 8,
        forall|k: StateKind| #[trigger] every_kind().contains(k),
{
    let all = every_kind();
    assert(all[0] == StateKind::Mirror && all[1] == StateKind::Index && all[2]
        == StateKind::SyncDb && all[3] == StateKind::Builds && all[4] == StateKind::Logs && all[5]
        == StateKind::Traces && all[6] == StateKind::Metrics && all[7] == StateKind::History);
    assert(all.take(8) =~= all);
    assert(all.take(8).drop_last() =~= all.take(7));
    assert(all.take(7).drop_last() =~= all.take(6));
    assert(all.take(6).drop_last() =~= all.take(5));
    assert(all.take(5).drop_last() =~= all.take(4));
    assert(all.take(4).drop_last() =~= all.take(3));
    assert(all.take(3).drop_last() =~= all.take(2));
    assert(all.take(2).drop_last() =~= all.take(1));
    assert(all.take(1).drop_last() =~= all.take(0));
    assert(doomed(all.take(0)) =~= Seq::<StatePath>::empty());
    assert(doomed(all.take(1)) =~= seq![StatePath::AurRepo, StatePath::FetchStamp]);
    assert(doomed(all.take(2)) =~= seq![
        StatePath::AurRepo,
        StatePath::FetchStamp,
        StatePath::Index,
    ]);
    assert(doomed(all.take(3)) =~= seq![
        StatePath::AurRepo,
        StatePath::FetchStamp,
        StatePath::Index,
        StatePath::SyncDb,
    ]);
    assert(doomed(all.take(4)) =~= seq![
        StatePath::AurRepo,
        StatePath::FetchStamp,
        StatePath::Index,
        StatePath::SyncDb,
        StatePath::Pkgs,
    ]);
    assert(doomed(all.take(5)) == doomed(all.take(4)));
    assert(doomed(all.take(6)) == doomed(all.take(5)));
    assert(doomed(all.take(7)) == doomed(all.take(6)));
    assert(doomed(all.take(8)) == doomed(all.take(7)));
    assert forall|k: StateKind| #[trigger] all.contains(k) by {
        match k {
            StateKind::Mirror => assert(all[0] == k),
            StateKind::Index => assert(all[1] == k),
            StateKind::SyncDb => assert(all[2] == k),
            StateKind::Builds => assert(all[3] == k),
            StateKind::Logs => assert(all[4] == k),
            StateKind::Traces => assert(all[5] == k),
            StateKind::Metrics => assert(all[6] == k),
            StateKind::History => assert(all[7] == k),
        }
    }
}

/// A file has its own size and counts once; what is in a directory adds up.
pub proof fn law_sizes_add_up(a: Seq<Found>, b: Seq<Found>, n: u64)
    ensures
        Found::Nothing.size() == 0 && Found::Nothing.files() == 0,
        Found::File(n).size() == n && Found::File(n).files() == 1,
        sizes(Seq::empty()) == 0 && file_count(Seq::empty()) == 0,
        sizes(a + b) == sizes(a) + sizes(b),
        file_count(a + b) == file_count(a) + file_count(b),
    decreases b.len(),
{
    if b.len() == 0 {
        assert(a + b =~= a);
    } else {
        law_sizes_add_up(a, b.drop_last(), n);
        assert((a + b).drop_last() =~= a + b.drop_last());
        assert((a + b).last() == b.last());
    }
}

/// A directory has the size and the files of what is in it, and as many loose branches.
pub proof fn law_a_directory_is_what_it_holds(v: Vec<Found>, x: Found)
    ensures
        Found::Dir(v).size() == sizes(v@),
        Found::Dir(v).files() == file_count(v@),
        sizes(seq![x]) == x.size(),
        file_count(seq![x]) == x.files(),
        file_count(v@) <= usize::MAX ==> loose_branches(Found::Dir(v)) == file_count(v@),
        loose_branches(Found::Nothing) == 0,
{
    assert(seq![x].drop_last() =~= Seq::<Found>::empty());
    assert(sizes(Seq::<Found>::empty()) == 0);
    assert(file_count(Seq::<Found>::empty()) == 0);
}

/// The sum of the rows is that of all of them, or of those that can be removed.
pub proof fn law_rows_add_up(rows: Seq<Usage>, u: Usage, only: bool)
    ensures
        sum(Seq::empty(), only) == 0,
        sum(rows.push(u), false) == sum(rows, false) + u.size.0,
        sum(rows.push(u), true) == sum(rows, true) + (if u.kind == StateKind::Mirror || u.kind
            == StateKind::Index || u.kind == StateKind::SyncDb || u.kind == StateKind::Builds {
            u.size.0 as nat
        } else {
            0
        }),
{
    assert(rows.push(u).drop_last() =~= rows);
}

/// A name follows a version control system exactly if it ends like one.
pub proof fn law_which_names_follow_a_repository(s: Seq<char>)
    ensures
        vcs_spec(s) <==> exists|b: Seq<char>| #[trigger]
            (b + "-git"@) == s || b + "-svn"@ == s || b + "-hg"@ == s || b + "-bzr"@ == s,
{
    reveal_strlit("-git");
    reveal_strlit("-svn");
    reveal_strlit("-hg");
    reveal_strlit("-bzr");
    if "-git"@.is_suffix_of(s) {
        let b = s.take(s.len() - 4);
        assert(b + "-git"@ =~= s);
    }
    if "-svn"@.is_suffix_of(s) {
        let b = s.take(s.len() - 4);
        assert(b + "-svn"@ =~= s);
        assert((b + "-git"@).len() >= 0);
    }
    if "-hg"@.is_suffix_of(s) {
        let b = s.take(s.len() - 3);
        assert(b + "-hg"@ =~= s);
        assert((b + "-git"@).len() >= 0);
    }
    if "-bzr"@.is_suffix_of(s) {
        let b = s.take(s.len() - 4);
        assert(b + "-bzr"@ =~= s);
        assert((b + "-git"@).len() >= 0);
    }
    if exists|b: Seq<char>| #[trigger]
        (b + "-git"@) == s || b + "-svn"@ == s || b + "-hg"@ == s || b + "-bzr"@ == s {
        let b = choose|b: Seq<char>| #[trigger]
            (b + "-git"@) == s || b + "-svn"@ == s || b + "-hg"@ == s || b + "-bzr"@ == s;
        let n = b.len() as int;
        if b + "-git"@ == s {
            assert("-git"@ =~= s.subrange(n, s.len() as int));
        } else if b + "-svn"@ == s {
            assert("-svn"@ =~= s.subrange(n, s.len() as int));
        } else if b + "-hg"@ == s {
            assert("-hg"@ =~= s.subrange(n, s.len() as int));
        } else {
            assert("-bzr"@ =~= s.subrange(n, s.len() as int));
        }
    }
}

/// The well-known repositories have ranks of their own.
pub proof fn law_how_repositories_are_ranked(n: Seq<char>)
    ensures
        rank_spec("core"@) == RepoRank::Core,
        rank_spec("extra"@) == RepoRank::Extra,
        rank_spec("multilib"@) == RepoRank::Multilib,
        rank_spec("aur"@) == RepoRank::Aur,
        n != "core"@ && n != "extra"@ && n != "multilib"@ && n != "aur"@ ==> rank_spec(n)
            == RepoRank::Other,
{
    reveal_strlit("core");
    reveal_strlit("extra");
    reveal_strlit("multilib");
    reveal_strlit("aur");
    assert("core"@.len() == 4 && "extra"@.len() == 5 && "multilib"@.len() == 8 && "aur"@.len()
        == 3);
}

/// A match at the very beginning of a name is one of its beginning; any other is inside.
pub proof fn law_where_a_match_stands(at: usize)
    ensures
        anchor_spec(None) is None,
        anchor_spec(Some(0usize)) == Some(NameMatch::Prefix),
        at > 0 ==> anchor_spec(Some(at)) == Some(NameMatch::Inside),
{
}

/// Without a filter in the environment, or with one that cannot be read, warnings are
/// shown; one that is wrong is named.
pub proof fn law_which_filter_counts(raw: String, fault: Seq<char>, any: Option<Seq<char>>)
    ensures
        filter_spec(FilterVar::Unset, any) == ("warn"@, None::<Seq<char>>),
        filter_spec(FilterVar::NotUnicode, any).0 == "warn"@,
        filter_spec(FilterVar::NotUnicode, any).1 is Some,
        filter_spec(FilterVar::Given(raw), None) == (raw@, None::<Seq<char>>),
        filter_spec(FilterVar::Given(raw), Some(fault)).0 == "warn"@,
        filter_spec(FilterVar::Given(raw), Some(fault)).1 == Some(
            "gitaur: ignoring malformed RUST_LOG='"@ + raw@ + "' ("@ + fault
                + "); falling back to RUST_LOG=warn"@,
        ),
{
}

/// What git is run with is told where it fails, with what it said.
pub proof fn law_how_a_failure_of_git_reads(args: Seq<Seq<char>>, said: Seq<char>)
    ensures
        failure_text(args, said) == "git "@ + crate::text::join_spec(args, " "@) + " failed: "@
            + trim_spec(said),
        graph_args(true) == seq![
            "commit-graph"@,
            "write"@,
            "--split"@,
            "--no-progress"@,
            "--stdin-commits"@,
        ],
        graph_args(false) == seq![
            "commit-graph"@,
            "write"@,
            "--split"@,
            "--no-progress"@,
            "--reachable"@,
        ],
{
}

/// Each commit is named on a line of its own.
pub proof fn law_how_commits_are_named(a: Seq<Seq<char>>, b: Seq<Seq<char>>, t: Seq<char>)
    ensures
        tip_lines(seq![t]) == t + "\n"@,
        tip_lines(a + b) == tip_lines(a) + tip_lines(b),
    decreases b.len(),
{
    let none = Seq::<Seq<char>>::empty();
    assert(seq![t].drop_last() =~= none);
    assert(tip_lines(none) =~= Seq::<char>::empty());
    assert(tip_lines(seq![t]) =~= t + "\n"@);
    if b.len() == 0 {
        assert(a + b =~= a);
        assert(tip_lines(a) + tip_lines(b) =~= tip_lines(a));
    } else {
        law_how_commits_are_named(a, b.drop_last(), t);
        assert((a + b).drop_last() =~= a + b.drop_last());
        assert((a + b).last() == b.last());
        assert(tip_lines(a + b) =~= tip_lines(a) + tip_lines(b));
    }
}

/// Every file of the family that has a time counts for a sweep, once, and nothing else
/// does.
pub proof fn law_which_files_count_for_a_sweep(p: RotationPolicy, files: Seq<Seen>, n: int, i: int)
    requires
        0 <= i < n <= files.len() <= usize::MAX,
    ensures
        p.candidates(files, n).contains(i as usize) <==> (files[i].modified is Some && match files[i].name {
            Some(name) => p.owns_spec(name@),
            None => false,
        }),
        p.candidates(files, n).no_duplicates(),
    decreases n,
{
    lemma_counted_below(p, files, n);
    lemma_counted_below(p, files, n - 1);
    let less = p.candidates(files, n - 1);
    let all = p.candidates(files, n);
    if i < n - 1 {
        law_which_files_count_for_a_sweep(p, files, n - 1, i);
        if less.contains(i as usize) {
            let k = less.index_of(i as usize);
            assert(all[k] == i as usize);
        }
        if all.contains(i as usize) {
            let k = all.index_of(i as usize);
            assert(less[k] == i as usize);
        }
    } else if p.is_candidate(files[i]) {
        assert(all.last() == i as usize);
    }
}

proof fn lemma_counted_below(p: RotationPolicy, files: Seq<Seen>, n: int)
    requires
        0 <= n <= files.len() <= usize::MAX,
    ensures
        forall|k: int| 0 <= k < p.candidates(files, n).len() ==> #[trigger] p.candidates(files, n)[k] < n,
        forall|k: int, l: int|
            0 <= k < l < p.candidates(files, n).len() ==> #[trigger] p.candidates(files, n)[k]
                < #[trigger] p.candidates(files, n)[l],
    decreases n,
{
    if n > 0 {
        lemma_counted_below(p, files, n - 1);
        let less = p.candidates(files, n - 1);
        let all = p.candidates(files, n);
        assert forall|k: int| 0 <= k < all.len() implies #[trigger] all[k] < n by {
            if k < less.len() {
                assert(all[k] == less[k]);
            }
        }
        assert forall|k: int, l: int| 0 <= k < l < all.len() implies #[trigger] all[k]
            < #[trigger] all[l] by {
            assert(all[k] == less[k]);
            if l < less.len() {
                assert(all[l] == less[l]);
            }
        }
    }
}

/// A file of the family that has a time and stays after a sweep is no older than
/// anything that is removed.
pub proof fn law_a_sweep_keeps_the_newest(
    p: RotationPolicy,
    files: Seq<Seen>,
    doomed: Seq<usize>,
    i: int,
    name: String,
    time: i64,
)
    requires
        p.sweeps(files, doomed),
        0 <= i < files.len() <= usize::MAX,
        files[i].name == Some(name),
        files[i].modified == Some(time),
        p.owns_spec(name@),
        !doomed.contains(i as usize),
    ensures
        forall|k: int|
            0 <= k < doomed.len() ==> doomed[k] < files.len()
                && (#[trigger] files[doomed[k] as int]).modified is Some
                && files[doomed[k] as int].modified->0 <= time,
{
    let n = files.len() as int;
    let at = p.candidates(files, n);
    law_which_files_count_for_a_sweep(p, files, n, i);
    lemma_counted_below(p, files, n);
    crate::rotate::law_a_sweep_spares_other_files(p, files, doomed);
    let picked = choose|picked: Seq<usize>| #[trigger]
        is_prunable(times_of(files, at), p.keep as int, picked) && doomed == picked.map_values(
            |k: usize| at[k as int],
        );
    let here = at.index_of(i as usize);
    let times = times_of(files, at);
    assert(at.len() <= n) by {
        lemma_few_are_counted(p, files, n);
    }
    if picked.contains(here as usize) {
        let k = picked.index_of(here as usize);
        assert(doomed[k] == i as usize);
        assert(false);
    }
    crate::rotate::law_the_newest_stay(times, p.keep as int, picked, here);
    assert forall|k: int| 0 <= k < doomed.len() implies doomed[k] < files.len()
        && (#[trigger] files[doomed[k] as int]).modified is Some
        && files[doomed[k] as int].modified->0 <= time by {
        assert(doomed[k] == at[picked[k] as int]);
        assert(p.is_candidate(files[doomed[k] as int]));
        assert(times[picked[k] as int] <= times[here]);
        assert(times[here] == time);
        lemma_picked_below(times, p.keep as int, picked, k);
        assert(times[picked[k] as int] == files[at[picked[k] as int] as int].modified->0);
    }
}

proof fn lemma_picked_below(times: Seq<i64>, keep: int, picked: Seq<usize>, k: int)
    requires
        0 <= keep,
        is_prunable(times, keep, picked),
        0 <= k < picked.len(),
    ensures
        picked[k] < times.len(),
{
    let order = choose|order: Seq<usize>|
        #[trigger] crate::order::is_key_order(crate::rotate::age_keys(times), order) && picked == (
        if keep < order.len() {
            order.skip(keep)
        } else {
            Seq::<usize>::empty()
        });
    assert(picked[k] == order[keep + k]);
}

proof fn lemma_few_are_counted(p: RotationPolicy, files: Seq<Seen>, n: int)
    requires
        0 <= n <= files.len(),
    ensures
        p.candidates(files, n).len() <= n,
    decreases n,
{
    if n > 0 {
        lemma_few_are_counted(p, files, n - 1);
    }
}

} // verus!
