//! What a removal asks for and what stands in its way.

use vstd::prelude::*;

use crate::names::{bare_spec, pkgname_views};
use crate::pacman::alpm_db::PacmanIndex;
use crate::pacman::preflight::{
    as_removal, first_refused, group_members, log_spec, not_found, plain_name, request_of,
    staged_names, with_version, Group, IssueView, Reading, StageResult, TransFlag,
};
use crate::text::occurs_at;

verus! {

/// A word that begins with two dashes.
pub open spec fn is_long(a: Seq<char>) -> bool {
    a.len() >= 2 && a[0] == '-' && a[1] == '-'
}

/// A word that begins with one dash.
pub open spec fn is_group(a: Seq<char>) -> bool {
    a.len() >= 1 && a[0] == '-' && !is_long(a)
}

/// How often `c` stands in `cs`.
pub open spec fn times_in(cs: Seq<char>, c: char) -> nat
    decreases cs.len(),
{
    if cs.len() == 0 {
        0
    } else {
        times_in(cs.skip(1), c) + (if cs[0] == c {
            1nat
        } else {
            0nat
        })
    }
}

/// How often the words use an option that is written as the letter `c` or as `long`.
pub open spec fn uses(argv: Seq<Seq<char>>, c: char, long: Seq<char>) -> nat
    decreases argv.len(),
{
    if argv.len() == 0 {
        0
    } else {
        uses(argv.skip(1), c, long) + (if argv[0] == long {
            1
        } else if is_group(argv[0]) {
            times_in(argv[0].skip(1), c)
        } else {
            0
        })
    }
}

/// Two and more are the same.
pub open spec fn at_most_two(n: nat) -> nat {
    if n > 2 {
        2
    } else {
        n
    }
}

/// The letters that a removal knows.
pub open spec fn is_known_letter(c: char) -> bool {
    c == 'R' || c == 'c' || c == 's' || c == 'u' || c == 'n' || c == 'd' || c == 'v'
}

/// The long options that a removal knows.
pub open spec fn is_known_option(a: Seq<char>) -> bool {
    a == "--cascade"@ || a == "--recursive"@ || a == "--unneeded"@ || a == "--nosave"@ || a
        == "--nodeps"@ || a == "--dbonly"@ || a == "--noscriptlet"@ || a == "--noconfirm"@ || a
        == "--confirm"@ || a == "--noprogressbar"@ || a == "--verbose"@ || a == "--debug"@
        || "--color="@.is_prefix_of(a)
}

/// A word that a removal can take: no option, a known one, or a group of known letters.
pub open spec fn is_known_word(a: Seq<char>) -> bool {
    if is_long(a) {
        is_known_option(a)
    } else if is_group(a) {
        forall|i: int| 1 <= i < a.len() ==> is_known_letter(#[trigger] a[i])
    } else {
        true
    }
}

proof fn lemma_cluster(s: Reading, cs: Seq<char>)
    requires
        s.recursive <= 2,
        s.nodeps <= 2,
    ensures
        s.cluster(cs) is Some <==> forall|i: int|
            0 <= i < cs.len() ==> is_known_letter(#[trigger] cs[i]),
        s.cluster(cs) matches Some(t) ==> {
            &&& t.is_remove <==> s.is_remove || times_in(cs, 'R') > 0
            &&& t.flags.cascade <==> s.flags.cascade || times_in(cs, 'c') > 0
            &&& t.flags.unneeded <==> s.flags.unneeded || times_in(cs, 'u') > 0
            &&& t.flags.no_save <==> s.flags.no_save || times_in(cs, 'n') > 0
            &&& t.flags.db_only == s.flags.db_only
            &&& t.flags.no_scriptlet == s.flags.no_scriptlet
            &&& t.recursive == at_most_two(s.recursive as nat + times_in(cs, 's'))
            &&& t.nodeps == at_most_two(s.nodeps as nat + times_in(cs, 'd'))
            &&& t.targets == s.targets
        },
    decreases cs.len(),
{
    if cs.len() > 0 {
        let r = cs.skip(1);
        match s.letter(cs[0]) {
            Some(next) => {
                lemma_cluster(next, r);
                assert(is_known_letter(cs[0]));
                if s.cluster(cs) is Some {
                    assert forall|i: int| 0 <= i < cs.len() implies is_known_letter(
                        #[trigger] cs[i],
                    ) by {
                        if i > 0 {
                            assert(r[i - 1] == cs[i]);
                        }
                    }
                } else {
                    let i = choose|i: int|
                        0 <= i < r.len() && !is_known_letter(#[trigger] r[i]);
                    assert(cs[i + 1] == r[i]);
                }
            },
            None => {
                assert(!is_known_letter(cs[0]));
            },
        }
    }
}

proof fn lemma_words()
    ensures
        "--cascade"@.skip(2) == "cascade"@,
        "--recursive"@.skip(2) == "recursive"@,
        "--unneeded"@.skip(2) == "unneeded"@,
        "--nosave"@.skip(2) == "nosave"@,
        "--nodeps"@.skip(2) == "nodeps"@,
        "--dbonly"@.skip(2) == "dbonly"@,
        "--noscriptlet"@.skip(2) == "noscriptlet"@,
        "--noconfirm"@.skip(2) == "noconfirm"@,
        "--confirm"@.skip(2) == "confirm"@,
        "--noprogressbar"@.skip(2) == "noprogressbar"@,
        "--verbose"@.skip(2) == "verbose"@,
        "--debug"@.skip(2) == "debug"@,
        is_long("--cascade"@),
        is_long("--recursive"@),
        is_long("--unneeded"@),
        is_long("--nosave"@),
        is_long("--nodeps"@),
        is_long("--dbonly"@),
        is_long("--noscriptlet"@),
        is_long("--noconfirm"@),
        is_long("--confirm"@),
        is_long("--noprogressbar"@),
        is_long("--verbose"@),
        is_long("--debug"@),
{
    reveal_strlit("--cascade");
    reveal_strlit("--recursive");
    reveal_strlit("--unneeded");
    reveal_strlit("--nosave");
    reveal_strlit("--nodeps");
    reveal_strlit("--dbonly");
    reveal_strlit("--noscriptlet");
    reveal_strlit("--noconfirm");
    reveal_strlit("--confirm");
    reveal_strlit("--noprogressbar");
    reveal_strlit("--verbose");
    reveal_strlit("--debug");
    reveal_strlit("cascade");
    reveal_strlit("recursive");
    reveal_strlit("unneeded");
    reveal_strlit("nosave");
    reveal_strlit("nodeps");
    reveal_strlit("dbonly");
    reveal_strlit("noscriptlet");
    reveal_strlit("noconfirm");
    reveal_strlit("confirm");
    reveal_strlit("noprogressbar");
    reveal_strlit("verbose");
    reveal_strlit("debug");
    assert("--cascade"@.skip(2) =~= "cascade"@);
    assert("--recursive"@.skip(2) =~= "recursive"@);
    assert("--unneeded"@.skip(2) =~= "unneeded"@);
    assert("--nosave"@.skip(2) =~= "nosave"@);
    assert("--nodeps"@.skip(2) =~= "nodeps"@);
    assert("--dbonly"@.skip(2) =~= "dbonly"@);
    assert("--noscriptlet"@.skip(2) =~= "noscriptlet"@);
    assert("--noconfirm"@.skip(2) =~= "noconfirm"@);
    assert("--confirm"@.skip(2) =~= "confirm"@);
    assert("--noprogressbar"@.skip(2) =~= "noprogressbar"@);
    assert("--verbose"@.skip(2) =~= "verbose"@);
    assert("--debug"@.skip(2) =~= "debug"@);
}

/// The names of the long options that matter differ.
proof fn lemma_names_differ(n: Seq<char>)
    ensures
        n == "cascade"@ ==> n.len() == 7 && n[0] == 'c',
        n == "recursive"@ ==> n.len() == 9 && n[0] == 'r',
        n == "unneeded"@ ==> n.len() == 8 && n[0] == 'u',
        n == "nosave"@ ==> n.len() == 6 && n[0] == 'n' && n[2] == 's',
        n == "nodeps"@ ==> n.len() == 6 && n[0] == 'n' && n[2] == 'd',
        n == "dbonly"@ ==> n.len() == 6 && n[0] == 'd',
        n == "noscriptlet"@ ==> n.len() == 11,
        n == "noconfirm"@ ==> n.len() == 9 && n[0] == 'n',
        n == "confirm"@ ==> n.len() == 7 && n[0] == 'c' && n[1] == 'o' && n[2] == 'n',
        n == "noprogressbar"@ ==> n.len() == 13,
        n == "verbose"@ ==> n.len() == 7 && n[0] == 'v',
        n == "debug"@ ==> n.len() == 5,
        "cascade"@[1] == 'a',
        "color="@.len() == 6 && "color="@[0] == 'c' && "color="@[1] == 'o' && "color="@[2] == 'l',
{
    reveal_strlit("cascade");
    reveal_strlit("recursive");
    reveal_strlit("unneeded");
    reveal_strlit("nosave");
    reveal_strlit("nodeps");
    reveal_strlit("dbonly");
    reveal_strlit("noscriptlet");
    reveal_strlit("noconfirm");
    reveal_strlit("confirm");
    reveal_strlit("noprogressbar");
    reveal_strlit("verbose");
    reveal_strlit("debug");
    reveal_strlit("color=");
}

proof fn lemma_by_name(a: Seq<char>, w: Seq<char>)
    requires
        is_long(a),
        is_long(w),
    ensures
        a.skip(2) == w.skip(2) <==> a == w,
{
    if a.skip(2) == w.skip(2) {
        assert(a.len() - 2 == a.skip(2).len());
        assert(w.len() - 2 == w.skip(2).len());
        assert forall|i: int| 0 <= i < a.len() implies a[i] == w[i] by {
            if i >= 2 {
                assert(a.skip(2)[i - 2] == w.skip(2)[i - 2]);
            }
        }
        assert(a =~= w);
    }
}

proof fn lemma_color(a: Seq<char>)
    requires
        is_long(a),
    ensures
        occurs_at(a.skip(2), "color="@, 0) <==> "--color="@.is_prefix_of(a),
{
    reveal_strlit("color=");
    reveal_strlit("--color=");
    let n = a.skip(2);
    if occurs_at(n, "color="@, 0) {
        assert forall|i: int| 0 <= i < 8 implies a[i] == "--color="@[i] by {
            if i >= 2 {
                assert(n.subrange(0, 6)[i - 2] == n[i - 2]);
            }
        }
        assert("--color="@ =~= a.subrange(0, 8));
    }
    if "--color="@.is_prefix_of(a) {
        assert("--color="@ =~= a.subrange(0, 8));
        assert forall|i: int| 0 <= i < 6 implies #[trigger] n.subrange(0, 6)[i] == "color="@[i] by {
            assert(a.subrange(0, 8)[i + 2] == "--color="@[i + 2]);
        }
        assert(n.subrange(0, 6) =~= "color="@);
    }
}

proof fn lemma_long(s: Reading, a: Seq<char>)
    requires
        is_long(a),
        s.recursive <= 2,
        s.nodeps <= 2,
    ensures
        s.long(a.skip(2)) is Some <==> is_known_option(a),
        s.long(a.skip(2)) matches Some(t) ==> {
            &&& t.is_remove == s.is_remove
            &&& t.flags.cascade <==> s.flags.cascade || a == "--cascade"@
            &&& t.flags.unneeded <==> s.flags.unneeded || a == "--unneeded"@
            &&& t.flags.no_save <==> s.flags.no_save || a == "--nosave"@
            &&& t.flags.db_only <==> s.flags.db_only || a == "--dbonly"@
            &&& t.flags.no_scriptlet <==> s.flags.no_scriptlet || a == "--noscriptlet"@
            &&& t.recursive == if a == "--recursive"@ {
                at_most_two(s.recursive as nat + 1)
            } else {
                s.recursive as nat
            }
            &&& t.nodeps == if a == "--nodeps"@ {
                at_most_two(s.nodeps as nat + 1)
            } else {
                s.nodeps as nat
            }
            &&& t.targets == s.targets
        },
{
    let n = a.skip(2);
    lemma_words();
    lemma_by_name(a, "--cascade"@);
    lemma_by_name(a, "--recursive"@);
    lemma_by_name(a, "--unneeded"@);
    lemma_by_name(a, "--nosave"@);
    lemma_by_name(a, "--nodeps"@);
    lemma_by_name(a, "--dbonly"@);
    lemma_by_name(a, "--noscriptlet"@);
    lemma_by_name(a, "--noconfirm"@);
    lemma_by_name(a, "--confirm"@);
    lemma_by_name(a, "--noprogressbar"@);
    lemma_by_name(a, "--verbose"@);
    lemma_by_name(a, "--debug"@);
    lemma_color(a);
    lemma_names_differ(n);
}

/// The words that are no options.
pub open spec fn plain_words(argv: Seq<Seq<char>>) -> Seq<Seq<char>> {
    argv.filter(|a: Seq<char>| !is_long(a) && !is_group(a))
}

proof fn lemma_plain_words(argv: Seq<Seq<char>>)
    ensures
        argv.len() == 0 ==> plain_words(argv).len() == 0,
        argv.len() > 0 ==> plain_words(argv) == (if !is_long(argv[0]) && !is_group(argv[0]) {
            seq![argv[0]]
        } else {
            Seq::empty()
        }) + plain_words(argv.skip(1)),
{
    let plain = |a: Seq<char>| !is_long(a) && !is_group(a);
    reveal_with_fuel(Seq::filter, 2);
    if argv.len() > 0 {
        let one = seq![argv[0]];
        assert(one.drop_last() =~= Seq::<Seq<char>>::empty());
        assert(one.filter(plain) =~= if plain(argv[0]) {
            one
        } else {
            Seq::empty()
        });
        assert(argv =~= one + argv.skip(1));
        Seq::<Seq<char>>::filter_distributes_over_add(one, argv.skip(1), plain);
    }
}

proof fn lemma_known_first(argv: Seq<Seq<char>>)
    requires
        argv.len() > 0,
    ensures
        (forall|i: int| 0 <= i < argv.len() ==> is_known_word(#[trigger] argv[i]))
            <==> is_known_word(argv[0]) && forall|i: int|
            0 <= i < argv.skip(1).len() ==> is_known_word(#[trigger] argv.skip(1)[i]),
{
    let r = argv.skip(1);
    if forall|i: int| 0 <= i < argv.len() ==> is_known_word(#[trigger] argv[i]) {
        assert forall|i: int| 0 <= i < r.len() implies is_known_word(#[trigger] r[i]) by {
            assert(r[i] == argv[i + 1]);
        }
    }
    if is_known_word(argv[0]) && forall|i: int|
        0 <= i < r.len() ==> is_known_word(#[trigger] r[i]) {
        assert forall|i: int| 0 <= i < argv.len() implies is_known_word(#[trigger] argv[i]) by {
            if i > 0 {
                assert(argv[i] == r[i - 1]);
            }
        }
    }
}

/// What one word adds to what has been read.
spec fn after_word(s: Reading, a: Seq<char>) -> Option<Reading> {
    if is_long(a) {
        s.long(a.skip(2))
    } else if is_group(a) {
        s.cluster(a.skip(1))
    } else {
        Some(Reading { targets: s.targets.push(a), ..s })
    }
}

proof fn lemma_read_word(s: Reading, argv: Seq<Seq<char>>)
    requires
        argv.len() > 0,
        argv[0] != "--"@,
        argv[0] != "--color"@,
    ensures
        s.read(argv) == match after_word(s, argv[0]) {
            Some(t) => t.read(argv.skip(1)),
            None => None,
        },
{
    reveal_strlit("--");
    reveal_strlit("-");
    let a = argv[0];
    assert(occurs_at(a, "--"@, 0) <==> is_long(a)) by {
        if occurs_at(a, "--"@, 0) {
            assert(a.subrange(0, 2)[0] == a[0] && a.subrange(0, 2)[1] == a[1]);
        }
        if is_long(a) {
            assert(a.subrange(0, 2) =~= "--"@);
        }
    }
    assert(!is_long(a) ==> (occurs_at(a, "-"@, 0) <==> is_group(a))) by {
        if occurs_at(a, "-"@, 0) {
            assert(a.subrange(0, 1)[0] == a[0]);
        }
        if is_group(a) {
            assert(a.subrange(0, 1) =~= "-"@);
        }
    }
}

/// What a word or words add: `cascade` and the others say whether a flag is set by them,
/// `recursive` and `nodeps` how often.
struct Added {
    remove: bool,
    cascade: bool,
    unneeded: bool,
    no_save: bool,
    db_only: bool,
    no_scriptlet: bool,
    recursive: nat,
    nodeps: nat,
}

spec fn adds(s: Reading, t: Reading, n: Added) -> bool {
    &&& t.is_remove <==> s.is_remove || n.remove
    &&& t.flags.cascade <==> s.flags.cascade || n.cascade
    &&& t.flags.unneeded <==> s.flags.unneeded || n.unneeded
    &&& t.flags.no_save <==> s.flags.no_save || n.no_save
    &&& t.flags.db_only <==> s.flags.db_only || n.db_only
    &&& t.flags.no_scriptlet <==> s.flags.no_scriptlet || n.no_scriptlet
    &&& t.recursive == at_most_two(s.recursive as nat + n.recursive)
    &&& t.nodeps == at_most_two(s.nodeps as nat + n.nodeps)
}

spec fn word_adds(a: Seq<char>) -> Added {
    let cs = if is_group(a) {
        a.skip(1)
    } else {
        Seq::empty()
    };
    Added {
        remove: times_in(cs, 'R') > 0,
        cascade: times_in(cs, 'c') > 0 || a == "--cascade"@,
        unneeded: times_in(cs, 'u') > 0 || a == "--unneeded"@,
        no_save: times_in(cs, 'n') > 0 || a == "--nosave"@,
        db_only: a == "--dbonly"@,
        no_scriptlet: a == "--noscriptlet"@,
        recursive: times_in(cs, 's') + if a == "--recursive"@ {
            1nat
        } else {
            0nat
        },
        nodeps: times_in(cs, 'd') + if a == "--nodeps"@ {
            1nat
        } else {
            0nat
        },
    }
}

proof fn lemma_after_word(s: Reading, a: Seq<char>)
    requires
        s.recursive <= 2,
        s.nodeps <= 2,
    ensures
        after_word(s, a) is Some <==> is_known_word(a),
        after_word(s, a) matches Some(t) ==> {
            &&& adds(s, t, word_adds(a))
            &&& t.targets == if is_long(a) || is_group(a) {
                s.targets
            } else {
                s.targets.push(a)
            }
        },
{
    lemma_words();
    if is_long(a) {
        lemma_long(s, a);
    } else if is_group(a) {
        let cs = a.skip(1);
        lemma_cluster(s, cs);
        if after_word(s, a) is Some {
            assert forall|i: int| 1 <= i < a.len() implies is_known_letter(#[trigger] a[i]) by {
                assert(cs[i - 1] == a[i]);
            }
        }
        if is_known_word(a) {
            assert forall|i: int| 0 <= i < cs.len() implies is_known_letter(#[trigger] cs[i]) by {
                assert(cs[i] == a[i + 1]);
            }
        }
    }
}

spec fn all_add(argv: Seq<Seq<char>>) -> Added {
    Added {
        remove: exists|i: int|
            0 <= i < argv.len() && is_group(#[trigger] argv[i]) && times_in(argv[i].skip(1), 'R')
                > 0,
        cascade: uses(argv, 'c', "--cascade"@) > 0,
        unneeded: uses(argv, 'u', "--unneeded"@) > 0,
        no_save: uses(argv, 'n', "--nosave"@) > 0,
        db_only: argv.contains("--dbonly"@),
        no_scriptlet: argv.contains("--noscriptlet"@),
        recursive: uses(argv, 's', "--recursive"@),
        nodeps: uses(argv, 'd', "--nodeps"@),
    }
}

proof fn lemma_add_up(argv: Seq<Seq<char>>)
    requires
        argv.len() > 0,
    ensures
        ({
            let a = word_adds(argv[0]);
            let r = all_add(argv.skip(1));
            let n = all_add(argv);
            &&& n.remove <==> a.remove || r.remove
            &&& n.cascade <==> a.cascade || r.cascade
            &&& n.unneeded <==> a.unneeded || r.unneeded
            &&& n.no_save <==> a.no_save || r.no_save
            &&& n.db_only <==> a.db_only || r.db_only
            &&& n.no_scriptlet <==> a.no_scriptlet || r.no_scriptlet
            &&& n.recursive == a.recursive + r.recursive
            &&& n.nodeps == a.nodeps + r.nodeps
        }),
{
    lemma_words();
    lemma_contains_first(argv, "--dbonly"@);
    lemma_contains_first(argv, "--noscriptlet"@);
    lemma_removes(argv);
}

/// What `argv` adds to what has been read, where it neither ends the options nor gives a
/// colour in a word of its own.
proof fn lemma_read(s: Reading, argv: Seq<Seq<char>>)
    requires
        s.recursive <= 2,
        s.nodeps <= 2,
        forall|i: int| 0 <= i < argv.len() ==> #[trigger] argv[i] != "--"@ && argv[i] != "--color"@,
    ensures
        s.read(argv) is Some <==> forall|i: int|
            0 <= i < argv.len() ==> is_known_word(#[trigger] argv[i]),
        s.read(argv) matches Some(t) ==> adds(s, t, all_add(argv)) && t.targets == s.targets
            + plain_words(argv),
    decreases argv.len(),
{
    lemma_plain_words(argv);
    if argv.len() == 0 {
        assert(s.targets + plain_words(argv) =~= s.targets);
    } else {
        let a = argv[0];
        let r = argv.skip(1);
        assert forall|i: int| 0 <= i < r.len() implies #[trigger] r[i] != "--"@ && r[i]
            != "--color"@ by {
            assert(r[i] == argv[i + 1]);
        }
        lemma_read_word(s, argv);
        lemma_after_word(s, a);
        lemma_known_first(argv);
        match after_word(s, a) {
            Some(t) => {
                lemma_read(t, r);
                lemma_add_up(argv);
                if s.read(argv) is Some {
                    let u = s.read(argv)->0;
                    assert(u.targets =~= s.targets + plain_words(argv));
                }
            },
            None => {},
        }
    }
}

proof fn lemma_contains_first(argv: Seq<Seq<char>>, w: Seq<char>)
    requires
        argv.len() > 0,
    ensures
        argv.contains(w) <==> argv[0] == w || argv.skip(1).contains(w),
{
    let r = argv.skip(1);
    if argv.contains(w) && argv[0] != w {
        let i = choose|i: int| 0 <= i < argv.len() && argv[i] == w;
        assert(r[i - 1] == w);
    }
    if r.contains(w) {
        let i = choose|i: int| 0 <= i < r.len() && r[i] == w;
        assert(argv[i + 1] == w);
    }
}

proof fn lemma_removes(argv: Seq<Seq<char>>)
    requires
        argv.len() > 0,
    ensures
        (exists|i: int|
            0 <= i < argv.len() && is_group(#[trigger] argv[i]) && times_in(argv[i].skip(1), 'R')
                > 0) <==> (is_group(argv[0]) && times_in(argv[0].skip(1), 'R') > 0) || exists|
            i: int,
        |
            0 <= i < argv.skip(1).len() && is_group(#[trigger] argv.skip(1)[i]) && times_in(
                argv.skip(1)[i].skip(1),
                'R',
            ) > 0,
{
    let r = argv.skip(1);
    if exists|i: int|
        0 <= i < argv.len() && is_group(#[trigger] argv[i]) && times_in(argv[i].skip(1), 'R') > 0 {
        let i = choose|i: int|
            0 <= i < argv.len() && is_group(#[trigger] argv[i]) && times_in(argv[i].skip(1), 'R')
                > 0;
        if i > 0 {
            assert(r[i - 1] == argv[i]);
        }
    }
    if exists|i: int|
        0 <= i < r.len() && is_group(#[trigger] r[i]) && times_in(r[i].skip(1), 'R') > 0 {
        let i = choose|i: int|
            0 <= i < r.len() && is_group(#[trigger] r[i]) && times_in(r[i].skip(1), 'R') > 0;
        assert(argv[i + 1] == r[i]);
    }
}

/// A removal is asked for exactly if every word is known, a group of letters holds `R`,
/// and a word is no option. What is removed are the words that are no options, in order,
/// and each flag is set by its letter or its long option; two of them set the second
/// flag of the pair.
pub proof fn law_what_a_removal_asks_for(argv: Seq<Seq<char>>)
    requires
        forall|i: int| 0 <= i < argv.len() ==> #[trigger] argv[i] != "--"@ && argv[i] != "--color"@,
    ensures
        ({
            let names = plain_words(argv);
            let known = forall|i: int|
                0 <= i < argv.len() ==> is_known_word(#[trigger] argv[i]);
            let removes = exists|i: int|
                0 <= i < argv.len() && is_group(#[trigger] argv[i]) && times_in(
                    argv[i].skip(1),
                    'R',
                ) > 0;
            request_of(argv) == if known && removes && names.len() > 0 {
                Some(
                    (
                        names,
                        TransFlag {
                            cascade: uses(argv, 'c', "--cascade"@) > 0,
                            unneeded: uses(argv, 'u', "--unneeded"@) > 0,
                            no_save: uses(argv, 'n', "--nosave"@) > 0,
                            db_only: argv.contains("--dbonly"@),
                            no_scriptlet: argv.contains("--noscriptlet"@),
                            recurse: uses(argv, 's', "--recursive"@) > 0,
                            recurse_all: uses(argv, 's', "--recursive"@) > 1,
                            no_dep_version: uses(argv, 'd', "--nodeps"@) > 0,
                            no_deps: uses(argv, 'd', "--nodeps"@) > 1,
                        },
                    ),
                )
            } else {
                None
            }
        }),
{
    lemma_read(Reading::start(), argv);
    assert(Seq::<Seq<char>>::empty() + plain_words(argv) =~= plain_words(argv));
}

/// A colour in a word of its own says nothing about the removal, and must not be
/// missing.
pub proof fn law_colours_are_passed_over(s: Reading, v: Seq<char>, rest: Seq<Seq<char>>)
    ensures
        s.read(seq!["--color"@, v] + rest) == s.read(rest),
        s.read(seq!["--color"@]) is None,
{
    reveal_strlit("--");
    reveal_strlit("--color");
    let all = seq!["--color"@, v] + rest;
    assert(all.skip(2) =~= rest);
    assert(all[0] == "--color"@);
}

/// A target is taken without the name of the local database before it.
pub proof fn law_the_local_database_is_understood(n: Seq<char>)
    ensures
        plain_name("local/"@ + n) == n,
        !"local/"@.is_prefix_of(n) ==> plain_name(n) == n,
{
    reveal_strlit("local/");
    let s = "local/"@ + n;
    assert(s.subrange(0, 6) =~= "local/"@);
    assert(s.skip(6) =~= n);
    if occurs_at(n, "local/"@, 0) {
        assert(n.subrange(0, 6) =~= "local/"@);
    }
}

/// An installed package is removed by its name. Any other target is a group: all of the
/// first one of that name is removed. What is neither is missing.
pub proof fn law_what_a_target_removes(
    target: Seq<char>,
    installed: Seq<Seq<char>>,
    groups: Seq<Group>,
)
    ensures
        installed.contains(plain_name(target)) ==> staged_names(target, installed, groups) == Some(
            seq![plain_name(target)],
        ),
        !installed.contains(plain_name(target)) ==> {
            &&& forall|i: int|
                0 <= i < groups.len() && (#[trigger] groups[i]).name@ == plain_name(target) && (
                forall|j: int| 0 <= j < i ==> (#[trigger] groups[j]).name@ != plain_name(target))
                    ==> staged_names(target, installed, groups) == Some(
                    pkgname_views(groups[i].members@),
                )
            &&& (forall|i: int|
                0 <= i < groups.len() ==> (#[trigger] groups[i]).name@ != plain_name(target))
                ==> staged_names(target, installed, groups) is None
        },
{
    let n = plain_name(target);
    assert forall|i: int|
        0 <= i < groups.len() && (#[trigger] groups[i]).name@ == n && (forall|j: int|
            0 <= j < i ==> (#[trigger] groups[j]).name@ != n) implies group_members(groups, n)
        == Some(pkgname_views(groups[i].members@)) by {
        lemma_group(groups, n, i);
    }
    if forall|i: int| 0 <= i < groups.len() ==> (#[trigger] groups[i]).name@ != n {
        lemma_no_group(groups, n);
    }
}

proof fn lemma_group(groups: Seq<Group>, n: Seq<char>, i: int)
    requires
        0 <= i < groups.len(),
        groups[i].name@ == n,
        forall|j: int| 0 <= j < i ==> (#[trigger] groups[j]).name@ != n,
    ensures
        group_members(groups, n) == Some(pkgname_views(groups[i].members@)),
    decreases groups.len(),
{
    if i > 0 {
        let r = groups.skip(1);
        assert(r[i - 1] == groups[i]);
        assert forall|j: int| 0 <= j < i - 1 implies (#[trigger] r[j]).name@ != n by {
            assert(r[j] == groups[j + 1]);
        }
        lemma_group(r, n, i - 1);
    }
}

proof fn lemma_no_group(groups: Seq<Group>, n: Seq<char>)
    requires
        forall|i: int| 0 <= i < groups.len() ==> (#[trigger] groups[i]).name@ != n,
    ensures
        group_members(groups, n) is None,
    decreases groups.len(),
{
    if groups.len() > 0 {
        let r = groups.skip(1);
        assert forall|j: int| 0 <= j < r.len() implies (#[trigger] r[j]).name@ != n by {
            assert(r[j] == groups[j + 1]);
        }
        lemma_no_group(r, n);
    }
}

/// A target is named as missing exactly if there is nothing of it.
pub proof fn law_every_missing_target_is_named(
    targets: Seq<Seq<char>>,
    results: Seq<StageResult>,
    t: Seq<char>,
)
    requires
        results.len() <= targets.len(),
    ensures
        not_found(targets, results).contains(IssueView::TargetNotFound { target: t }) <==> exists|
            i: int,
        |
            0 <= i < results.len() && (#[trigger] results[i]) is Missing && targets[i] == t,
    decreases results.len(),
{
    let issue = IssueView::TargetNotFound { target: t };
    if results.len() > 0 {
        let r = results.drop_last();
        let rest = not_found(targets, r);
        let all = not_found(targets, results);
        law_every_missing_target_is_named(targets, r, t);
        if all.contains(issue) {
            let k = choose|k: int| 0 <= k < all.len() && all[k] == issue;
            if k < rest.len() {
                assert(rest[k] == issue);
                let i = choose|i: int|
                    0 <= i < r.len() && (#[trigger] r[i]) is Missing && targets[i] == t;
                assert(results[i] == r[i]);
            } else {
                assert(results[results.len() - 1] is Missing);
            }
        }
        if exists|i: int|
            0 <= i < results.len() && (#[trigger] results[i]) is Missing && targets[i] == t {
            let i = choose|i: int|
                0 <= i < results.len() && (#[trigger] results[i]) is Missing && targets[i] == t;
            if i < r.len() {
                assert(r[i] == results[i]);
                let k = choose|k: int| 0 <= k < rest.len() && rest[k] == issue;
                assert(all[k] == issue);
            } else {
                assert(all[rest.len() as int] == issue);
            }
        }
    }
}

/// The first target that could not be staged is reported.
pub proof fn law_the_first_refusal_counts(results: Seq<StageResult>)
    ensures
        match first_refused(results) {
            Some(i) => 0 <= i < results.len() && results[i] is Refused && (forall|j: int|
                0 <= j < i ==> !((#[trigger] results[j]) is Refused)),
            None => forall|j: int| 0 <= j < results.len() ==> !((#[trigger] results[j]) is Refused),
        },
    decreases results.len(),
{
    if results.len() > 0 {
        let r = results.drop_last();
        law_the_first_refusal_counts(r);
        assert forall|j: int| 0 <= j < r.len() implies r[j] == #[trigger] results[j] by {}
    }
}

/// A dependency that a removal leaves unmet names what is removed, what is missed and who
/// needs it; any other problem stays as it is.
pub proof fn law_how_a_removal_is_reported(
    target: Seq<char>,
    depend: Seq<char>,
    gone: Seq<char>,
    ver: Option<Seq<char>>,
    i: IssueView,
)
    ensures
        as_removal(
            IssueView::UnsatisfiedDep { target, depend, causing: Some(gone), causing_ver: ver },
        ) == (IssueView::RemovalBreaks { removed: gone, depend, target }),
        !(i is UnsatisfiedDep) ==> as_removal(i) == i,
        as_removal(
            IssueView::UnsatisfiedDep { target, depend, causing: None, causing_ver: ver },
        ) == (IssueView::UnsatisfiedDep { target, depend, causing: None, causing_ver: ver }),
{
}

/// Problems are told in these words.
pub proof fn law_how_problems_read(a: Seq<char>, b: Seq<char>, c: Seq<char>)
    ensures
        (IssueView::TargetNotFound { target: a }).text() == "target not found: "@ + a,
        (IssueView::RemovalBreaks { removed: a, depend: b, target: c }).text() == "removing "@ + a
            + " breaks dependency '"@ + b + "' required by "@ + c,
        (IssueView::UnsatisfiedDep {
            target: c,
            depend: b,
            causing: None,
            causing_ver: None,
        }).text() == "unable to satisfy dependency '"@ + b + "' required by "@ + c,
        (IssueView::UnsatisfiedDep {
            target: c,
            depend: b,
            causing: Some(a),
            causing_ver: Some(c),
        }).text() == "installing "@ + a + (" ("@ + c + ")"@) + " breaks dependency '"@ + b
            + "' required by "@ + c,
        (IssueView::Conflict { pkg1: a, pkg2: b, reason: c }).text() == (if bare_spec(c) == a
            || bare_spec(c) == b {
            a + " and "@ + b + " are in conflict"@
        } else {
            a + " and "@ + b + " are in conflict"@ + (" ("@ + c + ")"@)
        }),
        (IssueView::InvalidArch { pkg: a, arch: Some(b) }).text() == "package "@ + a
            + " does not have a valid architecture"@ + (" ("@ + b + ")"@),
        (IssueView::Other { message: a }).text() == a,
{
    assert(a + " and "@ + b + " are in conflict"@ + Seq::<char>::empty() =~= a + " and "@ + b
        + " are in conflict"@);
}

/// What is logged of a problem names everything that takes part in it.
pub proof fn law_what_is_logged_of_a_problem(a: Seq<char>, b: Seq<char>, c: Seq<char>)
    ensures
        log_spec(IssueView::TargetNotFound { target: a }).fields == seq![("target"@, a)],
        log_spec(IssueView::RemovalBreaks { removed: a, depend: b, target: c }).fields == seq![
            ("removed"@, a),
            ("depend"@, b),
            ("target"@, c),
        ],
        log_spec(IssueView::Conflict { pkg1: a, pkg2: b, reason: c }).fields == seq![
            ("pkg1"@, a),
            ("pkg2"@, b),
            ("reason"@, c),
        ],
        log_spec(
            IssueView::UnsatisfiedDep { target: c, depend: b, causing: Some(a), causing_ver: None },
        ).fields == seq![("target"@, c), ("depend"@, b), ("causing_pkg"@, a)],
        log_spec(IssueView::InvalidArch { pkg: a, arch: Some(b) }).fields == seq![
            ("pkg"@, a),
            ("arch"@, b),
        ],
        log_spec(IssueView::Other { message: a }).fields == seq![("error"@, a)],
{
}

/// The package that causes a problem is named with the version that the sync databases
/// have of it; a version that is already said stays.
pub proof fn law_the_cause_is_named_with_its_version(
    target: Seq<char>,
    depend: Seq<char>,
    c: Seq<char>,
    v: Seq<char>,
    pac: PacmanIndex,
)
    ensures
        pac.sync_versions@.dom().contains(c) ==> with_version(
            IssueView::UnsatisfiedDep { target, depend, causing: Some(c), causing_ver: None },
            pac,
        ) == (IssueView::UnsatisfiedDep {
            target,
            depend,
            causing: Some(c),
            causing_ver: Some(pac.sync_versions@[c]@),
        }),
        with_version(
            IssueView::UnsatisfiedDep { target, depend, causing: Some(c), causing_ver: Some(v) },
            pac,
        ) == (IssueView::UnsatisfiedDep { target, depend, causing: Some(c), causing_ver: Some(v) }),
{
}

/// What is not known of a problem is left out of its text.
pub proof fn law_what_is_unknown_is_left_out(a: Seq<char>, b: Seq<char>, c: Seq<char>)
    ensures
        (IssueView::UnsatisfiedDep {
            target: c,
            depend: b,
            causing: Some(a),
            causing_ver: None,
        }).text() == "installing "@ + a + " breaks dependency '"@ + b + "' required by "@ + c,
        (IssueView::InvalidArch { pkg: a, arch: None }).text() == "package "@ + a
            + " does not have a valid architecture"@,
{
    assert("installing "@ + a + Seq::<char>::empty() =~= "installing "@ + a);
    assert("package "@ + a + " does not have a valid architecture"@ + Seq::<char>::empty()
        =~= "package "@ + a + " does not have a valid architecture"@);
}

/// Each kind of problem is logged under its own message, and what is not known of it is
/// logged as such.
pub proof fn law_how_problems_are_logged(
    a: Seq<char>,
    b: Seq<char>,
    c: Seq<char>,
    cause: Option<Seq<char>>,
    ver: Option<Seq<char>>,
)
    ensures
        log_spec(IssueView::Conflict { pkg1: a, pkg2: b, reason: c }).message
            == "pacman preflight: conflict detected"@,
        log_spec(
            IssueView::UnsatisfiedDep { target: a, depend: b, causing: cause, causing_ver: ver },
        ).message == "pacman preflight: unsatisfied dep"@,
        log_spec(
            IssueView::UnsatisfiedDep { target: a, depend: b, causing: None, causing_ver: ver },
        ).fields == seq![("target"@, a), ("depend"@, b), ("causing_pkg"@, "(none)"@)],
        log_spec(IssueView::RemovalBreaks { removed: a, depend: b, target: c }).message
            == "pacman preflight: removal breaks dependency"@,
        log_spec(IssueView::TargetNotFound { target: a }).message
            == "pacman preflight: target not found"@,
        log_spec(IssueView::InvalidArch { pkg: a, arch: cause }).message
            == "pacman preflight: invalid architecture"@,
        log_spec(IssueView::InvalidArch { pkg: a, arch: None }).fields == seq![
            ("pkg"@, a),
            ("arch"@, "(unknown)"@),
        ],
        log_spec(IssueView::Other { message: a }).message
            == "pacman preflight: prepare failed without detail"@,
{
}

/// A problem stays as it is where nothing caused it, where the sync databases do not
/// have what caused it, or where it is of another kind.
pub proof fn law_other_problems_stay(i: IssueView, pac: PacmanIndex)
    requires
        match i {
            IssueView::UnsatisfiedDep { causing: Some(c), .. } => !pac.sync_versions@.dom().contains(
                c,
            ),
            _ => true,
        },
    ensures
        with_version(i, pac) == i,
{
}

} // verus!
