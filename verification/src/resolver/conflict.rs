//! Declared conflicts among what a transaction would leave installed.
//!
//! pacman finds such a conflict too, but for an AUR package only after the build.
//! Found here, it keeps the package out of the cart. Only the packages that are
//! built declare; a conflict that a declarer also replaces is a swap, not a
//! conflict.

use vstd::prelude::*;

use crate::error::Error;
use crate::index::lookup::{claims, claims_name};
use crate::maps::NameSet;
use crate::names::{bare_spec, pkgtarget_views, PkgName, PkgTarget};
use crate::text::same;

verus! {

broadcast use {vstd::string::group_string_axioms, crate::seqs::lemma_map_push};

/// A package that the transaction installs and whose conflicts count.
pub struct Declarer {
    /// Its name.
    pub name: PkgName,
    /// What it conflicts with.
    pub conflicts: Vec<PkgTarget>,
    /// What it replaces.
    pub replaces: Vec<PkgTarget>,
}

/// A conflict with `other` does not matter to `d`: it replaces the other, is it, or
/// the transaction removes it.
pub open spec fn is_exempt(d: Declarer, other: Seq<char>, removing: Set<Seq<char>>) -> bool {
    ||| claims(pkgtarget_views(d.replaces@), other) > 0
    ||| other == d.name@
    ||| removing.contains(other)
}

/// `probe` may answer `answer` for the package called `n`.
pub open spec fn probe_says<F: Fn(&PkgName) -> bool>(probe: F, n: Seq<char>, answer: bool) -> bool {
    exists|p: PkgName| p@ == n && #[trigger] call_ensures(probe, (&p,), answer)
}

/// The message for `d` and the package that it conflicts with.
pub open spec fn conflict_text(d: Seq<char>, other: Seq<char>) -> Seq<char> {
    d + " conflicts with "@ + other
        + ": both would be present after this transaction — drop one, or `remove "@ + other
        + "` first"@
}

/// The `j`th conflict of `d` does not stand in the way.
pub open spec fn is_clear<F: Fn(&PkgName) -> bool>(
    d: Declarer,
    j: int,
    staged: Set<Seq<char>>,
    probe: F,
    removing: Set<Seq<char>>,
) -> bool {
    let other = bare_spec(d.conflicts@[j]@);
    is_exempt(d, other, removing) || (!staged.contains(other) && probe_says(probe, other, false))
}

/// The `j`th conflict of `d` stands in the way.
pub open spec fn is_blocking<F: Fn(&PkgName) -> bool>(
    d: Declarer,
    j: int,
    staged: Set<Seq<char>>,
    probe: F,
    removing: Set<Seq<char>>,
) -> bool {
    let other = bare_spec(d.conflicts@[j]@);
    !is_exempt(d, other, removing) && (staged.contains(other) || probe_says(probe, other, true))
}

/// Rejects a transaction in which a declarer conflicts with a package that would be
/// present: one that is staged, or one for which `is_installed` says yes.
pub fn check<F: Fn(&PkgName) -> bool>(
    declarers: &Vec<Declarer>,
    staged: &NameSet<PkgName>,
    is_installed: F,
    removing: &NameSet<PkgName>,
) -> (r: Result<(), Error>)
    requires
        forall|p: PkgName| #[trigger] call_requires(is_installed, (&p,)),
    ensures
        match r {
            Ok(_) => forall|i: int, j: int|
                0 <= i < declarers.len() && 0 <= j < declarers@[i].conflicts.len()
                    ==> #[trigger] is_clear(declarers@[i], j, staged@, is_installed, removing@),
            Err(e) => exists|i: int, j: int|
                {
                    &&& 0 <= i < declarers.len()
                    &&& 0 <= j < declarers@[i].conflicts.len()
                    &&& #[trigger] is_blocking(declarers@[i], j, staged@, is_installed, removing@)
                    &&& e.text() == conflict_text(
                        declarers@[i].name@,
                        bare_spec(declarers@[i].conflicts@[j]@),
                    )
                    &&& e is Other
                    &&& forall|k: int, l: int|
                        (0 <= k < i && 0 <= l < declarers@[k].conflicts.len()) || (k == i && 0 <= l
                            < j) ==> #[trigger] is_clear(
                            declarers@[k],
                            l,
                            staged@,
                            is_installed,
                            removing@,
                        )
                },
        },
{
    let mut i: usize = 0;
    while i < declarers.len()
        invariant
            i <= declarers.len(),
            forall|p: PkgName| #[trigger] call_requires(is_installed, (&p,)),
            forall|k: int, l: int|
                0 <= k < i && 0 <= l < declarers@[k].conflicts.len() ==> #[trigger] is_clear(
                    declarers@[k],
                    l,
                    staged@,
                    is_installed,
                    removing@,
                ),
        decreases declarers.len() - i,
    {
        let d = &declarers[i];
        let mut j: usize = 0;
        while j < d.conflicts.len()
            invariant
                i < declarers.len(),
                *d == declarers@[i as int],
                j <= d.conflicts.len(),
                forall|p: PkgName| #[trigger] call_requires(is_installed, (&p,)),
                forall|k: int, l: int|
                    (0 <= k < i && 0 <= l < declarers@[k].conflicts.len()) || (k == i && 0 <= l < j)
                        ==> #[trigger] is_clear(
                        declarers@[k],
                        l,
                        staged@,
                        is_installed,
                        removing@,
                    ),
            decreases d.conflicts.len() - j,
        {
            let bare = d.conflicts[j].bare();
            let exempt = claims_name(&d.replaces, bare) || same(bare, d.name.as_str())
                || removing.contains(bare);
            if !exempt {
                let other = PkgName::new(bare);
                if staged.contains(bare) || is_installed(&other) {
                    let mut m = d.name.to_string();
                    m.append(" conflicts with ");
                    m.append(bare);
                    m.append(": both would be present after this transaction — drop one, or `remove ");
                    m.append(bare);
                    m.append("` first");
                    assert(is_blocking(*d, j as int, staged@, is_installed, removing@));
                    assert(m@ =~= conflict_text(d.name@, bare@));
                    let e = Error::Other(m);
                    assert(e.text() == conflict_text(d.name@, bare@));
                    return Err(e);
                }
            }
            assert(is_clear(*d, j as int, staged@, is_installed, removing@));
            j = j + 1;
        }
        i = i + 1;
    }
    Ok(())
}

} // verus!
