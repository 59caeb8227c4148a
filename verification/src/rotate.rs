//! The files that each run leaves, and which of them are kept.

use vstd::prelude::*;

use crate::order::{is_key_order, sort_keys, SortKey};
use crate::paths::{extension, extension_spec, StatePath};
use crate::text::{
    dec, dec_string, eq_ignore_ascii_case, occurs_at, same_ascii_caseless, starts_with,
};

verus! {

broadcast use vstd::string::group_string_axioms;

/// The name that the files of one run share, by its time and its process.
pub fn run_basename(stamp: &str, pid: u32) -> (r: String)
    ensures
        r@ == "aurox-"@ + stamp@ + "-"@ + dec(pid as nat),
{
    let mut r = "aurox-".to_owned();
    r.append(stamp);
    r.append("-");
    r.append(dec_string(pid as u64).as_str());
    r
}

/// A family of files of which each run leaves one.
#[derive(Debug, Clone, Copy)]
pub struct RotationPolicy {
    /// Where they lie.
    pub dir: StatePath,
    /// The extension of their names.
    pub ext: &'static str,
    /// How many are kept.
    pub keep: usize,
}

impl RotationPolicy {
    /// The name of the file of a run.
    pub fn file_name(&self, basename: &str) -> (r: String)
        ensures
            r@ == basename@ + "."@ + self.ext@,
    {
        let mut r = basename.to_owned();
        r.append(".");
        r.append(self.ext);
        r
    }

    /// Whether a file of this name belongs to the family.
    pub open spec fn owns_spec(self, name: Seq<char>) -> bool {
        &&& occurs_at(name, "aurox-"@, 0)
        &&& extension_spec(name) matches Some(e)
        &&& same_ascii_caseless(e, self.ext@)
    }

    /// Whether a file of this name belongs to the family.
    pub fn owns(&self, name: &str) -> (r: bool)
        ensures
            r == self.owns_spec(name@),
    {
        if !starts_with(name, "aurox-") {
            return false;
        }
        match extension(name) {
            Some(e) => eq_ignore_ascii_case(e, self.ext),
            None => false,
        }
    }
}

/// The keys by which files are sorted, the newest first.
pub open spec fn age_keys(modified: Seq<i64>) -> Seq<SortKey> {
    modified.map_values(
        |t: i64| SortKey { major: (-(t as int)) as i128, minor: 0, least: 0 },
    )
}

/// Whether `doomed` lists what is left of the files, from the newest to the oldest,
/// after the first `keep`.
pub open spec fn is_prunable(modified: Seq<i64>, keep: int, doomed: Seq<usize>) -> bool {
    exists|order: Seq<usize>|
        #[trigger] is_key_order(age_keys(modified), order) && doomed == (if keep < order.len() {
            order.skip(keep)
        } else {
            Seq::<usize>::empty()
        })
}

/// The files to remove so that the `keep` newest stay, by when each was modified. Of
/// two of the same time the one that comes first counts as newer.
pub fn prune_keeping_newest(modified: &Vec<i64>, keep: usize) -> (r: Vec<usize>)
    ensures
        is_prunable(modified@, keep as int, r@),
{
    let mut keys: Vec<SortKey> = Vec::new();
    let mut i: usize = 0;
    while i < modified.len()
        invariant
            i <= modified.len(),
            keys.len() == i,
            forall|k: int| 0 <= k < i ==> #[trigger] keys@[k] == age_keys(modified@)[k],
        decreases modified.len() - i,
    {
        keys.push(SortKey { major: -(modified[i] as i128), minor: 0, least: 0 });
        i = i + 1;
    }
    assert(keys@ =~= age_keys(modified@));
    let order = sort_keys(&keys);
    let mut r: Vec<usize> = Vec::new();
    if keep >= order.len() {
        assert(r@ =~= Seq::<usize>::empty());
        return r;
    }
    let mut j: usize = keep;
    assert(r@ =~= order@.skip(keep as int).take(0));
    while j < order.len()
        invariant
            keep <= j <= order.len(),
            r@ == order@.skip(keep as int).take(j - keep),
        decreases order.len() - j,
    {
        r.push(order[j]);
        proof {
            crate::seqs::lemma_take_succ(order@.skip(keep as int), j - keep);
        }
        j = j + 1;
    }
    assert(order@.skip(keep as int).take(j - keep) =~= order@.skip(keep as int));
    r
}

/// Nothing that stays is older than anything that goes.
pub proof fn law_the_newest_stay(modified: Seq<i64>, keep: int, doomed: Seq<usize>, k: int)
    requires
        0 <= keep,
        is_prunable(modified, keep, doomed),
        0 <= k < modified.len(),
        !doomed.contains(k as usize),
        k <= usize::MAX,
    ensures
        forall|i: int| 0 <= i < doomed.len() ==> modified[#[trigger] doomed[i] as int] <= modified[k],
{
    let keys = age_keys(modified);
    let order = choose|order: Seq<usize>|
        #[trigger] is_key_order(keys, order) && doomed == (if keep < order.len() {
            order.skip(keep)
        } else {
            Seq::<usize>::empty()
        });
    assert(crate::order::is_listed(order, k));
    let p = choose|p: int| 0 <= p < order.len() && #[trigger] order[p] == k;
    if keep < order.len() {
        if p >= keep {
            assert(doomed[p - keep] == k as usize);
            assert(false);
        }
        assert forall|i: int| 0 <= i < doomed.len() implies modified[#[trigger] doomed[i] as int]
            <= modified[k] by {
            assert(doomed[i] == order[keep + i]);
            assert(crate::order::key_goes_first(keys, order[p] as int, order[keep + i] as int));
            let a = order[p] as int;
            let b = order[keep + i] as int;
            assert(keys[a].major == -(modified[a] as int));
            assert(keys[b].major == -(modified[b] as int));
        }
    }
}

/// A file that was seen in the directory of a family.
#[derive(Debug)]
pub struct Seen {
    /// Its name, where that is text.
    pub name: Option<String>,
    /// When it was modified, where that can be told.
    pub modified: Option<i64>,
}

impl RotationPolicy {
    /// Whether a file belongs to the family and has a time.
    pub open spec fn is_candidate(self, file: Seen) -> bool {
        &&& file.name matches Some(n) && self.owns_spec(n@)
        &&& file.modified is Some
    }

    /// The places of the candidates among the first `n` files.
    pub open spec fn candidates(self, files: Seq<Seen>, n: int) -> Seq<usize>
        decreases n,
    {
        if n <= 0 {
            seq![]
        } else if self.is_candidate(files[n - 1]) {
            self.candidates(files, n - 1).push((n - 1) as usize)
        } else {
            self.candidates(files, n - 1)
        }
    }

    /// Whether `doomed` lists what is left of the candidates, from the newest to the
    /// oldest, after those that are kept.
    pub open spec fn sweeps(self, files: Seq<Seen>, doomed: Seq<usize>) -> bool {
        let at = self.candidates(files, files.len() as int);
        exists|picked: Seq<usize>| #[trigger]
            is_prunable(times_of(files, at), self.keep as int, picked) && doomed
                == picked.map_values(|k: usize| at[k as int])
    }

    /// The files of a directory to remove, so that the newest of the family stay. Files
    /// that do not belong to it are left alone.
    pub fn prune(&self, files: &Vec<Seen>) -> (r: Vec<usize>)
        ensures
            self.sweeps(files@, r@),
    {
        let mut at: Vec<usize> = Vec::new();
        let mut modified: Vec<i64> = Vec::new();
        let mut i: usize = 0;
        assert(at@ =~= self.candidates(files@, 0));
        assert(modified@ =~= times_of(files@, at@));
        while i < files.len()
            invariant
                i <= files.len(),
                at@ == self.candidates(files@, i as int),
                modified@ == times_of(files@, at@),
            decreases files.len() - i,
        {
            let owned = match &files[i].name {
                Some(n) => self.owns(n.as_str()),
                None => false,
            };
            if owned {
                match files[i].modified {
                    Some(t) => {
                        at.push(i);
                        modified.push(t);
                        assert(modified@ =~= times_of(files@, at@));
                    },
                    None => {},
                }
            }
            i = i + 1;
        }
        let picked = prune_keeping_newest(&modified, self.keep);
        proof {
            lemma_picked(modified@, self.keep as int, picked@);
        }
        let mut r: Vec<usize> = Vec::new();
        let mut j: usize = 0;
        while j < picked.len()
            invariant
                modified@.len() == at@.len(),
                forall|k: int| 0 <= k < picked.len() ==> #[trigger] picked@[k] < modified@.len(),
                j <= picked.len(),
                r@.len() == j,
                forall|k: int| 0 <= k < j ==> #[trigger] r@[k] == at@[picked@[k] as int],
            decreases picked.len() - j,
        {
            r.push(at[picked[j]]);
            j = j + 1;
        }
        assert(r@ =~= picked@.map_values(|k: usize| at@[k as int]));
        r
    }
}

/// When the files at these places were modified.
pub open spec fn times_of(files: Seq<Seen>, at: Seq<usize>) -> Seq<i64> {
    at.map_values(|i: usize| files[i as int].modified->0)
}

proof fn lemma_picked(modified: Seq<i64>, keep: int, doomed: Seq<usize>)
    requires
        0 <= keep,
        is_prunable(modified, keep, doomed),
    ensures
        forall|k: int| 0 <= k < doomed.len() ==> #[trigger] doomed[k] < modified.len(),
        doomed.len() == (if keep < modified.len() {
            modified.len() - keep
        } else {
            0
        }),
{
    let order = choose|order: Seq<usize>|
        #[trigger] is_key_order(age_keys(modified), order) && doomed == (if keep < order.len() {
            order.skip(keep)
        } else {
            Seq::<usize>::empty()
        });
    if keep < order.len() {
        assert forall|k: int| 0 <= k < doomed.len() implies #[trigger] doomed[k] < modified.len() by {
            assert(doomed[k] == order[keep + k]);
        }
    }
}

proof fn lemma_candidates(p: RotationPolicy, files: Seq<Seen>, n: int)
    requires
        0 <= n <= files.len() <= usize::MAX,
    ensures
        forall|k: int|
            0 <= k < p.candidates(files, n).len() ==> #[trigger] p.candidates(files, n)[k] < n
                && p.is_candidate(files[p.candidates(files, n)[k] as int]),
    decreases n,
{
    if n > 0 {
        lemma_candidates(p, files, n - 1);
        let all = p.candidates(files, n);
        let less = p.candidates(files, n - 1);
        assert forall|k: int| 0 <= k < all.len() implies #[trigger] all[k] < n && p.is_candidate(
            files[all[k] as int],
        ) by {
            if k < less.len() {
                assert(all[k] == less[k]);
            }
        }
    }
}

/// A sweep removes only files of the family, and as many of them as there are beyond
/// those that are kept.
pub proof fn law_a_sweep_spares_other_files(p: RotationPolicy, files: Seq<Seen>, doomed: Seq<usize>)
    requires
        p.sweeps(files, doomed),
        files.len() <= usize::MAX,
    ensures
        forall|k: int|
            0 <= k < doomed.len() ==> #[trigger] doomed[k] < files.len() && p.is_candidate(
                files[doomed[k] as int],
            ),
        ({
            let owned = p.candidates(files, files.len() as int).len();
            doomed.len() == (if p.keep < owned {
                owned - p.keep
            } else {
                0
            })
        }),
{
    let at = p.candidates(files, files.len() as int);
    lemma_candidates(p, files, files.len() as int);
    let picked = choose|picked: Seq<usize>| #[trigger]
        is_prunable(times_of(files, at), p.keep as int, picked) && doomed == picked.map_values(
            |k: usize| at[k as int],
        );
    lemma_picked(times_of(files, at), p.keep as int, picked);
    assert forall|k: int| 0 <= k < doomed.len() implies #[trigger] doomed[k] < files.len()
        && p.is_candidate(files[doomed[k] as int]) by {
        assert(picked[k] < at.len());
        assert(doomed[k] == at[picked[k] as int]);
    }
}

} // verus!
