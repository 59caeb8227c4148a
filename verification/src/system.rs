//! What the state on disk takes up, and which of it can be removed.

use vstd::prelude::*;

use crate::paths::StatePath;
use crate::units::ByteSize;

verus! {

broadcast use vstd::string::group_string_axioms;

/// A kind of state.
#[derive(Clone, Copy, Debug, PartialEq, Eq, Structural)]
pub enum StateKind {
    /// The clone of the AUR and when it was fetched.
    Mirror,
    /// The index.
    Index,
    /// The repository databases.
    SyncDb,
    /// The working trees, with what was built in them.
    Builds,
    /// The logs.
    Logs,
    /// The traces.
    Traces,
    /// How long builds took.
    Metrics,
    /// What was typed into the shell.
    History,
}

/// All kinds, in the order in which they are shown.
pub open spec fn every_kind() -> Seq<StateKind> {
    seq![
        StateKind::Mirror,
        StateKind::Index,
        StateKind::SyncDb,
        StateKind::Builds,
        StateKind::Logs,
        StateKind::Traces,
        StateKind::Metrics,
        StateKind::History,
    ]
}

/// All kinds, in the order in which they are shown.
pub fn all_kinds() -> (r: Vec<StateKind>)
    ensures
        r@ == every_kind(),
{
    let mut r: Vec<StateKind> = Vec::new();
    r.push(StateKind::Mirror);
    r.push(StateKind::Index);
    r.push(StateKind::SyncDb);
    r.push(StateKind::Builds);
    r.push(StateKind::Logs);
    r.push(StateKind::Traces);
    r.push(StateKind::Metrics);
    r.push(StateKind::History);
    assert(r@ =~= every_kind());
    r
}

impl StateKind {
    /// The kind in a word.
    pub fn label(self) -> (r: &'static str)
        ensures
            r@ == (match self {
                StateKind::Mirror => "mirror"@,
                StateKind::Index => "index"@,
                StateKind::SyncDb => "syncdb"@,
                StateKind::Builds => "builds"@,
                StateKind::Logs => "logs"@,
                StateKind::Traces => "traces"@,
                StateKind::Metrics => "metrics"@,
                StateKind::History => "history"@,
            }),
    {
        match self {
            StateKind::Mirror => "mirror",
            StateKind::Index => "index",
            StateKind::SyncDb => "syncdb",
            StateKind::Builds => "builds",
            StateKind::Logs => "logs",
            StateKind::Traces => "traces",
            StateKind::Metrics => "metrics",
            StateKind::History => "history",
        }
    }

    /// What there is of this kind.
    pub fn description(self) -> (r: &'static str)
        ensures
            r@ == (match self {
                StateKind::Mirror => "AUR git mirror"@,
                StateKind::Index => "package search index"@,
                StateKind::SyncDb => "repo db snapshot"@,
                StateKind::Builds => "build worktrees + built packages"@,
                StateKind::Logs => "run logs (rotated)"@,
                StateKind::Traces => "run traces (rotated)"@,
                StateKind::Metrics => "build-time history"@,
                StateKind::History => "shell command history"@,
            }),
    {
        match self {
            StateKind::Mirror => "AUR git mirror",
            StateKind::Index => "package search index",
            StateKind::SyncDb => "repo db snapshot",
            StateKind::Builds => "build worktrees + built packages",
            StateKind::Logs => "run logs (rotated)",
            StateKind::Traces => "run traces (rotated)",
            StateKind::Metrics => "build-time history",
            StateKind::History => "shell command history",
        }
    }

    /// Whether it can be made again, and so can be removed.
    pub open spec fn is_prunable(self) -> bool {
        self == StateKind::Mirror || self == StateKind::Index || self == StateKind::SyncDb || self
            == StateKind::Builds
    }

    /// Whether it can be made again, and so can be removed.
    pub fn prunable(self) -> (r: bool)
        ensures
            r == self.is_prunable(),
    {
        match self {
            StateKind::Mirror | StateKind::Index | StateKind::SyncDb | StateKind::Builds => true,
            _ => false,
        }
    }

    /// Where it lies.
    pub open spec fn places(self) -> Seq<StatePath> {
        match self {
            StateKind::Mirror => seq![StatePath::AurRepo, StatePath::FetchStamp],
            StateKind::Index => seq![StatePath::Index],
            StateKind::SyncDb => seq![StatePath::SyncDb],
            StateKind::Builds => seq![StatePath::Pkgs],
            StateKind::Logs => seq![StatePath::Logs],
            StateKind::Traces => seq![StatePath::Traces],
            StateKind::Metrics => seq![StatePath::Metrics],
            StateKind::History => seq![StatePath::ShellHistory],
        }
    }

    /// Where it lies.
    pub fn roots(self) -> (r: Vec<StatePath>)
        ensures
            r@ == self.places(),
    {
        let mut r: Vec<StatePath> = Vec::new();
        match self {
            StateKind::Mirror => {
                r.push(StatePath::AurRepo);
                r.push(StatePath::FetchStamp);
            },
            StateKind::Index => r.push(StatePath::Index),
            StateKind::SyncDb => r.push(StatePath::SyncDb),
            StateKind::Builds => r.push(StatePath::Pkgs),
            StateKind::Logs => r.push(StatePath::Logs),
            StateKind::Traces => r.push(StatePath::Traces),
            StateKind::Metrics => r.push(StatePath::Metrics),
            StateKind::History => r.push(StatePath::ShellHistory),
        }
        assert(r@ =~= self.places());
        r
    }
}

/// What is found at a path. A link is a file of its own; what it leads to is not
/// looked at.
#[derive(Debug)]
pub enum Found {
    /// Nothing, or nothing that can be read.
    Nothing,
    /// A file or a link of this size.
    File(u64),
    /// A directory with these things in it.
    Dir(Vec<Found>),
}

impl Found {
    /// Its size: that of the files in it.
    pub open spec fn size(self) -> nat
        decreases self,
    {
        match self {
            Found::Nothing => 0,
            Found::File(n) => n as nat,
            Found::Dir(v) => sizes(v@),
        }
    }

    /// How many files are in it, at any depth.
    pub open spec fn files(self) -> nat
        decreases self,
    {
        match self {
            Found::Nothing => 0,
            Found::File(_) => 1,
            Found::Dir(v) => file_count(v@),
        }
    }
}

/// The size of several things together.
pub open spec fn sizes(v: Seq<Found>) -> nat
    decreases v,
{
    if v.len() == 0 {
        0
    } else {
        sizes(v.drop_last()) + v.last().size()
    }
}

/// How many files are in several things together.
pub open spec fn file_count(v: Seq<Found>) -> nat
    decreases v,
{
    if v.len() == 0 {
        0
    } else {
        file_count(v.drop_last()) + v.last().files()
    }
}

/// A part of several things is no larger than all of them.
proof fn lemma_sizes_grow(v: Seq<Found>, i: int)
    requires
        0 <= i <= v.len(),
    ensures
        sizes(v.take(i)) <= sizes(v),
    decreases v.len() - i,
{
    if i == v.len() {
        assert(v.take(i) =~= v);
    } else {
        crate::seqs::lemma_take_succ(v, i);
        lemma_sizes_grow(v, i + 1);
    }
}

/// The size of what is found at a path, unless 64 bits do not hold it.
pub fn checked_size(found: &Found) -> (r: Option<u64>)
    ensures
        r == (if found.size() <= u64::MAX {
            Some(found.size() as u64)
        } else {
            None
        }),
    decreases found,
{
    match found {
        Found::Nothing => Some(0),
        Found::File(n) => Some(*n),
        Found::Dir(v) => {
            let mut sum: u64 = 0;
            let mut i: usize = 0;
            assert(v@.take(0) =~= Seq::<Found>::empty());
            while i < v.len()
                invariant
                    *found == Found::Dir(*v),
                    i <= v.len(),
                    sum == sizes(v@.take(i as int)),
                decreases v.len() - i,
            {
                proof {
                    crate::seqs::lemma_take_succ(v@, i as int);
                    lemma_sizes_grow(v@, i as int + 1);
                }
                assert(decreases_to!(*found => found->Dir_0));
                assert(decreases_to!(*v => v@));
                assert(decreases_to!(v@ => v@[i as int]));
                match checked_size(&v[i]) {
                    Some(n) => {
                        if n > u64::MAX - sum {
                            return None;
                        }
                        sum = sum + n;
                    },
                    None => {
                        return None;
                    },
                }
                i = i + 1;
            }
            assert(v@.take(i as int) =~= v@);
            Some(sum)
        },
    }
}

/// The size of what is found at a path.
pub fn path_size(found: &Found) -> (r: u64)
    requires
        found.size() <= u64::MAX,
    ensures
        r == found.size(),
{
    match checked_size(found) {
        Some(n) => n,
        None => 0,
    }
}

/// How much one kind of state takes up.
#[derive(Clone, Copy, Debug, PartialEq, Eq, Structural)]
pub struct Usage {
    /// Which kind.
    pub kind: StateKind,
    /// How much.
    pub size: ByteSize,
}

/// How much each kind of state takes up.
#[derive(Debug)]
pub struct Report {
    /// The directory of the state.
    pub root: String,
    /// One row for each kind.
    pub rows: Vec<Usage>,
}

/// The sum of the rows; `prunable_only` leaves out what cannot be removed.
pub open spec fn sum(rows: Seq<Usage>, prunable_only: bool) -> nat
    decreases rows.len(),
{
    if rows.len() == 0 {
        0
    } else {
        sum(rows.drop_last(), prunable_only) + if !prunable_only || rows.last().kind.is_prunable() {
            rows.last().size.0 as nat
        } else {
            0
        }
    }
}

/// Part of the rows sums up to no more than all of them.
proof fn lemma_sum_grows(rows: Seq<Usage>, prunable_only: bool, i: int)
    requires
        0 <= i <= rows.len(),
    ensures
        sum(rows.take(i), prunable_only) <= sum(rows, prunable_only),
    decreases rows.len() - i,
{
    if i == rows.len() {
        assert(rows.take(i) =~= rows);
    } else {
        crate::seqs::lemma_take_succ(rows, i);
        lemma_sum_grows(rows, prunable_only, i + 1);
    }
}

fn add_up(rows: &Vec<Usage>, prunable_only: bool) -> (r: u64)
    requires
        sum(rows@, prunable_only) <= u64::MAX,
    ensures
        r == sum(rows@, prunable_only),
{
    let mut total: u64 = 0;
    let mut i: usize = 0;
    assert(rows@.take(0) =~= Seq::<Usage>::empty());
    while i < rows.len()
        invariant
            sum(rows@, prunable_only) <= u64::MAX,
            i <= rows.len(),
            total == sum(rows@.take(i as int), prunable_only),
        decreases rows.len() - i,
    {
        proof {
            crate::seqs::lemma_take_succ(rows@, i as int);
            lemma_sum_grows(rows@, prunable_only, i as int + 1);
        }
        if !prunable_only || rows[i].kind.prunable() {
            total = total + rows[i].size.0;
        }
        i = i + 1;
    }
    assert(rows@.take(i as int) =~= rows@);
    total
}

impl Report {
    /// What all kinds take up together.
    pub fn total(&self) -> (r: ByteSize)
        requires
            sum(self.rows@, false) <= u64::MAX,
        ensures
            r.0 == sum(self.rows@, false),
    {
        ByteSize::new(add_up(&self.rows, false))
    }

    /// What can be removed.
    pub fn prunable_total(&self) -> (r: ByteSize)
        requires
            sum(self.rows@, true) <= u64::MAX,
        ensures
            r.0 == sum(self.rows@, true),
    {
        ByteSize::new(add_up(&self.rows, true))
    }
}

/// The size of what is found at the places of all kinds.
pub open spec fn all_sizes(found: Seq<Vec<Found>>) -> nat
    decreases found.len(),
{
    if found.len() == 0 {
        0
    } else {
        all_sizes(found.drop_last()) + sizes(found.last()@)
    }
}

/// The places of some kinds take up no more than those of all.
proof fn lemma_all_sizes_grow(found: Seq<Vec<Found>>, i: int)
    requires
        0 <= i <= found.len(),
    ensures
        all_sizes(found.take(i)) <= all_sizes(found),
        forall|k: int| i <= k < found.len() ==> sizes((#[trigger] found[k])@) <= all_sizes(found),
    decreases found.len() - i,
{
    if i == found.len() {
        assert(found.take(i) =~= found);
    } else {
        crate::seqs::lemma_take_succ(found, i);
        lemma_all_sizes_grow(found, i + 1);
    }
}

/// Whether 64 bits hold the size of what is found at all places together.
pub fn sizes_fit(found: &Vec<Vec<Found>>) -> (r: bool)
    ensures
        r == (all_sizes(found@) <= u64::MAX),
        r ==> forall|k: int| 0 <= k < found.len() ==> sizes((#[trigger] found@[k])@) <= u64::MAX,
{
    let mut sum: u64 = 0;
    let mut i: usize = 0;
    assert(found@.take(0) =~= Seq::<Vec<Found>>::empty());
    while i < found.len()
        invariant
            i <= found.len(),
            sum == all_sizes(found@.take(i as int)),
        decreases found.len() - i,
    {
        let v = &found[i];
        let mut here: u64 = 0;
        let mut j: usize = 0;
        proof {
            crate::seqs::lemma_take_succ(found@, i as int);
            lemma_all_sizes_grow(found@, i as int + 1);
        }
        assert(v@.take(0) =~= Seq::<Found>::empty());
        while j < v.len()
            invariant
                j <= v.len(),
                here == sizes(v@.take(j as int)),
                sizes(v@) <= all_sizes(found@),
            decreases v.len() - j,
        {
            proof {
                crate::seqs::lemma_take_succ(v@, j as int);
                lemma_sizes_grow(v@, j as int + 1);
            }
            match checked_size(&v[j]) {
                Some(n) => {
                    if n > u64::MAX - here {
                        return false;
                    }
                    here = here + n;
                },
                None => {
                    return false;
                },
            }
            j = j + 1;
        }
        assert(v@.take(j as int) =~= v@);
        if here > u64::MAX - sum {
            return false;
        }
        sum = sum + here;
        i = i + 1;
    }
    assert(found@.take(i as int) =~= found@);
    proof {
        lemma_all_sizes_grow(found@, 0);
    }
    true
}

/// Measures every kind of state. `found` holds what is at the places of each kind,
/// in the order of the kinds.
pub fn usage(root: &str, found: &Vec<Vec<Found>>) -> (r: Report)
    requires
        found.len() == every_kind().len(),
        forall|i: int| 0 <= i < found.len() ==> sizes((#[trigger] found@[i])@) <= u64::MAX,
    ensures
        r.root@ == root@,
        r.rows@.len() == every_kind().len(),
        forall|i: int|
            0 <= i < r.rows@.len() ==> (#[trigger] r.rows@[i]).kind == every_kind()[i]
                && r.rows@[i].size.0 == sizes(found@[i]@),
{
    let kinds = all_kinds();
    let mut rows: Vec<Usage> = Vec::new();
    let mut i: usize = 0;
    while i < kinds.len()
        invariant
            kinds@ == every_kind(),
            found.len() == every_kind().len(),
            forall|k: int| 0 <= k < found.len() ==> sizes((#[trigger] found@[k])@) <= u64::MAX,
            i <= kinds.len(),
            rows.len() == i,
            forall|k: int|
                0 <= k < i ==> (#[trigger] rows@[k]).kind == every_kind()[k] && rows@[k].size.0
                    == sizes(found@[k]@),
        decreases kinds.len() - i,
    {
        let v = &found[i];
        let mut size: u64 = 0;
        let mut j: usize = 0;
        assert(v@.take(0) =~= Seq::<Found>::empty());
        while j < v.len()
            invariant
                sizes(v@) <= u64::MAX,
                j <= v.len(),
                size == sizes(v@.take(j as int)),
            decreases v.len() - j,
        {
            proof {
                crate::seqs::lemma_take_succ(v@, j as int);
                lemma_sizes_grow(v@, j as int + 1);
            }
            size = size + path_size(&v[j]);
            j = j + 1;
        }
        assert(v@.take(j as int) =~= v@);
        rows.push(Usage { kind: kinds[i], size: ByteSize::new(size) });
        i = i + 1;
    }
    Report { root: root.to_owned(), rows }
}

/// What is removed when the state is pruned: every place of every kind that can be
/// made again.
pub open spec fn doomed(kinds: Seq<StateKind>) -> Seq<StatePath>
    decreases kinds.len(),
{
    if kinds.len() == 0 {
        seq![]
    } else if kinds.last().is_prunable() {
        doomed(kinds.drop_last()) + kinds.last().places()
    } else {
        doomed(kinds.drop_last())
    }
}

/// A step of pruning.
#[derive(Clone, Copy, Debug, PartialEq, Eq, Structural)]
pub enum PruneStep {
    /// Remove what is at a place. A link is removed as a link. Where nothing is, nothing
    /// is done.
    Remove(StatePath),
    /// Make a directory where nothing is.
    Create(StatePath),
}

/// The steps that remove what is at these places.
pub open spec fn removals(places: Seq<StatePath>) -> Seq<PruneStep> {
    places.map_values(|p: StatePath| PruneStep::Remove(p))
}

/// The steps of pruning: everything that can be made again is removed, and the
/// directory for working trees is made anew.
pub open spec fn prune_steps() -> Seq<PruneStep> {
    removals(doomed(every_kind())).push(PruneStep::Create(StatePath::Pkgs))
}

/// The steps of pruning, in this order.
pub fn prune() -> (r: Vec<PruneStep>)
    ensures
        r@ == prune_steps(),
{
    let kinds = all_kinds();
    let mut r: Vec<PruneStep> = Vec::new();
    let mut i: usize = 0;
    assert(r@ =~= removals(doomed(kinds@.take(0))));
    while i < kinds.len()
        invariant
            i <= kinds.len(),
            r@ == removals(doomed(kinds@.take(i as int))),
        decreases kinds.len() - i,
    {
        proof {
            crate::seqs::lemma_take_succ(kinds@, i as int);
        }
        if kinds[i].prunable() {
            let roots = kinds[i].roots();
            let ghost before = r@;
            let mut j: usize = 0;
            assert(before + removals(roots@.take(0)) =~= before);
            while j < roots.len()
                invariant
                    j <= roots.len(),
                    r@ == before + removals(roots@.take(j as int)),
                decreases roots.len() - j,
            {
                r.push(PruneStep::Remove(roots[j]));
                proof {
                    crate::seqs::lemma_take_succ(roots@, j as int);
                }
                assert(r@ =~= before + removals(roots@.take(j as int + 1)));
                j = j + 1;
            }
            assert(roots@.take(j as int) =~= roots@);
            assert(r@ =~= removals(doomed(kinds@.take(i as int + 1))));
        }
        i = i + 1;
    }
    assert(kinds@.take(i as int) =~= kinds@);
    r.push(PruneStep::Create(StatePath::Pkgs));
    r
}

/// What can be removed is no more than what there is.
pub proof fn law_prunable_is_part_of_all(rows: Seq<Usage>)
    ensures
        sum(rows, true) <= sum(rows, false),
    decreases rows.len(),
{
    if rows.len() > 0 {
        law_prunable_is_part_of_all(rows.drop_last());
    }
}

/// What is at the places that pruning removes, by kind.
pub open spec fn freed(kinds: Seq<StateKind>, found: Seq<Vec<Found>>) -> nat
    decreases kinds.len(),
{
    if kinds.len() == 0 {
        0
    } else {
        freed(kinds.drop_last(), found) + if kinds.last().is_prunable() {
            sizes(found[kinds.len() - 1]@)
        } else {
            0
        }
    }
}

/// Pruning frees what was reported as prunable.
pub proof fn law_pruning_frees_what_is_reported(
    kinds: Seq<StateKind>,
    found: Seq<Vec<Found>>,
    rows: Seq<Usage>,
)
    requires
        rows.len() == kinds.len(),
        forall|i: int|
            0 <= i < rows.len() ==> (#[trigger] rows[i]).kind == kinds[i] && rows[i].size.0 == sizes(
                found[i]@,
            ),
    ensures
        sum(rows, true) == freed(kinds, found),
    decreases rows.len(),
{
    if rows.len() > 0 {
        law_pruning_frees_what_is_reported(kinds.drop_last(), found, rows.drop_last());
        assert(rows[rows.len() - 1] == rows.last());
    }
}

/// Pruning removes nothing that cannot be made again: no log, no trace, no
/// measurement and no history.
pub proof fn law_pruning_spares_data(kinds: Seq<StateKind>, place: StatePath)
    requires
        place == StatePath::Logs || place == StatePath::Traces || place == StatePath::Metrics
            || place == StatePath::ShellHistory,
    ensures
        !doomed(kinds).contains(place),
    decreases kinds.len(),
{
    if kinds.len() > 0 {
        law_pruning_spares_data(kinds.drop_last(), place);
        if kinds.last().is_prunable() {
            let p = kinds.last().places();
            let all = doomed(kinds);
            let rest = doomed(kinds.drop_last());
            assert forall|i: int| 0 <= i < all.len() implies #[trigger] all[i] != place by {
                if i < rest.len() {
                    assert(rest.contains(rest[i]));
                    assert(all[i] == rest[i]);
                } else {
                    assert(all[i] == p[i - rest.len()]);
                }
            }
        }
    }
}

/// What is at the places of the state: nothing, or something of a size.
pub struct Disk {
    /// The size of what is at each place.
    pub held: spec_fn(StatePath) -> Option<nat>,
}

/// The size of what is at a place.
pub open spec fn size_at(disk: Disk, place: StatePath) -> nat {
    match (disk.held)(place) {
        Some(n) => n,
        None => 0,
    }
}

/// The disk after a step that went well.
pub open spec fn after_step(disk: Disk, step: PruneStep) -> Disk {
    match step {
        PruneStep::Remove(p) => Disk {
            held: |q: StatePath|
                if q == p {
                    None
                } else {
                    (disk.held)(q)
                },
        },
        PruneStep::Create(p) => Disk {
            held: |q: StatePath|
                if q == p && (disk.held)(q) is None {
                    Some(0nat)
                } else {
                    (disk.held)(q)
                },
        },
    }
}

/// The disk after these steps, where all go well.
pub open spec fn after_steps(disk: Disk, steps: Seq<PruneStep>) -> Disk
    decreases steps.len(),
{
    if steps.len() == 0 {
        disk
    } else {
        after_step(after_steps(disk, steps.drop_last()), steps.last())
    }
}

/// The size of what is at these places.
pub open spec fn sizes_at(disk: Disk, places: Seq<StatePath>) -> nat
    decreases places.len(),
{
    if places.len() == 0 {
        0
    } else {
        sizes_at(disk, places.drop_last()) + size_at(disk, places.last())
    }
}

/// What is found at the places of each kind is what the disk holds there.
pub open spec fn shows(found: Seq<Vec<Found>>, disk: Disk, kinds: Seq<StateKind>) -> bool {
    &&& found.len() >= kinds.len()
    &&& forall|i: int|
        0 <= i < kinds.len() ==> sizes((#[trigger] found[i])@) == sizes_at(disk, kinds[i].places())
}

proof fn lemma_sizes_at_splits(disk: Disk, a: Seq<StatePath>, b: Seq<StatePath>)
    ensures
        sizes_at(disk, a + b) == sizes_at(disk, a) + sizes_at(disk, b),
    decreases b.len(),
{
    if b.len() == 0 {
        assert(a + b =~= a);
    } else {
        lemma_sizes_at_splits(disk, a, b.drop_last());
        assert((a + b).drop_last() =~= a + b.drop_last());
    }
}

/// What pruning frees is what the disk holds at the places that it removes.
pub proof fn law_pruning_frees_the_removed_places(
    kinds: Seq<StateKind>,
    found: Seq<Vec<Found>>,
    disk: Disk,
)
    requires
        shows(found, disk, kinds),
    ensures
        freed(kinds, found) == sizes_at(disk, doomed(kinds)),
    decreases kinds.len(),
{
    if kinds.len() > 0 {
        let rest = kinds.drop_last();
        assert forall|i: int| 0 <= i < rest.len() implies sizes((#[trigger] found[i])@) == sizes_at(
            disk,
            rest[i].places(),
        ) by {
            assert(rest[i] == kinds[i]);
        }
        law_pruning_frees_the_removed_places(rest, found, disk);
        assert(sizes(found[kinds.len() - 1]@) == sizes_at(disk, kinds[kinds.len() - 1].places()));
        lemma_sizes_at_splits(disk, doomed(rest), kinds.last().places());
    }
}

proof fn lemma_doomed_places()
    ensures
        doomed(every_kind()) == seq![
            StatePath::AurRepo,
            StatePath::FetchStamp,
            StatePath::Index,
            StatePath::SyncDb,
            StatePath::Pkgs,
        ],
{
    reveal_with_fuel(doomed, 9);
    let k = every_kind();
    assert(k.drop_last() =~= k.take(7));
    assert(k.take(7).drop_last() =~= k.take(6));
    assert(k.take(6).drop_last() =~= k.take(5));
    assert(k.take(5).drop_last() =~= k.take(4));
    assert(k.take(4).drop_last() =~= k.take(3));
    assert(k.take(3).drop_last() =~= k.take(2));
    assert(k.take(2).drop_last() =~= k.take(1));
    assert(k.take(1).drop_last() =~= k.take(0));
    assert(doomed(k) =~= seq![
        StatePath::AurRepo,
        StatePath::FetchStamp,
        StatePath::Index,
        StatePath::SyncDb,
        StatePath::Pkgs,
    ]);
}

proof fn lemma_after_removals(disk: Disk, places: Seq<StatePath>, q: StatePath)
    ensures
        (after_steps(disk, removals(places)).held)(q) == (if places.contains(q) {
            None
        } else {
            (disk.held)(q)
        }),
    decreases places.len(),
{
    if places.len() > 0 {
        let rest = places.drop_last();
        lemma_after_removals(disk, rest, q);
        assert(removals(places).drop_last() =~= removals(rest));
        assert(removals(places).last() == PruneStep::Remove(places.last()));
        if rest.contains(q) {
            let i = choose|i: int| 0 <= i < rest.len() && rest[i] == q;
            assert(places[i] == q);
        }
        if places.contains(q) && places.last() != q {
            let i = choose|i: int| 0 <= i < places.len() && places[i] == q;
            assert(rest[i] == q);
        }
        if places.last() == q {
            assert(places[places.len() - 1] == q);
        }
    }
}

/// After pruning, nothing that can be made again is left but an empty directory for
/// working trees, and everything else is as it was.
pub proof fn law_pruning_leaves_the_rest(disk: Disk, q: StatePath)
    ensures
        (after_steps(disk, prune_steps()).held)(q) == (if q == StatePath::Pkgs {
            Some(0nat)
        } else if doomed(every_kind()).contains(q) {
            None
        } else {
            (disk.held)(q)
        }),
{
    let gone = doomed(every_kind());
    lemma_doomed_places();
    assert(gone[4] == StatePath::Pkgs);
    lemma_after_removals(disk, gone, q);
    let steps = prune_steps();
    assert(steps.drop_last() =~= removals(gone));
    assert(steps.last() == PruneStep::Create(StatePath::Pkgs));
}

/// Pruning again frees nothing and changes nothing.
pub proof fn law_pruning_again_does_nothing(disk: Disk)
    ensures
        sizes_at(after_steps(disk, prune_steps()), doomed(every_kind())) == 0,
        after_steps(after_steps(disk, prune_steps()), prune_steps()).held =~= after_steps(
            disk,
            prune_steps(),
        ).held,
{
    let once = after_steps(disk, prune_steps());
    let twice = after_steps(once, prune_steps());
    let gone = doomed(every_kind());
    lemma_none_left(disk, gone);
    assert forall|q: StatePath| #[trigger] (twice.held)(q) == (once.held)(q) by {
        law_pruning_leaves_the_rest(disk, q);
        law_pruning_leaves_the_rest(once, q);
    }
}

proof fn lemma_none_left(disk: Disk, places: Seq<StatePath>)
    requires
        forall|i: int|
            0 <= i < places.len() ==> doomed(every_kind()).contains(#[trigger] places[i]),
    ensures
        sizes_at(after_steps(disk, prune_steps()), places) == 0,
    decreases places.len(),
{
    if places.len() > 0 {
        let rest = places.drop_last();
        assert forall|i: int| 0 <= i < rest.len() implies doomed(every_kind()).contains(
            #[trigger] rest[i],
        ) by {
            assert(rest[i] == places[i]);
        }
        lemma_none_left(disk, rest);
        assert(doomed(every_kind()).contains(places[places.len() - 1]));
        law_pruning_leaves_the_rest(disk, places.last());
    }
}

} // verus!
