use crate::bin_client::{format_http, http_address};
use crate::err::TribblerError;
use vstd::arithmetic::div_mod::{lemma_mod_add_multiples_vanish, lemma_mod_self_0, lemma_small_mod};
use vstd::prelude::*;

verus! {

/// A backend's place on the ring: its own address and those of its
/// neighbours.
#[derive(PartialEq, Debug, Clone)]
pub struct ChordBacks {
    pub this_addr: String,
    pub successor: String,
    pub predecessor: String,
}

/// The addresses of a ring entry as character sequences.
pub struct ChordBacksView {
    pub this_addr: Seq<char>,
    pub successor: Seq<char>,
    pub predecessor: Seq<char>,
}

impl View for ChordBacks {
    type V = ChordBacksView;

    open spec fn view(&self) -> ChordBacksView {
        ChordBacksView {
            this_addr: self.this_addr@,
            successor: self.successor@,
            predecessor: self.predecessor@,
        }
    }
}

/// The result of one round of clock synchronisation: the largest clock seen
/// and the backends that answered.
pub struct SyncClockResp {
    pub largest_clock: u64,
    pub alive_backends: Vec<String>,
}

/// `v` holds a string with the characters `s`.
pub open spec fn contains_view(v: Seq<String>, s: Seq<char>) -> bool {
    exists|j: int| 0 <= j < v.len() && #[trigger] v[j]@ == s
}

/// The two lists have the same length and each holds every string of the
/// other.
pub open spec fn same_members(first: Seq<String>, second: Seq<String>) -> bool {
    &&& first.len() == second.len()
    &&& forall|i: int| 0 <= i < second.len() ==> contains_view(first, #[trigger] second[i]@)
    &&& forall|i: int| 0 <= i < first.len() ==> contains_view(second, #[trigger] first[i]@)
}

/// Whether `v` holds a string equal to `s`.
fn contains_string(v: &Vec<String>, s: &String) -> (r: bool)
    ensures
        r == contains_view(v@, s@),
{
    let mut j: usize = 0;
    while j < v.len()
        invariant
            j <= v@.len(),
            forall|k: int| 0 <= k < j ==> #[trigger] v@[k]@ != s@,
        decreases v@.len() - j,
    {
        if v[j] == *s {
            return true;
        }
        j = j + 1;
    }
    false
}

/// Whether two lists of backend addresses name the same backends (same
/// length, and each address of one occurs in the other).
pub fn vec_equals(first: Vec<String>, second: Vec<String>) -> (r: bool)
    ensures
        r == same_members(first@, second@),
        r <==> {
            &&& first@.len() == second@.len()
            &&& each_occurs_in(second@, first@)
            &&& each_occurs_in(first@, second@)
        },
{
    proof {
        lemma_vec_equals_meaning(first@, second@);
    }
    if first.len() == second.len() {
        let mut i: usize = 0;
        while i < second.len()
            invariant
                i <= second@.len(),
                forall|k: int| 0 <= k < i ==> contains_view(first@, #[trigger] second@[k]@),
            decreases second@.len() - i,
        {
            if !contains_string(&first, &second[i]) {
                return false;
            }
            i = i + 1;
        }
        let mut i: usize = 0;
        while i < first.len()
            invariant
                i <= first@.len(),
                forall|k: int| 0 <= k < second@.len() ==> contains_view(first@, #[trigger] second@[k]@),
                forall|k: int| 0 <= k < i ==> contains_view(second@, #[trigger] first@[k]@),
            decreases first@.len() - i,
        {
            if !contains_string(&second, &first[i]) {
                return false;
            }
            i = i + 1;
        }
    } else {
        return false;
    }
    true
}

/// Every string of `b`, at every position, occurs somewhere in `a`.
pub open spec fn each_occurs_in(b: Seq<String>, a: Seq<String>) -> bool {
    forall|i: int|
        #![trigger b[i]]
        0 <= i < b.len() ==> exists|j: int| #![trigger a[j]] 0 <= j < a.len() && a[j]@ == b[i]@
}

proof fn lemma_all_contained(a: Seq<String>, b: Seq<String>)
    ensures
        (forall|i: int| 0 <= i < b.len() ==> contains_view(a, #[trigger] b[i]@)) <==> each_occurs_in(b, a),
{
    if forall|i: int| 0 <= i < b.len() ==> contains_view(a, #[trigger] b[i]@) {
        assert forall|i: int| #![trigger b[i]] 0 <= i < b.len() implies exists|j: int|
            #![trigger a[j]]
            0 <= j < a.len() && a[j]@ == b[i]@ by {
            assert(contains_view(a, b[i]@));
            let j = choose|j: int| 0 <= j < a.len() && #[trigger] a[j]@ == b[i]@;
            assert(a[j]@ == b[i]@);
        }
        assert(each_occurs_in(b, a));
    }
    if each_occurs_in(b, a) {
        assert forall|i: int| 0 <= i < b.len() implies contains_view(a, #[trigger] b[i]@) by {
            assert(b[i] == b[i]);
            let j = choose|j: int| #![trigger a[j]] 0 <= j < a.len() && a[j]@ == b[i]@;
            assert(a[j]@ == b[i]@);
        }
    }
}

/// Two membership lists are the same exactly when they have the same length,
/// every string of the second (at every position) occurs in the first, and
/// every string of the first occurs in the second.
pub proof fn lemma_vec_equals_meaning(first: Seq<String>, second: Seq<String>)
    ensures
        same_members(first, second) <==> {
            &&& first.len() == second.len()
            &&& each_occurs_in(second, first)
            &&& each_occurs_in(first, second)
        },
{
    lemma_all_contained(first, second);
    lemma_all_contained(second, first);
}

/// `vec_equals` is reflexive and symmetric.
pub proof fn lemma_same_members_reflexive_symmetric(a: Seq<String>, b: Seq<String>)
    ensures
        same_members(a, a),
        same_members(a, b) == same_members(b, a),
{
    assert forall|i: int| 0 <= i < a.len() implies contains_view(a, #[trigger] a[i]@) by {
        assert(a[i]@ == a[i]@);
    }
}

/// Entry `i` of the ring built over `backs`: backend `i`, with backend
/// `i - 1` before it and backend `i + 1` after it, wrapping around.
pub open spec fn ring_entry(backs: Seq<String>, i: int) -> ChordBacksView {
    let n = backs.len() as int;
    ChordBacksView {
        this_addr: backs[i]@,
        successor: backs[(i + 1) % n]@,
        predecessor: backs[(i + n - 1) % n]@,
    }
}

/// Arranges the backends `backs` on a ring in the order given.
pub fn build_chord_ring(backs: Vec<String>) -> (r: Result<Vec<ChordBacks>, TribblerError>)
    ensures
        r matches Ok(ring) && ring@.len() == backs@.len() && forall|i: int|
            0 <= i < backs@.len() ==> #[trigger] ring@[i]@ == ring_entry(backs@, i),
        r matches Ok(ring) ==> forall|i: int|
            0 <= i < backs@.len() ==> {
                &&& (#[trigger] ring@[i]).this_addr@ == backs@[i]@
                &&& ring@[i].successor@ == (if i + 1 < backs@.len() {
                    backs@[i + 1]@
                } else {
                    backs@[0]@
                })
                &&& ring@[i].predecessor@ == (if i > 0 {
                    backs@[i - 1]@
                } else {
                    backs@[backs@.len() - 1]@
                })
            },
{
    let mut chordbacks: Vec<ChordBacks> = Vec::new();
    let n = backs.len();
    let mut index: usize = 0;
    while index < n
        invariant
            n == backs@.len(),
            index <= n,
            chordbacks@.len() == index,
            forall|i: int| 0 <= i < index ==> #[trigger] chordbacks@[i]@ == ring_entry(backs@, i),
            forall|i: int|
                0 <= i < index ==> {
                    &&& (#[trigger] chordbacks@[i]).this_addr@ == backs@[i]@
                    &&& chordbacks@[i].successor@ == (if i + 1 < backs@.len() {
                        backs@[i + 1]@
                    } else {
                        backs@[0]@
                    })
                    &&& chordbacks@[i].predecessor@ == (if i > 0 {
                        backs@[i - 1]@
                    } else {
                        backs@[backs@.len() - 1]@
                    })
                },
        decreases n - index,
    {
        let ghost ni = n as int;
        let ghost ii = index as int;
        proof {
            if index + 1 < n {
                lemma_small_mod((ii + 1) as nat, ni as nat);
            } else {
                lemma_mod_self_0(ni);
            }
            if index > 0 {
                lemma_mod_add_multiples_vanish(ii - 1, ni);
                lemma_small_mod((ii - 1) as nat, ni as nat);
            } else {
                lemma_small_mod((ni - 1) as nat, ni as nat);
            }
        }
        let successor_backend_set;
        let predecessor_backend_set;
        if index == 0 {
            let predecessor_backend = backs[n - 1].clone();
            predecessor_backend_set = predecessor_backend;
            successor_backend_set = backs[(index + 1) % n].clone();
        } else if index == n - 1 {
            successor_backend_set = backs[(index + 1) % n].clone();
            predecessor_backend_set = backs[index - 1].clone();
        } else {
            predecessor_backend_set = backs[index - 1].clone();
            successor_backend_set = backs[(index + 1) % n].clone();
        }
        chordbacks.push(
            ChordBacks {
                this_addr: backs[index].clone(),
                predecessor: predecessor_backend_set,
                successor: successor_backend_set,
            },
        );
        index = index + 1;
    }
    Ok(chordbacks)
}

/// On the ring built over any list of backends, each entry's successor is
/// the next entry, and that entry's predecessor is the first one.
pub proof fn lemma_ring_links_agree(backs: Seq<String>, i: int)
    requires
        0 <= i < backs.len(),
    ensures
        ({
            let n = backs.len() as int;
            let next = (i + 1) % n;
            &&& 0 <= next < n
            &&& ring_entry(backs, i).successor == ring_entry(backs, next).this_addr
            &&& ring_entry(backs, next).predecessor == ring_entry(backs, i).this_addr
        }),
{
    let n = backs.len() as int;
    if i + 1 < n {
        lemma_small_mod((i + 1) as nat, n as nat);
        lemma_mod_add_multiples_vanish(i, n);
        lemma_small_mod(i as nat, n as nat);
    } else {
        lemma_mod_self_0(n);
        lemma_small_mod((n - 1) as nat, n as nat);
    }
}

/// One step of moving model data after the ring changed. The addresses are
/// endpoint addresses (`http://` and the backend's address).
pub enum MigrationTask {
    /// The backend between `predecessor` and `successor` is gone: the two
    /// exchange their models, the successor being marked not ready
    /// meanwhile.
    RepairFailure { predecessor: String, successor: String },
    /// The backend `this_addr` joined before `successor`: it takes in the
    /// successor's models.
    SeedJoin { this_addr: String, successor: String },
}

/// A migration step with its addresses as character sequences.
pub enum MigrationTaskView {
    RepairFailure { predecessor: Seq<char>, successor: Seq<char> },
    SeedJoin { this_addr: Seq<char>, successor: Seq<char> },
}

impl View for MigrationTask {
    type V = MigrationTaskView;

    open spec fn view(&self) -> MigrationTaskView {
        match self {
            MigrationTask::RepairFailure { predecessor, successor } => {
                MigrationTaskView::RepairFailure { predecessor: predecessor@, successor: successor@ }
            },
            MigrationTask::SeedJoin { this_addr, successor } => {
                MigrationTaskView::SeedJoin { this_addr: this_addr@, successor: successor@ }
            },
        }
    }
}

/// Some entry of `ring` is the backend `addr`.
pub open spec fn ring_has(ring: Seq<ChordBacks>, addr: Seq<char>) -> bool {
    exists|j: int| 0 <= j < ring.len() && #[trigger] ring[j].this_addr@ == addr
}

/// For each entry of `old` (in order) whose backend is not on `new`, the
/// repair between its neighbours.
pub open spec fn failure_tasks(old: Seq<ChordBacks>, new: Seq<ChordBacks>) -> Seq<MigrationTaskView>
    decreases old.len(),
{
    if old.len() == 0 {
        Seq::empty()
    } else {
        let before = failure_tasks(old.drop_last(), new);
        let b = old.last();
        if ring_has(new, b.this_addr@) {
            before
        } else {
            before.push(
                MigrationTaskView::RepairFailure {
                    predecessor: http_address(b.predecessor@),
                    successor: http_address(b.successor@),
                },
            )
        }
    }
}

/// For each entry of `new` (in order) whose backend is not on `old`, the
/// seeding of that backend from its successor.
pub open spec fn join_tasks(new: Seq<ChordBacks>, old: Seq<ChordBacks>) -> Seq<MigrationTaskView>
    decreases new.len(),
{
    if new.len() == 0 {
        Seq::empty()
    } else {
        let before = join_tasks(new.drop_last(), old);
        let b = new.last();
        if ring_has(old, b.this_addr@) {
            before
        } else {
            before.push(
                MigrationTaskView::SeedJoin {
                    this_addr: http_address(b.this_addr@),
                    successor: http_address(b.successor@),
                },
            )
        }
    }
}

/// The steps that move data from the ring `old` to the ring `new`: none
/// when the new ring has a single backend, else the repairs for the
/// backends that left, then the seeding of those that joined.
pub open spec fn migration_plan(old: Seq<ChordBacks>, new: Seq<ChordBacks>) -> Seq<MigrationTaskView> {
    if new.len() == 1 {
        Seq::empty()
    } else {
        failure_tasks(old, new) + join_tasks(new, old)
    }
}

proof fn lemma_no_failures(old: Seq<ChordBacks>, new: Seq<ChordBacks>)
    requires
        forall|i: int| 0 <= i < old.len() ==> ring_has(new, #[trigger] old[i].this_addr@),
    ensures
        failure_tasks(old, new) == Seq::<MigrationTaskView>::empty(),
    decreases old.len(),
{
    if old.len() > 0 {
        let rest = old.drop_last();
        assert forall|i: int| 0 <= i < rest.len() implies ring_has(new, #[trigger] rest[i].this_addr@) by {
            assert(rest[i] == old[i]);
        }
        lemma_no_failures(rest, new);
        assert(ring_has(new, old[old.len() - 1].this_addr@));
    }
}

proof fn lemma_no_joins(new: Seq<ChordBacks>, old: Seq<ChordBacks>)
    requires
        forall|i: int| 0 <= i < new.len() ==> ring_has(old, #[trigger] new[i].this_addr@),
    ensures
        join_tasks(new, old) == Seq::<MigrationTaskView>::empty(),
    decreases new.len(),
{
    if new.len() > 0 {
        let rest = new.drop_last();
        assert forall|i: int| 0 <= i < rest.len() implies ring_has(old, #[trigger] rest[i].this_addr@) by {
            assert(rest[i] == new[i]);
        }
        lemma_no_joins(rest, old);
        assert(ring_has(old, new[new.len() - 1].this_addr@));
    }
}

/// When no backend left and none joined (every backend of each ring is on
/// the other), no data is moved.
pub proof fn lemma_no_migration_without_membership_change(old: Seq<ChordBacks>, new: Seq<ChordBacks>)
    requires
        forall|i: int| 0 <= i < old.len() ==> ring_has(new, #[trigger] old[i].this_addr@),
        forall|i: int| 0 <= i < new.len() ==> ring_has(old, #[trigger] new[i].this_addr@),
    ensures
        migration_plan(old, new) == Seq::<MigrationTaskView>::empty(),
{
    lemma_no_failures(old, new);
    lemma_no_joins(new, old);
    assert(Seq::<MigrationTaskView>::empty() + Seq::<MigrationTaskView>::empty() =~= Seq::<
        MigrationTaskView,
    >::empty());
}

/// The entries of the ring `from` whose backend is on no entry of the ring
/// `other`, in ring order: the backends that left (`departed(old, new)`) or
/// joined (`departed(new, old)`).
pub open spec fn departed(from: Seq<ChordBacks>, other: Seq<ChordBacks>) -> Seq<ChordBacks> {
    from.filter(
        |b: ChordBacks| forall|j: int| 0 <= j < other.len() ==> other[j].this_addr@ != b.this_addr@,
    )
}

/// The repair between the neighbours of the ring entry `b`.
pub open spec fn repair_of(b: ChordBacks) -> MigrationTaskView {
    MigrationTaskView::RepairFailure {
        predecessor: http_address(b.predecessor@),
        successor: http_address(b.successor@),
    }
}

/// The seeding of the ring entry `b` from its successor.
pub open spec fn seed_of(b: ChordBacks) -> MigrationTaskView {
    MigrationTaskView::SeedJoin {
        this_addr: http_address(b.this_addr@),
        successor: http_address(b.successor@),
    }
}

proof fn lemma_failure_tasks_are_departed_repairs(old: Seq<ChordBacks>, new: Seq<ChordBacks>)
    ensures
        failure_tasks(old, new) == departed(old, new).map_values(|b: ChordBacks| repair_of(b)),
    decreases old.len(),
{
    reveal(Seq::filter);
    if old.len() > 0 {
        let rest = old.drop_last();
        lemma_failure_tasks_are_departed_repairs(rest, new);
        let b = old.last();
        let f = |b: ChordBacks| repair_of(b);
        let d = departed(rest, new);
        assert(departed(old, new) == if (forall|j: int|
            0 <= j < new.len() ==> new[j].this_addr@ != b.this_addr@) {
            d.push(b)
        } else {
            d
        });
        if forall|j: int| 0 <= j < new.len() ==> new[j].this_addr@ != b.this_addr@ {
            assert(!ring_has(new, b.this_addr@));
            assert(d.push(b).map_values(f) =~= d.map_values(f).push(f(b)));
        } else {
            assert(ring_has(new, b.this_addr@));
        }
    } else {
        assert(departed(old, new).map_values(|b: ChordBacks| repair_of(b)) =~= Seq::empty());
    }
}

proof fn lemma_join_tasks_are_joined_seeds(new: Seq<ChordBacks>, old: Seq<ChordBacks>)
    ensures
        join_tasks(new, old) == departed(new, old).map_values(|b: ChordBacks| seed_of(b)),
    decreases new.len(),
{
    reveal(Seq::filter);
    if new.len() > 0 {
        let rest = new.drop_last();
        lemma_join_tasks_are_joined_seeds(rest, old);
        let b = new.last();
        let f = |b: ChordBacks| seed_of(b);
        let d = departed(rest, old);
        assert(departed(new, old) == if (forall|j: int|
            0 <= j < old.len() ==> old[j].this_addr@ != b.this_addr@) {
            d.push(b)
        } else {
            d
        });
        if forall|j: int| 0 <= j < old.len() ==> old[j].this_addr@ != b.this_addr@ {
            assert(!ring_has(old, b.this_addr@));
            assert(d.push(b).map_values(f) =~= d.map_values(f).push(f(b)));
        } else {
            assert(ring_has(old, b.this_addr@));
        }
    } else {
        assert(departed(new, old).map_values(|b: ChordBacks| seed_of(b)) =~= Seq::empty());
    }
}

/// What a migration plan consists of. Onto a ring of one backend nothing is
/// moved. Otherwise the plan holds one repair for each backend that left (in
/// the order of the old ring, between that backend's neighbours), followed by
/// one seeding for each backend that joined (in the order of the new ring,
/// from that backend's successor), and nothing else: so there are as many
/// repairs as departed backends and as many seedings as joined ones, and
/// every departed backend is repaired and every joined one seeded.
pub proof fn lemma_migration_plan_contents(old: Seq<ChordBacks>, new: Seq<ChordBacks>)
    ensures
        new.len() == 1 ==> migration_plan(old, new).len() == 0,
        new.len() != 1 ==> {
            let plan = migration_plan(old, new);
            let gone = departed(old, new);
            let came = departed(new, old);
            &&& plan.len() == gone.len() + came.len()
            &&& forall|k: int| 0 <= k < gone.len() ==> #[trigger] plan[k] == repair_of(gone[k])
            &&& forall|k: int|
                0 <= k < came.len() ==> #[trigger] plan[gone.len() + k] == seed_of(came[k])
            &&& forall|i: int|
                0 <= i < old.len() && (forall|j: int|
                    0 <= j < new.len() ==> new[j].this_addr@ != old[i].this_addr@)
                    ==> plan.contains(repair_of(#[trigger] old[i]))
            &&& forall|i: int|
                0 <= i < new.len() && (forall|j: int|
                    0 <= j < old.len() ==> old[j].this_addr@ != new[i].this_addr@)
                    ==> plan.contains(seed_of(#[trigger] new[i]))
        },
{
    lemma_failure_tasks_are_departed_repairs(old, new);
    lemma_join_tasks_are_joined_seeds(new, old);
    if new.len() != 1 {
        let plan = migration_plan(old, new);
        let gone = departed(old, new);
        let came = departed(new, old);
        let rep = gone.map_values(|b: ChordBacks| repair_of(b));
        let sed = came.map_values(|b: ChordBacks| seed_of(b));
        assert(plan == rep + sed);
        assert forall|k: int| 0 <= k < gone.len() implies #[trigger] plan[k] == repair_of(gone[k]) by {
            assert(plan[k] == rep[k]);
        }
        assert forall|k: int| 0 <= k < came.len() implies #[trigger] plan[gone.len() + k] == seed_of(
            came[k],
        ) by {
            assert(plan[gone.len() + k] == sed[k]);
        }
        assert forall|i: int|
            0 <= i < old.len() && (forall|j: int|
                0 <= j < new.len() ==> new[j].this_addr@ != old[i].this_addr@) implies plan.contains(
            repair_of(#[trigger] old[i]),
        ) by {
            old.lemma_filter_contains(
                |b: ChordBacks|
                    forall|j: int| 0 <= j < new.len() ==> new[j].this_addr@ != b.this_addr@,
                i,
            );
            let k = choose|k: int| 0 <= k < gone.len() && gone[k] == old[i];
            assert(plan[k] == repair_of(gone[k]));
        }
        assert forall|i: int|
            0 <= i < new.len() && (forall|j: int|
                0 <= j < old.len() ==> old[j].this_addr@ != new[i].this_addr@) implies plan.contains(
            seed_of(#[trigger] new[i]),
        ) by {
            new.lemma_filter_contains(
                |b: ChordBacks|
                    forall|j: int| 0 <= j < old.len() ==> old[j].this_addr@ != b.this_addr@,
                i,
            );
            let k = choose|k: int| 0 <= k < came.len() && came[k] == new[i];
            assert(plan[gone.len() + k] == seed_of(came[k]));
        }
    }
}

/// The views of a list of migration steps.
pub open spec fn task_views(tasks: Seq<MigrationTask>) -> Seq<MigrationTaskView> {
    tasks.map_values(|t: MigrationTask| t@)
}

/// Whether some entry of `ring` is the backend `addr`.
fn ring_contains(ring: &Vec<ChordBacks>, addr: &String) -> (r: bool)
    ensures
        r == ring_has(ring@, addr@),
{
    let mut j: usize = 0;
    while j < ring.len()
        invariant
            j <= ring@.len(),
            forall|k: int| 0 <= k < j ==> #[trigger] ring@[k].this_addr@ != addr@,
        decreases ring@.len() - j,
    {
        if ring[j].this_addr == *addr {
            return true;
        }
        j = j + 1;
    }
    false
}

/// Plans the migration of model data from the ring `backs_old` to the ring
/// `backs_new`, as the list of steps to carry out in order.
pub fn plan_data_migration(backs_old: &Vec<ChordBacks>, backs_new: &Vec<ChordBacks>) -> (r: Vec<
    MigrationTask,
>)
    ensures
        task_views(r@) == migration_plan(backs_old@, backs_new@),
        r@.len() == migration_plan(backs_old@, backs_new@).len(),
        forall|k: int| 0 <= k < r@.len() ==> #[trigger] r@[k]@ == migration_plan(backs_old@, backs_new@)[k],
{
    let mut tasks: Vec<MigrationTask> = Vec::new();
    if backs_new.len() == 1 {
        assert(task_views(tasks@) =~= migration_plan(backs_old@, backs_new@));
        return tasks;
    }
    let mut i: usize = 0;
    while i < backs_old.len()
        invariant
            i <= backs_old@.len(),
            task_views(tasks@) =~= failure_tasks(backs_old@.take(i as int), backs_new@),
        decreases backs_old@.len() - i,
    {
        let back = &backs_old[i];
        let ghost prefix = backs_old@.take(i as int + 1);
        assert(prefix.drop_last() =~= backs_old@.take(i as int));
        assert(prefix.last() == backs_old@[i as int]);
        if !ring_contains(backs_new, &back.this_addr) {
            let task = MigrationTask::RepairFailure {
                predecessor: format_http(&back.predecessor),
                successor: format_http(&back.successor),
            };
            tasks.push(task);
        }
        i = i + 1;
        assert(task_views(tasks@) =~= failure_tasks(backs_old@.take(i as int), backs_new@));
    }
    assert(backs_old@.take(backs_old@.len() as int) =~= backs_old@);
    let ghost failures = task_views(tasks@);
    let mut i: usize = 0;
    while i < backs_new.len()
        invariant
            i <= backs_new@.len(),
            backs_new@.len() != 1,
            failures == failure_tasks(backs_old@, backs_new@),
            task_views(tasks@) =~= failures + join_tasks(backs_new@.take(i as int), backs_old@),
        decreases backs_new@.len() - i,
    {
        let back = &backs_new[i];
        let ghost prefix = backs_new@.take(i as int + 1);
        assert(prefix.drop_last() =~= backs_new@.take(i as int));
        assert(prefix.last() == backs_new@[i as int]);
        let ghost joins_before = join_tasks(backs_new@.take(i as int), backs_old@);
        if !ring_contains(backs_old, &back.this_addr) {
            let task = MigrationTask::SeedJoin {
                this_addr: format_http(&back.this_addr),
                successor: format_http(&back.successor),
            };
            let ghost tv = task@;
            tasks.push(task);
            assert(task_views(tasks@) =~= (failures + joins_before).push(tv));
            assert((failures + joins_before).push(tv) =~= failures + joins_before.push(tv));
        }
        i = i + 1;
        assert(task_views(tasks@) =~= failures + join_tasks(backs_new@.take(i as int), backs_old@));
    }
    assert(backs_new@.take(backs_new@.len() as int) =~= backs_new@);
    assert forall|k: int| 0 <= k < tasks@.len() implies #[trigger] tasks@[k]@ == task_views(tasks@)[k] by {}
    tasks
}

/// What came of probing one backend during a clock round.
pub enum ProbeOutcome {
    /// No connection could be made.
    Unreachable,
    /// A connection was made; the clock request answered with `Some` value,
    /// or failed (`None`).
    Reached(Option<u64>),
}

impl SyncClockResp {
    /// The start of a clock round that begins from `largest_clock`.
    pub fn new(largest_clock: u64) -> (r: Self)
        ensures
            r.largest_clock == largest_clock,
            r.alive_backends@ == Seq::<String>::empty(),
    {
        SyncClockResp { largest_clock, alive_backends: Vec::new() }
    }

    /// Takes in the probe of the backend `addr`. The next backend is asked
    /// for a clock at least `self.largest_clock`.
    pub fn record_probe(&mut self, addr: String, outcome: ProbeOutcome)
        ensures
            match outcome {
                ProbeOutcome::Unreachable => {
                    &&& final(self).largest_clock == old(self).largest_clock
                    &&& final(self).alive_backends@ == old(self).alive_backends@
                },
                ProbeOutcome::Reached(reply) => {
                    &&& final(self).alive_backends@ == old(self).alive_backends@.push(addr)
                    &&& final(self).largest_clock == match reply {
                        Some(v) => v,
                        None => old(self).largest_clock,
                    }
                },
            },
    {
        match outcome {
            ProbeOutcome::Unreachable => {},
            ProbeOutcome::Reached(reply) => {
                self.alive_backends.push(addr);
                match reply {
                    Some(val) => {
                        self.largest_clock = val;
                    },
                    None => {},
                }
            },
        }
    }
}

/// What the keeper carries from one clock round to the next.
pub struct KeeperState {
    /// The clock the next round starts from.
    pub clock: u64,
    /// The backends that answered in the last round.
    pub alive_last_checked: Vec<String>,
}

impl KeeperState {
    /// The keeper before its first round: clock 0, no backend seen.
    pub fn new() -> (r: Self)
        ensures
            r.clock == 0,
            r.alive_last_checked@ == Seq::<String>::empty(),
    {
        KeeperState { clock: 0, alive_last_checked: Vec::new() }
    }

    /// Takes in the result of a clock round. When the backends that answered
    /// differ from those of the round before, returns that earlier list and
    /// the new one, between which data must be migrated.
    pub fn after_sync(&mut self, resp: SyncClockResp) -> (r: Option<(Vec<String>, Vec<String>)>)
        ensures
            final(self).clock == resp.largest_clock,
            final(self).alive_last_checked@ == resp.alive_backends@,
            r is None <==> same_members(resp.alive_backends@, old(self).alive_last_checked@),
            r matches Some((last, recent)) ==> last@ == old(self).alive_last_checked@ && recent@
                == resp.alive_backends@,
    {
        let mut last: Vec<String> = Vec::new();
        std::mem::swap(&mut last, &mut self.alive_last_checked);
        self.clock = resp.largest_clock;
        let recent = resp.alive_backends;
        let recent_copy = recent.clone();
        let last_copy = last.clone();
        assert(recent_copy@ =~= recent@);
        assert(last_copy@ =~= last@);
        if vec_equals(recent_copy, last_copy) {
            self.alive_last_checked = recent;
            None
        } else {
            let recent_kept = recent.clone();
            assert(recent_kept@ =~= recent@);
            self.alive_last_checked = recent_kept;
            Some((last, recent))
        }
    }
}

} // verus!
