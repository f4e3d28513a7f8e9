use crate::err::TribblerError;
use vstd::prelude::*;
use vstd::string::*;

verus! {

/// One pull of a model by a worker: the clock the worker pulled at, and
/// whether it has pushed its update since.
#[derive(Clone, Copy, Debug, PartialEq, Eq, Structural)]
pub struct WorkerStatus {
    pub clock: u64,
    pub done: bool,
}

/// A request or reply that carries a single flag.
pub struct EmptyRequest {
    pub empty: bool,
}

/// A worker's request for the current weights of a model.
pub struct ModelPull {
    pub name: String,
    pub clock: u64,
}

/// Once more pulls than this are recorded for a model, a further pull waits
/// until the latest recorded pull has been pushed.
pub const N_BOUND: usize = 1;

/// Number of hidden neurons of the served network.
pub const HIDDEN: usize = 20;

/// Position of the weight (or bias) at layer `x`, neuron `y`, input `z` in
/// the flat weight vector of a net with `ns` hidden neurons.
pub open spec fn point_spec(ns: int, x: int, y: int, z: int) -> int {
    if x == 0 {
        y
    } else {
        ns + z
    }
}

/// Whether layer `x`, neuron `y`, input `z` is a position of a net with
/// `ns` hidden neurons: the first layer has `ns` neurons with one input, the
/// second one neuron with `ns` inputs.
pub open spec fn valid_point(ns: int, x: int, y: int, z: int) -> bool {
    ||| (x == 0 && z == 0 && y < ns)
    ||| (x == 1 && y == 0 && z < ns)
}

/// Index into the flat weight vector of a net with `ns` hidden neurons.
pub fn point_index(ns: usize, x: usize, y: usize, z: usize) -> (r: usize)
    requires
        valid_point(ns as int, x as int, y as int, z as int),
        ns + z <= usize::MAX,
    ensures
        r == point_spec(ns as int, x as int, y as int, z as int),
        r < 2 * ns,
        x == 0 ==> r == y,
        x == 1 ==> r == ns + z,
{
    if x == 0 {
        y
    } else {
        ns + z
    }
}

/// The positions that one push updates, in the order it updates them, for a
/// model with `n_weights` weights: for each hidden neuron `i` the weight
/// leaving it and the weight entering it.
pub open spec fn push_points_spec(n_weights: nat) -> Seq<usize> {
    Seq::new(
        2 * (n_weights / 2),
        |k: int|
            if k % 2 == 0 {
                (HIDDEN + k / 2) as usize
            } else {
                (k / 2) as usize
            },
    )
}

/// No two entries carry the same model name.
spec fn unique_names(s: Seq<(String, Vec<WorkerStatus>)>) -> bool {
    forall|i: int, j: int|
        0 <= i < s.len() && 0 <= j < s.len() && i != j ==> #[trigger] s[i].0@ != #[trigger] s[j].0@
}

/// Some entry carries the model name `k`.
spec fn has_name(s: Seq<(String, Vec<WorkerStatus>)>, k: Seq<char>) -> bool {
    exists|i: int| 0 <= i < s.len() && #[trigger] s[i].0@ == k
}

/// The position of the entry for the model name `k`.
spec fn index_of(s: Seq<(String, Vec<WorkerStatus>)>, k: Seq<char>) -> int {
    choose|i: int| 0 <= i < s.len() && #[trigger] s[i].0@ == k
}

/// The stored queues as a map from model name to queue.
spec fn entries_to_map(s: Seq<(String, Vec<WorkerStatus>)>) -> Map<
    Seq<char>,
    Seq<WorkerStatus>,
> {
    Map::new(|k: Seq<char>| has_name(s, k), |k: Seq<char>| s[index_of(s, k)].1@)
}

proof fn lemma_entry_index(s: Seq<(String, Vec<WorkerStatus>)>, i: int)
    requires
        unique_names(s),
        0 <= i < s.len(),
    ensures
        has_name(s, s[i].0@),
        index_of(s, s[i].0@) == i,
        entries_to_map(s).contains_key(s[i].0@),
        entries_to_map(s)[s[i].0@] == s[i].1@,
{
    let k = s[i].0@;
    assert(has_name(s, k));
    let j = index_of(s, k);
    assert(s[j].0@ == k);
}

proof fn lemma_push_entry(s: Seq<(String, Vec<WorkerStatus>)>, e: (String, Vec<WorkerStatus>))
    requires
        unique_names(s),
        !has_name(s, e.0@),
    ensures
        unique_names(s.push(e)),
        entries_to_map(s.push(e)) == entries_to_map(s).insert(e.0@, e.1@),
{
    let t = s.push(e);
    assert forall|i: int, j: int|
        0 <= i < t.len() && 0 <= j < t.len() && i != j implies #[trigger] t[i].0@
        != #[trigger] t[j].0@ by {
        if i < s.len() && j < s.len() {
            assert(t[i] == s[i] && t[j] == s[j]);
        } else if i < s.len() {
            assert(t[i] == s[i]);
        } else {
            assert(t[j] == s[j]);
        }
    }
    let m = entries_to_map(s).insert(e.0@, e.1@);
    assert forall|k: Seq<char>| #[trigger] has_name(t, k) <==> m.contains_key(k) by {
        if has_name(s, k) {
            let j = index_of(s, k);
            assert(t[j] == s[j]);
        }
        if has_name(t, k) && k != e.0@ {
            let j = index_of(t, k);
            assert(j < s.len());
            assert(s[j] == t[j]);
        }
        if k == e.0@ {
            assert(t[s.len() as int] == e);
        }
    }
    assert forall|k: Seq<char>| #[trigger] m.contains_key(k) implies entries_to_map(t)[k] == m[k] by {
        if k == e.0@ {
            lemma_entry_index(t, s.len() as int);
        } else {
            let j = index_of(s, k);
            lemma_entry_index(s, j);
            assert(t[j] == s[j]);
            lemma_entry_index(t, j);
        }
    }
    assert(entries_to_map(t) =~= m);
}

proof fn lemma_update_entry(s: Seq<(String, Vec<WorkerStatus>)>, i: int, q: Vec<WorkerStatus>)
    requires
        unique_names(s),
        0 <= i < s.len(),
    ensures
        unique_names(s.update(i, (s[i].0, q))),
        entries_to_map(s.update(i, (s[i].0, q))) == entries_to_map(s).insert(s[i].0@, q@),
{
    let t = s.update(i, (s[i].0, q));
    assert forall|a: int, b: int|
        0 <= a < t.len() && 0 <= b < t.len() && a != b implies #[trigger] t[a].0@
        != #[trigger] t[b].0@ by {
        assert(t[a].0 == s[a].0 && t[b].0 == s[b].0);
    }
    let m = entries_to_map(s).insert(s[i].0@, q@);
    assert forall|k: Seq<char>| #[trigger] has_name(t, k) <==> m.contains_key(k) by {
        lemma_entry_index(s, i);
        if has_name(s, k) {
            let j = index_of(s, k);
            assert(t[j].0 == s[j].0);
        }
        if has_name(t, k) {
            let j = index_of(t, k);
            assert(s[j].0 == t[j].0);
        }
    }
    assert forall|k: Seq<char>| #[trigger] m.contains_key(k) implies entries_to_map(t)[k] == m[k] by {
        if k == s[i].0@ {
            lemma_entry_index(t, i);
        } else {
            let j = index_of(s, k);
            lemma_entry_index(s, j);
            assert(t[j] == s[j]);
            lemma_entry_index(t, j);
        }
    }
    assert(entries_to_map(t) =~= m);
}

/// What a backend knows of its models apart from their weights: the queue
/// of pulls of each model, the ready flag and the logical clock.
pub struct MLStorageView {
    pub updater_queue: Map<Seq<char>, Seq<WorkerStatus>>,
    pub ready: bool,
    pub clock: u64,
}

/// The bookkeeping of a parameter-server backend.
pub struct MLStorage {
    updater_queue: Vec<(String, Vec<WorkerStatus>)>,
    ready: bool,
    clock: u64,
}

impl View for MLStorage {
    type V = MLStorageView;

    closed spec fn view(&self) -> MLStorageView {
        MLStorageView {
            updater_queue: entries_to_map(self.updater_queue@),
            ready: self.ready,
            clock: self.clock,
        }
    }
}

/// The queue of a model after a worker pulled it at `clock`, or `None` when
/// the pull must wait: more than `N_BOUND` pulls are recorded and the latest
/// has not been pushed.
pub open spec fn pull_outcome(
    queues: Map<Seq<char>, Seq<WorkerStatus>>,
    name: Seq<char>,
    clock: u64,
) -> Option<Map<Seq<char>, Seq<WorkerStatus>>> {
    let fresh = WorkerStatus { clock, done: false };
    if !queues.contains_key(name) {
        Some(queues.insert(name, seq![fresh]))
    } else {
        let q = queues[name];
        if q.len() > N_BOUND && !q[q.len() - 1 - (N_BOUND - 1)].done {
            None
        } else {
            Some(queues.insert(name, q.push(fresh)))
        }
    }
}

/// `i` is the first position of `q` whose pull was at `clock`.
pub open spec fn is_first_with_clock(q: Seq<WorkerStatus>, clock: u64, i: int) -> bool {
    &&& 0 <= i < q.len()
    &&& q[i].clock == clock
    &&& forall|j: int| 0 <= j < i ==> #[trigger] q[j].clock != clock
}

/// The queues after a worker pushed the update of its pull at `clock` of the
/// model `name`: the first pull at that clock is marked done. `None` when no
/// pull at that clock is recorded.
pub open spec fn push_outcome(
    queues: Map<Seq<char>, Seq<WorkerStatus>>,
    name: Seq<char>,
    clock: u64,
) -> Option<Map<Seq<char>, Seq<WorkerStatus>>> {
    let q = queues[name];
    if exists|i: int| is_first_with_clock(q, clock, i) {
        let i = choose|i: int| is_first_with_clock(q, clock, i);
        Some(queues.insert(name, q.update(i, WorkerStatus { clock: q[i].clock, done: true })))
    } else {
        None
    }
}

/// The value the clock hands out when asked for one at least `at_least`.
pub open spec fn clock_reading(clock: u64, at_least: u64) -> u64 {
    if clock < at_least {
        at_least
    } else {
        clock
    }
}

/// The clock after handing out `reading`: one past it, unless it is at its
/// largest value.
pub open spec fn clock_after(reading: u64) -> u64 {
    if reading < u64::MAX {
        (reading + 1) as u64
    } else {
        reading
    }
}

/// Successive clock readings: each is at least what was asked for and at
/// least the clock it was read from (and is one of the two), and the second
/// is strictly larger than the first unless the first was `u64::MAX`; when
/// the second asks for no more than one past the first, it is exactly one
/// past the first; once `u64::MAX` is handed out the clock stays there.
pub proof fn lemma_clock_readings_increase(clock: u64, first_at_least: u64, second_at_least: u64)
    ensures
        ({
            let r1 = clock_reading(clock, first_at_least);
            let r2 = clock_reading(clock_after(r1), second_at_least);
            &&& r1 >= first_at_least
            &&& r1 >= clock
            &&& r2 >= second_at_least
            &&& (r2 > r1 || r1 == u64::MAX)
            &&& (r1 == clock || r1 == first_at_least)
            &&& (r1 < u64::MAX && second_at_least <= r1 + 1 ==> r2 == r1 + 1)
            &&& (r1 == u64::MAX ==> r2 == u64::MAX)
        }),
{
}

/// Setting the ready flag and reading it back gives the value that was set.
pub proof fn lemma_ready_reads_back(s: MLStorageView, value: bool)
    ensures
        (MLStorageView { ready: value, ..s }).ready == value,
        (MLStorageView { ready: value, ..s }).updater_queue == s.updater_queue,
        (MLStorageView { ready: value, ..s }).clock == s.clock,
{
}

proof fn lemma_first_with_clock_exists(q: Seq<WorkerStatus>, clock: u64, i: int)
    requires
        0 <= i < q.len(),
        q[i].clock == clock,
    ensures
        exists|k: int| is_first_with_clock(q, clock, k),
    decreases i,
{
    if exists|j: int| 0 <= j < i && q[j].clock == clock {
        let j = choose|j: int| 0 <= j < i && q[j].clock == clock;
        lemma_first_with_clock_exists(q, clock, j);
    } else {
        assert(is_first_with_clock(q, clock, i));
    }
}

/// A pull is refused exactly when the model already has more than one
/// recorded pull and the latest of them has not been pushed. An accepted pull
/// appends exactly one record, not yet done, at the pull's clock to the
/// model's queue (starting an empty one for a new model): every earlier
/// record stays as it was, and the queues of other models are untouched.
pub proof fn lemma_pull_appends_one_record(
    queues: Map<Seq<char>, Seq<WorkerStatus>>,
    name: Seq<char>,
    clock: u64,
)
    ensures
        pull_outcome(queues, name, clock) is None <==> {
            &&& queues.contains_key(name)
            &&& queues[name].len() > 1
            &&& !queues[name][queues[name].len() - 1].done
        },
        pull_outcome(queues, name, clock) matches Some(after) ==> {
            let before = if queues.contains_key(name) {
                queues[name]
            } else {
                Seq::<WorkerStatus>::empty()
            };
            &&& after.dom() == queues.dom().insert(name)
            &&& forall|k: Seq<char>| #[trigger]
                queues.contains_key(k) && k != name ==> after[k] == queues[k]
            &&& after[name].len() == before.len() + 1
            &&& forall|j: int| 0 <= j < before.len() ==> #[trigger] after[name][j] == before[j]
            &&& after[name][before.len() as int] == (WorkerStatus { clock, done: false })
        },
{
    if let Some(after) = pull_outcome(queues, name, clock) {
        assert(after.dom() =~= queues.dom().insert(name));
    }
}

/// A push that finds its pull changes nothing but that pull's done flag: the
/// model's queue keeps its length and every other record, the matched record
/// is the first one at the pushed clock and becomes done, and other models
/// are untouched. A push finds no pull exactly when no record of the model is
/// at that clock.
pub proof fn lemma_push_marks_only_its_pull(
    queues: Map<Seq<char>, Seq<WorkerStatus>>,
    name: Seq<char>,
    clock: u64,
)
    requires
        queues.contains_key(name),
    ensures
        push_outcome(queues, name, clock) is None <==> forall|j: int|
            0 <= j < queues[name].len() ==> #[trigger] queues[name][j].clock != clock,
        push_outcome(queues, name, clock) matches Some(after) ==> {
            let q = queues[name];
            &&& after.dom() == queues.dom()
            &&& forall|k: Seq<char>| #[trigger]
                queues.contains_key(k) && k != name ==> after[k] == queues[k]
            &&& after[name].len() == q.len()
            &&& exists|i: int|
                {
                    &&& 0 <= i < q.len()
                    &&& q[i].clock == clock
                    &&& (forall|j: int| 0 <= j < i ==> #[trigger] q[j].clock != clock)
                    &&& #[trigger] after[name][i] == (WorkerStatus { clock, done: true })
                    &&& forall|j: int| 0 <= j < q.len() && j != i ==> #[trigger] after[name][j] == q[j]
                }
        },
{
    let q = queues[name];
    if exists|i: int| 0 <= i < q.len() && q[i].clock == clock {
        let i = choose|i: int| 0 <= i < q.len() && q[i].clock == clock;
        lemma_first_with_clock_exists(q, clock, i);
    }
    if let Some(after) = push_outcome(queues, name, clock) {
        let i = choose|i: int| is_first_with_clock(q, clock, i);
        assert(after.dom() =~= queues.dom());
        assert(after[name][i] == (WorkerStatus { clock, done: true }));
    }
}

/// Pushing one pull never loses another: if a record at `other_clock` is in
/// the model's queue, it can still be pushed after a push at `clock`.
pub proof fn lemma_push_keeps_other_pulls(
    queues: Map<Seq<char>, Seq<WorkerStatus>>,
    name: Seq<char>,
    clock: u64,
    other_clock: u64,
    j: int,
)
    requires
        queues.contains_key(name),
        0 <= j < queues[name].len(),
        queues[name][j].clock == other_clock,
        push_outcome(queues, name, clock) is Some,
    ensures
        push_outcome(push_outcome(queues, name, clock)->0, name, other_clock) is Some,
{
    lemma_push_marks_only_its_pull(queues, name, clock);
    let after = push_outcome(queues, name, clock)->0;
    let i = choose|i: int| is_first_with_clock(queues[name], clock, i);
    assert(after[name][j].clock == other_clock);
    lemma_push_marks_only_its_pull(after, name, other_clock);
}

/// A worker whose pull was accepted can always push its update: the push
/// finds the pull it belongs to.
pub proof fn lemma_accepted_pull_can_push(
    queues: Map<Seq<char>, Seq<WorkerStatus>>,
    name: Seq<char>,
    clock: u64,
)
    requires
        pull_outcome(queues, name, clock) is Some,
    ensures
        push_outcome(pull_outcome(queues, name, clock)->0, name, clock) is Some,
{
    let q1 = pull_outcome(queues, name, clock)->0[name];
    lemma_first_with_clock_exists(q1, clock, q1.len() - 1);
}

/// Once the worker whose pull was accepted at a fresh clock has pushed, the
/// model is free again: every further pull of it is accepted.
pub proof fn lemma_push_releases_model(
    queues: Map<Seq<char>, Seq<WorkerStatus>>,
    name: Seq<char>,
    clock: u64,
    next_clock: u64,
)
    requires
        pull_outcome(queues, name, clock) is Some,
        queues.contains_key(name) ==> forall|j: int|
            0 <= j < queues[name].len() ==> #[trigger] queues[name][j].clock != clock,
    ensures
        ({
            let after_pull = pull_outcome(queues, name, clock)->0;
            let after_push = push_outcome(after_pull, name, clock)->0;
            pull_outcome(after_push, name, next_clock) is Some
        }),
{
    let after_pull = pull_outcome(queues, name, clock)->0;
    let q1 = after_pull[name];
    let last = q1.len() - 1;
    lemma_first_with_clock_exists(q1, clock, last);
    let k = choose|k: int| is_first_with_clock(q1, clock, k);
    if k < last {
        assert(queues.contains_key(name));
        assert(q1[k] == queues[name][k]);
    }
    assert(k == last);
}

impl MLStorage {
    #[verifier::type_invariant]
    closed spec fn inv(self) -> bool {
        let s = self.updater_queue@;
        &&& unique_names(s)
        &&& forall|i: int| 0 <= i < s.len() ==> #[trigger] s[i].1@.len() > 0
    }

    /// A backend with no model queues, ready, at clock 0.
    pub fn new() -> (r: Self)
        ensures
            r@.updater_queue == Map::<Seq<char>, Seq<WorkerStatus>>::empty(),
            r@.ready,
            r@.clock == 0,
    {
        let r = MLStorage { updater_queue: Vec::new(), ready: true, clock: 0 };
        assert(r@.updater_queue =~= Map::<Seq<char>, Seq<WorkerStatus>>::empty());
        r
    }

    /// Index into this backend's weight vectors (its nets have
    /// `HIDDEN` hidden neurons).
    pub fn pt(&self, x: usize, y: usize, z: usize) -> (r: usize)
        requires
            valid_point(HIDDEN as int, x as int, y as int, z as int),
        ensures
            r == point_spec(HIDDEN as int, x as int, y as int, z as int),
    {
        point_index(HIDDEN, x, y, z)
    }

    /// The positions that a push updates in a model of `n_weights` weights,
    /// in order.
    pub fn push_points(&self, n_weights: usize) -> (r: Vec<usize>)
        requires
            n_weights / 2 <= HIDDEN,
        ensures
            r@ == push_points_spec(n_weights as nat),
            r@.len() == 2 * (n_weights / 2),
            forall|k: int|
                0 <= k < n_weights / 2 ==> #[trigger] r@[2 * k] == HIDDEN + k && r@[2 * k + 1] == k,
    {
        let mut r: Vec<usize> = Vec::new();
        let half = n_weights / 2;
        let mut i: usize = 0;
        while i < half
            invariant
                i <= half,
                half == n_weights / 2,
                half <= HIDDEN,
                r@ =~= push_points_spec(n_weights as nat).take(2 * i),
            decreases half - i,
        {
            let a = self.pt(1, 0, i);
            let b = self.pt(0, i, 0);
            r.push(a);
            r.push(b);
            i = i + 1;
            assert(r@ =~= push_points_spec(n_weights as nat).take(2 * i));
        }
        assert forall|k: int| 0 <= k < n_weights / 2 implies #[trigger] r@[2 * k] == HIDDEN + k && r@[2
            * k + 1] == k by {
            assert((2 * k) % 2 == 0 && (2 * k) / 2 == k);
            assert((2 * k + 1) % 2 == 1 && (2 * k + 1) / 2 == k);
        }
        r
    }

    /// The position of the queue of the model `name`, if there is one.
    fn find_queue(&self, name: &String) -> (r: Option<usize>)
        ensures
            match r {
                Some(i) => i < self.updater_queue@.len() && self.updater_queue@[i as int].0@ == name@,
                None => !has_name(self.updater_queue@, name@),
            },
    {
        let mut i: usize = 0;
        while i < self.updater_queue.len()
            invariant
                i <= self.updater_queue@.len(),
                forall|j: int| 0 <= j < i ==> #[trigger] self.updater_queue@[j].0@ != name@,
            decreases self.updater_queue@.len() - i,
        {
            if self.updater_queue[i].0 == *name {
                return Some(i);
            }
            i = i + 1;
        }
        None
    }

    /// Records that a worker pulls the model `model_pull.name` at
    /// `model_pull.clock`, unless the pull has to wait for the latest
    /// outstanding update of that model.
    pub fn pull(&mut self, model_pull: &ModelPull) -> (r: Result<(), TribblerError>)
        ensures
            match pull_outcome(old(self)@.updater_queue, model_pull.name@, model_pull.clock) {
                Some(q) => {
                    &&& r is Ok
                    &&& final(self)@ == (MLStorageView { updater_queue: q, ..old(self)@ })
                },
                None => {
                    &&& final(self)@ == old(self)@
                    &&& r matches Err(TribblerError::RpcError(m)) && m@
                        == "Other worker not finished updating"@
                },
            },
    {
        proof {
            use_type_invariant(&*self);
        }
        let fresh = WorkerStatus { clock: model_pull.clock, done: false };
        match self.find_queue(&model_pull.name) {
            None => {
                let mut q: Vec<WorkerStatus> = Vec::new();
                q.push(fresh);
                let mut entries: Vec<(String, Vec<WorkerStatus>)> = Vec::new();
                std::mem::swap(&mut entries, &mut self.updater_queue);
                let e = (model_pull.name.clone(), q);
                proof {
                    lemma_push_entry(entries@, e);
                    assert(e.1@ =~= seq![fresh]);
                }
                entries.push(e);
                self.updater_queue = entries;
            },
            Some(i) => {
                proof {
                    lemma_entry_index(self.updater_queue@, i as int);
                }
                let len = self.updater_queue[i].1.len();
                let pos = len - 1;
                if len > N_BOUND {
                    if self.updater_queue[i].1[pos - (N_BOUND - 1)].done == false {
                        return Err(
                            TribblerError::RpcError(
                                String::from_str("Other worker not finished updating"),
                            ),
                        );
                    }
                }
                let mut entries: Vec<(String, Vec<WorkerStatus>)> = Vec::new();
                std::mem::swap(&mut entries, &mut self.updater_queue);
                let ghost before = entries@;
                let (n, mut q) = entries.remove(i);
                q.push(fresh);
                proof {
                    lemma_update_entry(before, i as int, q);
                }
                entries.insert(i, (n, q));
                assert(entries@ =~= before.update(i as int, (before[i as int].0, q)));
                self.updater_queue = entries;
            },
        }
        Ok(())
    }

    /// Whether this backend keeps a queue for the model `name`, that is,
    /// whether the model was ever pulled here.
    pub fn has_queue(&self, name: &String) -> (r: bool)
        ensures
            r == self@.updater_queue.contains_key(name@),
    {
        match self.find_queue(name) {
            Some(i) => {
                proof {
                    use_type_invariant(&*self);
                    lemma_entry_index(self.updater_queue@, i as int);
                }
                true
            },
            None => false,
        }
    }

    /// Records that the worker that pulled the model `model_name` at `clock`
    /// has pushed its update: the first pull at that clock is marked done.
    pub fn push(&mut self, model_name: &String, clock: u64) -> (r: Result<bool, TribblerError>)
        requires
            old(self)@.updater_queue.contains_key(model_name@),
        ensures
            match push_outcome(old(self)@.updater_queue, model_name@, clock) {
                Some(q) => {
                    &&& r matches Ok(b) && b
                    &&& final(self)@ == (MLStorageView { updater_queue: q, ..old(self)@ })
                },
                None => {
                    &&& final(self)@ == old(self)@
                    &&& r matches Err(TribblerError::RpcError(m)) && m@ == "Error"@
                },
            },
    {
        proof {
            use_type_invariant(&*self);
        }
        let i = match self.find_queue(model_name) {
            Some(i) => i,
            None => {
                return Err(TribblerError::RpcError(String::from_str("Error")));
            },
        };
        proof {
            lemma_entry_index(self.updater_queue@, i as int);
        }
        let ghost q0 = self.updater_queue@[i as int].1@;
        let len = self.updater_queue[i].1.len();
        let mut pos: usize = 0;
        while pos < len && self.updater_queue[i].1[pos].clock != clock
            invariant
                pos <= len,
                len == q0.len(),
                q0 == self.updater_queue@[i as int].1@,
                i < self.updater_queue@.len(),
                forall|j: int| 0 <= j < pos ==> #[trigger] q0[j].clock != clock,
            decreases len - pos,
        {
            pos = pos + 1;
        }
        if pos == len {
            assert(!exists|k: int| is_first_with_clock(q0, clock, k));
            return Err(TribblerError::RpcError(String::from_str("Error")));
        }
        proof {
            assert(is_first_with_clock(q0, clock, pos as int));
            let k = choose|k: int| is_first_with_clock(q0, clock, k);
            if k < pos {
                assert(q0[k].clock != clock);
            }
            if k > pos {
                assert(q0[pos as int].clock != clock);
            }
            assert(k == pos);
        }
        let mut entries: Vec<(String, Vec<WorkerStatus>)> = Vec::new();
        std::mem::swap(&mut entries, &mut self.updater_queue);
        let ghost before = entries@;
        let (n, mut q) = entries.remove(i);
        let done_status = WorkerStatus { clock: q[pos].clock, done: true };
        q.set(pos, done_status);
        proof {
            lemma_update_entry(before, i as int, q);
        }
        entries.insert(i, (n, q));
        assert(entries@ =~= before.update(i as int, (before[i as int].0, q)));
        self.updater_queue = entries;
        Ok(true)
    }

    /// The ready flag.
    pub fn get_ready(&self, ready_value: EmptyRequest) -> (r: EmptyRequest)
        ensures
            r.empty == self@.ready,
    {
        EmptyRequest { empty: self.ready }
    }

    /// Sets the ready flag to `ready_value.empty`.
    pub fn set_ready(&mut self, ready_value: EmptyRequest) -> (r: EmptyRequest)
        ensures
            r.empty,
            final(self)@ == (MLStorageView { ready: ready_value.empty, ..old(self)@ }),
    {
        proof {
            use_type_invariant(&*self);
        }
        self.ready = ready_value.empty;
        EmptyRequest { empty: true }
    }

    /// Hands out a clock value: at least `at_least`, and larger than every
    /// value handed out before unless that was `u64::MAX`.
    pub fn clock(&mut self, at_least: u64) -> (r: u64)
        ensures
            r == clock_reading(old(self)@.clock, at_least),
            final(self)@ == (MLStorageView { clock: clock_after(r), ..old(self)@ }),
    {
        proof {
            use_type_invariant(&*self);
        }
        if self.clock < at_least {
            self.clock = at_least;
        }
        let ret = self.clock;
        if self.clock < u64::MAX {
            self.clock = self.clock + 1;
        }
        ret
    }
}

} // verus!
