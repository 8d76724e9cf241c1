use vstd::prelude::*;

verus! {

/// What a participant gets from one claim on a job.
pub enum Claim<A> {
    /// The claimant now owns index `i` and the element that stood there, and
    /// hands the element back with `Job::finish` once it has been worked on.
    Index(usize, A),
    /// No index is left: the claimant has reached exhaustion for this job.
    Exhausted,
}

/// The abstract state of a job.
pub struct JobView<A> {
    /// The buffer as it was handed to the job.
    pub inputs: Seq<A>,
    /// One slot per index: `None` while a participant holds the element.
    pub slots: Seq<Option<A>>,
    /// Participants that take part, the dispatching thread included.
    pub participants: nat,
    /// The shared claim counter: every index below it has been claimed.
    pub next_index: nat,
    /// Participants that have reached exhaustion.
    pub completion: nat,
    /// Claimed indices whose element has not been handed back yet.
    pub pending: Set<int>,
    /// Number of pending indices.
    pub in_flight: nat,
    /// The first index whose work was reported as failed.
    pub failure: Option<nat>,
}

impl<A> JobView<A> {
    /// Length of the buffer.
    pub open spec fn len(self) -> nat {
        self.inputs.len()
    }

    /// Indices handed out so far.
    pub open spec fn claimed(self) -> Set<int> {
        Set::new(|i: int| 0 <= i < self.next_index)
    }

    /// Indices whose element has been worked on and handed back.
    pub open spec fn finished(self) -> Set<int> {
        Set::new(|i: int| 0 <= i < self.next_index && !self.pending.contains(i))
    }

    /// Every participant has reached exhaustion.
    pub open spec fn is_complete(self) -> bool {
        self.completion == self.participants
    }

    /// The elements of a job whose slots are all filled.
    pub open spec fn elements(self) -> Seq<A> {
        self.slots.map_values(|o: Option<A>| o->0)
    }

    /// One claim step from `self` to `n` that returned `r`.
    pub open spec fn claim_step(self, n: JobView<A>, r: Claim<A>) -> bool {
        &&& self.in_flight + self.completion < self.participants
        &&& n.inputs == self.inputs
        &&& n.participants == self.participants
        &&& n.failure == self.failure
        &&& if self.next_index < self.len() {
            &&& r == Claim::Index(self.next_index as usize, self.inputs[self.next_index as int])
            &&& n.claimed() == self.claimed().insert(self.next_index as int)
            &&& n.next_index == self.next_index + 1
            &&& n.slots == self.slots.update(self.next_index as int, None)
            &&& n.pending == self.pending.insert(self.next_index as int)
            &&& n.in_flight == self.in_flight + 1
            &&& n.completion == self.completion
        } else {
            &&& r is Exhausted
            &&& n.claimed() == self.claimed()
            &&& n.next_index == self.next_index
            &&& n.slots == self.slots
            &&& n.pending == self.pending
            &&& n.in_flight == self.in_flight
            &&& n.completion == self.completion + 1
        }
    }

    /// One step from `self` to `n` that hands back `value` for `index`.
    pub open spec fn finish_step(self, n: JobView<A>, index: usize, value: A, ok: bool) -> bool {
        &&& self.pending.contains(index as int)
        &&& n.inputs == self.inputs
        &&& n.participants == self.participants
        &&& n.next_index == self.next_index
        &&& n.completion == self.completion
        &&& n.slots == self.slots.update(index as int, Some(value))
        &&& n.pending == self.pending.remove(index as int)
        &&& n.in_flight == self.in_flight - 1
        &&& n.failure == (if !ok && self.failure is None {
            Some(index as nat)
        } else {
            self.failure
        })
    }

    /// A step of some participant, where a handed-back element is `f` of the input.
    pub open spec fn step_with(self, n: JobView<A>, f: spec_fn(A) -> A) -> bool {
        ||| exists|r: Claim<A>| self.claim_step(n, r)
        ||| exists|index: usize, ok: bool|
            #[trigger] self.finish_step(n, index, f(self.inputs[index as int]), ok)
    }

    /// Every element handed back so far is `f` of the input at its index.
    pub open spec fn finished_by(self, f: spec_fn(A) -> A) -> bool {
        forall|i: int| #[trigger] self.finished().contains(i) ==> self.slots[i] == Some(f(self.inputs[i]))
    }

    /// The job's invariant: indices below the claim counter are either pending
    /// or handed back, those above it still hold their input, and a
    /// participant that holds an element has not reached exhaustion.
    pub open spec fn wf(self) -> bool {
        &&& self.participants >= 1
        &&& self.slots.len() == self.inputs.len()
        &&& self.len() <= usize::MAX
        &&& self.next_index <= self.len()
        &&& self.completion + self.in_flight <= self.participants
        &&& self.completion > 0 ==> self.next_index == self.len()
        &&& forall|i: int|
            self.next_index <= i < self.len() ==> #[trigger] self.slots[i] == Some(self.inputs[i])
        &&& forall|i: int|
            0 <= i < self.next_index ==> (#[trigger] self.slots[i] is None <==> self.pending.contains(i))
        &&& forall|i: int| #[trigger] self.pending.contains(i) ==> 0 <= i < self.next_index
        &&& self.pending.finite()
        &&& self.pending.len() == self.in_flight
        &&& self.failure matches Some(k) ==> k < self.next_index
    }
}

/// One parallel for-each over a buffer: a claim counter that hands each index
/// to exactly one participant, and a completion count of participants that
/// found no index left.
pub struct Job<A> {
    slots: Vec<Option<A>>,
    participants: usize,
    next_index: usize,
    completion: usize,
    in_flight: usize,
    failure: Option<usize>,
    inputs: Ghost<Seq<A>>,
    pending: Ghost<Set<int>>,
}

impl<A> View for Job<A> {
    type V = JobView<A>;

    closed spec fn view(&self) -> JobView<A> {
        JobView {
            inputs: self.inputs@,
            slots: self.slots@,
            participants: self.participants as nat,
            next_index: self.next_index as nat,
            completion: self.completion as nat,
            pending: self.pending@,
            in_flight: self.in_flight as nat,
            failure: match self.failure {
                Some(k) => Some(k as nat),
                None => None,
            },
        }
    }
}

impl<A> Job<A> {
    /// A job over `elems` for `participants` participants, nothing claimed yet.
    pub fn new(elems: Vec<A>, participants: usize) -> (r: Job<A>)
        requires
            participants >= 1,
        ensures
            r@.wf(),
            r@.inputs == elems@,
            r@.slots == elems@.map_values(|a: A| Some(a)),
            r@.participants == participants,
            r@.next_index == 0,
            r@.completion == 0,
            r@.pending == Set::<int>::empty(),
            r@.failure == None::<nat>,
    {
        let ghost inputs = elems@;
        let len = elems.len();
        let ghost n = len as nat;
        let mut rest = elems;
        let mut reversed: Vec<A> = Vec::new();
        while rest.len() > 0
            invariant
                reversed@.len() + rest@.len() == n,
                forall|i: int| 0 <= i < rest@.len() ==> rest@[i] == inputs[i],
                forall|i: int| 0 <= i < reversed@.len() ==> reversed@[i] == inputs[n - 1 - i],
            decreases rest@.len(),
        {
            let a = rest.pop().unwrap();
            reversed.push(a);
        }
        let mut slots: Vec<Option<A>> = Vec::new();
        while reversed.len() > 0
            invariant
                slots@.len() + reversed@.len() == n,
                forall|i: int| 0 <= i < slots@.len() ==> slots@[i] == Some(inputs[i]),
                forall|i: int| 0 <= i < reversed@.len() ==> reversed@[i] == inputs[n - 1 - i],
            decreases reversed@.len(),
        {
            let a = reversed.pop().unwrap();
            slots.push(Some(a));
        }
        assert(slots@ =~= inputs.map_values(|a: A| Some(a)));
        Job {
            slots,
            participants,
            next_index: 0,
            completion: 0,
            in_flight: 0,
            failure: None,
            inputs: Ghost(inputs),
            pending: Ghost(Set::empty()),
        }
    }

    /// The atomic claim step of a participant that holds no element: takes the
    /// next unclaimed index with its element, or, when every index has been
    /// claimed, records that this participant has reached exhaustion.
    pub fn claim(&mut self) -> (r: Claim<A>)
        requires
            old(self)@.wf(),
            old(self)@.in_flight + old(self)@.completion < old(self)@.participants,
        ensures
            final(self)@.wf(),
            old(self)@.claim_step(final(self)@, r),
            r matches Claim::Index(i, _) ==> !old(self)@.claimed().contains(i as int)
                && final(self)@.claimed().contains(i as int),
    {
        let i = self.next_index;
        if i < self.slots.len() {
            self.slots.push(None);
            let taken = self.slots.swap_remove(i);
            self.next_index = i + 1;
            self.in_flight = self.in_flight + 1;
            self.pending = Ghost(self.pending@.insert(i as int));
            let r = Claim::Index(i, taken.unwrap());
            assert(final(self)@.claimed() =~= old(self)@.claimed().insert(i as int));
            assert(final(self)@.slots == old(self)@.slots.update(i as int, None));
            assert(final(self)@.pending == old(self)@.pending.insert(i as int));
            assert(r == Claim::Index(old(self)@.next_index as usize, old(self)@.inputs[old(self)@.next_index as int]));
            r
        } else {
            self.completion = self.completion + 1;
            assert(final(self)@.claimed() =~= old(self)@.claimed());
            Claim::Exhausted
        }
    }

    /// Hands back the element of a claimed index after the work on it, with
    /// `ok == false` when that work failed. The first failure is kept.
    pub fn finish(&mut self, index: usize, value: A, ok: bool)
        requires
            old(self)@.wf(),
            old(self)@.pending.contains(index as int),
        ensures
            final(self)@.wf(),
            old(self)@.finish_step(final(self)@, index, value, ok),
            final(self)@.finished() == old(self)@.finished().insert(index as int),
            !old(self)@.finished().contains(index as int),
    {
        self.slots[index] = Some(value);
        self.in_flight = self.in_flight - 1;
        self.pending = Ghost(self.pending@.remove(index as int));
        if !ok && self.failure.is_none() {
            self.failure = Some(index);
        }
        assert(final(self)@.finished() =~= old(self)@.finished().insert(index as int));
    }

    /// Whether `index` is claimed and its element not yet handed back.
    pub fn is_pending(&self, index: usize) -> (r: bool)
        requires
            self@.wf(),
        ensures
            r == self@.pending.contains(index as int),
    {
        index < self.next_index && self.slots[index].is_none()
    }

    /// Whether a participant that holds no element may still claim: some
    /// participant has neither an element nor reached exhaustion.
    pub fn can_claim(&self) -> (r: bool)
        requires
            self@.wf(),
        ensures
            r == (self@.in_flight + self@.completion < self@.participants),
    {
        self.in_flight + self.completion < self.participants
    }

    /// The completion barrier: every participant has reached exhaustion. Then
    /// every index has been claimed once and its element handed back.
    pub fn is_complete(&self) -> (r: bool)
        requires
            self@.wf(),
        ensures
            r == self@.is_complete(),
            r ==> self@.claimed() == Set::new(|i: int| 0 <= i < self@.len()),
            r ==> self@.finished() == self@.claimed(),
            r ==> self@.pending.is_empty(),
            r ==> forall|i: int| 0 <= i < self@.len() ==> #[trigger] self@.slots[i] is Some,
    {
        let r = self.completion == self.participants;
        if r {
            proof {
                lemma_complete_job(self@);
            }
        }
        r
    }

    /// Takes the buffer back from a completed job, with the first index whose
    /// work failed, if any.
    pub fn into_elements(self) -> (r: (Vec<A>, Option<usize>))
        requires
            self@.wf(),
            self@.is_complete(),
        ensures
            r.0@ == self@.elements(),
            r.0@.len() == self@.len(),
            forall|i: int| 0 <= i < self@.len() ==> self@.slots[i] == Some(#[trigger] r.0@[i]),
            self@.failure == (match r.1 {
                Some(k) => Some(k as nat),
                None => None,
            }),
    {
        proof {
            lemma_complete_job(self@);
        }
        let ghost slots = self.slots@;
        let ghost n = slots.len();
        let failure = self.failure;
        let mut rest = self.slots;
        let mut reversed: Vec<A> = Vec::new();
        while rest.len() > 0
            invariant
                reversed@.len() + rest@.len() == n,
                forall|i: int| 0 <= i < rest@.len() ==> rest@[i] == slots[i],
                forall|i: int| 0 <= i < n ==> #[trigger] slots[i] is Some,
                forall|i: int| 0 <= i < reversed@.len() ==> Some(reversed@[i]) == slots[n - 1 - i],
            decreases rest@.len(),
        {
            let last = rest.pop().unwrap();
            assert(last == slots[rest@.len() as int]);
            reversed.push(last.unwrap());
        }
        let mut out: Vec<A> = Vec::new();
        while reversed.len() > 0
            invariant
                out@.len() + reversed@.len() == n,
                forall|i: int| 0 <= i < out@.len() ==> Some(out@[i]) == slots[i],
                forall|i: int| 0 <= i < reversed@.len() ==> Some(reversed@[i]) == slots[n - 1 - i],
            decreases reversed@.len(),
        {
            let a = reversed.pop().unwrap();
            out.push(a);
        }
        assert(out@ =~= slots.map_values(|o: Option<A>| o->0));
        (out, failure)
    }

    /// The first index whose work failed, if any.
    pub fn failure(&self) -> (r: Option<usize>)
        ensures
            self@.failure == (match r {
                Some(k) => Some(k as nat),
                None => None,
            }),
    {
        self.failure
    }

    /// Number of elements in the buffer.
    pub fn len(&self) -> (r: usize)
        requires
            self@.wf(),
        ensures
            r == self@.len(),
    {
        self.slots.len()
    }

    /// Participants that take part in the job.
    pub fn participants(&self) -> (r: usize)
        ensures
            r == self@.participants,
    {
        self.participants
    }
}

/// A job in which every participant has reached exhaustion has handed out
/// every index once and has every element back.
pub proof fn lemma_complete_job<A>(v: JobView<A>)
    requires
        v.wf(),
        v.is_complete(),
    ensures
        v.next_index == v.len(),
        v.pending.is_empty(),
        v.claimed() == Set::new(|i: int| 0 <= i < v.len()),
        v.finished() == v.claimed(),
        forall|i: int| 0 <= i < v.len() ==> #[trigger] v.slots[i] is Some,
{
    if v.pending.len() > 0 {
        let k = v.pending.choose();
        assert(v.pending.contains(k));
    }
    assert(v.pending =~= Set::empty());
    assert(v.claimed() =~= Set::new(|i: int| 0 <= i < v.len()));
    assert(v.finished() =~= v.claimed());
    assert forall|i: int| 0 <= i < v.len() implies #[trigger] v.slots[i] is Some by {
        assert(!v.pending.contains(i));
    }
}

/// A step of any participant keeps a job well formed, keeps its buffer, and
/// keeps every handed-back element equal to `f` of its input.
pub proof fn lemma_step_keeps_results<A>(o: JobView<A>, n: JobView<A>, f: spec_fn(A) -> A)
    requires
        o.wf(),
        o.finished_by(f),
        o.step_with(n, f),
    ensures
        n.wf(),
        n.inputs == o.inputs,
        n.participants == o.participants,
        n.finished_by(f),
{
    if exists|r: Claim<A>| o.claim_step(n, r) {
        let r = choose|r: Claim<A>| o.claim_step(n, r);
        assert(o.claim_step(n, r));
        if o.next_index < o.len() {
            let i = o.next_index as int;
            assert(n.finished() =~= o.finished());
            assert forall|k: int| #[trigger] n.pending.contains(k) implies 0 <= k < n.next_index by {
                if k != i {
                    assert(o.pending.contains(k));
                }
            }
        }
        assert(n.finished() =~= o.finished());
    } else {
        let (index, ok) = choose|index: usize, ok: bool|
            #[trigger] o.finish_step(n, index, f(o.inputs[index as int]), ok);
        assert(o.finish_step(n, index, f(o.inputs[index as int]), ok));
        assert(n.finished() =~= o.finished().insert(index as int));
    }
}

/// Order independence: whatever the number of participants and however their
/// claims and hand-backs interleave, a job that starts with nothing claimed and
/// reaches completion, where each element is handed back as `f` of itself,
/// holds `f` applied to every input, in order.
pub proof fn lemma_any_schedule_maps<A>(run: Seq<JobView<A>>, f: spec_fn(A) -> A)
    requires
        run.len() >= 1,
        run[0].wf(),
        run[0].next_index == 0,
        forall|k: int| 0 <= k < run.len() - 1 ==> #[trigger] run[k].step_with(run[k + 1], f),
        run.last().is_complete(),
    ensures
        run.last().elements() == run[0].inputs.map_values(f),
{
    let last = run.len() - 1;
    lemma_run_keeps_results(run, f, last);
    let v = run.last();
    lemma_complete_job(v);
    assert forall|i: int| 0 <= i < v.len() implies v.elements()[i] == f(run[0].inputs[i]) by {
        assert(v.finished().contains(i));
    }
    assert(v.elements() =~= run[0].inputs.map_values(f));
}

/// On an empty buffer no participant ever holds an element, so each one may
/// claim until the job is complete, and every claim reports exhaustion and
/// counts one more participant as done.
pub proof fn lemma_empty_buffer_completes<A>(v: JobView<A>, n: JobView<A>, r: Claim<A>)
    requires
        v.wf(),
        v.len() == 0,
    ensures
        v.in_flight == 0,
        !v.is_complete() ==> v.in_flight + v.completion < v.participants,
        v.claim_step(n, r) ==> r is Exhausted && n.completion == v.completion + 1 && n.wf(),
{
    if v.in_flight > 0 {
        let k = v.pending.choose();
        assert(v.pending.contains(k));
    }
}

/// A failure, once recorded, is the one the job reports at the end of any run:
/// later failures do not replace it, and it does not stop the other steps.
pub proof fn lemma_first_failure_kept<A>(run: Seq<JobView<A>>, f: spec_fn(A) -> A, k: int)
    requires
        0 <= k < run.len(),
        run[k].failure is Some,
        forall|j: int| 0 <= j < run.len() - 1 ==> #[trigger] run[j].step_with(run[j + 1], f),
    ensures
        run.last().failure == run[k].failure,
    decreases run.len() - k,
{
    if k < run.len() - 1 {
        let o = run[k];
        let n = run[k + 1];
        assert(o.step_with(n, f));
        if !(exists|r: Claim<A>| o.claim_step(n, r)) {
            let (index, ok) = choose|index: usize, ok: bool|
                #[trigger] o.finish_step(n, index, f(o.inputs[index as int]), ok);
            assert(o.finish_step(n, index, f(o.inputs[index as int]), ok));
        }
        lemma_first_failure_kept(run, f, k + 1);
    }
}

/// Disjointness: in any run of steps, two claims made at different steps never
/// return the same index, whatever the number of participants.
pub proof fn lemma_claims_disjoint<A>(
    run: Seq<JobView<A>>,
    f: spec_fn(A) -> A,
    j: int,
    k: int,
    rj: Claim<A>,
    rk: Claim<A>,
)
    requires
        0 <= j < k < run.len() - 1,
        run[j].wf(),
        run[k].wf(),
        forall|m: int| 0 <= m < run.len() - 1 ==> #[trigger] run[m].step_with(run[m + 1], f),
        run[j].claim_step(run[j + 1], rj),
        run[k].claim_step(run[k + 1], rk),
        rj is Index,
        rk is Index,
    ensures
        rj->Index_0 != rk->Index_0,
{
    lemma_claim_counter_grows(run, f, j + 1, k);
}

/// The claim counter never goes down along a run.
proof fn lemma_claim_counter_grows<A>(run: Seq<JobView<A>>, f: spec_fn(A) -> A, j: int, k: int)
    requires
        0 <= j <= k < run.len(),
        forall|m: int| 0 <= m < run.len() - 1 ==> #[trigger] run[m].step_with(run[m + 1], f),
    ensures
        run[j].next_index <= run[k].next_index,
    decreases k - j,
{
    if j < k {
        let o = run[k - 1];
        let n = run[k];
        assert(run[k - 1].step_with(run[(k - 1) + 1], f));
        if exists|r: Claim<A>| o.claim_step(n, r) {
            let r = choose|r: Claim<A>| o.claim_step(n, r);
            assert(o.claim_step(n, r));
        } else {
            let (index, ok) = choose|index: usize, ok: bool|
                #[trigger] o.finish_step(n, index, f(o.inputs[index as int]), ok);
            assert(o.finish_step(n, index, f(o.inputs[index as int]), ok));
        }
        lemma_claim_counter_grows(run, f, j, k - 1);
    }
}

proof fn lemma_run_keeps_results<A>(run: Seq<JobView<A>>, f: spec_fn(A) -> A, k: int)
    requires
        0 <= k < run.len(),
        run[0].wf(),
        run[0].next_index == 0,
        forall|j: int| 0 <= j < run.len() - 1 ==> #[trigger] run[j].step_with(run[j + 1], f),
    ensures
        run[k].wf(),
        run[k].inputs == run[0].inputs,
        run[k].finished_by(f),
    decreases k,
{
    if k == 0 {
        assert(run[0].finished() =~= Set::empty());
    } else {
        lemma_run_keeps_results(run, f, k - 1);
        assert(run[k - 1].step_with(run[(k - 1) + 1], f));
        lemma_step_keeps_results(run[k - 1], run[k], f);
    }
}

} // verus!
