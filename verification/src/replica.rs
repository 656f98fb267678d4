use vstd::prelude::*;
use crate::idset::IdSet;
use crate::messages::{addr_eqv, Addr, ClientID, Message, ServerID};
use crate::statemachine::StateMachine;
use crate::value::Val;
use crate::vecmap::VecMap;

verus! {

/// Flow-control window: the replica never assigns a slot more than this far
/// beyond the last executed one, bounding how much unresolved state the
/// leaders and acceptors can accumulate.
pub const WINDOW: u64 = 64;

/// The client-facing sequencer: buffers client requests, assigns them to
/// free log slots inside the window, proposes them to every leader, and
/// applies decided commands to the state machine in strict slot order.
pub struct Replica<S: StateMachine> {
    pub state: S,
    pub slot_in: u64,
    pub slot_out: u64,
    pub requests: Vec<(ClientID, S::Op)>,
    pub proposals: VecMap<(ClientID, S::Op)>,
    pub log: VecMap<S::Op>,
    pub leaders: IdSet,
}

/// Two buffered requests are the same attempt: same client endpoint, same
/// command.
pub open spec fn req_eqv<Op: Val>(a: (Addr, Op), b: (Addr, Op)) -> bool {
    addr_eqv(a.0, b.0) && a.1.veq(&b.1)
}

/// The buffer holds each attempt at most once.
pub open spec fn reqs_distinct<Op: Val>(reqs: Seq<(Addr, Op)>) -> bool {
    forall|i: int, j: int|
        0 <= i < j < reqs.len() ==> !req_eqv::<Op>(#[trigger] reqs[i], #[trigger] reqs[j])
}

/// The buffer after taking in a request: unchanged when the same attempt is
/// already buffered, appended otherwise.
pub open spec fn buffer_request<Op: Val>(reqs: Seq<(Addr, Op)>, cid: Addr, cmd: Op) -> Seq<
    (Addr, Op),
> {
    if exists|i: int| 0 <= i < reqs.len() && req_eqv::<Op>(#[trigger] reqs[i], (cid, cmd)) {
        reqs
    } else {
        reqs.push((cid, cmd))
    }
}

/// The abstract state after folding the logged commands of slots
/// `from..to`, in slot order, onto `st`.
pub open spec fn apply_log<S: StateMachine>(
    st: S::Abs,
    log: Map<u64, S::Op>,
    from: int,
    to: int,
) -> S::Abs
    decreases to - from,
{
    if to <= from {
        st
    } else {
        apply_log::<S>(S::next_abs(st, log[from as u64]), log, from + 1, to)
    }
}

/// The replies sent while executing slots `from..to` in order starting from
/// abstract state `st`: one response per executed slot that has an in-flight
/// proposal, carrying the state machine's result for that slot.
pub open spec fn perform_out<S: StateMachine>(
    st: S::Abs,
    log: Map<u64, S::Op>,
    props: Map<u64, (Addr, S::Op)>,
    from: int,
    to: int,
) -> Seq<(ClientID, Message<S::Op, S::Result>)>
    decreases to - from,
{
    if to <= from {
        Seq::empty()
    } else {
        let op = log[from as u64];
        let rest = perform_out::<S>(S::next_abs(st, op), log, props, from + 1, to);
        if props.contains_key(from as u64) {
            seq![
                (
                    props[from as u64].0,
                    Message::Response { cid: props[from as u64].0, result: S::result_abs(st, op) },
                ),
            ] + rest
        } else {
            rest
        }
    }
}

/// Folding `a..c` is folding `a..b`, then `b..c`.
pub proof fn lemma_apply_log_snoc<S: StateMachine>(
    st: S::Abs,
    log: Map<u64, S::Op>,
    from: int,
    to: int,
)
    requires
        from <= to,
    ensures
        apply_log::<S>(st, log, from, to + 1) == S::next_abs(
            apply_log::<S>(st, log, from, to),
            log[to as u64],
        ),
    decreases to - from,
{
    if from < to {
        let st1 = S::next_abs(st, log[from as u64]);
        lemma_apply_log_snoc::<S>(st1, log, from + 1, to);
        assert(apply_log::<S>(st, log, from, to + 1) == apply_log::<S>(st1, log, from + 1, to + 1));
        assert(apply_log::<S>(st, log, from, to) == apply_log::<S>(st1, log, from + 1, to));
    } else {
        assert(apply_log::<S>(st, log, from, to) == st);
        let st1 = S::next_abs(st, log[from as u64]);
        assert(apply_log::<S>(st, log, from, to + 1) == apply_log::<S>(st1, log, from + 1, to + 1));
        assert(apply_log::<S>(st1, log, from + 1, to + 1) == st1);
    }
}

/// Executing one more slot appends its reply (if one is owed) to the
/// replies of the shorter run.
pub proof fn lemma_perform_out_snoc<S: StateMachine>(
    st: S::Abs,
    log: Map<u64, S::Op>,
    props: Map<u64, (Addr, S::Op)>,
    from: int,
    to: int,
)
    requires
        from <= to,
    ensures
        perform_out::<S>(st, log, props, from, to + 1) == perform_out::<S>(st, log, props, from, to)
            + (if props.contains_key(to as u64) {
            seq![
                (
                    props[to as u64].0,
                    Message::Response {
                        cid: props[to as u64].0,
                        result: S::result_abs(apply_log::<S>(st, log, from, to), log[to as u64]),
                    },
                ),
            ]
        } else {
            Seq::empty()
        }),
    decreases to - from,
{
    if from == to {
        assert(apply_log::<S>(st, log, from, to) == st);
        assert(perform_out::<S>(
            S::next_abs(st, log[to as u64]),
            log,
            props,
            to + 1,
            to + 1,
        ) =~= Seq::<(ClientID, Message<S::Op, S::Result>)>::empty());
        assert(perform_out::<S>(st, log, props, from, to) =~= Seq::empty());
        assert(perform_out::<S>(st, log, props, from, to + 1) =~= (if props.contains_key(
            to as u64,
        ) {
            seq![
                (
                    props[to as u64].0,
                    Message::Response {
                        cid: props[to as u64].0,
                        result: S::result_abs(apply_log::<S>(st, log, from, to), log[to as u64]),
                    },
                ),
            ]
        } else {
            Seq::<(ClientID, Message<S::Op, S::Result>)>::empty()
        }));
    } else {
        let op = log[from as u64];
        lemma_perform_out_snoc::<S>(S::next_abs(st, op), log, props, from + 1, to);
        assert(perform_out::<S>(st, log, props, from, to + 1) =~= perform_out::<S>(
            st,
            log,
            props,
            from,
            to,
        )
            + (if props.contains_key(to as u64) {
            seq![
                (
                    props[to as u64].0,
                    Message::Response {
                        cid: props[to as u64].0,
                        result: S::result_abs(apply_log::<S>(st, log, from, to), log[to as u64]),
                    },
                ),
            ]
        } else {
            Seq::<(ClientID, Message<S::Op, S::Result>)>::empty()
        }));
    }
}

/// Folding `a..c` is folding `a..b`, then `b..c`.
pub proof fn lemma_apply_log_concat<S: StateMachine>(
    st: S::Abs,
    log: Map<u64, S::Op>,
    a: int,
    b: int,
    c: int,
)
    requires
        a <= b <= c,
    ensures
        apply_log::<S>(st, log, a, c) == apply_log::<S>(apply_log::<S>(st, log, a, b), log, b, c),
    decreases b - a,
{
    if a < b {
        let st1 = S::next_abs(st, log[a as u64]);
        lemma_apply_log_concat::<S>(st1, log, a + 1, b, c);
        assert(apply_log::<S>(st, log, a, c) == apply_log::<S>(st1, log, a + 1, c));
        assert(apply_log::<S>(st, log, a, b) == apply_log::<S>(st1, log, a + 1, b));
    } else {
        assert(apply_log::<S>(st, log, a, b) == st);
    }
}

/// The first slot in `[from, upper)` with no decided command, if any.
pub open spec fn first_free<Op>(log: Map<u64, Op>, from: u64, upper: u64) -> Option<u64>
    decreases upper - from,
{
    if from >= upper {
        None
    } else if !log.contains_key(from) {
        Some(from)
    } else {
        first_free(log, (from + 1) as u64, upper)
    }
}

/// A found free slot lies in the scanned range and is undecided.
pub proof fn lemma_first_free_props<Op>(log: Map<u64, Op>, from: u64, upper: u64)
    ensures
        match first_free(log, from, upper) {
            Some(s) => from <= s < upper && !log.contains_key(s),
            None => true,
        },
    decreases upper - from,
{
    if from < upper && log.contains_key(from) {
        lemma_first_free_props(log, (from + 1) as u64, upper);
    }
}

/// One proposal broadcast: the slot assignment announced to every leader,
/// in leader order.
pub open spec fn propose_round<S: StateMachine>(leaders: Seq<u64>, slot: u64, cmd: S::Op) -> Seq<
    (ServerID, Message<S::Op, S::Result>),
> {
    Seq::new(leaders.len(), |i: int| (leaders[i], Message::Propose { slot, cmd }))
}

/// The outcome of one propose pass over the buffered requests.
pub struct ProposeView<S: StateMachine> {
    /// The next slot to try for a later request.
    pub slot_in: u64,
    /// The in-flight proposals, grown by the assignments made.
    pub props: Map<u64, (Addr, S::Op)>,
    /// The requests that found no free slot inside the window and stay
    /// buffered.
    pub kept: Seq<(Addr, S::Op)>,
    /// The Propose broadcasts, in assignment order.
    pub out: Seq<(ServerID, Message<S::Op, S::Result>)>,
}

/// One propose pass: each buffered request, in order, takes the first slot
/// at or after `slot_in` (strictly below `upper`) with no decided command;
/// an assigned request is announced to every leader and recorded in-flight,
/// and the scan cursor moves past the taken slot. A request that finds no
/// free slot inside the window stays buffered, and the cursor rests at
/// `upper` (back-pressure: nothing is assigned beyond the window).
pub open spec fn propose_run<S: StateMachine>(
    reqs: Seq<(Addr, S::Op)>,
    slot_in: u64,
    props: Map<u64, (Addr, S::Op)>,
    log: Map<u64, S::Op>,
    upper: u64,
    leaders: Seq<u64>,
) -> ProposeView<S>
    decreases reqs.len(),
{
    if reqs.len() == 0 {
        ProposeView { slot_in, props, kept: Seq::empty(), out: Seq::empty() }
    } else {
        let r = reqs[0];
        match first_free(log, slot_in, upper) {
            Some(s) => {
                let rest = propose_run::<S>(
                    reqs.drop_first(),
                    (s + 1) as u64,
                    props.insert(s, r),
                    log,
                    upper,
                    leaders,
                );
                ProposeView {
                    slot_in: rest.slot_in,
                    props: rest.props,
                    kept: rest.kept,
                    out: propose_round::<S>(leaders, s, r.1) + rest.out,
                }
            },
            None => {
                let rest = propose_run::<S>(reqs.drop_first(), upper, props, log, upper, leaders);
                ProposeView {
                    slot_in: rest.slot_in,
                    props: rest.props,
                    kept: seq![r] + rest.kept,
                    out: rest.out,
                }
            },
        }
    }
}

/// Folds over logs that agree on the folded range are equal.
pub proof fn lemma_apply_log_agree<S: StateMachine>(
    st: S::Abs,
    log1: Map<u64, S::Op>,
    log2: Map<u64, S::Op>,
    from: int,
    to: int,
)
    requires
        forall|s: int| from <= s < to ==> log1[#[trigger] (s as u64)] == log2[s as u64],
    ensures
        apply_log::<S>(st, log1, from, to) == apply_log::<S>(st, log2, from, to),
    decreases to - from,
{
    if from < to {
        assert(log1[from as u64] == log2[from as u64]);
        lemma_apply_log_agree::<S>(S::next_abs(st, log1[from as u64]), log1, log2, from + 1, to);
    }
}

/// Every request a propose pass keeps was buffered before the pass, and a
/// duplicate-free buffer stays duplicate-free.
pub proof fn lemma_propose_run_kept<S: StateMachine>(
    reqs: Seq<(Addr, S::Op)>,
    slot_in: u64,
    props: Map<u64, (Addr, S::Op)>,
    log: Map<u64, S::Op>,
    upper: u64,
    leaders: Seq<u64>,
)
    ensures
        forall|i: int|
            0 <= i < propose_run::<S>(reqs, slot_in, props, log, upper, leaders).kept.len()
                ==> exists|j: int|
                0 <= j < reqs.len() && #[trigger] propose_run::<S>(
                    reqs,
                    slot_in,
                    props,
                    log,
                    upper,
                    leaders,
                ).kept[i] == #[trigger] reqs[j],
        reqs_distinct::<S::Op>(reqs) ==> reqs_distinct::<S::Op>(
            propose_run::<S>(reqs, slot_in, props, log, upper, leaders).kept,
        ),
    decreases reqs.len(),
{
    let pv = propose_run::<S>(reqs, slot_in, props, log, upper, leaders);
    if reqs.len() > 0 {
        let r = reqs[0];
        let rd = reqs.drop_first();
        assert forall|a: int, b: int|
            0 <= a < b < rd.len() && reqs_distinct::<S::Op>(reqs) implies !req_eqv::<S::Op>(
            #[trigger] rd[a],
            #[trigger] rd[b],
        ) by {
            assert(rd[a] == reqs[a + 1] && rd[b] == reqs[b + 1]);
        }
        match first_free(log, slot_in, upper) {
            Some(s) => {
                lemma_propose_run_kept::<S>(rd, (s + 1) as u64, props.insert(s, r), log, upper, leaders);
                let rest = propose_run::<S>(rd, (s + 1) as u64, props.insert(s, r), log, upper, leaders);
                assert forall|i: int| 0 <= i < pv.kept.len() implies exists|j: int|
                    0 <= j < reqs.len() && (#[trigger] pv.kept[i]) == reqs[j] by {
                    let w = choose|w: int| 0 <= w < rd.len() && rest.kept[i] == #[trigger] rd[w];
                    assert(pv.kept[i] == reqs[w + 1]);
                }
            },
            None => {
                lemma_propose_run_kept::<S>(rd, upper, props, log, upper, leaders);
                let rest = propose_run::<S>(rd, upper, props, log, upper, leaders);
                assert forall|i: int| 0 <= i < pv.kept.len() implies exists|j: int|
                    0 <= j < reqs.len() && (#[trigger] pv.kept[i]) == reqs[j] by {
                    if i == 0 {
                        assert(pv.kept[0] == reqs[0]);
                    } else {
                        let w = choose|w: int|
                            0 <= w < rd.len() && rest.kept[i - 1] == #[trigger] rd[w];
                        assert(pv.kept[i] == reqs[w + 1]);
                    }
                }
                if reqs_distinct::<S::Op>(reqs) {
                    assert forall|a: int, b: int| 0 <= a < b < pv.kept.len() implies !req_eqv::<
                        S::Op,
                    >(#[trigger] pv.kept[a], #[trigger] pv.kept[b]) by {
                        if a == 0 {
                            let w = choose|w: int|
                                0 <= w < rd.len() && rest.kept[b - 1] == #[trigger] rd[w];
                            assert(pv.kept[b] == reqs[w + 1]);
                            assert(!req_eqv::<S::Op>(reqs[0], reqs[w + 1]));
                        } else {
                            assert(!req_eqv::<S::Op>(rest.kept[a - 1], rest.kept[b - 1]));
                        }
                    }
                }
            },
        }
    }
}

/// Replica ordering: once the decided log covers exactly the slots `1..=k`,
/// the execution cursor stands at `k + 1` — every decided slot was applied,
/// in slot order, exactly once (the machine state is the in-order fold, by
/// `wf`), and nothing beyond the contiguous prefix ran.
pub proof fn lemma_slot_out_at_first_gap<S: StateMachine>(r: Replica<S>, k: u64)
    requires
        r.wf(),
        k < u64::MAX,
        forall|s: u64| #[trigger] r.log@.contains_key(s) <==> 1 <= s <= k,
    ensures
        r.slot_out == k + 1,
        r.state.abs() == apply_log::<S>(S::init_abs(), r.log@, 1, k + 1),
{
    if r.slot_out > k + 1 {
        assert(r.log@.contains_key((k + 1) as u64));
    }
    if r.slot_out <= k {
        assert(r.log@.contains_key(r.slot_out));
    }
}

/// Window bound: every slot with an in-flight proposal lies strictly below
/// `slot_out + WINDOW`, so at most `WINDOW` slots are ever outstanding
/// beyond the last executed one.
pub proof fn lemma_window_bound<S: StateMachine>(r: Replica<S>)
    requires
        r.wf(),
    ensures
        forall|s: u64| #[trigger] r.proposals@.contains_key(s) ==> s < r.slot_out + WINDOW,
{
}

impl<S: StateMachine> Replica<S> {
    /// The state the replica keeps between messages: the window bound
    /// (`slot_in` at most `WINDOW` beyond `slot_out`), every slot below
    /// `slot_out` decided and none at `slot_out`, the machine state equal to
    /// the in-order fold of the decided prefix, in-flight proposals only for
    /// slots not yet executed and below `slot_in` (a proposal leaves only
    /// when its slot executes and its client was answered), and the request
    /// buffer free of duplicates.
    pub open spec fn wf(self) -> bool {
        &&& self.state.inv()
        &&& self.proposals.wf()
        &&& self.log.wf()
        &&& self.leaders.wf()
        &&& 1 <= self.slot_out
        &&& self.slot_out <= self.slot_in
        &&& self.slot_in <= self.slot_out + WINDOW
        &&& forall|s: u64| 1 <= s < self.slot_out ==> #[trigger] self.log@.contains_key(s)
        &&& !self.log@.contains_key(self.slot_out)
        &&& self.state.abs() == apply_log::<S>(
            S::init_abs(),
            self.log@,
            1,
            self.slot_out as int,
        )
        &&& forall|s: u64| #[trigger] self.proposals@.contains_key(s) ==> self.slot_out <= s
            < self.slot_in
        &&& reqs_distinct::<S::Op>(self.requests@)
    }

    /// A fresh replica: empty buffers, empty log, both cursors at the first
    /// slot, the state machine at its initial state. The leader set is a
    /// snapshot taken at start-up.
    pub fn new(leaders: &IdSet) -> (r: Self)
        requires
            leaders.wf(),
        ensures
            r.wf(),
            r.slot_in == 1,
            r.slot_out == 1,
            r.requests@.len() == 0,
            r.proposals.entries@.len() == 0,
            r.log.entries@.len() == 0,
            r.leaders@ == leaders@,
            r.state.abs() == S::init_abs(),
    {
        let r = Replica {
            state: S::init_state(),
            slot_in: 1u64,
            slot_out: 1u64,
            requests: Vec::new(),
            proposals: VecMap::new(),
            log: VecMap::new(),
            leaders: leaders.dup(),
        };
        proof {
            assert(!r.log@.contains_key(1u64));
        }
        r
    }

    /// The state right after a decision was logged: the gap at `slot_out`
    /// may be broken by the fresh entry, everything else of `wf` holds.
    pub open spec fn pre_perform(self) -> bool {
        &&& self.state.inv()
        &&& self.proposals.wf()
        &&& self.log.wf()
        &&& self.leaders.wf()
        &&& 1 <= self.slot_out
        &&& self.slot_out <= self.slot_in
        &&& self.slot_in <= self.slot_out + WINDOW
        &&& forall|s: u64| 1 <= s < self.slot_out ==> #[trigger] self.log@.contains_key(s)
        &&& self.state.abs() == apply_log::<S>(
            S::init_abs(),
            self.log@,
            1,
            self.slot_out as int,
        )
        &&& forall|s: u64| #[trigger] self.proposals@.contains_key(s) ==> s < self.slot_in
        &&& reqs_distinct::<S::Op>(self.requests@)
    }

    /// Execute: apply decided commands from `slot_out` on, one slot at a
    /// time, until the first gap; reply to the client of every executed slot
    /// that has an in-flight proposal; retire exactly the executed
    /// proposals. A proposal for a decided-but-not-yet-executed slot stays
    /// until its slot runs: its client's response is still owed and is sent
    /// then. `slot_in` is pulled up to `slot_out` where decisions from other
    /// replicas ran ahead of it.
    #[verifier::loop_isolation(false)]
    #[verifier::rlimit(30)]
    fn try_perform(&mut self) -> (ret: Vec<(ClientID, Message<S::Op, S::Result>)>)
        requires
            old(self).pre_perform(),
            forall|s: u64| #[trigger] old(self).log@.contains_key(s) ==> s < u64::MAX - WINDOW,
        ensures
            final(self).wf(),
            final(self).log == old(self).log,
            final(self).leaders == old(self).leaders,
            final(self).requests == old(self).requests,
            old(self).slot_out <= final(self).slot_out,
            forall|s: u64|
                old(self).slot_out <= s < final(self).slot_out ==> old(self).log@.contains_key(s),
            !old(self).log@.contains_key(final(self).slot_out),
            final(self).slot_in == (if old(self).slot_in >= final(self).slot_out {
                old(self).slot_in
            } else {
                final(self).slot_out
            }),
            final(self).state.abs() == apply_log::<S>(
                old(self).state.abs(),
                old(self).log@,
                old(self).slot_out as int,
                final(self).slot_out as int,
            ),
            ret@ == perform_out::<S>(
                old(self).state.abs(),
                old(self).log@,
                old(self).proposals@,
                old(self).slot_out as int,
                final(self).slot_out as int,
            ),
            final(self).proposals@ == Map::<u64, (Addr, S::Op)>::new(
                |k: u64| old(self).proposals@.contains_key(k) && k >= final(self).slot_out,
                |k: u64| old(self).proposals@[k],
            ),
    {
        let ghost st0 = self.state.abs();
        let ghost log0 = self.log@;
        let ghost props0 = self.proposals@;
        let ghost so0 = self.slot_out;
        proof {
            if self.slot_out > 1 {
                assert(self.log@.contains_key((self.slot_out - 1) as u64));
            }
        }
        let mut ret: Vec<(ClientID, Message<S::Op, S::Result>)> = Vec::new();
        while self.log.contains_key(self.slot_out)
            invariant
                self.log == old(self).log,
                self.proposals == old(self).proposals,
                self.requests == old(self).requests,
                self.leaders == old(self).leaders,
                self.slot_in == old(self).slot_in,
                self.state.inv(),
                so0 <= self.slot_out,
                self.slot_out <= u64::MAX - WINDOW,
                forall|s: u64| so0 <= s < self.slot_out ==> log0.contains_key(s),
                self.state.abs() == apply_log::<S>(st0, log0, so0 as int, self.slot_out as int),
                ret@ == perform_out::<S>(st0, log0, props0, so0 as int, self.slot_out as int),
            decreases u64::MAX - self.slot_out,
        {
            let cur = self.slot_out;
            let op = match self.log.get(cur) {
                Some(o) => o.dup(),
                None => vstd::pervasive::unreached(),
            };
            let result = self.state.apply_op(&op);
            match self.proposals.get(cur) {
                Some(pair) => {
                    let cid1 = pair.0.dup();
                    let cid2 = pair.0.dup();
                    ret.push((cid1, Message::Response { cid: cid2, result }));
                },
                None => {},
            }
            proof {
                lemma_apply_log_snoc::<S>(st0, log0, so0 as int, cur as int);
                lemma_perform_out_snoc::<S>(st0, log0, props0, so0 as int, cur as int);
                assert(ret@ =~= perform_out::<S>(st0, log0, props0, so0 as int, cur as int + 1));
            }
            self.slot_out = cur + 1;
        }
        // retire exactly the proposals whose slots just executed; a proposal
        // for a decided-but-not-yet-executed slot keeps its claim to a reply
        self.proposals.retain_from(self.slot_out);
        proof {
            assert(self.proposals@ =~= Map::<u64, (Addr, S::Op)>::new(
                |k: u64| props0.contains_key(k) && k >= self.slot_out,
                |k: u64| props0[k],
            ));
        }
        if self.slot_out > self.slot_in {
            self.slot_in = self.slot_out;
        }
        proof {
            lemma_apply_log_concat::<S>(
                S::init_abs(),
                log0,
                1,
                so0 as int,
                self.slot_out as int,
            );
        }
        ret
    }

    /// The first slot in `[from, upper)` the log has no entry for.
    #[verifier::loop_isolation(false)]
    fn find_free_slot(log: &VecMap<S::Op>, from: u64, upper: u64) -> (r: Option<u64>)
        ensures
            r == first_free(log@, from, upper),
    {
        let mut cur: u64 = from;
        while cur < upper
            invariant
                from <= cur,
                first_free(log@, from, upper) == first_free(log@, cur, upper),
            decreases upper - cur,
        {
            if !log.contains_key(cur) {
                return Some(cur);
            }
            cur = cur + 1;
        }
        None
    }

    /// Assign buffered requests, in order, to free slots inside the window,
    /// announce each assignment to every leader, and keep back-pressured
    /// requests buffered.
    #[verifier::loop_isolation(false)]
    #[verifier::rlimit(30)]
    fn propose(&mut self) -> (ret: Vec<(ServerID, Message<S::Op, S::Result>)>)
        requires
            old(self).wf(),
            old(self).slot_out <= u64::MAX - WINDOW,
        ensures
            final(self).wf(),
            final(self).log == old(self).log,
            final(self).leaders == old(self).leaders,
            final(self).state == old(self).state,
            final(self).slot_out == old(self).slot_out,
            ({
                let pv = propose_run::<S>(
                    old(self).requests@,
                    old(self).slot_in,
                    old(self).proposals@,
                    old(self).log@,
                    (old(self).slot_out + WINDOW) as u64,
                    old(self).leaders@,
                );
                &&& final(self).slot_in == pv.slot_in
                &&& final(self).proposals@ == pv.props
                &&& final(self).requests@ == pv.kept
                &&& ret@ == pv.out
            }),
    {
        let upper = self.slot_out + WINDOW;
        let mut reqs: Vec<(ClientID, S::Op)> = Vec::new();
        core::mem::swap(&mut reqs, &mut self.requests);
        let ghost reqs0 = reqs@;
        let ghost pv = propose_run::<S>(
            reqs@,
            self.slot_in,
            self.proposals@,
            self.log@,
            upper,
            self.leaders@,
        );
        proof {
            lemma_propose_run_kept::<S>(
                reqs@,
                self.slot_in,
                self.proposals@,
                self.log@,
                upper,
                self.leaders@,
            );
        }
        let mut ret: Vec<(ServerID, Message<S::Op, S::Result>)> = Vec::new();
        let mut kept: Vec<(ClientID, S::Op)> = Vec::new();
        while reqs.len() > 0
            invariant
                ({
                    let rest = propose_run::<S>(
                        reqs@,
                        self.slot_in,
                        self.proposals@,
                        self.log@,
                        upper,
                        self.leaders@,
                    );
                    &&& pv.slot_in == rest.slot_in
                    &&& pv.props == rest.props
                    &&& pv.kept == kept@ + rest.kept
                    &&& pv.out == ret@ + rest.out
                }),
                self.proposals.wf(),
                forall|s: u64| #[trigger]
                    self.proposals@.contains_key(s) ==> self.slot_out <= s < self.slot_in,
                self.slot_out <= self.slot_in,
                self.slot_in <= upper,
                self.log == old(self).log,
                self.leaders == old(self).leaders,
                self.state == old(self).state,
                self.slot_out == old(self).slot_out,
                self.slot_in >= old(self).slot_in,
                self.requests@.len() == 0,
            decreases reqs@.len(),
        {
            let ghost reqs_pre = reqs@;
            let ghost slot_in_pre = self.slot_in;
            let ghost props_pre = self.proposals@;
            let r = reqs.remove(0);
            proof {
                assert(reqs@ =~= reqs_pre.drop_first());
            }
            match Self::find_free_slot(&self.log, self.slot_in, upper) {
                Some(s) => {
                    proof {
                        lemma_first_free_props(self.log@, self.slot_in, upper);
                    }
                    let ghost round = propose_round::<S>(self.leaders@, s, r.1);
                    let ghost ret0 = ret@;
                    let nl = self.leaders.len();
                    let mut j: usize = 0;
                    while j < nl
                        invariant
                            0 <= j <= nl,
                            ret@ == ret0 + round.take(j as int),
                        decreases nl - j,
                    {
                        let l = self.leaders.at(j);
                        let c = r.1.dup();
                        ret.push((l, Message::Propose { slot: s, cmd: c }));
                        proof {
                            assert(ret@ =~= ret0 + round.take(j + 1));
                        }
                        j = j + 1;
                    }
                    proof {
                        assert(round.take(nl as int) == round);
                    }
                    self.proposals.insert(s, r);
                    self.slot_in = s + 1;
                    proof {
                        let rest_pre = propose_run::<S>(
                            reqs_pre,
                            slot_in_pre,
                            props_pre,
                            self.log@,
                            upper,
                            self.leaders@,
                        );
                        let rest_now = propose_run::<S>(
                            reqs@,
                            self.slot_in,
                            self.proposals@,
                            self.log@,
                            upper,
                            self.leaders@,
                        );
                        assert(rest_pre.out == round + rest_now.out);
                        assert(ret0 + (round + rest_now.out) =~= (ret0 + round) + rest_now.out);
                        assert(pv.out =~= ret@ + rest_now.out);
                    }
                },
                None => {
                    kept.push(r);
                    self.slot_in = upper;
                    proof {
                        let ghost kept_pre = kept@.drop_last();
                        let rest_pre = propose_run::<S>(
                            reqs_pre,
                            slot_in_pre,
                            props_pre,
                            self.log@,
                            upper,
                            self.leaders@,
                        );
                        let rest_now = propose_run::<S>(
                            reqs@,
                            self.slot_in,
                            self.proposals@,
                            self.log@,
                            upper,
                            self.leaders@,
                        );
                        assert(rest_pre.kept == seq![reqs_pre[0]] + rest_now.kept);
                        assert(kept_pre + (seq![reqs_pre[0]] + rest_now.kept) =~= kept@
                            + rest_now.kept);
                        assert(pv.kept =~= kept@ + rest_now.kept);
                    }
                },
            }
        }
        proof {
            let rest = propose_run::<S>(
                reqs@,
                self.slot_in,
                self.proposals@,
                self.log@,
                upper,
                self.leaders@,
            );
            assert(rest.kept.len() == 0 && rest.out.len() == 0);
            assert(pv.kept =~= kept@);
            assert(pv.out =~= ret@);
        }
        self.requests = kept;
        ret
    }

    /// Handle one delivered message.
    ///
    /// A `Request` is buffered, a resubmitted identical attempt being a
    /// no-op. A `Decision` is logged — a slot, once decided, is immutable,
    /// so a duplicate decision changes nothing — and executed together with
    /// everything it unblocks, in strict slot order, replying to the clients
    /// of executed in-flight proposals; a proposal is retired exactly when
    /// its slot executes. After every message, ticks included,
    /// a propose pass assigns buffered requests to free slots inside the
    /// window. The first returned list goes to servers (leaders), the second
    /// to clients.
    #[verifier::loop_isolation(false)]
    #[verifier::rlimit(60)]
    pub fn handle_msg(&mut self, msg: &Message<S::Op, S::Result>) -> (ret: (
        Vec<(ServerID, Message<S::Op, S::Result>)>,
        Vec<(ClientID, Message<S::Op, S::Result>)>,
    ))
        requires
            old(self).wf(),
            forall|s: u64| #[trigger] old(self).log@.contains_key(s) ==> s < u64::MAX - WINDOW,
            (*msg matches Message::Decision { slot, cmd } ==> slot < u64::MAX - WINDOW),
        ensures
            final(self).wf(),
            forall|s: u64| #[trigger] final(self).log@.contains_key(s) ==> s < u64::MAX - WINDOW,
            final(self).leaders == old(self).leaders,
            match *msg {
                Message::Request { cid, cmd } => {
                    let reqs1 = buffer_request::<S::Op>(old(self).requests@, cid, cmd);
                    let pv = propose_run::<S>(
                        reqs1,
                        old(self).slot_in,
                        old(self).proposals@,
                        old(self).log@,
                        (old(self).slot_out + WINDOW) as u64,
                        old(self).leaders@,
                    );
                    &&& final(self).log == old(self).log
                    &&& final(self).state == old(self).state
                    &&& final(self).slot_out == old(self).slot_out
                    &&& final(self).slot_in == pv.slot_in
                    &&& final(self).proposals@ == pv.props
                    &&& final(self).requests@ == pv.kept
                    &&& ret.0@ == pv.out
                    &&& ret.1@.len() == 0
                },
                Message::Decision { slot, cmd } => {
                    let log1 = if old(self).log@.contains_key(slot) {
                        old(self).log@
                    } else {
                        old(self).log@.insert(slot, cmd)
                    };
                    let so2 = final(self).slot_out;
                    let props1 = Map::<u64, (Addr, S::Op)>::new(
                        |k: u64| old(self).proposals@.contains_key(k) && k >= so2,
                        |k: u64| old(self).proposals@[k],
                    );
                    let slot_in1: u64 = if old(self).slot_in >= so2 {
                        old(self).slot_in
                    } else {
                        so2
                    };
                    let pv = propose_run::<S>(
                        old(self).requests@,
                        slot_in1,
                        props1,
                        log1,
                        (so2 + WINDOW) as u64,
                        old(self).leaders@,
                    );
                    &&& final(self).log@ == log1
                    &&& old(self).slot_out <= so2
                    &&& (forall|s: u64| old(self).slot_out <= s < so2 ==> log1.contains_key(s))
                    &&& !log1.contains_key(so2)
                    &&& final(self).state.abs() == apply_log::<S>(
                        old(self).state.abs(),
                        log1,
                        old(self).slot_out as int,
                        so2 as int,
                    )
                    &&& ret.1@ == perform_out::<S>(
                        old(self).state.abs(),
                        log1,
                        old(self).proposals@,
                        old(self).slot_out as int,
                        so2 as int,
                    )
                    &&& final(self).slot_in == pv.slot_in
                    &&& final(self).proposals@ == pv.props
                    &&& final(self).requests@ == pv.kept
                    &&& ret.0@ == pv.out
                },
                _ => {
                    let pv = propose_run::<S>(
                        old(self).requests@,
                        old(self).slot_in,
                        old(self).proposals@,
                        old(self).log@,
                        (old(self).slot_out + WINDOW) as u64,
                        old(self).leaders@,
                    );
                    &&& final(self).log == old(self).log
                    &&& final(self).state == old(self).state
                    &&& final(self).slot_out == old(self).slot_out
                    &&& final(self).slot_in == pv.slot_in
                    &&& final(self).proposals@ == pv.props
                    &&& final(self).requests@ == pv.kept
                    &&& ret.0@ == pv.out
                    &&& ret.1@.len() == 0
                },
            },
    {
        let mut to_client: Vec<(ClientID, Message<S::Op, S::Result>)> = Vec::new();
        match msg {
            Message::Request { cid, cmd } => {
                let mut present = false;
                let n = self.requests.len();
                let mut i: usize = 0;
                while i < n
                    invariant
                        0 <= i <= n,
                        present == exists|j: int|
                            0 <= j < i && req_eqv::<S::Op>(
                                #[trigger] self.requests@[j],
                                (*cid, *cmd),
                            ),
                    decreases n - i,
                {
                    let same = self.requests[i].0.eq_val(cid) && self.requests[i].1.eq_val(cmd);
                    if same {
                        present = true;
                        proof {
                            assert(req_eqv::<S::Op>(self.requests@[i as int], (*cid, *cmd)));
                        }
                    }
                    i = i + 1;
                }
                if !present {
                    let c1 = cid.dup();
                    let c2 = cmd.dup();
                    self.requests.push((c1, c2));
                    proof {
                        assert(self.requests@.drop_last() == old(self).requests@);
                        assert forall|a: int, b: int|
                            0 <= a < b < self.requests@.len() implies !req_eqv::<S::Op>(
                            #[trigger] self.requests@[a],
                            #[trigger] self.requests@[b],
                        ) by {
                            assert(self.requests@[a] == old(self).requests@[a]);
                            if b < self.requests@.len() - 1 {
                                assert(self.requests@[b] == old(self).requests@[b]);
                            } else {
                                assert(self.requests@[b] == (*cid, *cmd));
                            }
                        }
                        assert(self.requests@ =~= buffer_request::<S::Op>(
                            old(self).requests@,
                            *cid,
                            *cmd,
                        ));
                    }
                } else {
                    proof {
                        assert(self.requests@ =~= buffer_request::<S::Op>(
                            old(self).requests@,
                            *cid,
                            *cmd,
                        ));
                    }
                }
            },
            Message::Decision { slot, cmd } => {
                let already = self.log.contains_key(*slot);
                if !already {
                    let c = cmd.dup();
                    self.log.insert(*slot, c);
                    proof {
                        assert forall|s: u64| 1 <= s < self.slot_out implies #[trigger]
                            self.log@.contains_key(s) by {
                            assert(old(self).log@.contains_key(s));
                        }
                        assert(!(1 <= *slot < old(self).slot_out));
                        lemma_apply_log_agree::<S>(
                            S::init_abs(),
                            self.log@,
                            old(self).log@,
                            1,
                            self.slot_out as int,
                        );
                    }
                }
                to_client = self.try_perform();
            },
            _ => {},
        }
        proof {
            if self.slot_out > 1 {
                assert(self.log@.contains_key((self.slot_out - 1) as u64));
            }
        }
        let to_server = self.propose();
        (to_server, to_client)
    }
}

} // verus!
