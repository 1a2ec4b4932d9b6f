use vstd::prelude::*;
use crate::pos2::Pos2;

verus! {

/// A path query for one agent: from its position through the waypoints in
/// order.
#[derive(Clone, Debug)]
pub struct PathRequest {
    pub agent: usize,
    pub start: Pos2,
    pub waypoints: Vec<Pos2>,
}

/// What the library keeps of one agent: where it stands, whether a query for
/// it is in flight, and the cells it has still to step through (front first).
/// An agent with nothing pending and an empty path is idle.
#[derive(Clone, Debug)]
pub struct AgentState {
    pub id: usize,
    pub pos: Pos2,
    pub pending: bool,
    pub path: Vec<Pos2>,
}

/// The registry of agents and their path requests, owned by the main loop.
#[derive(Clone, Debug)]
pub struct AgentPaths {
    pub agents: Vec<AgentState>,
    pub queued_points: Vec<Pos2>,
}

/// The first slot that holds agent `id`.
pub open spec fn find(agents: Seq<AgentState>, id: usize) -> Option<int>
    decreases agents.len(),
{
    if agents.len() == 0 {
        None
    } else {
        match find(agents.drop_last(), id) {
            Some(i) => Some(i),
            None => if agents.last().id == id {
                Some(agents.len() - 1)
            } else {
                None
            },
        }
    }
}

pub proof fn lemma_find(agents: Seq<AgentState>, id: usize)
    ensures
        match find(agents, id) {
            Some(i) => 0 <= i < agents.len() && agents[i].id == id && forall|j: int| 0 <= j < i ==> agents[j].id != id,
            None => forall|j: int| 0 <= j < agents.len() ==> agents[j].id != id,
        },
    decreases agents.len(),
{
    if agents.len() > 0 {
        let d = agents.drop_last();
        lemma_find(d, id);
        assert forall|j: int| 0 <= j < d.len() implies d[j] == agents[j] by {}
    }
}

/// `a` is agent `id` at `pos`, idle.
pub open spec fn is_idle_at(a: AgentState, id: usize, pos: Pos2) -> bool {
    a.id == id && a.pos == pos && !a.pending && a.path@.len() == 0
}

/// Every slot but `i` kept; slot `i` the same agent, at the same place.
pub open spec fn others_kept(old: Seq<AgentState>, new: Seq<AgentState>, i: int) -> bool {
    &&& new.len() == old.len()
    &&& forall|j: int| 0 <= j < old.len() && j != i ==> new[j] == old[j]
    &&& new[i].id == old[i].id
    &&& new[i].pos == old[i].pos
}

/// The agents after requesting a route for each of `selected` in turn, and
/// the ids that got a request: the first request for an idle or active
/// agent goes out, any other is suppressed.
pub open spec fn plan(agents: Seq<AgentState>, selected: Seq<usize>) -> (Seq<AgentState>, Seq<usize>)
    decreases selected.len(),
{
    if selected.len() == 0 {
        (agents, Seq::empty())
    } else {
        let (a, ids) = plan(agents, selected.drop_last());
        let id = selected.last();
        match find(a, id) {
            Some(i) => if !a[i].pending {
                (a.update(i, AgentState { pending: true, ..a[i] }), ids.push(id))
            } else {
                (a, ids)
            },
            None => (a, ids),
        }
    }
}

/// Where agent `id` stands, if registered.
pub open spec fn pos_of(agents: Seq<AgentState>, id: usize) -> Option<Pos2> {
    match find(agents, id) {
        Some(i) => Some(agents[i].pos),
        None => None,
    }
}

/// Two registries with the same ids slot by slot find every agent alike.
pub proof fn lemma_find_same_ids(a: Seq<AgentState>, b: Seq<AgentState>, id: usize)
    requires
        a.len() == b.len(),
        forall|j: int| 0 <= j < a.len() ==> a[j].id == b[j].id,
    ensures
        find(a, id) == find(b, id),
    decreases a.len(),
{
    if a.len() > 0 {
        lemma_find_same_ids(a.drop_last(), b.drop_last(), id);
    }
}


/// No two slots hold the same agent.
pub open spec fn ids_unique(agents: Seq<AgentState>) -> bool {
    forall|i: int, j: int| 0 <= i < j < agents.len() ==> agents[i].id != agents[j].id
}

/// Once a request for an idle or active agent has gone out, the agent is
/// pending, so `request` answers a second one with `None` and changes
/// nothing: one agent never has two searches in flight.
pub proof fn lemma_second_request_suppressed(agents: Seq<AgentState>, id: usize)
    requires
        find(agents, id) is Some,
        !agents[find(agents, id)->0].pending,
    ensures
        ({
            let i = find(agents, id)->0;
            let after = agents.update(i, AgentState { pending: true, ..agents[i] });
            find(after, id) == Some(i) && after[i].pending
        }),
{
    let i = find(agents, id)->0;
    let after = agents.update(i, AgentState { pending: true, ..agents[i] });
    lemma_find(agents, id);
    lemma_find_same_ids(after, agents, id);
}

/// With ids unique, a removed agent is not found any more, so `complete`
/// drops an answer that arrives for it afterwards and changes nothing.
pub proof fn lemma_removed_agent_not_found(agents: Seq<AgentState>, id: usize)
    requires
        ids_unique(agents),
        find(agents, id) is Some,
    ensures
        find(agents.remove(find(agents, id)->0), id) is None,
{
    let i = find(agents, id)->0;
    let after = agents.remove(i);
    lemma_find(agents, id);
    lemma_find(after, id);
    if let Some(k) = find(after, id) {
        if k < i {
            assert(after[k] == agents[k]);
        } else {
            assert(after[k] == agents[k + 1]);
        }
    }
}


/// The ids of the agents standing on `p`, in registry order.
pub open spec fn ids_at(agents: Seq<AgentState>, p: Pos2) -> Seq<usize>
    decreases agents.len(),
{
    if agents.len() == 0 {
        Seq::empty()
    } else {
        let rest = ids_at(agents.drop_last(), p);
        if agents.last().pos == p {
            rest.push(agents.last().id)
        } else {
            rest
        }
    }
}


/// Requesting for a selection starts one search for each distinct selected
/// agent that had none in flight, and none for any other; afterwards every
/// agent that got one is pending, so none has two searches at a time.
pub proof fn lemma_plan_one_request_each(agents: Seq<AgentState>, selected: Seq<usize>)
    ensures
        ({
            let (after, ids) = plan(agents, selected);
            &&& after.len() == agents.len()
            &&& forall|j: int| 0 <= j < agents.len() ==> (#[trigger] after[j]).id == agents[j].id && after[j].pos == agents[j].pos
            &&& ids.no_duplicates()
            &&& forall|id: usize|
                #[trigger] ids.contains(id) <==> (selected.contains(id) && find(agents, id) is Some
                    && !agents[find(agents, id)->0].pending)
            &&& forall|j: int|
                0 <= j < agents.len() && find(agents, agents[j].id) == Some(j) ==> (#[trigger] after[j]).pending == (
                agents[j].pending || ids.contains(agents[j].id))
            &&& forall|j: int|
                0 <= j < agents.len() && find(agents, agents[j].id) != Some(j) ==> (#[trigger] after[j]).pending == agents[j].pending
        }),
    decreases selected.len(),
{
    if selected.len() > 0 {
        let rest = selected.drop_last();
        lemma_plan_one_request_each(agents, rest);
        let (a, ids) = plan(agents, rest);
        let id = selected.last();
        lemma_find_same_ids(a, agents, id);
        lemma_find(agents, id);
        assert forall|x: usize| selected.contains(x) <==> (rest.contains(x) || x == id) by {
            if selected.contains(x) {
                let k = choose|k: int| 0 <= k < selected.len() && selected[k] == x;
                if k < rest.len() {
                    assert(rest[k] == x);
                }
            }
            if rest.contains(x) {
                let k = choose|k: int| 0 <= k < rest.len() && rest[k] == x;
                assert(selected[k] == x);
            }
            if x == id {
                assert(selected[selected.len() - 1] == x);
            }
        }
        match find(a, id) {
            Some(i) => {
                if !a[i].pending {
                    let (after, ids2) = plan(agents, selected);
                    assert(after == a.update(i, AgentState { pending: true, ..a[i] }));
                    assert(ids2 == ids.push(id));
                    assert(!ids.contains(id));
                    assert forall|x: usize| #[trigger] ids2.contains(x) <==> (ids.contains(x) || x == id) by {
                        if ids2.contains(x) {
                            let k = choose|k: int| 0 <= k < ids2.len() && ids2[k] == x;
                            if k < ids.len() {
                                assert(ids[k] == x);
                            }
                        }
                        if ids.contains(x) {
                            let k = choose|k: int| 0 <= k < ids.len() && ids[k] == x;
                            assert(ids2[k] == x);
                        }
                        if x == id {
                            assert(ids2[ids.len() as int] == x);
                        }
                    }
                    assert forall|j: int|
                        0 <= j < agents.len() && find(agents, agents[j].id) == Some(j) implies (#[trigger] after[j]).pending
                        == (agents[j].pending || ids2.contains(agents[j].id)) by {
                        if j != i {
                            assert(agents[j].id != id);
                        }
                    }
                }
            },
            None => {},
        }
    }
}

impl AgentPaths {
    pub fn new() -> (r: Self)
        ensures
            r.agents@.len() == 0,
            r.queued_points@.len() == 0,
    {
        AgentPaths { agents: Vec::new(), queued_points: Vec::new() }
    }

    fn slot(&self, id: usize) -> (r: Option<usize>)
        ensures
            r matches Some(i) ==> find(self.agents@, id) == Some(i as int) && i < self.agents@.len()
                && self.agents@[i as int].id == id,
            r is None ==> find(self.agents@, id) is None,
    {
        proof {
            lemma_find(self.agents@, id);
        }
        let mut i: usize = 0;
        while i < self.agents.len()
            invariant
                i <= self.agents@.len(),
                forall|j: int| 0 <= j < i ==> self.agents@[j].id != id,
                match find(self.agents@, id) {
                    Some(k) => 0 <= k < self.agents@.len() && self.agents@[k].id == id && forall|j: int|
                        0 <= j < k ==> self.agents@[j].id != id,
                    None => forall|j: int| 0 <= j < self.agents@.len() ==> self.agents@[j].id != id,
                },
            decreases self.agents@.len() - i,
        {
            if self.agents[i].id == id {
                return Some(i);
            }
            i += 1;
        }
        None
    }

    /// Registers agent `id` at `pos`, idle; an agent already registered only
    /// moves to `pos`.
    pub fn add_agent(&mut self, id: usize, pos: Pos2)
        ensures
            final(self).queued_points == old(self).queued_points,
            ids_unique(old(self).agents@) ==> ids_unique(final(self).agents@),
            match find(old(self).agents@, id) {
                Some(i) => final(self).agents@ == old(self).agents@.update(
                    i,
                    AgentState { pos, ..old(self).agents@[i] },
                ),
                None => final(self).agents@.len() == old(self).agents@.len() + 1
                    && final(self).agents@.drop_last() == old(self).agents@
                    && is_idle_at(final(self).agents@.last(), id, pos),
            },
    {
        match self.slot(id) {
            Some(i) => {
                self.agents[i].pos = pos;
            },
            None => {
                self.agents.push(AgentState { id, pos, pending: false, path: Vec::new() });
                proof {
                    assert(self.agents@.drop_last() =~= old(self).agents@);
                    lemma_find(old(self).agents@, id);
                }
            },
        }
    }

    /// Forgets agent `id`. A query still in flight for it is left to finish;
    /// its answer will find no agent and be dropped.
    pub fn remove_agent(&mut self, id: usize)
        ensures
            final(self).queued_points == old(self).queued_points,
            ids_unique(old(self).agents@) ==> ids_unique(final(self).agents@),
            match find(old(self).agents@, id) {
                Some(i) => final(self).agents@ == old(self).agents@.remove(i),
                None => final(self).agents@ == old(self).agents@,
            },
    {
        if let Some(i) = self.slot(id) {
            self.agents.remove(i);
        }
    }

    /// Holds `p` as the next stop of the route the next navigation sends.
    pub fn queue_point(&mut self, p: Pos2)
        ensures
            final(self).queued_points@ == old(self).queued_points@.push(p),
            final(self).agents == old(self).agents,
    {
        self.queued_points.push(p);
    }

    /// Asks for a route for agent `id` through `waypoints`. Only an agent with
    /// no query in flight gets one: it becomes pending and the request to run
    /// is returned. A pending or unknown agent gets nothing, and nothing
    /// changes, so one agent never has two searches at a time.
    pub fn request(&mut self, id: usize, waypoints: Vec<Pos2>) -> (r: Option<PathRequest>)
        ensures
            final(self).queued_points == old(self).queued_points,
            match find(old(self).agents@, id) {
                Some(i) => if old(self).agents@[i].pending {
                    r is None && final(self).agents@ == old(self).agents@
                } else {
                    &&& r matches Some(q) && q.agent == id && q.start == old(self).agents@[i].pos
                        && q.waypoints@ == waypoints@
                    &&& final(self).agents@ == old(self).agents@.update(
                        i,
                        AgentState { pending: true, ..old(self).agents@[i] },
                    )
                },
                None => r is None && final(self).agents@ == old(self).agents@,
            },
    {
        match self.slot(id) {
            Some(i) => {
                if self.agents[i].pending {
                    None
                } else {
                    self.agents[i].pending = true;
                    Some(PathRequest { agent: id, start: self.agents[i].pos, waypoints })
                }
            },
            None => None,
        }
    }

    /// Takes the answer of the query for agent `id`. A pending agent gets the
    /// path installed in place of any previous one (`Some`), or no path
    /// (`None`), and is no longer pending. An answer for an agent that is
    /// gone, or not pending, is dropped and changes nothing.
    pub fn complete(&mut self, id: usize, result: Option<Vec<Pos2>>)
        ensures
            final(self).queued_points == old(self).queued_points,
            match find(old(self).agents@, id) {
                Some(i) => if old(self).agents@[i].pending {
                    &&& others_kept(old(self).agents@, final(self).agents@, i)
                    &&& !final(self).agents@[i].pending
                    &&& final(self).agents@[i].path@ == match result {
                        Some(p) => p@,
                        None => Seq::<Pos2>::empty(),
                    }
                } else {
                    final(self).agents@ == old(self).agents@
                },
                None => final(self).agents@ == old(self).agents@,
            },
    {
        if let Some(i) = self.slot(id) {
            if self.agents[i].pending {
                self.agents[i].pending = false;
                match result {
                    Some(p) => {
                        self.agents[i].path = p;
                    },
                    None => {
                        self.agents[i].path = Vec::new();
                    },
                }
            }
        }
    }

    /// A destination picked while agents are selected: it closes the queued
    /// route, and each selected agent without a query in flight gets one
    /// request from where it stands through the queued points. The queue is
    /// emptied either way.
    pub fn navigate(&mut self, dest: Pos2, selected: &Vec<usize>) -> (r: Vec<PathRequest>)
        ensures
            final(self).queued_points@.len() == 0,
            final(self).agents@ == plan(old(self).agents@, selected@).0,
            r@.len() == plan(old(self).agents@, selected@).1.len(),
            forall|k: int|
                0 <= k < r@.len() ==> {
                    let q = #[trigger] r@[k];
                    &&& q.agent == plan(old(self).agents@, selected@).1[k]
                    &&& pos_of(old(self).agents@, q.agent) == Some(q.start)
                    &&& q.waypoints@ == if selected@.len() > 0 {
                        old(self).queued_points@.push(dest)
                    } else {
                        old(self).queued_points@
                    }
                },
    {
        if selected.len() > 0 {
            self.queued_points.push(dest);
        }
        let ghost route = self.queued_points@;
        let ghost start = old(self).agents@;
        let mut out: Vec<PathRequest> = Vec::new();
        let mut k: usize = 0;
        while k < selected.len()
            invariant
                k <= selected@.len(),
                self.queued_points@ == route,
                route == if selected@.len() > 0 {
                    old(self).queued_points@.push(dest)
                } else {
                    old(self).queued_points@
                },
                self.agents@ == plan(start, selected@.take(k as int)).0,
                out@.len() == plan(start, selected@.take(k as int)).1.len(),
                self.agents@.len() == start.len(),
                forall|j: int| 0 <= j < start.len() ==> (#[trigger] self.agents@[j]).id == start[j].id
                    && self.agents@[j].pos == start[j].pos,
                forall|j: int|
                    0 <= j < out@.len() ==> {
                        let q = #[trigger] out@[j];
                        &&& q.agent == plan(start, selected@.take(k as int)).1[j]
                        &&& pos_of(start, q.agent) == Some(q.start)
                        &&& q.waypoints@ == route
                    },
            decreases selected@.len() - k,
        {
            let id = selected[k];
            let ghost before = self.agents@;
            proof {
                assert(selected@.take(k + 1).drop_last() =~= selected@.take(k as int));
                assert(selected@.take(k + 1).last() == id);
                lemma_find_same_ids(before, start, id);
                lemma_find(before, id);
            }
            let waypoints = self.queued_points.clone();
            proof {
                assert(waypoints@ =~= route);
            }
            match self.request(id, waypoints) {
                Some(q) => {
                    out.push(q);
                },
                None => {},
            }
            k += 1;
        }
        proof {
            assert(selected@.take(selected@.len() as int) =~= selected@);
        }
        self.queued_points.clear();
        out
    }

    /// The agents a pick on cell `p` hits. A pick that hits none is a
    /// destination for `navigate`.
    pub fn agents_at(&self, p: Pos2) -> (r: Vec<usize>)
        ensures
            r@ == ids_at(self.agents@, p),
    {
        let mut r: Vec<usize> = Vec::new();
        let mut i: usize = 0;
        while i < self.agents.len()
            invariant
                i <= self.agents@.len(),
                r@ == ids_at(self.agents@.take(i as int), p),
            decreases self.agents@.len() - i,
        {
            proof {
                assert(self.agents@.take(i + 1).drop_last() =~= self.agents@.take(i as int));
            }
            if self.agents[i].pos == p {
                r.push(self.agents[i].id);
            }
            i += 1;
        }
        proof {
            assert(self.agents@.take(self.agents@.len() as int) =~= self.agents@);
        }
        r
    }

    /// One movement tick: every agent with cells left jumps to the first of
    /// them, which leaves its path.
    pub fn step(&mut self)
        ensures
            final(self).queued_points == old(self).queued_points,
            final(self).agents@.len() == old(self).agents@.len(),
            forall|i: int|
                0 <= i < old(self).agents@.len() ==> {
                    let a = old(self).agents@[i];
                    let b = #[trigger] final(self).agents@[i];
                    if a.path@.len() > 0 {
                        b.id == a.id && b.pending == a.pending && b.pos == a.path@[0] && b.path@ == a.path@.drop_first()
                    } else {
                        b == a
                    }
                },
    {
        let mut i: usize = 0;
        while i < self.agents.len()
            invariant
                i <= self.agents@.len(),
                self.agents@.len() == old(self).agents@.len(),
                self.queued_points == old(self).queued_points,
                forall|j: int| i <= j < self.agents@.len() ==> self.agents@[j] == old(self).agents@[j],
                forall|j: int|
                    0 <= j < i ==> {
                        let a = old(self).agents@[j];
                        let b = #[trigger] self.agents@[j];
                        if a.path@.len() > 0 {
                            b.id == a.id && b.pending == a.pending && b.pos == a.path@[0] && b.path@
                                == a.path@.drop_first()
                        } else {
                            b == a
                        }
                    },
            decreases self.agents@.len() - i,
        {
            if self.agents[i].path.len() > 0 {
                let next = self.agents[i].path.remove(0);
                self.agents[i].pos = next;
                proof {
                    assert(self.agents@[i as int].path@ =~= old(self).agents@[i as int].path@.drop_first());
                }
            }
            i += 1;
        }
    }
}

} // verus!
