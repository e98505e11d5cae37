//! The population registry and tick orchestration.
//!
//! A [`Simulation`] owns every individual and relationship record in an
//! index-stable arena: identifiers are vector indices, never reused, and
//! removal blanks the slot. Referential integrity is the well-formedness
//! predicate [`Simulation::wf`], which every operation preserves; at tick
//! boundaries the stronger [`Simulation::no_dangling`] also holds, so no
//! partnership outlives a removed member across a tick.

use vstd::prelude::*;

use crate::config::SimulationParameters;
use crate::events::EventLog;
use crate::individual::{Individual, Sex};
use crate::partner::{AvailableSeekers, Partners, Relationship, WidowNotice};

verus! {

/// The whole simulation state: registry, seeker queues, staged matches,
/// removal notices, configuration, event log and the clock.
pub struct Simulation {
    /// Individual records, indexed by identifier; `None` marks a removed
    /// individual and is never reused.
    pub individuals: Vec<Option<Individual>>,
    /// Partnership records, indexed by identifier; `None` marks a
    /// dissolved partnership and is never reused.
    pub relationships: Vec<Option<Relationship>>,
    /// The per-sex queues of individuals awaiting matching.
    pub seekers: AvailableSeekers,
    /// Pairs proposed by a matching round, awaiting resolution.
    pub pending_matches: Vec<Partners>,
    /// Removal notices published by the registry and consumed by
    /// widowhood cleanup.
    pub pending_widows: Vec<WidowNotice>,
    /// Current configuration; replaceable wholesale between ticks.
    pub params: SimulationParameters,
    /// Events emitted so far.
    pub log: EventLog,
    /// Elapsed simulated time, in time units.
    pub time: u64,
}

impl Simulation {
    /// Number of identifiers handed out so far (live or removed).
    pub open spec fn n_ids(self) -> int {
        self.individuals@.len() as int
    }

    /// Whether identifier `i` currently names a live individual.
    pub open spec fn alive(self, i: int) -> bool {
        0 <= i < self.individuals@.len() && self.individuals@[i] is Some
    }

    /// The record of live individual `i`.
    pub open spec fn ind(self, i: int) -> Individual {
        self.individuals@[i]->Some_0
    }

    /// Number of partnership identifiers handed out so far.
    pub open spec fn n_rels(self) -> int {
        self.relationships@.len() as int
    }

    /// Whether identifier `j` currently names a live partnership.
    pub open spec fn rel_live(self, j: int) -> bool {
        0 <= j < self.relationships@.len() && self.relationships@[j] is Some
    }

    /// The record of live partnership `j`.
    pub open spec fn rel(self, j: int) -> Relationship {
        self.relationships@[j]->Some_0
    }

    /// Whether individual `i` is one of partnership `j`'s two members.
    pub open spec fn is_member(self, j: int, i: int) -> bool {
        self.rel(j).partners.e1 as int == i || self.rel(j).partners.e2 as int == i
    }

    /// Whether a removal notice for individual `d` and partnership `j` is
    /// waiting to be consumed.
    pub open spec fn widow_pending(self, d: int, j: int) -> bool {
        exists|k: int|
            0 <= k < self.pending_widows@.len() && (#[trigger] self.pending_widows@[k])
                == (WidowNotice { deceased: d as usize, relationship: j as usize })
    }

    /// Consistency of one individual record: a partnership reference names
    /// a live partnership that points back, partnered individuals are not
    /// seeking, seekers are unpartnered adults, and only females gestate.
    pub open spec fn ind_wf(self, i: int) -> bool {
        let rec = self.ind(i);
        &&& (rec.partnership is Some ==> {
            &&& self.rel_live(rec.partnership->Some_0 as int)
            &&& self.is_member(rec.partnership->Some_0 as int, i)
            &&& !rec.seeking
        })
        &&& (rec.seeking ==> rec.adult && rec.partnership is None)
        &&& (rec.gestation is Some ==> rec.demog.sex == Sex::Female)
    }

    pub open spec fn inds_wf(self) -> bool {
        forall|i: int| #[trigger] self.alive(i) ==> self.ind_wf(i)
    }

    /// Consistency of one partnership record: two distinct, in-range
    /// members; each live member references this partnership back; each
    /// removed member has a pending removal notice for it.
    pub open spec fn rel_wf(self, j: int) -> bool {
        let p = self.rel(j).partners;
        &&& p.e1 != p.e2
        &&& (p.e1 as int) < self.n_ids()
        &&& (p.e2 as int) < self.n_ids()
        &&& (self.alive(p.e1 as int) ==> self.ind(p.e1 as int).partnership == Some(
            j as usize,
        ))
        &&& (self.alive(p.e2 as int) ==> self.ind(p.e2 as int).partnership == Some(
            j as usize,
        ))
        &&& (!self.alive(p.e1 as int) ==> self.widow_pending(p.e1 as int, j))
        &&& (!self.alive(p.e2 as int) ==> self.widow_pending(p.e2 as int, j))
    }

    pub open spec fn rels_wf(self) -> bool {
        forall|j: int| #[trigger] self.rel_live(j) ==> self.rel_wf(j)
    }

    /// Whether two partnerships name four pairwise distinct members.
    pub open spec fn members_disjoint(self, j1: int, j2: int) -> bool {
        let p1 = self.rel(j1).partners;
        let p2 = self.rel(j2).partners;
        p1.e1 != p2.e1 && p1.e1 != p2.e2 && p1.e2 != p2.e1 && p1.e2 != p2.e2
    }

    /// No identifier appears in two live partnerships at once.
    pub open spec fn rels_disjoint(self) -> bool {
        forall|j1: int, j2: int|
            #![trigger self.rel_live(j1), self.rel_live(j2)]
            self.rel_live(j1) && self.rel_live(j2) && j1 != j2 ==> self.members_disjoint(j1, j2)
    }

    /// Both seeker queues, females first.
    pub open spec fn queued_ids(self) -> Seq<usize> {
        self.seekers.females@ + self.seekers.males@
    }

    /// Whether identifier `i` sits in either seeker queue.
    pub open spec fn in_queues(self, i: int) -> bool {
        self.queued_ids().contains(i as usize)
    }

    /// Queue entries are in-range identifiers, no identifier is queued
    /// twice — in one queue or across the two — and a queued individual
    /// that is still alive carries the seeking flag (only removal leaves
    /// a stale entry behind, to be filtered at the next matching round).
    pub open spec fn queues_wf(self) -> bool {
        &&& self.queued_ids().no_duplicates()
        &&& forall|k: int|
            0 <= k < self.queued_ids().len() ==> {
                let e = (#[trigger] self.queued_ids()[k]) as int;
                e < self.n_ids() && (self.alive(e) ==> self.ind(e).seeking)
            }
    }

    /// Consistency of one staged match: two distinct in-range members,
    /// both already dequeued, each one still seeking unless it aged into
    /// elderhood (or died) while the match was staged.
    pub open spec fn pending_pair_wf(self, p: Partners) -> bool {
        &&& p.e1 != p.e2
        &&& (p.e1 as int) < self.n_ids()
        &&& (p.e2 as int) < self.n_ids()
        &&& !self.in_queues(p.e1 as int)
        &&& !self.in_queues(p.e2 as int)
        &&& (self.alive(p.e1 as int) ==> self.ind(p.e1 as int).seeking || self.ind(
            p.e1 as int,
        ).elder)
        &&& (self.alive(p.e2 as int) ==> self.ind(p.e2 as int).seeking || self.ind(
            p.e2 as int,
        ).elder)
    }

    /// Whether two staged matches name four pairwise distinct members.
    pub open spec fn pairs_disjoint(p1: Partners, p2: Partners) -> bool {
        p1.e1 != p2.e1 && p1.e1 != p2.e2 && p1.e2 != p2.e1 && p1.e2 != p2.e2
    }

    pub open spec fn pending_wf(self) -> bool {
        &&& forall|k: int|
            0 <= k < self.pending_matches@.len() ==> self.pending_pair_wf(
                #[trigger] self.pending_matches@[k],
            )
        &&& forall|k1: int, k2: int|
            #![trigger self.pending_matches@[k1], self.pending_matches@[k2]]
            0 <= k1 < k2 < self.pending_matches@.len() ==> Self::pairs_disjoint(
                self.pending_matches@[k1],
                self.pending_matches@[k2],
            )
    }

    /// Consistency of one removal notice: it names a removed individual
    /// and, while its partnership is still live, that individual is one of
    /// its members.
    pub open spec fn widow_notice_wf(self, w: WidowNotice) -> bool {
        &&& (w.relationship as int) < self.n_rels()
        &&& (w.deceased as int) < self.n_ids()
        &&& !self.alive(w.deceased as int)
        &&& (self.rel_live(w.relationship as int) ==> self.is_member(
            w.relationship as int,
            w.deceased as int,
        ))
    }

    pub open spec fn widows_wf(self) -> bool {
        forall|k: int|
            0 <= k < self.pending_widows@.len() ==> self.widow_notice_wf(
                #[trigger] self.pending_widows@[k],
            )
    }

    /// Referential integrity of the whole state; established by
    /// construction and preserved by every operation.
    pub open spec fn wf(self) -> bool {
        &&& self.inds_wf()
        &&& self.rels_wf()
        &&& self.rels_disjoint()
        &&& self.queues_wf()
        &&& self.pending_wf()
        &&& self.widows_wf()
    }

    /// Both members of every live partnership are alive. Holds at tick
    /// boundaries, once widowhood cleanup has drained the notices.
    pub open spec fn no_dangling(self) -> bool {
        forall|j: int| #[trigger] self.rel_live(j) ==> self.alive(self.rel(j).partners.e1 as int)
            && self.alive(self.rel(j).partners.e2 as int)
    }

    /// The partner-market views of `self` and `other` coincide.
    pub open spec fn same_market_views(self, other: Simulation) -> bool {
        &&& other.relationships@ == self.relationships@
        &&& other.seekers.females@ == self.seekers.females@
        &&& other.seekers.males@ == self.seekers.males@
        &&& other.pending_matches@ == self.pending_matches@
        &&& other.pending_widows@ == self.pending_widows@
    }

    /// An empty simulation under the given configuration.
    pub fn new(params: SimulationParameters) -> (s: Simulation)
        ensures
            s.wf(),
            s.params == params,
            s.time == 0,
            s.individuals@.len() == 0,
            s.relationships@.len() == 0,
            s.seekers.females@.len() == 0,
            s.seekers.males@.len() == 0,
            s.pending_matches@.len() == 0,
            s.pending_widows@.len() == 0,
            s.log.births@.len() == 0,
            s.log.deaths@.len() == 0,
            s.log.partnerships@.len() == 0,
            s.log.breakups@.len() == 0,
            s.log.widowings@.len() == 0,
    {
        Simulation {
            individuals: Vec::new(),
            relationships: Vec::new(),
            seekers: AvailableSeekers::default(),
            pending_matches: Vec::new(),
            pending_widows: Vec::new(),
            params,
            log: EventLog::default(),
            time: 0,
        }
    }

    /// Replaces the configuration between ticks.
    pub fn set_params(&mut self, params: SimulationParameters)
        requires
            old(self).wf(),
        ensures
            final(self).wf(),
            *final(self) == (Simulation { params, ..*old(self) }),
    {
        self.params = params;
        proof {
            lemma_wf_views(*old(self), *self);
        }
    }

    /// Registry creation primitive: appends a record under a fresh
    /// identifier. The record must enter unpartnered; gestation is
    /// admitted only on females, and the seeking flag only on adults.
    pub fn insert_individual(&mut self, rec: Individual) -> (id: usize)
        requires
            old(self).wf(),
            rec.partnership is None,
            rec.seeking ==> rec.adult,
            rec.gestation is Some ==> rec.demog.sex == Sex::Female,
        ensures
            final(self).wf(),
            id as int == old(self).n_ids(),
            final(self).individuals@ == old(self).individuals@.push(Some(rec)),
            final(self).relationships == old(self).relationships,
            final(self).seekers.females == old(self).seekers.females,
            final(self).seekers.males == old(self).seekers.males,
            final(self).pending_matches == old(self).pending_matches,
            final(self).pending_widows == old(self).pending_widows,
            final(self).params == old(self).params,
            final(self).log == old(self).log,
            final(self).time == old(self).time,
    {
        let id = self.individuals.len();
        self.individuals.push(Some(rec));
        proof {
            lemma_wf_insert(*old(self), *self, rec);
        }
        id
    }

    /// Registry lookup primitive: the record under `id`, or `None` after
    /// removal or for an identifier never handed out.
    pub fn get_individual(&self, id: usize) -> (r: Option<Individual>)
        ensures
            self.alive(id as int) ==> r == Some(self.ind(id as int)),
            !self.alive(id as int) ==> r is None,
    {
        if id < self.individuals.len() {
            self.individuals[id]
        } else {
            None
        }
    }

    /// Partnership lookup: the record under `j`, or `None` after
    /// dissolution or for an identifier never handed out.
    pub fn get_relationship(&self, j: usize) -> (r: Option<Relationship>)
        ensures
            self.rel_live(j as int) ==> r == Some(self.rel(j as int)),
            !self.rel_live(j as int) ==> r is None,
    {
        if j < self.relationships.len() {
            self.relationships[j]
        } else {
            None
        }
    }

    /// Registry destruction primitive: blanks the record under `id` and,
    /// if the individual was partnered, publishes a removal notice naming
    /// the partnership it invalidated. No event is emitted here; callers
    /// decide what the removal means. Removing a dead or unknown
    /// identifier is a no-op.
    pub fn remove_individual(&mut self, id: usize)
        requires
            old(self).wf(),
        ensures
            final(self).wf(),
            old(self).alive(id as int)
                ==> final(self).individuals@
                    == old(self).individuals@.update(id as int, None::<Individual>),
            old(self).alive(id as int) && old(self).ind(id as int).partnership is Some
                ==> final(self).pending_widows@
                    == old(self).pending_widows@.push(
                        WidowNotice {
                            deceased: id,
                            relationship: old(self).ind(id as int).partnership->Some_0,
                        },
                    ),
            old(self).alive(id as int) && old(self).ind(id as int).partnership is None
                ==> final(self).pending_widows@ == old(self).pending_widows@,
            !old(self).alive(id as int) ==> *final(self) == *old(self),
            final(self).individuals@.len() == old(self).individuals@.len(),
            final(self).relationships == old(self).relationships,
            final(self).seekers.females == old(self).seekers.females,
            final(self).seekers.males == old(self).seekers.males,
            final(self).pending_matches == old(self).pending_matches,
            final(self).params == old(self).params,
            final(self).log == old(self).log,
            final(self).time == old(self).time,
    {
        if id < self.individuals.len() {
            let slot = self.individuals[id];
            if let Some(rec) = slot {
                if let Some(j) = rec.partnership {
                    self.pending_widows.push(WidowNotice { deceased: id, relationship: j });
                }
                self.individuals.set(id, None);
                proof {
                    lemma_wf_remove(*old(self), *self, id as int);
                }
            }
        }
    }
}

/// A queued individual that is alive is flagged seeking.
pub(crate) proof fn lemma_queued_alive_seeking(s: Simulation, id: int)
    requires
        s.wf(),
        s.alive(id),
        s.in_queues(id),
    ensures
        s.ind(id).seeking,
{
    assert(s.individuals.len() == s.individuals@.len());
    let k = choose|k: int|
        0 <= k < s.queued_ids().len() && s.queued_ids()[k] == id as usize;
    assert(s.queued_ids()[k] == id as usize);
    assert((s.queued_ids()[k] as int) < s.n_ids() && (s.alive(s.queued_ids()[k] as int)
        ==> s.ind(s.queued_ids()[k] as int).seeking));
}

/// A prefix of a prefix is a prefix.
pub(crate) proof fn lemma_prefix_trans<A>(a: Seq<A>, b: Seq<A>, c: Seq<A>)
    requires
        a.is_prefix_of(b),
        b.is_prefix_of(c),
    ensures
        a.is_prefix_of(c),
{
    assert forall|i: int| 0 <= i < a.len() implies a[i] == c[i] by {
        assert(a[i] == b.subrange(0, a.len() as int)[i]);
        assert(b[i] == c.subrange(0, b.len() as int)[i]);
    }
    assert(a =~= c.subrange(0, a.len() as int));
}

/// A sequence is a prefix of itself extended by one element.
pub(crate) proof fn lemma_prefix_push<A>(b: Seq<A>, x: A)
    ensures
        b.is_prefix_of(b.push(x)),
{
    assert(b =~= b.push(x).subrange(0, b.len() as int));
}

/// Whatever a prefix contains, the whole contains.
pub(crate) proof fn lemma_contains_prefix<A>(a: Seq<A>, b: Seq<A>, x: A)
    requires
        a.is_prefix_of(b),
        a.contains(x),
    ensures
        b.contains(x),
{
    let k = choose|k: int| 0 <= k < a.len() && a[k] == x;
    assert(a[k] == b.subrange(0, a.len() as int)[k]);
    assert(b[k] == x);
}

/// An outstanding removal notice stays outstanding when further notices
/// are appended.
pub(crate) proof fn lemma_widow_pending_prefix(pre: Simulation, post: Simulation, d: int, j: int)
    requires
        pre.widow_pending(d, j),
        pre.pending_widows@.is_prefix_of(post.pending_widows@),
    ensures
        post.widow_pending(d, j),
{
    let k = choose|k: int|
        0 <= k < pre.pending_widows@.len() && (#[trigger] pre.pending_widows@[k]) == (WidowNotice {
            deceased: d as usize,
            relationship: j as usize,
        });
    assert(pre.pending_widows@[k] == post.pending_widows@.subrange(
        0,
        pre.pending_widows@.len() as int,
    )[k]);
    assert(post.pending_widows@[k] == (WidowNotice {
        deceased: d as usize,
        relationship: j as usize,
    }));
}

/// Well-formedness only reads the registry and partner-market views, so it
/// transfers to any state that agrees on them (one that differs only in
/// configuration, clock or event log).
pub(crate) proof fn lemma_wf_views(pre: Simulation, post: Simulation)
    requires
        pre.wf(),
        post.individuals@ == pre.individuals@,
        pre.same_market_views(post),
    ensures
        post.wf(),
        pre.no_dangling() ==> post.no_dangling(),
{
    assert(post.inds_wf()) by {
        assert forall|i: int| #[trigger] post.alive(i) implies post.ind_wf(i) by {
            assert(pre.alive(i));
            assert(pre.ind_wf(i));
        }
    }
    assert(post.rels_wf()) by {
        assert forall|j: int| #[trigger] post.rel_live(j) implies post.rel_wf(j) by {
            assert(pre.rel_live(j));
            assert(pre.rel_wf(j));
        }
    }
    assert(post.rels_disjoint()) by {
        assert forall|j1: int, j2: int|
            #![trigger post.rel_live(j1), post.rel_live(j2)]
            post.rel_live(j1) && post.rel_live(j2) && j1 != j2 implies post.members_disjoint(
            j1,
            j2,
        ) by {
            assert(pre.rel_live(j1) && pre.rel_live(j2));
        }
    }
    assert(post.queued_ids() == pre.queued_ids());
    assert(post.queues_wf()) by {
        assert forall|k: int| 0 <= k < post.queued_ids().len() implies {
            let e = (#[trigger] post.queued_ids()[k]) as int;
            e < post.n_ids() && (post.alive(e) ==> post.ind(e).seeking)
        } by {
            let e = pre.queued_ids()[k] as int;
            assert(e < pre.n_ids() && (pre.alive(e) ==> pre.ind(e).seeking));
        }
    }
    assert(post.pending_wf()) by {
        assert forall|k: int|
            0 <= k < post.pending_matches@.len() implies post.pending_pair_wf(
            #[trigger] post.pending_matches@[k],
        ) by {
            assert(pre.pending_pair_wf(pre.pending_matches@[k]));
        }
    }
    assert(post.widows_wf()) by {
        assert forall|k: int|
            0 <= k < post.pending_widows@.len() implies post.widow_notice_wf(
            #[trigger] post.pending_widows@[k],
        ) by {
            assert(pre.widow_notice_wf(pre.pending_widows@[k]));
        }
    }
    if pre.no_dangling() {
        assert forall|j: int| #[trigger] post.rel_live(j) implies post.alive(
            post.rel(j).partners.e1 as int,
        ) && post.alive(post.rel(j).partners.e2 as int) by {
            assert(pre.rel_live(j));
        }
    }
}

/// Appending a fresh record that enters unpartnered (gestating only if
/// female, seeking only if adult) preserves well-formedness.
pub(crate) proof fn lemma_wf_insert(pre: Simulation, post: Simulation, rec: Individual)
    requires
        pre.wf(),
        rec.partnership is None,
        rec.seeking ==> rec.adult,
        rec.gestation is Some ==> rec.demog.sex == Sex::Female,
        post.individuals@ == pre.individuals@.push(Some(rec)),
        pre.same_market_views(post),
    ensures
        post.wf(),
{
    let n = pre.n_ids();
    assert(post.inds_wf()) by {
        assert forall|i: int| #[trigger] post.alive(i) implies post.ind_wf(i) by {
            if i < n {
                assert(pre.alive(i));
                assert(pre.ind_wf(i));
                assert(post.ind(i) == pre.ind(i));
            } else {
                assert(post.ind(i) == rec);
            }
        }
    }
    assert(post.rels_wf()) by {
        assert forall|j: int| #[trigger] post.rel_live(j) implies post.rel_wf(j) by {
            assert(pre.rel_live(j));
            assert(pre.rel_wf(j));
            let p = pre.rel(j).partners;
            assert(post.rel(j) == pre.rel(j));
            assert(post.alive(p.e1 as int) == pre.alive(p.e1 as int));
            assert(post.alive(p.e2 as int) == pre.alive(p.e2 as int));
            assert(pre.alive(p.e1 as int) ==> post.ind(p.e1 as int) == pre.ind(p.e1 as int));
            assert(pre.alive(p.e2 as int) ==> post.ind(p.e2 as int) == pre.ind(p.e2 as int));
        }
    }
    assert(post.rels_disjoint()) by {
        assert forall|j1: int, j2: int|
            #![trigger post.rel_live(j1), post.rel_live(j2)]
            post.rel_live(j1) && post.rel_live(j2) && j1 != j2 implies post.members_disjoint(
            j1,
            j2,
        ) by {
            assert(pre.rel_live(j1) && pre.rel_live(j2));
        }
    }
    assert(post.queued_ids() == pre.queued_ids());
    assert(post.queues_wf()) by {
        assert forall|k: int| 0 <= k < post.queued_ids().len() implies {
            let e = (#[trigger] post.queued_ids()[k]) as int;
            e < post.n_ids() && (post.alive(e) ==> post.ind(e).seeking)
        } by {
            let e = pre.queued_ids()[k] as int;
            assert(e < pre.n_ids() && (pre.alive(e) ==> pre.ind(e).seeking));
            assert(pre.queued_ids().contains(pre.queued_ids()[k]));
        }
        }
    assert(post.pending_wf()) by {
        assert forall|k: int|
            0 <= k < post.pending_matches@.len() implies post.pending_pair_wf(
            #[trigger] post.pending_matches@[k],
        ) by {
            let p = pre.pending_matches@[k];
            assert(pre.pending_pair_wf(p));
            assert(post.alive(p.e1 as int) == pre.alive(p.e1 as int));
            assert(post.alive(p.e2 as int) == pre.alive(p.e2 as int));
            assert(pre.alive(p.e1 as int) ==> post.ind(p.e1 as int) == pre.ind(p.e1 as int));
            assert(pre.alive(p.e2 as int) ==> post.ind(p.e2 as int) == pre.ind(p.e2 as int));
        }
    }
    assert(post.widows_wf()) by {
        assert forall|k: int|
            0 <= k < post.pending_widows@.len() implies post.widow_notice_wf(
            #[trigger] post.pending_widows@[k],
        ) by {
            let w = pre.pending_widows@[k];
            assert(pre.widow_notice_wf(w));
            assert(post.alive(w.deceased as int) == pre.alive(w.deceased as int));
        }
    }
}

/// Blanking one record and, if it was partnered, publishing the removal
/// notice for its partnership preserves well-formedness.
pub(crate) proof fn lemma_wf_remove(pre: Simulation, post: Simulation, id: int)
    requires
        pre.wf(),
        pre.alive(id),
        post.individuals@ == pre.individuals@.update(id, None::<Individual>),
        post.relationships@ == pre.relationships@,
        post.seekers.females@ == pre.seekers.females@,
        post.seekers.males@ == pre.seekers.males@,
        post.pending_matches@ == pre.pending_matches@,
        pre.ind(id).partnership is Some ==> post.pending_widows@ == pre.pending_widows@.push(
            WidowNotice {
                deceased: id as usize,
                relationship: pre.ind(id).partnership->Some_0,
            },
        ),
        pre.ind(id).partnership is None ==> post.pending_widows@ == pre.pending_widows@,
    ensures
        post.wf(),
{
    assert(pre.ind_wf(id));
    assert(post.inds_wf()) by {
        assert forall|i: int| #[trigger] post.alive(i) implies post.ind_wf(i) by {
            assert(i != id);
            assert(pre.alive(i));
            assert(pre.ind_wf(i));
            assert(post.ind(i) == pre.ind(i));
            if post.ind(i).partnership is Some {
                let j = post.ind(i).partnership->Some_0 as int;
                assert(post.rel_live(j) == pre.rel_live(j));
                assert(post.rel(j) == pre.rel(j));
            }
        }
    }
    assert(post.rels_wf()) by {
        assert forall|j: int| #[trigger] post.rel_live(j) implies post.rel_wf(j) by {
            assert(pre.rel_live(j));
            assert(pre.rel_wf(j));
            let p = pre.rel(j).partners;
            assert(post.rel(j) == pre.rel(j));
            // transfer the notices that already covered removed members
            if !pre.alive(p.e1 as int) {
                let k = choose|k: int|
                    0 <= k < pre.pending_widows@.len() && (#[trigger] pre.pending_widows@[k])
                        == (WidowNotice { deceased: p.e1, relationship: j as usize });
                assert(post.pending_widows@[k] == pre.pending_widows@[k]);
                assert(post.widow_pending(p.e1 as int, j));
            }
            if !pre.alive(p.e2 as int) {
                let k = choose|k: int|
                    0 <= k < pre.pending_widows@.len() && (#[trigger] pre.pending_widows@[k])
                        == (WidowNotice { deceased: p.e2, relationship: j as usize });
                assert(post.pending_widows@[k] == pre.pending_widows@[k]);
                assert(post.widow_pending(p.e2 as int, j));
            }
            // the member removed now is covered by the pushed notice
            if p.e1 as int == id || p.e2 as int == id {
                assert(pre.ind(id).partnership == Some(j as usize));
                let k = pre.pending_widows@.len() as int;
                assert(post.pending_widows@[k] == (WidowNotice {
                    deceased: id as usize,
                    relationship: j as usize,
                }));
                assert(post.widow_pending(id, j));
            }
        }
    }
    assert(post.rels_disjoint()) by {
        assert forall|j1: int, j2: int|
            #![trigger post.rel_live(j1), post.rel_live(j2)]
            post.rel_live(j1) && post.rel_live(j2) && j1 != j2 implies post.members_disjoint(
            j1,
            j2,
        ) by {
            assert(pre.rel_live(j1) && pre.rel_live(j2));
        }
    }
    assert(post.queued_ids() == pre.queued_ids());
    assert(post.queues_wf()) by {
        assert forall|k: int| 0 <= k < post.queued_ids().len() implies {
            let e = (#[trigger] post.queued_ids()[k]) as int;
            e < post.n_ids() && (post.alive(e) ==> post.ind(e).seeking)
        } by {
            let e = pre.queued_ids()[k] as int;
            assert(e < pre.n_ids() && (pre.alive(e) ==> pre.ind(e).seeking));
            assert(pre.queued_ids().contains(pre.queued_ids()[k]));
        }
        }
    assert(post.pending_wf()) by {
        assert forall|k: int|
            0 <= k < post.pending_matches@.len() implies post.pending_pair_wf(
            #[trigger] post.pending_matches@[k],
        ) by {
            let p = pre.pending_matches@[k];
            assert(pre.pending_pair_wf(p));
        }
    }
    assert(post.widows_wf()) by {
        assert forall|k: int|
            0 <= k < post.pending_widows@.len() implies post.widow_notice_wf(
            #[trigger] post.pending_widows@[k],
        ) by {
            if k < pre.pending_widows@.len() {
                assert(pre.widow_notice_wf(pre.pending_widows@[k]));
            } else {
                let j = pre.ind(id).partnership->Some_0 as int;
                assert(pre.ind_wf(id));
                assert(post.pending_widows@[k] == (WidowNotice {
                    deceased: id as usize,
                    relationship: j as usize,
                }));
            }
        }
    }
}

/// Overwriting one live record in place — partnership reference kept,
/// flag discipline kept, and neither the seeking nor the elder flag
/// withdrawn from a staged-match member — preserves well-formedness.
pub(crate) proof fn lemma_wf_record_update(pre: Simulation, post: Simulation, id: int, rec: Individual)
    requires
        pre.wf(),
        pre.alive(id),
        post.individuals@ == pre.individuals@.update(id, Some(rec)),
        pre.same_market_views(post),
        rec.partnership == pre.ind(id).partnership,
        rec.partnership is Some ==> !rec.seeking,
        rec.seeking ==> rec.adult && rec.partnership is None,
        rec.gestation is Some ==> rec.demog.sex == Sex::Female,
        pre.ind(id).seeking || pre.ind(id).elder ==> rec.seeking || rec.elder
            || pre.pending_matches@.len() == 0,
        rec.seeking == pre.ind(id).seeking || !pre.in_queues(id),
    ensures
        post.wf(),
{
    assert(pre.ind_wf(id));
    assert(post.alive(id) && post.ind(id) == rec);
    assert(post.inds_wf()) by {
        assert forall|i: int| #[trigger] post.alive(i) implies post.ind_wf(i) by {
            if i != id {
                assert(pre.alive(i));
                assert(pre.ind_wf(i));
                assert(post.ind(i) == pre.ind(i));
            } else {
                if rec.partnership is Some {
                    let j = rec.partnership->Some_0 as int;
                    assert(pre.rel_live(j) && pre.is_member(j, id));
                    assert(post.rel_live(j) && post.rel(j) == pre.rel(j));
                }
            }
        }
    }
    assert(post.rels_wf()) by {
        assert forall|j: int| #[trigger] post.rel_live(j) implies post.rel_wf(j) by {
            assert(pre.rel_live(j));
            assert(pre.rel_wf(j));
            let p = pre.rel(j).partners;
            assert(post.rel(j) == pre.rel(j));
            assert(post.alive(p.e1 as int) == pre.alive(p.e1 as int));
            assert(post.alive(p.e2 as int) == pre.alive(p.e2 as int));
            if pre.alive(p.e1 as int) && p.e1 as int == id {
                assert(pre.ind(id).partnership == Some(j as usize));
            }
            if pre.alive(p.e2 as int) && p.e2 as int == id {
                assert(pre.ind(id).partnership == Some(j as usize));
            }
            if !pre.alive(p.e1 as int) {
                let k = choose|k: int|
                    0 <= k < pre.pending_widows@.len() && (#[trigger] pre.pending_widows@[k])
                        == (WidowNotice { deceased: p.e1, relationship: j as usize });
                assert(post.pending_widows@[k] == pre.pending_widows@[k]);
                assert(post.widow_pending(p.e1 as int, j));
            }
            if !pre.alive(p.e2 as int) {
                let k = choose|k: int|
                    0 <= k < pre.pending_widows@.len() && (#[trigger] pre.pending_widows@[k])
                        == (WidowNotice { deceased: p.e2, relationship: j as usize });
                assert(post.pending_widows@[k] == pre.pending_widows@[k]);
                assert(post.widow_pending(p.e2 as int, j));
            }
        }
    }
    assert(post.rels_disjoint()) by {
        assert forall|j1: int, j2: int|
            #![trigger post.rel_live(j1), post.rel_live(j2)]
            post.rel_live(j1) && post.rel_live(j2) && j1 != j2 implies post.members_disjoint(
            j1,
            j2,
        ) by {
            assert(pre.rel_live(j1) && pre.rel_live(j2));
        }
    }
    assert(post.queued_ids() == pre.queued_ids());
    assert(post.queues_wf()) by {
        assert forall|k: int| 0 <= k < post.queued_ids().len() implies {
            let e = (#[trigger] post.queued_ids()[k]) as int;
            e < post.n_ids() && (post.alive(e) ==> post.ind(e).seeking)
        } by {
            let e = pre.queued_ids()[k] as int;
            assert(e < pre.n_ids() && (pre.alive(e) ==> pre.ind(e).seeking));
            assert(pre.queued_ids().contains(pre.queued_ids()[k]));
            if e == id {
                assert(pre.in_queues(id));
                assert(rec.seeking == pre.ind(id).seeking);
            }
        }
        }
    assert(post.pending_wf()) by {
        assert forall|k: int|
            0 <= k < post.pending_matches@.len() implies post.pending_pair_wf(
            #[trigger] post.pending_matches@[k],
        ) by {
            let p = pre.pending_matches@[k];
            assert(pre.pending_pair_wf(p));
            assert(post.alive(p.e1 as int) == pre.alive(p.e1 as int));
            assert(post.alive(p.e2 as int) == pre.alive(p.e2 as int));
            assert(pre.alive(p.e1 as int) && p.e1 as int != id ==> post.ind(p.e1 as int) == pre.ind(
                p.e1 as int,
            ));
            assert(pre.alive(p.e2 as int) && p.e2 as int != id ==> post.ind(p.e2 as int) == pre.ind(
                p.e2 as int,
            ));
        }
    }
    assert(post.widows_wf()) by {
        assert forall|k: int|
            0 <= k < post.pending_widows@.len() implies post.widow_notice_wf(
            #[trigger] post.pending_widows@[k],
        ) by {
            let w = pre.pending_widows@[k];
            assert(pre.widow_notice_wf(w));
            assert(post.alive(w.deceased as int) == pre.alive(w.deceased as int));
        }
    }
}

/// Timestep of the orchestrator: the greatest common divisor of the
/// aging, seeking and conception cadences, so each pass fires exactly on
/// its own multiples.
pub const BASE_TIMESTEP: u64 = 5;

/// The individuals below `n` are the same people in `a` and `b`: alive
/// in one exactly when alive in the other and, when alive, with the same
/// demographics, gestation record and mother reference. Holds across every
/// pass that neither ages, conceives nor delivers.
pub open spec fn same_people(a: Simulation, b: Simulation, n: int) -> bool {
    forall|i: int|
        0 <= i < n ==> {
            &&& (#[trigger] b.alive(i) <==> a.alive(i))
            &&& (a.alive(i) ==> b.ind(i).demog == a.ind(i).demog && b.ind(i).gestation == a.ind(
                i,
            ).gestation && b.ind(i).mother == a.ind(i).mother)
        }
}

/// As [`same_people`], without the gestation clause: also holds across the
/// conception and gestation passes, which touch only gestation records and
/// append newborns.
pub open spec fn same_people_core(a: Simulation, b: Simulation, n: int) -> bool {
    forall|i: int|
        0 <= i < n ==> {
            &&& (#[trigger] b.alive(i) <==> a.alive(i))
            &&& (a.alive(i) ==> b.ind(i).demog == a.ind(i).demog)
        }
}

pub(crate) proof fn lemma_same_people_weaken(a: Simulation, b: Simulation, n: int)
    requires
        same_people(a, b, n),
    ensures
        same_people_core(a, b, n),
{
    assert forall|i: int| 0 <= i < n implies {
        &&& (#[trigger] b.alive(i) <==> a.alive(i))
        &&& (a.alive(i) ==> b.ind(i).demog == a.ind(i).demog)
    } by {
        assert(b.alive(i) <==> a.alive(i));
    }
}

pub(crate) proof fn lemma_same_people_trans(a: Simulation, b: Simulation, c: Simulation, n: int)
    requires
        same_people(a, b, n),
        same_people(b, c, n),
    ensures
        same_people(a, c, n),
{
    assert forall|i: int| 0 <= i < n implies {
        &&& (#[trigger] c.alive(i) <==> a.alive(i))
        &&& (a.alive(i) ==> c.ind(i).demog == a.ind(i).demog && c.ind(i).gestation == a.ind(
            i,
        ).gestation && c.ind(i).mother == a.ind(i).mother)
    } by {
        assert(c.alive(i) <==> b.alive(i));
        assert(b.alive(i) <==> a.alive(i));
    }
}

pub(crate) proof fn lemma_same_people_core_trans(
    a: Simulation,
    b: Simulation,
    c: Simulation,
    n: int,
)
    requires
        same_people_core(a, b, n),
        same_people_core(b, c, n),
    ensures
        same_people_core(a, c, n),
{
    assert forall|i: int| 0 <= i < n implies {
        &&& (#[trigger] c.alive(i) <==> a.alive(i))
        &&& (a.alive(i) ==> c.ind(i).demog == a.ind(i).demog)
    } by {
        assert(c.alive(i) <==> b.alive(i));
        assert(b.alive(i) <==> a.alive(i));
    }
}

/// [`same_people`] restricted to a shorter prefix.
pub(crate) proof fn lemma_same_people_mono(a: Simulation, b: Simulation, n: int, m: int)
    requires
        same_people(a, b, n),
        m <= n,
    ensures
        same_people(a, b, m),
{
    assert forall|i: int| 0 <= i < m implies {
        &&& (#[trigger] b.alive(i) <==> a.alive(i))
        &&& (a.alive(i) ==> b.ind(i).demog == a.ind(i).demog && b.ind(i).gestation == a.ind(
            i,
        ).gestation && b.ind(i).mother == a.ind(i).mother)
    } by {
        assert(b.alive(i) <==> a.alive(i));
    }
}

/// Unchanged records leave the people unchanged.
pub(crate) proof fn lemma_same_people_equal(a: Simulation, b: Simulation, n: int)
    requires
        b.individuals@ == a.individuals@,
    ensures
        same_people(a, b, n),
{
    assert forall|i: int| 0 <= i < n implies {
        &&& (#[trigger] b.alive(i) <==> a.alive(i))
        &&& (a.alive(i) ==> b.ind(i).demog == a.ind(i).demog && b.ind(i).gestation == a.ind(
            i,
        ).gestation && b.ind(i).mother == a.ind(i).mother)
    } by {}
}

/// The eligibility pass only raises seeking flags: same people.
pub(crate) proof fn lemma_same_people_after_start(a: Simulation, b: Simulation, n: int)
    requires
        n <= a.n_ids(),
        b.individuals@.len() == a.individuals@.len(),
        forall|i: int|
            a.alive(i) && crate::partner::eligible_to_seek(a, i) ==> b.individuals@[i] == Some(
                Individual { seeking: true, ..a.ind(i) },
            ),
        forall|i: int|
            0 <= i < a.n_ids() && !crate::partner::eligible_to_seek(a, i) ==> b.individuals@[i]
                == a.individuals@[i],
    ensures
        same_people(a, b, n),
{
    assert forall|i: int| 0 <= i < n implies {
        &&& (#[trigger] b.alive(i) <==> a.alive(i))
        &&& (a.alive(i) ==> b.ind(i).demog == a.ind(i).demog && b.ind(i).gestation == a.ind(
            i,
        ).gestation && b.ind(i).mother == a.ind(i).mother)
    } by {
        if crate::partner::eligible_to_seek(a, i) {
            assert(b.individuals@[i] == Some(Individual { seeking: true, ..a.ind(i) }));
        } else {
            assert(b.individuals@[i] == a.individuals@[i]);
        }
    }
}

/// Elder eviction only withdraws seeking flags: same people.
pub(crate) proof fn lemma_same_people_after_stop(a: Simulation, b: Simulation, n: int)
    requires
        n <= a.n_ids(),
        b.individuals@.len() == a.individuals@.len(),
        forall|i: int|
            a.alive(i) && crate::partner::evicted_elder(a, i) ==> b.individuals@[i] == Some(
                Individual { seeking: false, ..a.ind(i) },
            ),
        forall|i: int|
            0 <= i < a.n_ids() && !crate::partner::evicted_elder(a, i) ==> b.individuals@[i]
                == a.individuals@[i],
    ensures
        same_people(a, b, n),
{
    assert forall|i: int| 0 <= i < n implies {
        &&& (#[trigger] b.alive(i) <==> a.alive(i))
        &&& (a.alive(i) ==> b.ind(i).demog == a.ind(i).demog && b.ind(i).gestation == a.ind(
            i,
        ).gestation && b.ind(i).mother == a.ind(i).mother)
    } by {
        if crate::partner::evicted_elder(a, i) {
            assert(b.individuals@[i] == Some(Individual { seeking: false, ..a.ind(i) }));
        } else {
            assert(b.individuals@[i] == a.individuals@[i]);
        }
    }
}

/// A pass that at most clears partnership references keeps the same
/// people; serves the breakup and widowhood passes.
pub(crate) proof fn lemma_same_people_after_unlink(a: Simulation, b: Simulation, n: int)
    requires
        n <= a.n_ids(),
        b.individuals@.len() == a.individuals@.len(),
        forall|i: int|
            0 <= i < a.n_ids() && a.alive(i) ==> b.individuals@[i] == a.individuals@[i]
                || b.individuals@[i] == Some(Individual { partnership: None, ..a.ind(i) }),
        forall|i: int|
            0 <= i < a.n_ids() && !a.alive(i) ==> b.individuals@[i] == a.individuals@[i],
    ensures
        same_people(a, b, n),
{
    assert forall|i: int| 0 <= i < n implies {
        &&& (#[trigger] b.alive(i) <==> a.alive(i))
        &&& (a.alive(i) ==> b.ind(i).demog == a.ind(i).demog && b.ind(i).gestation == a.ind(
            i,
        ).gestation && b.ind(i).mother == a.ind(i).mother)
    } by {
        if a.alive(i) {
            assert(b.individuals@[i] == a.individuals@[i] || b.individuals@[i] == Some(
                Individual { partnership: None, ..a.ind(i) },
            ));
        } else {
            assert(b.individuals@[i] == a.individuals@[i]);
        }
    }
}

/// Resolution binds or releases staged members without touching who they
/// are: same people.
pub(crate) proof fn lemma_same_people_after_resolve(a: Simulation, b: Simulation, n: int)
    requires
        n <= a.n_ids(),
        b.individuals@.len() == a.individuals@.len(),
        forall|i: int|
            0 <= i < a.n_ids() && !crate::partner::pending_member(a, i) ==> b.individuals@[i]
                == a.individuals@[i],
        forall|i: int|
            0 <= i < a.n_ids() && !crate::partner::resolvable(a, i) ==> b.individuals@[i]
                == a.individuals@[i],
        forall|k: int|
            #![trigger a.pending_matches@[k]]
            0 <= k < a.pending_matches@.len() ==> {
                let p = a.pending_matches@[k];
                let rid = a.n_rels() + crate::partner::count_bound(a, a.pending_matches@.take(k));
                &&& (crate::partner::pair_bound(a, p) ==> b.individuals@[p.e1 as int] == Some(
                    Individual {
                        partnership: Some(rid as usize),
                        seeking: false,
                        ..a.ind(p.e1 as int)
                    },
                ) && b.individuals@[p.e2 as int] == Some(
                    Individual {
                        partnership: Some(rid as usize),
                        seeking: false,
                        ..a.ind(p.e2 as int)
                    },
                ))
                &&& (!crate::partner::pair_bound(a, p) && crate::partner::resolvable(
                    a,
                    p.e1 as int,
                ) ==> b.individuals@[p.e1 as int] == Some(
                    Individual { seeking: false, ..a.ind(p.e1 as int) },
                ))
                &&& (!crate::partner::pair_bound(a, p) && crate::partner::resolvable(
                    a,
                    p.e2 as int,
                ) ==> b.individuals@[p.e2 as int] == Some(
                    Individual { seeking: false, ..a.ind(p.e2 as int) },
                ))
            },
    ensures
        same_people(a, b, n),
{
    assert forall|i: int| 0 <= i < n implies {
        &&& (#[trigger] b.alive(i) <==> a.alive(i))
        &&& (a.alive(i) ==> b.ind(i).demog == a.ind(i).demog && b.ind(i).gestation == a.ind(
            i,
        ).gestation && b.ind(i).mother == a.ind(i).mother)
    } by {
        if !crate::partner::pending_member(a, i) || !crate::partner::resolvable(a, i) {
            assert(b.individuals@[i] == a.individuals@[i]);
        } else {
            let k = choose|k: int|
                0 <= k < a.pending_matches@.len() && ((#[trigger] a.pending_matches@[k]).e1 as int
                    == i || a.pending_matches@[k].e2 as int == i);
            let p = a.pending_matches@[k];
            let rid = a.n_rels() + crate::partner::count_bound(a, a.pending_matches@.take(k));
            if crate::partner::pair_bound(a, p) {
                if p.e1 as int == i {
                    assert(b.individuals@[i] == Some(
                        Individual {
                            partnership: Some(rid as usize),
                            seeking: false,
                            ..a.ind(i)
                        },
                    ));
                } else {
                    assert(b.individuals@[i] == Some(
                        Individual {
                            partnership: Some(rid as usize),
                            seeking: false,
                            ..a.ind(i)
                        },
                    ));
                }
            } else {
                assert(b.individuals@[i] == Some(Individual { seeking: false, ..a.ind(i) }));
            }
        }
    }
}

/// Conception at most attaches gestation records: same people at heart.
pub(crate) proof fn lemma_same_people_core_after_conception(a: Simulation, b: Simulation, n: int)
    requires
        n <= a.n_ids(),
        b.individuals@.len() == a.individuals@.len(),
        forall|i: int|
            crate::gestation::conception_eligible(a, i) ==> b.individuals@[i] == a.individuals@[i]
                || b.individuals@[i] == Some(
                Individual { gestation: Some(a.params.gestation_duration), ..a.ind(i) },
            ),
        forall|i: int|
            0 <= i < a.n_ids() && !crate::gestation::conception_eligible(a, i)
                ==> b.individuals@[i] == a.individuals@[i],
    ensures
        same_people_core(a, b, n),
{
    assert forall|i: int| 0 <= i < n implies {
        &&& (#[trigger] b.alive(i) <==> a.alive(i))
        &&& (a.alive(i) ==> b.ind(i).demog == a.ind(i).demog)
    } by {
        if crate::gestation::conception_eligible(a, i) {
            assert(b.individuals@[i] == a.individuals@[i] || b.individuals@[i] == Some(
                Individual { gestation: Some(a.params.gestation_duration), ..a.ind(i) },
            ));
        } else {
            assert(b.individuals@[i] == a.individuals@[i]);
        }
    }
}

/// The gestation countdown only rewrites gestation records and appends
/// newborns: same people at heart below the old bound.
pub(crate) proof fn lemma_same_people_core_after_gestation(
    a: Simulation,
    b: Simulation,
    dt: u64,
    n: int,
)
    requires
        n <= a.n_ids(),
        b.individuals@.len() >= a.individuals@.len(),
        forall|i: int|
            a.alive(i) && a.ind(i).gestation is Some && !crate::gestation::due(a, i, dt)
                ==> b.individuals@[i] == Some(
                Individual {
                    gestation: Some((a.ind(i).gestation->Some_0 - dt) as u64),
                    ..a.ind(i)
                },
            ),
        forall|i: int|
            #![trigger a.ind(i)]
            crate::gestation::due(a, i, dt) ==> b.individuals@[i] == Some(
                Individual { gestation: None, ..a.ind(i) },
            ),
        forall|i: int|
            0 <= i < a.n_ids() && !(a.alive(i) && a.ind(i).gestation is Some)
                ==> b.individuals@[i] == a.individuals@[i],
    ensures
        same_people_core(a, b, n),
{
    assert forall|i: int| 0 <= i < n implies {
        &&& (#[trigger] b.alive(i) <==> a.alive(i))
        &&& (a.alive(i) ==> b.ind(i).demog == a.ind(i).demog)
    } by {
        if a.alive(i) && a.ind(i).gestation is Some {
            if crate::gestation::due(a, i, dt) {
                assert(b.individuals@[i] == Some(Individual { gestation: None, ..a.ind(i) }));
            } else {
                assert(b.individuals@[i] == Some(
                    Individual {
                        gestation: Some((a.ind(i).gestation->Some_0 - dt) as u64),
                        ..a.ind(i)
                    },
                ));
            }
        } else {
            assert(b.individuals@[i] == a.individuals@[i]);
        }
    }
}

impl Simulation {
    /// The passes of one seeking tick, in order: eligibility, elder
    /// eviction, queueing, matching and the breakup hazard. None of them
    /// ages, removes, conceives or delivers anyone, so the population is
    /// the same people afterwards.
    fn run_seeking_passes(&mut self)
        requires
            old(self).wf(),
        ensures
            final(self).wf(),
            same_people(*old(self), *final(self), old(self).n_ids()),
            final(self).individuals@.len() == old(self).individuals@.len(),
            final(self).relationships@.len() == old(self).relationships@.len(),
            final(self).log.births == old(self).log.births,
            final(self).log.deaths == old(self).log.deaths,
            final(self).log.widowings == old(self).log.widowings,
            final(self).pending_widows == old(self).pending_widows,
            final(self).params == old(self).params,
            final(self).time == old(self).time,
    {
        let ghost n0 = old(self).n_ids();
        let ghost p0 = *self;
        self.start_partner_seeking();
        proof {
            lemma_same_people_after_start(p0, *self, n0);
        }
        let ghost p1 = *self;
        self.stop_elder_partner_seeking();
        proof {
            lemma_same_people_after_stop(p1, *self, n0);
            lemma_same_people_trans(p0, p1, *self, n0);
        }
        let ghost p2 = *self;
        self.queue_partner_seekers();
        proof {
            lemma_same_people_equal(p2, *self, n0);
            lemma_same_people_trans(p0, p2, *self, n0);
        }
        let ghost p3 = *self;
        self.match_partners();
        proof {
            lemma_same_people_equal(p3, *self, n0);
            lemma_same_people_trans(p0, p3, *self, n0);
        }
        let ghost p4 = *self;
        self.random_breakups(crate::partner::SEEKING_TIMESTEP);
        proof {
            assert forall|i: int|
                0 <= i < p4.n_ids() && p4.alive(i) implies self.individuals@[i]
                == p4.individuals@[i] || self.individuals@[i] == Some(
                Individual { partnership: None, ..p4.ind(i) },
            ) by {
                if p4.ind(i).partnership is Some && self.relationships@[p4.ind(
                    i,
                ).partnership->Some_0 as int] is None {
                    assert(self.individuals@[i] == Some(
                        Individual { partnership: None, ..p4.ind(i) },
                    ));
                } else {
                    assert(self.individuals@[i] == p4.individuals@[i]);
                }
            }
            lemma_same_people_after_unlink(p4, *self, n0);
            lemma_same_people_trans(p0, p4, *self, n0);
        }
    }

    /// The passes of one conception tick, in order: the conception roll
    /// and the gestation countdown. Whoever was due at entry delivers: the
    /// gestation record is dropped and a newborn of age zero referencing
    /// its mother exists afterwards.
    fn run_gestation_passes(&mut self)
        requires
            old(self).wf(),
        ensures
            final(self).wf(),
            same_people_core(*old(self), *final(self), old(self).n_ids()),
            final(self).individuals@.len() >= old(self).individuals@.len(),
            final(self).relationships@ == old(self).relationships@,
            final(self).seekers.females@ == old(self).seekers.females@,
            final(self).seekers.males@ == old(self).seekers.males@,
            final(self).pending_matches@ == old(self).pending_matches@,
            final(self).pending_widows@ == old(self).pending_widows@,
            final(self).log.deaths == old(self).log.deaths,
            final(self).log.partnerships == old(self).log.partnerships,
            final(self).log.breakups == old(self).log.breakups,
            final(self).log.widowings == old(self).log.widowings,
            old(self).log.births@.is_prefix_of(final(self).log.births@),
            final(self).params == old(self).params,
            final(self).time == old(self).time,
            forall|i: int|
                old(self).alive(i) && (#[trigger] old(self).ind(i)).gestation is Some && old(self).ind(i).gestation->Some_0 < crate::gestation::CONCEPTION_TIMESTEP ==> final(self).individuals@[i] == Some(
                    Individual { gestation: None, ..old(self).ind(i) },
                ) && (exists|c: int|
                    old(self).n_ids() <= c < final(self).n_ids() && final(self).alive(c) && final(self).ind(c).demog.age == 0 && final(self).ind(c).mother == Some(i as usize)),
    {
        let ghost n0 = old(self).n_ids();
        let ghost g0 = *self;
        self.conception(crate::gestation::CONCEPTION_TIMESTEP);
        let ghost g1 = *self;
        proof {
            lemma_same_people_core_after_conception(g0, g1, n0);
        }
        self.update_gestation(crate::gestation::CONCEPTION_TIMESTEP);
        proof {
            assert forall|i: int|
                #![trigger g1.ind(i)]
                crate::gestation::due(g1, i, crate::gestation::CONCEPTION_TIMESTEP)
                implies self.individuals@[i] == Some(
                Individual { gestation: None, ..g1.ind(i) },
            ) by {
                assert(g1.alive(i));
            }
            lemma_same_people_core_after_gestation(
                g1,
                *self,
                crate::gestation::CONCEPTION_TIMESTEP,
                n0,
            );
            lemma_same_people_core_trans(g0, g1, *self, n0);
            crate::sim::lemma_prefix_trans(g0.log.births@, g1.log.births@, self.log.births@);
            crate::gestation::lemma_count_due_nonneg(
                g1.individuals@,
                crate::gestation::CONCEPTION_TIMESTEP,
            );
            assert forall|i: int|
                g0.alive(i) && (#[trigger] g0.ind(i)).gestation is Some && g0.ind(
                    i,
                ).gestation->Some_0 < crate::gestation::CONCEPTION_TIMESTEP
                implies self.individuals@[i] == Some(
                Individual { gestation: None, ..g0.ind(i) },
            ) && (exists|c: int|
                n0 <= c < self.n_ids() && self.alive(c) && self.ind(c).demog.age == 0 && self.ind(
                    c,
                ).mother == Some(i as usize)) by {
                assert(!crate::gestation::conception_eligible(g0, i));
                assert(g1.individuals@[i] == g0.individuals@[i]);
                assert(g1.alive(i));
                assert(crate::gestation::due(g1, i, crate::gestation::CONCEPTION_TIMESTEP));
                let c = g1.n_ids() + crate::gestation::count_due(
                    g1.individuals@.take(i),
                    crate::gestation::CONCEPTION_TIMESTEP,
                );
                assert(self.individuals@[i] == Some(Individual { gestation: None, ..g1.ind(i) }));
                assert(self.alive(c) && self.ind(c).demog.age == 0 && self.ind(c).mother == Some(
                    i as usize,
                ));
                crate::gestation::lemma_count_due_nonneg(
                    g1.individuals@.take(i),
                    crate::gestation::CONCEPTION_TIMESTEP,
                );
                assert(g1.individuals@.len() == n0);
                assert(n0 <= c);
                assert(n0 <= c < self.n_ids() && self.alive(c) && self.ind(c).demog.age == 0
                    && self.ind(c).mother == Some(i as usize));
            }
        }
    }
}

impl Simulation {
    /// One orchestrator tick: the clock advances by [`BASE_TIMESTEP`] and
    /// each pass whose cadence divides the new time runs, in the fixed
    /// dependency order — aging and its death removals first, then the
    /// partner market (eligibility, elder eviction, queueing, matching,
    /// breakups, resolution), then conception and gestation — and
    /// widowhood cleanup last, so a removal is visible to the partner
    /// market before the next matching round and no dangling partnership
    /// survives the tick boundary. The contract states what each cadence
    /// owes: on the aging cadence every crossing individual is removed
    /// with its death event and every survivor has aged by exactly one
    /// step; off it, nobody ages or dies. Off the seeking cadence the
    /// queues and the breakup log stand still; off the conception cadence
    /// nobody is born; a tick on no cadence, with nothing staged and no
    /// notice outstanding, moves nothing but the clock. Staged matches are
    /// always resolved before the tick ends.
    #[verifier::rlimit(100)]
    pub fn run_tick(&mut self)
        requires
            old(self).wf(),
            old(self).time + BASE_TIMESTEP <= u64::MAX,
        ensures
            final(self).wf(),
            final(self).no_dangling(),
            final(self).pending_widows@.len() == 0,
            final(self).pending_matches@.len() == 0,
            final(self).time == old(self).time + BASE_TIMESTEP,
            final(self).params == old(self).params,
            // what the aging cadence owes: every crossing individual is
            // removed, with its death event, and every survivor has aged
            // by exactly one aging step
            (old(self).time + BASE_TIMESTEP) % crate::individual::AGING_TIMESTEP as int == 0 ==> {
                &&& (forall|i: int|
                    old(self).alive(i) && crate::individual::dies(
                        old(self).ind(i),
                        crate::individual::AGING_TIMESTEP,
                        old(self).params,
                    ) ==> final(self).individuals@[i] is None && final(self).log.deaths@.contains(
                        crate::events::DeathEvent {
                            entity: i as usize,
                            age: crate::individual::aged(
                                old(self).ind(i),
                                crate::individual::AGING_TIMESTEP,
                                old(self).params,
                            ).demog.age,
                            time: (old(self).time + BASE_TIMESTEP) as u64,
                        },
                    ))
                &&& (forall|i: int|
                    0 <= i < old(self).n_ids() && final(self).alive(i) ==> old(self).alive(i)
                        && !crate::individual::dies(
                        old(self).ind(i),
                        crate::individual::AGING_TIMESTEP,
                        old(self).params,
                    ) && final(self).ind(i).demog == crate::individual::aged(
                        old(self).ind(i),
                        crate::individual::AGING_TIMESTEP,
                        old(self).params,
                    ).demog)
                &&& final(self).log.deaths@.len() == old(self).log.deaths@.len()
                    + crate::individual::count_dying(
                    old(self).individuals@,
                    crate::individual::AGING_TIMESTEP,
                    old(self).params,
                )
            },
            // off the aging cadence nobody ages and nobody dies
            (old(self).time + BASE_TIMESTEP) % crate::individual::AGING_TIMESTEP as int != 0 ==> {
                &&& (forall|i: int|
                    0 <= i < old(self).n_ids() ==> ((final(self).alive(i) <==> old(self).alive(i))
                        && (old(self).alive(i) ==> final(self).ind(i).demog == old(self).ind(i).demog)))
                &&& final(self).log.deaths == old(self).log.deaths
            },
            // off the seeking cadence the queues and the breakup log stand
            // still, and with nothing staged no partnership forms
            (old(self).time + BASE_TIMESTEP) % crate::partner::SEEKING_TIMESTEP as int != 0
                ==> final(self).seekers.females@ == old(self).seekers.females@ && final(self).seekers.males@ == old(self).seekers.males@ && final(self).log.breakups == old(self).log.breakups,
            (old(self).time + BASE_TIMESTEP) % crate::partner::SEEKING_TIMESTEP as int != 0 && old(self).pending_matches@.len() == 0 ==> final(self).n_rels() == old(self).n_rels() && final(self).log.partnerships@ == old(self).log.partnerships@,
            // off the conception cadence nobody conceives or is born
            (old(self).time + BASE_TIMESTEP) % crate::gestation::CONCEPTION_TIMESTEP as int != 0
                ==> final(self).n_ids() == old(self).n_ids() && final(self).log.births == old(self).log.births,
            // a tick on no cadence, with nothing staged and no notice
            // outstanding, moves nothing but the clock
            ((old(self).time + BASE_TIMESTEP) % crate::individual::AGING_TIMESTEP as int != 0 && (
            old(self).time + BASE_TIMESTEP) % crate::partner::SEEKING_TIMESTEP as int != 0 && (old(self).time + BASE_TIMESTEP) % crate::gestation::CONCEPTION_TIMESTEP as int != 0 && old(self).pending_matches@.len() == 0 && old(self).pending_widows@.len() == 0) ==> final(self).individuals@ == old(self).individuals@ && final(self).relationships@ == old(self).relationships@ && final(self).log.births@ == old(self).log.births@ && final(self).log.deaths@ == old(self).log.deaths@ && final(self).log.partnerships@ == old(self).log.partnerships@ && final(self).log.breakups@ == old(self).log.breakups@ && final(self).log.widowings@ == old(self).log.widowings@,
            // on the conception cadence, off the aging one, every due
            // gestation delivers: the record is dropped and a newborn of
            // age zero referencing its mother exists
            ((old(self).time + BASE_TIMESTEP) % crate::gestation::CONCEPTION_TIMESTEP as int == 0
                && (old(self).time + BASE_TIMESTEP) % crate::individual::AGING_TIMESTEP as int
                != 0) ==> forall|i: int|
                old(self).alive(i) && (#[trigger] old(self).ind(i)).gestation is Some && old(self).ind(i).gestation->Some_0 < crate::gestation::CONCEPTION_TIMESTEP ==> final(self).alive(i) && final(self).ind(i).gestation is None && (exists|c: int|
                    old(self).n_ids() <= c < final(self).n_ids() && final(self).alive(c) && final(self).ind(c).demog.age == 0 && final(self).ind(c).mother == Some(i as usize)),
    {
        let ghost n0 = old(self).n_ids();
        let ghost before = *self;
        self.time = self.time + BASE_TIMESTEP;
        proof {
            lemma_wf_views(before, *self);
        }
        let ghost s0 = *self;
        let aging_fires = self.time % crate::individual::AGING_TIMESTEP == 0;
        let seeking_fires = self.time % crate::partner::SEEKING_TIMESTEP == 0;
        let conception_fires = self.time % crate::gestation::CONCEPTION_TIMESTEP == 0;
        if aging_fires {
            self.update_age(crate::individual::AGING_TIMESTEP);
        }
        let ghost s1 = *self;
        if seeking_fires {
            self.run_seeking_passes();
        }
        let ghost s2 = *self;
        proof {
            if s2 == s1 {
                lemma_same_people_equal(s1, s2, n0);
            }
            assert(same_people(s1, s2, n0));
        }
        self.resolve_matches();
        let ghost s3 = *self;
        proof {
            lemma_same_people_after_resolve(s2, s3, n0);
            lemma_same_people_trans(s1, s2, s3, n0);
        }
        if conception_fires {
            self.run_gestation_passes();
        }
        let ghost s4 = *self;
        proof {
            if s4 == s3 {
                lemma_same_people_equal(s3, s4, n0);
                lemma_same_people_weaken(s3, s4, n0);
            }
            assert(same_people_core(s3, s4, n0));
        }
        self.detect_widows();
        let ghost s5 = *self;
        proof {
            let og = *old(self);
            // the cleanup pass only clears partnership references
            assert forall|i: int|
                0 <= i < s4.n_ids() && s4.alive(i) implies s5.individuals@[i]
                == s4.individuals@[i] || s5.individuals@[i] == Some(
                Individual { partnership: None, ..s4.ind(i) },
            ) by {
                if s4.ind(i).partnership is Some && crate::partner::rel_noticed(
                    s4,
                    s4.ind(i).partnership->Some_0 as int,
                ) {
                    assert(s5.individuals@[i] == Some(
                        Individual { partnership: None, ..s4.ind(i) },
                    ));
                } else {
                    assert(s5.individuals@[i] == s4.individuals@[i]);
                }
            }
            lemma_same_people_after_unlink(s4, s5, s4.n_ids());
            // length bookkeeping across the passes
            assert(s1.individuals@.len() == n0);
            assert(s2.individuals@.len() == n0);
            assert(s3.individuals@.len() == n0);
            assert(s4.individuals@.len() >= n0);
            assert(s5.individuals@.len() == s4.individuals@.len());
            lemma_same_people_mono(s4, s5, s4.n_ids(), n0);
            lemma_same_people_weaken(s4, s5, n0);
            lemma_same_people_weaken(s1, s3, n0);
            lemma_same_people_core_trans(s1, s3, s4, n0);
            lemma_same_people_core_trans(s1, s4, s5, n0);
            assert(s5.pending_matches@.len() == 0);
            // the aging cadence
            if aging_fires {
                assert forall|i: int|
                    og.alive(i) && crate::individual::dies(
                        og.ind(i),
                        crate::individual::AGING_TIMESTEP,
                        og.params,
                    ) implies s5.individuals@[i] is None && s5.log.deaths@.contains(
                    crate::events::DeathEvent {
                        entity: i as usize,
                        age: crate::individual::aged(
                            og.ind(i),
                            crate::individual::AGING_TIMESTEP,
                            og.params,
                        ).demog.age,
                        time: (og.time + BASE_TIMESTEP) as u64,
                    },
                ) by {
                    assert(s0.alive(i));
                    assert(s0.ind(i) == og.ind(i));
                    assert(s1.individuals@[i] is None);
                    assert(!s1.alive(i));
                    assert(!s5.alive(i));
                    assert(s5.individuals@[i] is None);
                    assert(s5.log.deaths == s1.log.deaths);
                    assert(s1.log.deaths@.contains(
                        crate::events::DeathEvent {
                            entity: i as usize,
                            age: crate::individual::aged(
                                s0.ind(i),
                                crate::individual::AGING_TIMESTEP,
                                s0.params,
                            ).demog.age,
                            time: s0.time,
                        },
                    ));
                }
                assert forall|i: int|
                    0 <= i < n0 && s5.alive(i) implies og.alive(i) && !crate::individual::dies(
                    og.ind(i),
                    crate::individual::AGING_TIMESTEP,
                    og.params,
                ) && s5.ind(i).demog == crate::individual::aged(
                    og.ind(i),
                    crate::individual::AGING_TIMESTEP,
                    og.params,
                ).demog by {
                    assert(s5.alive(i) <==> s1.alive(i));
                    assert(s1.alive(i));
                    assert(s0.alive(i));
                    if crate::individual::dies(
                        s0.ind(i),
                        crate::individual::AGING_TIMESTEP,
                        s0.params,
                    ) {
                        assert(s1.individuals@[i] is None);
                        assert(false);
                    }
                    assert(s1.individuals@[i] == Some(
                        crate::individual::aged(
                            s0.ind(i),
                            crate::individual::AGING_TIMESTEP,
                            s0.params,
                        ),
                    ));
                    assert(s5.ind(i).demog == s1.ind(i).demog);
                }
                assert(s5.log.deaths == s1.log.deaths);
                assert(s1.log.deaths@.len() == og.log.deaths@.len()
                    + crate::individual::count_dying(
                    og.individuals@,
                    crate::individual::AGING_TIMESTEP,
                    og.params,
                ));
            } else {
                assert(s1 == s0);
                assert forall|i: int| 0 <= i < n0 implies ((s5.alive(i) <==> og.alive(i)) && (
                og.alive(i) ==> s5.ind(i).demog == og.ind(i).demog)) by {
                    assert(s5.alive(i) <==> s1.alive(i));
                    assert(s1.alive(i) <==> og.alive(i));
                    if og.alive(i) {
                        assert(s1.ind(i) == og.ind(i));
                    }
                }
                assert(s5.log.deaths == og.log.deaths);
            }
            // the seeking cadence
            if !seeking_fires {
                assert(s2 == s1);
                assert(s1.seekers.females == s0.seekers.females);
                assert(s3.seekers.females == s2.seekers.females);
                assert(s4.seekers.females@ == s3.seekers.females@);
                assert(s5.seekers.females@ == s4.seekers.females@);
                assert(s1.seekers.males == s0.seekers.males);
                assert(s3.seekers.males == s2.seekers.males);
                assert(s4.seekers.males@ == s3.seekers.males@);
                assert(s5.seekers.males@ == s4.seekers.males@);
                assert(s5.log.breakups == og.log.breakups);
                if og.pending_matches@.len() == 0 {
                    assert(s2.pending_matches@ == og.pending_matches@);
                    assert(crate::partner::count_bound(s2, s2.pending_matches@) == 0);
                    assert(s3.n_rels() == s2.n_rels());
                    assert(s3.log.partnerships@.subrange(
                        0,
                        s2.log.partnerships@.len() as int,
                    ) =~= s3.log.partnerships@);
                    assert(s2.log.partnerships@ =~= s3.log.partnerships@);
                    assert(s4.relationships@ == s3.relationships@);
                    assert(s5.n_rels() == og.n_rels());
                    assert(s5.log.partnerships@ == og.log.partnerships@);
                }
            }
            // the conception cadence
            if !conception_fires {
                assert(s4 == s3);
                assert(s5.individuals@.len() == og.individuals@.len());
                assert(s5.log.births == og.log.births);
            }
            // a fully quiet tick
            if !aging_fires && !seeking_fires && !conception_fires && og.pending_matches@.len()
                == 0 && og.pending_widows@.len() == 0 {
                assert(s2.individuals@ == og.individuals@);
                assert(s2.relationships@ == og.relationships@);
                assert(s2.pending_matches@ == og.pending_matches@);
                assert(crate::partner::count_bound(s2, s2.pending_matches@) == 0);
                assert forall|x: int|
                    0 <= x < s2.individuals@.len() implies s3.individuals@[x]
                    == s2.individuals@[x] by {
                    assert(!crate::partner::pending_member(s2, x));
                }
                assert(s3.individuals@ =~= s2.individuals@);
                assert forall|j: int|
                    0 <= j < s2.relationships@.len() implies s3.relationships@[j]
                    == s2.relationships@[j] by {}
                assert(s3.relationships@.len() == s2.relationships@.len());
                assert(s3.relationships@ =~= s2.relationships@);
                assert(s3.log.partnerships@.subrange(
                    0,
                    s2.log.partnerships@.len() as int,
                ) =~= s3.log.partnerships@);
                assert(s2.log.partnerships@ =~= s3.log.partnerships@);
                assert(s4 == s3);
                assert(s4.pending_widows@ == og.pending_widows@);
                assert(s4.pending_widows@.len() == 0);
                assert(s5.individuals@ == s4.individuals@);
                assert(s5.relationships@ == s4.relationships@);
                assert(s5.log.widowings@ == s4.log.widowings@);
                assert(s5.individuals@ == og.individuals@);
                assert(s5.relationships@ == og.relationships@);
                assert(s5.log.births@ == og.log.births@);
                assert(s5.log.deaths@ == og.log.deaths@);
                assert(s5.log.partnerships@ == og.log.partnerships@);
                assert(s5.log.breakups@ == og.log.breakups@);
                assert(s5.log.widowings@ == og.log.widowings@);
            }
            // deliveries on the conception cadence
            if conception_fires && !aging_fires {
                assert forall|i: int|
                    og.alive(i) && (#[trigger] og.ind(i)).gestation is Some && og.ind(
                        i,
                    ).gestation->Some_0 < crate::gestation::CONCEPTION_TIMESTEP implies s5.alive(i)
                    && s5.ind(i).gestation is None && (exists|c: int|
                    n0 <= c < s5.n_ids() && s5.alive(c) && s5.ind(c).demog.age == 0 && s5.ind(
                        c,
                    ).mother == Some(i as usize)) by {
                    assert(s1 == s0);
                    assert(s1.alive(i) && s1.ind(i) == og.ind(i));
                    assert(s3.alive(i));
                    assert(s3.ind(i).gestation == s1.ind(i).gestation);
                    assert(s3.ind(i).gestation is Some && s3.ind(i).gestation->Some_0
                        < crate::gestation::CONCEPTION_TIMESTEP);
                    assert(s4.individuals@[i] == Some(
                        Individual { gestation: None, ..s3.ind(i) },
                    ));
                    let c = choose|c: int|
                        s3.n_ids() <= c < s4.n_ids() && s4.alive(c) && s4.ind(c).demog.age == 0
                            && s4.ind(c).mother == Some(i as usize);
                    assert(s5.alive(i));
                    assert(s5.ind(i).gestation == s4.ind(i).gestation);
                    assert(s5.alive(c));
                    assert(s5.ind(c).demog == s4.ind(c).demog);
                    assert(s5.ind(c).mother == s4.ind(c).mother);
                    assert(n0 <= c < s5.n_ids() && s5.alive(c) && s5.ind(c).demog.age == 0
                        && s5.ind(c).mother == Some(i as usize));
                }
            }
        }
    }
}

/// A live partnership's two members are always distinct and, whenever no
/// removal notice is outstanding, both alive, and each references exactly
/// that partnership back — never one-sided.
pub proof fn lemma_partnership_integrity(s: Simulation, j: int)
    requires
        s.wf(),
        s.no_dangling(),
        s.rel_live(j),
    ensures
        s.rel(j).partners.e1 != s.rel(j).partners.e2,
        s.alive(s.rel(j).partners.e1 as int),
        s.alive(s.rel(j).partners.e2 as int),
        s.ind(s.rel(j).partners.e1 as int).partnership == Some(j as usize),
        s.ind(s.rel(j).partners.e2 as int).partnership == Some(j as usize),
{
    assert(s.rel_wf(j));
}

/// No individual identifier ever appears in more than one live
/// partnership simultaneously.
pub proof fn lemma_no_double_partnership(s: Simulation, i: int, j1: int, j2: int)
    requires
        s.wf(),
        s.rel_live(j1),
        s.rel_live(j2),
        s.is_member(j1, i),
        s.is_member(j2, i),
    ensures
        j1 == j2,
{
    if j1 != j2 {
        assert(s.members_disjoint(j1, j2));
    }
}

} // verus!

