//! The partner market: seeking, matching, resolution, breakups and
//! widowhood cleanup, plus its data types.

use vstd::math::min;
use vstd::prelude::*;

use crate::events::{BreakupEvent, PartnerEvent, WidowEvent};
use crate::individual::{Individual, Sex};
use crate::sim::{
    lemma_contains_prefix, lemma_queued_alive_seeking, lemma_wf_record_update, Simulation,
};

verus! {

/// Inserting a fresh element between two duplicate-free halves keeps the
/// whole duplicate-free, and extends membership by exactly that element.
pub(crate) proof fn lemma_insert_middle<A>(f: Seq<A>, m: Seq<A>, x: A)
    requires
        (f + m).no_duplicates(),
        !(f + m).contains(x),
    ensures
        (f.push(x) + m).no_duplicates(),
        forall|y: A| #[trigger] (f.push(x) + m).contains(y) <==> ((f + m).contains(y) || y == x),
{
    let c0 = f + m;
    let c1 = f.push(x) + m;
    let fl = f.len() as int;
    assert forall|idx: int| 0 <= idx < c1.len() implies c1[idx] == (if idx < fl {
        c0[idx]
    } else if idx == fl {
        x
    } else {
        c0[idx - 1]
    }) by {
        if idx <= fl {
            assert(c1[idx] == f.push(x)[idx]);
        }
        if idx < fl {
            assert(c0[idx] == f[idx]);
        }
        if idx > fl {
            assert(c1[idx] == m[idx - fl - 1]);
            assert(c0[idx - 1] == m[idx - 1 - fl]);
        }
    }
    assert forall|a: int, b: int| 0 <= a < b < c1.len() implies c1[a] != c1[b] by {
        if a == fl {
            assert(c1[b] == c0[b - 1]);
            assert(c0.contains(c0[b - 1]));
        } else if b == fl {
            assert(c1[a] == c0[a]);
            assert(c0.contains(c0[a]));
        } else {
            let ap = if a < fl {
                a
            } else {
                a - 1
            };
            let bp = if b < fl {
                b
            } else {
                b - 1
            };
            assert(c1[a] == c0[ap] && c1[b] == c0[bp]);
            assert(0 <= ap < bp < c0.len());
        }
    }
    assert forall|y: A| #[trigger] c1.contains(y) implies (c0.contains(y) || y == x) by {
        let idx = choose|idx: int| 0 <= idx < c1.len() && c1[idx] == y;
        if idx < fl {
            assert(c0[idx] == y);
        } else if idx > fl {
            assert(c0[idx - 1] == y);
        }
    }
    assert forall|y: A| c0.contains(y) || y == x implies c1.contains(y) by {
        if c0.contains(y) {
            let idx = choose|idx: int| 0 <= idx < c0.len() && c0[idx] == y;
            if idx < fl {
                assert(c1[idx] == y);
            } else {
                assert(c1[idx + 1] == y);
            }
        } else {
            assert(c1[fl] == x);
        }
    }
}

/// Appending a fresh element to the second half acts as appending to the
/// whole concatenation.
pub(crate) proof fn lemma_append_right<A>(f: Seq<A>, m: Seq<A>, x: A)
    ensures
        f + m.push(x) =~= (f + m).push(x),
{
}

/// Appending a fresh element keeps a sequence duplicate-free and extends
/// membership by exactly that element.
pub(crate) proof fn lemma_push_nodup<A>(c: Seq<A>, x: A)
    requires
        c.no_duplicates(),
        !c.contains(x),
    ensures
        c.push(x).no_duplicates(),
        forall|y: A| #[trigger] c.push(x).contains(y) <==> (c.contains(y) || y == x),
{
    let c1 = c.push(x);
    assert forall|a: int, b: int| 0 <= a < b < c1.len() implies c1[a] != c1[b] by {
        if b == c.len() {
            assert(c.contains(c[a]));
        }
    }
    assert forall|y: A| #[trigger] c1.contains(y) implies (c.contains(y) || y == x) by {
        let idx = choose|idx: int| 0 <= idx < c1.len() && c1[idx] == y;
        if idx < c.len() {
            assert(c[idx] == y);
        }
    }
    assert forall|y: A| c.contains(y) || y == x implies c1.contains(y) by {
        if c.contains(y) {
            let idx = choose|idx: int| 0 <= idx < c.len() && c[idx] == y;
            assert(c1[idx] == y);
        } else {
            assert(c1[c.len() as int] == x);
        }
    }
}

/// A duplicate-free concatenation has duplicate-free, disjoint halves.
pub(crate) proof fn lemma_nodup_concat_parts<A>(f: Seq<A>, m: Seq<A>)
    requires
        (f + m).no_duplicates(),
    ensures
        f.no_duplicates(),
        m.no_duplicates(),
        forall|x: A| !(#[trigger] f.contains(x) && m.contains(x)),
{
    let c = f + m;
    assert forall|a: int, b: int| 0 <= a < b < f.len() implies f[a] != f[b] by {
        assert(c[a] == f[a] && c[b] == f[b]);
    }
    assert forall|a: int, b: int| 0 <= a < b < m.len() implies m[a] != m[b] by {
        assert(c[f.len() + a] == m[a] && c[f.len() + b] == m[b]);
    }
    assert forall|x: A| !(#[trigger] f.contains(x) && m.contains(x)) by {
        if f.contains(x) && m.contains(x) {
            let a = choose|a: int| 0 <= a < f.len() && f[a] == x;
            let b = choose|b: int| 0 <= b < m.len() && m[b] == x;
            assert(c[a] == x && c[f.len() + b] == x);
        }
    }
}

/// Disjoint duplicate-free halves concatenate duplicate-free.
pub(crate) proof fn lemma_concat_nodup<A>(f: Seq<A>, m: Seq<A>)
    requires
        f.no_duplicates(),
        m.no_duplicates(),
        forall|x: A| !(#[trigger] f.contains(x) && m.contains(x)),
    ensures
        (f + m).no_duplicates(),
{
    let c = f + m;
    assert forall|a: int, b: int| 0 <= a < b < c.len() implies c[a] != c[b] by {
        if a < f.len() && b < f.len() {
            assert(c[a] == f[a] && c[b] == f[b]);
        } else if a < f.len() && b >= f.len() {
            assert(c[a] == f[a] && c[b] == m[b - f.len()]);
            if c[a] == c[b] {
                assert(f.contains(f[a]) && m.contains(m[b - f.len()]));
            }
        } else {
            assert(c[a] == m[a - f.len()] && c[b] == m[b - f.len()]);
        }
    }
}

/// A slice of a duplicate-free sequence is duplicate-free and holds only
/// elements of the whole.
pub(crate) proof fn lemma_subrange_nodup<A>(q: Seq<A>, a: int, b: int)
    requires
        q.no_duplicates(),
        0 <= a <= b <= q.len(),
    ensures
        q.subrange(a, b).no_duplicates(),
        forall|y: A| #[trigger] q.subrange(a, b).contains(y) ==> q.contains(y),
{
    let s = q.subrange(a, b);
    assert forall|x: int, z: int| 0 <= x < z < s.len() implies s[x] != s[z] by {
        assert(s[x] == q[a + x] && s[z] == q[a + z]);
    }
    assert forall|y: A| #[trigger] s.contains(y) implies q.contains(y) by {
        let idx = choose|idx: int| 0 <= idx < s.len() && s[idx] == y;
        assert(q[a + idx] == y);
    }
}

/// Membership in a concatenation is membership in either half.
pub(crate) proof fn lemma_concat_contains<A>(f: Seq<A>, m: Seq<A>)
    ensures
        forall|y: A| #[trigger] (f + m).contains(y) <==> (f.contains(y) || m.contains(y)),
{
    assert forall|y: A| #[trigger] (f + m).contains(y) implies (f.contains(y) || m.contains(
        y,
    )) by {
        let idx = choose|idx: int| 0 <= idx < (f + m).len() && (f + m)[idx] == y;
        if idx < f.len() {
            assert(f[idx] == y);
        } else {
            assert(m[idx - f.len()] == y);
        }
    }
    assert forall|y: A| f.contains(y) || m.contains(y) implies (f + m).contains(y) by {
        if f.contains(y) {
            let idx = choose|idx: int| 0 <= idx < f.len() && f[idx] == y;
            assert((f + m)[idx] == y);
        } else {
            let idx = choose|idx: int| 0 <= idx < m.len() && m[idx] == y;
            assert((f + m)[f.len() + idx] == y);
        }
    }
}

/// Timestep of the seeking, matching and breakup passes: one quarter.
pub const SEEKING_TIMESTEP: u64 = 195;

/// The two members of a partnership. The order carries no meaning.
#[derive(Clone, Copy, Debug, PartialEq, Eq, Structural)]
pub struct Partners {
    pub e1: usize,
    pub e2: usize,
}

/// A partnership record: the pair and the time it was formed.
#[derive(Clone, Copy, Debug, PartialEq, Eq, Structural)]
pub struct Relationship {
    pub partners: Partners,
    pub formed_at: u64,
}

/// The two seeker queues, one per sex, each in arrival order.
/// Entries whose individual has since died are tolerated transiently and
/// filtered out before any matching round reads them.
#[derive(Clone, Debug)]
pub struct AvailableSeekers {
    pub females: Vec<usize>,
    pub males: Vec<usize>,
}

impl Default for AvailableSeekers {
    fn default() -> (r: Self)
        ensures
            r.females@ == Seq::<usize>::empty(),
            r.males@ == Seq::<usize>::empty(),
    {
        AvailableSeekers { females: Vec::new(), males: Vec::new() }
    }
}

impl AvailableSeekers {
    /// Appends a seeker to the queue of its sex, in arrival order.
    fn add_seeker(&mut self, e: usize, sex: Sex)
        ensures
            sex == Sex::Female ==> final(self).females@ == old(self).females@.push(e) && final(self).males == old(self).males,
            sex == Sex::Male ==> final(self).males@ == old(self).males@.push(e) && final(self).females == old(self).females,
    {
        match sex {
            Sex::Female => self.females.push(e),
            Sex::Male => self.males.push(e),
        }
    }
}

/// Published by the registry when a partnered individual is removed: the
/// partner market consumes these to run widowhood cleanup.
#[derive(Clone, Copy, Debug, PartialEq, Eq, Structural)]
pub struct WidowNotice {
    pub deceased: usize,
    pub relationship: usize,
}

/// Whether any notice at index `m` or later names partnership `j`.
pub open spec fn rel_noticed_from(pre: Simulation, j: int, m: int) -> bool {
    exists|k: int|
        m <= k < pre.pending_widows@.len() && (#[trigger] pre.pending_widows@[k]).relationship
            as int == j
}

/// Whether any outstanding notice names partnership `j`.
pub open spec fn rel_noticed(pre: Simulation, j: int) -> bool {
    rel_noticed_from(pre, j, 0)
}

/// Whether consuming notice `k` emits a `Widowed` event: its partnership
/// is live at the start of the pass, no notice consumed earlier (notices
/// are consumed from the end, so one with a higher index) already
/// destroyed it, and the other member is alive.
pub open spec fn widow_event_due(orig: Simulation, k: int) -> bool {
    let w = orig.pending_widows@[k];
    &&& orig.rel_live(notice_rel(w))
    &&& !rel_noticed_from(orig, notice_rel(w), k + 1)
    &&& orig.alive(notice_other(orig, w) as int)
}

/// How many `Widowed` events consuming the notices from index `m` on
/// emits.
pub open spec fn widowings_emitted(orig: Simulation, m: int) -> int
    decreases orig.pending_widows@.len() - m,
{
    if m >= orig.pending_widows@.len() {
        0
    } else {
        widowings_emitted(orig, m + 1) + if widow_event_due(orig, m) {
            1int
        } else {
            0int
        }
    }
}

/// The `Widowed` event emitted when partnership `j` is destroyed and one
/// member survives the other.
pub open spec fn widow_event_of(orig: Simulation, j: int, survivor: usize, deceased: usize)
    -> WidowEvent {
    WidowEvent {
        widow_entity: survivor,
        deceased_entity: deceased,
        relationship_entity: j as usize,
        time: orig.time,
    }
}

/// State of the widowhood-cleanup pass over `orig` once every notice from
/// index `m` on has been consumed: exactly the noticed partnerships are
/// destroyed, exactly their surviving members have lost their reference,
/// exactly those survivors have been declared widowed, and nothing else
/// has moved.
pub open spec fn widow_pass_inv(orig: Simulation, cur: Simulation, m: int) -> bool {
    &&& 0 <= m <= orig.pending_widows@.len()
    &&& cur.pending_widows@ == orig.pending_widows@.take(m)
    &&& cur.individuals@.len() == orig.individuals@.len()
    &&& cur.n_rels() == orig.n_rels()
    &&& (m == orig.pending_widows@.len() ==> cur.individuals@ == orig.individuals@
        && cur.relationships@ == orig.relationships@ && cur.log.widowings@ == orig.log.widowings@)
    &&& (forall|j: int|
        #[trigger] cur.rel_live(j) <==> (orig.rel_live(j) && !rel_noticed_from(orig, j, m)))
    &&& (forall|j: int|
        #[trigger] cur.rel_live(j) ==> cur.relationships@[j] == orig.relationships@[j])
    &&& (forall|i: int|
        orig.alive(i) && (#[trigger] orig.ind(i)).partnership is Some && rel_noticed_from(
            orig,
            orig.ind(i).partnership->Some_0 as int,
            m,
        ) ==> cur.individuals@[i] == Some(Individual { partnership: None, ..orig.ind(i) }))
    &&& (forall|i: int|
        orig.alive(i) && !((#[trigger] orig.ind(i)).partnership is Some && rel_noticed_from(
            orig,
            orig.ind(i).partnership->Some_0 as int,
            m,
        )) ==> cur.individuals@[i] == orig.individuals@[i])
    &&& (forall|i: int|
        0 <= i < orig.n_ids() && !(#[trigger] orig.alive(i)) ==> cur.individuals@[i]
            == orig.individuals@[i])
    &&& orig.log.widowings@.is_prefix_of(cur.log.widowings@)
    &&& cur.log.widowings@.len() == orig.log.widowings@.len() + widowings_emitted(orig, m)
    &&& (forall|j: int|
        #![trigger orig.rel(j)]
        orig.rel_live(j) && rel_noticed_from(orig, j, m) && orig.alive(
            orig.rel(j).partners.e1 as int,
        ) ==> cur.log.widowings@.contains(
            widow_event_of(orig, j, orig.rel(j).partners.e1, orig.rel(j).partners.e2),
        ))
    &&& (forall|j: int|
        #![trigger orig.rel(j)]
        orig.rel_live(j) && rel_noticed_from(orig, j, m) && orig.alive(
            orig.rel(j).partners.e2 as int,
        ) ==> cur.log.widowings@.contains(
            widow_event_of(orig, j, orig.rel(j).partners.e2, orig.rel(j).partners.e1),
        ))
    &&& cur.seekers.females@ == orig.seekers.females@
    &&& cur.seekers.males@ == orig.seekers.males@
    &&& cur.pending_matches@ == orig.pending_matches@
    &&& cur.log.births == orig.log.births
    &&& cur.log.deaths == orig.log.deaths
    &&& cur.log.partnerships == orig.log.partnerships
    &&& cur.log.breakups == orig.log.breakups
    &&& cur.params == orig.params
    &&& cur.time == orig.time
}

/// The partnership that notice `w` names, as an index.
pub open spec fn notice_rel(w: WidowNotice) -> int {
    w.relationship as int
}

/// The member of the noticed partnership that is not the removed one.
pub open spec fn notice_other(pre: Simulation, w: WidowNotice) -> usize {
    if pre.rel(notice_rel(w)).partners.e1 == w.deceased {
        pre.rel(notice_rel(w)).partners.e2
    } else {
        pre.rel(notice_rel(w)).partners.e1
    }
}

/// Whether cleaning up after `w` clears a surviving member's reference.
pub open spec fn notice_touches(pre: Simulation, w: WidowNotice) -> bool {
    pre.rel_live(notice_rel(w)) && pre.alive(notice_other(pre, w) as int)
}

/// What one cleanup step does to the state: pops the notice and, when its
/// partnership is still live, destroys it, clears the survivor and logs
/// the widowing.
pub(crate) open spec fn widow_step_shape(
    pre: Simulation,
    post: Simulation,
    w: WidowNotice,
) -> bool {
    &&& post.pending_widows@ == pre.pending_widows@.drop_last()
    &&& post.relationships@ == (if pre.rel_live(notice_rel(w)) {
        pre.relationships@.update(notice_rel(w), None::<Relationship>)
    } else {
        pre.relationships@
    })
    &&& post.individuals@ == (if notice_touches(pre, w) {
        pre.individuals@.update(
            notice_other(pre, w) as int,
            Some(Individual { partnership: None, ..pre.ind(notice_other(pre, w) as int) }),
        )
    } else {
        pre.individuals@
    })
    &&& post.log.widowings@ == (if notice_touches(pre, w) {
        pre.log.widowings@.push(
            widow_event_of(pre, notice_rel(w), notice_other(pre, w), w.deceased),
        )
    } else {
        pre.log.widowings@
    })
    &&& post.seekers.females@ == pre.seekers.females@
    &&& post.seekers.males@ == pre.seekers.males@
    &&& post.pending_matches@ == pre.pending_matches@
    &&& post.log.births == pre.log.births
    &&& post.log.deaths == pre.log.deaths
    &&& post.log.partnerships == pre.log.partnerships
    &&& post.log.breakups == pre.log.breakups
    &&& post.params == pre.params
    &&& post.time == pre.time
}

/// One cleanup step keeps the pass description accurate.
#[verifier::rlimit(100)]
pub(crate) proof fn lemma_widow_step_inv(
    orig: Simulation,
    pre: Simulation,
    post: Simulation,
    w: WidowNotice,
    m: int,
)
    requires
        orig.wf(),
        pre.wf(),
        widow_pass_inv(orig, pre, m),
        1 <= m,
        m == pre.pending_widows@.len(),
        w == pre.pending_widows@[m - 1],
        widow_step_shape(pre, post, w),
    ensures
        widow_pass_inv(orig, post, m - 1),
{
    let mp = m - 1;
    let jint = notice_rel(w);
    let touched_rel = pre.rel_live(jint);
    let other_g = notice_other(pre, w);
    let touched_ind = notice_touches(pre, w);
    assert(pre.relationships.len() == pre.relationships@.len());
    assert(post.pending_widows@ =~= orig.pending_widows@.take(mp));
    assert(orig.pending_widows@[mp] == w);
    assert(rel_noticed_from(orig, jint, mp));
    assert forall|j2: int| rel_noticed_from(orig, j2, m) implies rel_noticed_from(
        orig,
        j2,
        mp,
    ) by {}
    assert forall|j2: int|
        j2 != jint && rel_noticed_from(orig, j2, mp) implies rel_noticed_from(orig, j2, m) by {
        let k = choose|k: int|
            mp <= k < orig.pending_widows@.len() && (
            #[trigger] orig.pending_widows@[k]).relationship as int == j2;
        assert(k >= m);
    }
    if touched_rel {
        assert(pre.rel_wf(jint));
        assert(!rel_noticed_from(orig, jint, m));
        assert(pre.widow_notice_wf(w));
        assert(pre.is_member(jint, w.deceased as int));
        assert(!pre.alive(w.deceased as int));
        assert(other_g as int != w.deceased as int);
    }
    // the widowings count steps by exactly this notice's due-ness
    assert(widowings_emitted(orig, mp) == widowings_emitted(orig, m) + (if widow_event_due(
        orig,
        mp,
    ) {
        1int
    } else {
        0int
    }));
    assert(touched_ind == widow_event_due(orig, mp)) by {
        if touched_rel {
            assert(pre.relationships@[jint] == orig.relationships@[jint]);
            assert(pre.rel(jint) == orig.rel(jint));
            assert(notice_other(pre, w) == notice_other(orig, w));
            assert(orig.rel_live(jint) && !rel_noticed_from(orig, jint, mp + 1));
            // the survivor's aliveness is unchanged since the pass began:
            // earlier steps at most cleared a partnership reference
            let og = other_g as int;
            if orig.alive(og) {
                assert(pre.individuals@[og] == orig.individuals@[og] || pre.individuals@[og]
                    == Some(Individual { partnership: None, ..orig.ind(og) }));
                assert(pre.alive(og));
            } else {
                if 0 <= og < orig.n_ids() {
                    assert(pre.individuals@[og] == orig.individuals@[og]);
                } else {
                    assert(pre.rel_wf(jint));
                }
                assert(!pre.alive(og));
            }
        } else {
            if orig.rel_live(jint) && !rel_noticed_from(orig, jint, mp + 1) {
                assert(pre.rel_live(jint));
                assert(false);
            }
        }
    }
    // relationships
    assert forall|j2: int| #[trigger] post.rel_live(j2) implies (orig.rel_live(j2)
        && !rel_noticed_from(orig, j2, mp)) by {
        assert(pre.rel_live(j2));
        assert(j2 != jint || !touched_rel);
    }
    assert forall|j2: int|
        orig.rel_live(j2) && !rel_noticed_from(orig, j2, mp) implies post.rel_live(j2) by {
        assert(!rel_noticed_from(orig, j2, m));
        assert(pre.rel_live(j2));
        assert(j2 != jint);
    }
    assert forall|j2: int| #[trigger] post.rel_live(j2) implies post.relationships@[j2]
        == orig.relationships@[j2] by {
        assert(pre.rel_live(j2));
        assert(j2 != jint || !touched_rel);
    }
    // individuals
    if touched_rel && orig.alive(other_g as int) {
        assert(orig.rel_wf(jint));
        assert(pre.relationships@[jint] == orig.relationships@[jint]);
        assert(orig.ind(other_g as int).partnership == Some(w.relationship));
        assert(pre.individuals@[other_g as int] == orig.individuals@[other_g as int]);
    }
    assert forall|i: int|
        orig.alive(i) && (#[trigger] orig.ind(i)).partnership is Some && rel_noticed_from(
            orig,
            orig.ind(i).partnership->Some_0 as int,
            mp,
        ) implies post.individuals@[i] == Some(Individual { partnership: None, ..orig.ind(i) }) by {
        let ji = orig.ind(i).partnership->Some_0 as int;
        if rel_noticed_from(orig, ji, m) {
            assert(pre.individuals@[i] == Some(Individual { partnership: None, ..orig.ind(i) }));
            if touched_ind && i == other_g as int {
                assert(pre.ind(other_g as int).partnership == Some(w.relationship));
                assert(false);
            }
        } else {
            assert(ji == jint);
            assert(pre.individuals@[i] == orig.individuals@[i]);
            assert(pre.alive(i));
            assert(pre.ind(i).partnership == Some(w.relationship));
            assert(pre.ind_wf(i));
            assert(pre.rel_live(jint));
            assert(pre.is_member(jint, i));
            assert(i != w.deceased as int);
            assert(i == other_g as int);
            assert(touched_ind);
        }
    }
    assert forall|i: int|
        orig.alive(i) && !((#[trigger] orig.ind(i)).partnership is Some && rel_noticed_from(
            orig,
            orig.ind(i).partnership->Some_0 as int,
            mp,
        )) implies post.individuals@[i] == orig.individuals@[i] by {
        assert(pre.individuals@[i] == orig.individuals@[i]);
        if touched_ind && i == other_g as int {
            assert(pre.rel_wf(jint));
            assert(pre.ind(other_g as int).partnership == Some(w.relationship));
            assert(orig.ind(i).partnership == Some(w.relationship));
            assert(false);
        }
    }
    assert forall|i: int|
        0 <= i < orig.n_ids() && !(#[trigger] orig.alive(i)) implies post.individuals@[i]
            == orig.individuals@[i] by {
        if touched_ind && i == other_g as int {
            assert(false);
        }
    }
    // widow events
    if touched_ind {
        crate::sim::lemma_prefix_push(
            pre.log.widowings@,
            widow_event_of(pre, jint, other_g, w.deceased),
        );
        crate::sim::lemma_prefix_trans(
            orig.log.widowings@,
            pre.log.widowings@,
            post.log.widowings@,
        );
    }
    assert forall|j2: int|
        #![trigger orig.rel(j2)]
        orig.rel_live(j2) && rel_noticed_from(orig, j2, mp) && orig.alive(
            orig.rel(j2).partners.e1 as int,
        ) implies post.log.widowings@.contains(
        widow_event_of(orig, j2, orig.rel(j2).partners.e1, orig.rel(j2).partners.e2),
    ) by {
        let ev = widow_event_of(orig, j2, orig.rel(j2).partners.e1, orig.rel(j2).partners.e2);
        if rel_noticed_from(orig, j2, m) {
            if touched_ind {
                lemma_contains_prefix(pre.log.widowings@, post.log.widowings@, ev);
            }
        } else {
            assert(j2 == jint);
            assert(pre.rel_live(j2));
            assert(pre.relationships@[j2] == orig.relationships@[j2]);
            assert(pre.is_member(j2, w.deceased as int));
            assert(!pre.alive(w.deceased as int));
            assert(pre.individuals@[orig.rel(j2).partners.e1 as int] == orig.individuals@[orig.rel(
                j2,
            ).partners.e1 as int]);
            assert(w.deceased == orig.rel(j2).partners.e2);
            assert(other_g == orig.rel(j2).partners.e1);
            assert(touched_ind);
            assert(post.log.widowings@.last() == ev);
        }
    }
    assert forall|j2: int|
        #![trigger orig.rel(j2)]
        orig.rel_live(j2) && rel_noticed_from(orig, j2, mp) && orig.alive(
            orig.rel(j2).partners.e2 as int,
        ) implies post.log.widowings@.contains(
        widow_event_of(orig, j2, orig.rel(j2).partners.e2, orig.rel(j2).partners.e1),
    ) by {
        let ev = widow_event_of(orig, j2, orig.rel(j2).partners.e2, orig.rel(j2).partners.e1);
        if rel_noticed_from(orig, j2, m) {
            if touched_ind {
                lemma_contains_prefix(pre.log.widowings@, post.log.widowings@, ev);
            }
        } else {
            assert(j2 == jint);
            assert(pre.rel_live(j2));
            assert(pre.relationships@[j2] == orig.relationships@[j2]);
            assert(pre.is_member(j2, w.deceased as int));
            assert(!pre.alive(w.deceased as int));
            assert(pre.individuals@[orig.rel(j2).partners.e2 as int] == orig.individuals@[orig.rel(
                j2,
            ).partners.e2 as int]);
            assert(w.deceased == orig.rel(j2).partners.e1);
            assert(other_g == orig.rel(j2).partners.e2);
            assert(touched_ind);
            assert(post.log.widowings@.last() == ev);
        }
    }
}

/// One cleanup step preserves well-formedness.
#[verifier::rlimit(100)]
pub(crate) proof fn lemma_widow_step_wf(
    orig: Simulation,
    pre: Simulation,
    post: Simulation,
    w: WidowNotice,
    m: int,
)
    requires
        orig.wf(),
        pre.wf(),
        widow_pass_inv(orig, pre, m),
        1 <= m,
        m == pre.pending_widows@.len(),
        w == pre.pending_widows@[m - 1],
        widow_step_shape(pre, post, w),
    ensures
        post.wf(),
{
    let mp = m - 1;
    let jint = notice_rel(w);
    let touched_rel = pre.rel_live(jint);
    let other_g = notice_other(pre, w);
    let touched_ind = notice_touches(pre, w);
    assert(pre.relationships.len() == pre.relationships@.len());
    if touched_rel {
        assert(pre.rel_wf(jint));
        assert(pre.widow_notice_wf(w));
        assert(pre.is_member(jint, w.deceased as int));
        assert(!pre.alive(w.deceased as int));
        if pre.alive(other_g as int) {
            assert(pre.ind(other_g as int).partnership == Some(w.relationship));
            assert(pre.ind_wf(other_g as int));
        }
    }
    assert(post.inds_wf()) by {
        assert forall|i: int| #[trigger] post.alive(i) implies post.ind_wf(i) by {
            assert(pre.alive(i));
            assert(pre.ind_wf(i));
            if !(touched_ind && i == other_g as int) {
                assert(post.ind(i) == pre.ind(i));
                if post.ind(i).partnership is Some {
                    let ji = post.ind(i).partnership->Some_0 as int;
                    assert(pre.rel_live(ji) && pre.is_member(ji, i));
                    if ji == jint && touched_rel {
                        assert(i != w.deceased as int);
                        assert(i == other_g as int);
                        assert(touched_ind);
                        assert(false);
                    }
                    assert(post.rel_live(ji) && post.rel(ji) == pre.rel(ji));
                }
            }
        }
    }
    assert(post.rels_wf()) by {
        assert forall|j2: int| #[trigger] post.rel_live(j2) implies post.rel_wf(j2) by {
            assert(pre.rel_live(j2));
            assert(pre.rel_wf(j2));
            assert(j2 != jint || !touched_rel);
            let p = pre.rel(j2).partners;
            assert(post.rel(j2) == pre.rel(j2));
            if touched_rel && j2 != jint {
                assert(pre.members_disjoint(j2, jint));
            }
            assert(post.individuals@[p.e1 as int] == pre.individuals@[p.e1 as int]);
            assert(post.individuals@[p.e2 as int] == pre.individuals@[p.e2 as int]);
            if !pre.alive(p.e1 as int) {
                assert(pre.widow_pending(p.e1 as int, j2));
                let k = choose|k: int|
                    0 <= k < pre.pending_widows@.len() && (#[trigger] pre.pending_widows@[k])
                        == (WidowNotice { deceased: p.e1, relationship: j2 as usize });
                if k == mp {
                    assert(w.relationship == j2 as usize);
                    assert(jint == j2);
                    assert(false);
                }
                assert(post.pending_widows@[k] == pre.pending_widows@[k]);
                assert(post.widow_pending(p.e1 as int, j2));
            }
            if !pre.alive(p.e2 as int) {
                assert(pre.widow_pending(p.e2 as int, j2));
                let k = choose|k: int|
                    0 <= k < pre.pending_widows@.len() && (#[trigger] pre.pending_widows@[k])
                        == (WidowNotice { deceased: p.e2, relationship: j2 as usize });
                if k == mp {
                    assert(w.relationship == j2 as usize);
                    assert(jint == j2);
                    assert(false);
                }
                assert(post.pending_widows@[k] == pre.pending_widows@[k]);
                assert(post.widow_pending(p.e2 as int, j2));
            }
        }
    }
    assert(post.rels_disjoint()) by {
        assert forall|j1: int, j2: int|
            #![trigger post.rel_live(j1), post.rel_live(j2)]
            post.rel_live(j1) && post.rel_live(j2) && j1 != j2 implies post.members_disjoint(
            j1,
            j2,
        ) by {
            assert(pre.rel_live(j1) && pre.rel_live(j2));
        }
    }
    assert(post.queued_ids() == pre.queued_ids());
    assert(post.queues_wf()) by {
        assert forall|k: int| 0 <= k < post.queued_ids().len() implies {
            let e = (#[trigger] post.queued_ids()[k]) as int;
            e < post.n_ids() && (post.alive(e) ==> post.ind(e).seeking)
        } by {
            let e = pre.queued_ids()[k] as int;
            assert(e < pre.n_ids() && (pre.alive(e) ==> pre.ind(e).seeking));
            assert(pre.queued_ids().contains(pre.queued_ids()[k]));
        }
        }
    assert(post.pending_wf()) by {
        assert forall|k: int|
            0 <= k < post.pending_matches@.len() implies post.pending_pair_wf(
            #[trigger] post.pending_matches@[k],
        ) by {
            let pr = pre.pending_matches@[k];
            assert(pre.pending_pair_wf(pr));
            assert(post.alive(pr.e1 as int) == pre.alive(pr.e1 as int));
            assert(post.alive(pr.e2 as int) == pre.alive(pr.e2 as int));
            if pre.alive(pr.e1 as int) {
                assert(post.ind(pr.e1 as int).seeking == pre.ind(pr.e1 as int).seeking && post.ind(
                    pr.e1 as int,
                ).elder == pre.ind(pr.e1 as int).elder);
            }
            if pre.alive(pr.e2 as int) {
                assert(post.ind(pr.e2 as int).seeking == pre.ind(pr.e2 as int).seeking && post.ind(
                    pr.e2 as int,
                ).elder == pre.ind(pr.e2 as int).elder);
            }
        }
    }
    assert(post.widows_wf()) by {
        assert forall|k: int|
            0 <= k < post.pending_widows@.len() implies post.widow_notice_wf(
            #[trigger] post.pending_widows@[k],
        ) by {
            assert(post.pending_widows@[k] == pre.pending_widows@[k]);
            assert(pre.widow_notice_wf(pre.pending_widows@[k]));
        }
    }
}

impl Simulation {
    /// Widowhood cleanup: drains every removal notice. A notice whose
    /// partnership is still live destroys that partnership, clears the
    /// surviving member's reference, and emits a `Widowed` event naming
    /// the survivor; a notice whose partnership is already gone — as the
    /// second notice is when both members were removed in one tick — is
    /// skipped, so the cleanup runs exactly once per partnership and a
    /// double death leaves no dangling record and no widow. Afterwards no
    /// live partnership references a removed individual. Running the
    /// cleanup with nothing pending changes nothing.
    pub fn detect_widows(&mut self)
        requires
            old(self).wf(),
        ensures
            final(self).wf(),
            final(self).no_dangling(),
            final(self).pending_widows@.len() == 0,
            widow_pass_inv(*old(self), *final(self), 0),
            old(self).pending_widows@.len() == 0 ==> final(self).individuals@ == old(self).individuals@ && final(self).relationships@ == old(self).relationships@ && final(self).log.widowings@ == old(self).log.widowings@,
            // a partnership survives exactly when no notice named it
            forall|j: int|
                #[trigger] final(self).rel_live(j) <==> (old(self).rel_live(j) && !rel_noticed(
                    *old(self),
                    j,
                )),
            // survivors of a destroyed partnership lose exactly their
            // reference to it; everyone else is untouched
            forall|i: int|
                old(self).alive(i) && (#[trigger] old(self).ind(i)).partnership is Some
                    && rel_noticed(*old(self), old(self).ind(i).partnership->Some_0 as int)
                    ==> final(self).individuals@[i] == Some(
                    Individual { partnership: None, ..old(self).ind(i) },
                ),
            forall|i: int|
                old(self).alive(i) && !((#[trigger] old(self).ind(i)).partnership is Some
                    && rel_noticed(*old(self), old(self).ind(i).partnership->Some_0 as int))
                    ==> final(self).individuals@[i] == old(self).individuals@[i],
            // each destroyed partnership with a living member yields a
            // Widowed event for that survivor, and exactly one event per
            // consumed notice that destroys a live partnership with a
            // living survivor — a stale notice adds nothing
            final(self).log.widowings@.len() == old(self).log.widowings@.len()
                + widowings_emitted(*old(self), 0),
            forall|j: int|
                #![trigger old(self).rel(j)]
                old(self).rel_live(j) && rel_noticed(*old(self), j) && old(self).alive(
                    old(self).rel(j).partners.e1 as int,
                ) ==> final(self).log.widowings@.contains(
                    widow_event_of(
                        *old(self),
                        j,
                        old(self).rel(j).partners.e1,
                        old(self).rel(j).partners.e2,
                    ),
                ),
            forall|j: int|
                #![trigger old(self).rel(j)]
                old(self).rel_live(j) && rel_noticed(*old(self), j) && old(self).alive(
                    old(self).rel(j).partners.e2 as int,
                ) ==> final(self).log.widowings@.contains(
                    widow_event_of(
                        *old(self),
                        j,
                        old(self).rel(j).partners.e2,
                        old(self).rel(j).partners.e1,
                    ),
                ),
    {
        proof {
            assert(self.pending_widows@ =~= old(self).pending_widows@.take(
                self.pending_widows@.len() as int,
            ));
        }
        while self.pending_widows.len() > 0
            invariant
                old(self).wf(),
                self.wf(),
                widow_pass_inv(*old(self), *self, self.pending_widows@.len() as int),
            decreases self.pending_widows@.len(),
        {
            let ghost pre_iter = *self;
            let ghost m = self.pending_widows@.len() as int;
            let w_opt = self.pending_widows.pop();
            let w = match w_opt {
                Some(w) => w,
                None => {
                    proof {
                        assert(false);
                    }
                    WidowNotice { deceased: 0, relationship: 0 }
                },
            };
            proof {
                assert(w == pre_iter.pending_widows@[m - 1]);
                assert(pre_iter.widow_notice_wf(w));
            }
            let j = w.relationship;
            let slot = self.relationships[j];
            if let Some(r) = slot {
                proof {
                    assert(pre_iter.rel_live(j as int));
                    assert(pre_iter.rel_wf(j as int));
                    assert(pre_iter.is_member(j as int, w.deceased as int));
                    assert(!pre_iter.alive(w.deceased as int));
                }
                let other = if r.partners.e1 == w.deceased {
                    r.partners.e2
                } else {
                    r.partners.e1
                };
                self.relationships.set(j, None);
                let oslot = self.individuals[other];
                if let Some(orec) = oslot {
                    self.individuals.set(other, Some(Individual { partnership: None, ..orec }));
                    self.log.widowings.push(
                        WidowEvent {
                            widow_entity: other,
                            deceased_entity: w.deceased,
                            relationship_entity: j,
                            time: self.time,
                        },
                    );
                }
            }
            proof {
                assert(widow_step_shape(pre_iter, *self, w));
                lemma_widow_step_inv(*old(self), pre_iter, *self, w, m);
                lemma_widow_step_wf(*old(self), pre_iter, *self, w, m);
            }
        }
        proof {
            assert forall|j2: int| #[trigger] self.rel_live(j2) implies self.alive(
                self.rel(j2).partners.e1 as int,
            ) && self.alive(self.rel(j2).partners.e2 as int) by {
                assert(old(self).rel_live(j2) && !rel_noticed_from(*old(self), j2, 0));
                assert(old(self).rel_wf(j2));
                let p = old(self).rel(j2).partners;
                if !old(self).alive(p.e1 as int) {
                    assert(old(self).widow_pending(p.e1 as int, j2));
                    let k = choose|k: int|
                        0 <= k < old(self).pending_widows@.len() && (#[trigger] old(self).pending_widows@[k]) == (WidowNotice {
                            deceased: p.e1,
                            relationship: j2 as usize,
                        });
                    assert(rel_noticed_from(*old(self), j2, 0));
                }
                if !old(self).alive(p.e2 as int) {
                    assert(old(self).widow_pending(p.e2 as int, j2));
                    let k = choose|k: int|
                        0 <= k < old(self).pending_widows@.len() && (#[trigger] old(self).pending_widows@[k]) == (WidowNotice {
                            deceased: p.e2,
                            relationship: j2 as usize,
                        });
                    assert(rel_noticed_from(*old(self), j2, 0));
                }
                assert(old(self).alive(p.e1 as int) && old(self).alive(p.e2 as int));
                assert(self.individuals@[p.e1 as int] is Some);
                assert(self.individuals@[p.e2 as int] is Some);
            }
        }
    }
}

/// Eligibility for the Seeking state: a living, unpartnered adult not yet
/// an elder and not already seeking.
pub open spec fn eligible_to_seek(s: Simulation, i: int) -> bool {
    &&& s.alive(i)
    &&& s.ind(i).adult
    &&& !s.ind(i).elder
    &&& s.ind(i).partnership is None
    &&& !s.ind(i).seeking
}

/// Whether individual `i` is named by a staged match awaiting resolution.
pub open spec fn pending_member(s: Simulation, i: int) -> bool {
    exists|k: int|
        0 <= k < s.pending_matches@.len() && ((#[trigger] s.pending_matches@[k]).e1 as int == i
            || s.pending_matches@[k].e2 as int == i)
}

/// Whether the queueing pass admits individual `i` to the `sex` queue: it
/// is alive and seeking, not yet queued, and not held by a staged match.
pub open spec fn queue_candidate(s: Simulation, sex: Sex, i: int) -> bool {
    &&& s.alive(i)
    &&& s.ind(i).seeking
    &&& s.ind(i).demog.sex == sex
    &&& !s.in_queues(i)
    &&& !pending_member(s, i)
}

/// The identifiers below `n` that the queueing pass appends to the `sex`
/// queue, in identifier order.
pub open spec fn queue_candidates(s: Simulation, sex: Sex, n: int) -> Seq<usize>
    decreases n,
{
    if n <= 0 {
        Seq::empty()
    } else {
        let p = queue_candidates(s, sex, n - 1);
        if queue_candidate(s, sex, n - 1) {
            p.push((n - 1) as usize)
        } else {
            p
        }
    }
}

/// Everything the queueing pass appends is an in-range candidate.
pub(crate) proof fn lemma_candidates_elements(s: Simulation, sex: Sex, n: int)
    requires
        n <= usize::MAX,
    ensures
        forall|y: usize|
            #[trigger] queue_candidates(s, sex, n).contains(y) ==> (y as int) < n
                && queue_candidate(s, sex, y as int),
    decreases n,
{
    if n > 0 {
        lemma_candidates_elements(s, sex, n - 1);
        let p = queue_candidates(s, sex, n - 1);
        let c = queue_candidates(s, sex, n);
        assert forall|y: usize| #[trigger] c.contains(y) implies (y as int) < n && queue_candidate(
            s,
            sex,
            y as int,
        ) by {
            if queue_candidate(s, sex, n - 1) {
                let idx = choose|idx: int| 0 <= idx < c.len() && c[idx] == y;
                if idx < p.len() {
                    assert(p[idx] == y);
                    assert(p.contains(y));
                }
            } else {
                assert(p.contains(y));
            }
        }
    }
}

/// Enqueueing one living, seeking, unqueued individual that no staged
/// match holds preserves well-formedness.
pub(crate) proof fn lemma_wf_enqueue(pre: Simulation, post: Simulation, id: usize)
    requires
        pre.wf(),
        pre.alive(id as int),
        pre.ind(id as int).seeking,
        !pre.in_queues(id as int),
        !pending_member(pre, id as int),
        post.individuals@ == pre.individuals@,
        post.relationships@ == pre.relationships@,
        post.pending_matches@ == pre.pending_matches@,
        post.pending_widows@ == pre.pending_widows@,
        post.queued_ids().no_duplicates(),
        forall|y: usize|
            #[trigger] post.queued_ids().contains(y) <==> (pre.queued_ids().contains(y) || y
                == id),
    ensures
        post.wf(),
{
    assert(post.inds_wf()) by {
        assert forall|i: int| #[trigger] post.alive(i) implies post.ind_wf(i) by {
            assert(pre.alive(i));
            assert(pre.ind_wf(i));
        }
    }
    assert(post.rels_wf()) by {
        assert forall|j: int| #[trigger] post.rel_live(j) implies post.rel_wf(j) by {
            assert(pre.rel_live(j));
            assert(pre.rel_wf(j));
        }
    }
    assert(post.rels_disjoint()) by {
        assert forall|j1: int, j2: int|
            #![trigger post.rel_live(j1), post.rel_live(j2)]
            post.rel_live(j1) && post.rel_live(j2) && j1 != j2 implies post.members_disjoint(
            j1,
            j2,
        ) by {
            assert(pre.rel_live(j1) && pre.rel_live(j2));
        }
    }
    assert(post.queues_wf()) by {
        assert forall|k: int| 0 <= k < post.queued_ids().len() implies {
            let e = (#[trigger] post.queued_ids()[k]) as int;
            e < post.n_ids() && (post.alive(e) ==> post.ind(e).seeking)
        } by {
            let y = post.queued_ids()[k];
            assert(post.queued_ids().contains(y));
            if y != id {
                assert(pre.queued_ids().contains(y));
                let k0 = choose|k0: int|
                    0 <= k0 < pre.queued_ids().len() && pre.queued_ids()[k0] == y;
                assert((pre.queued_ids()[k0] as int) < pre.n_ids() && (pre.alive(
                    pre.queued_ids()[k0] as int,
                ) ==> pre.ind(pre.queued_ids()[k0] as int).seeking));
            }
        }
    }
    assert(post.pending_wf()) by {
        assert forall|k: int|
            0 <= k < post.pending_matches@.len() implies post.pending_pair_wf(
            #[trigger] post.pending_matches@[k],
        ) by {
            let p = pre.pending_matches@[k];
            assert(pre.pending_pair_wf(p));
            assert(p.e1 != id && p.e2 != id);
            assert(!post.queued_ids().contains(p.e1));
            assert(!post.queued_ids().contains(p.e2));
        }
    }
    assert(post.widows_wf()) by {
        assert forall|k: int|
            0 <= k < post.pending_widows@.len() implies post.widow_notice_wf(
            #[trigger] post.pending_widows@[k],
        ) by {
            assert(pre.widow_notice_wf(pre.pending_widows@[k]));
        }
    }
}

/// Tests whether `q` holds the identifier `e`.
fn vec_contains_id(q: &Vec<usize>, e: usize) -> (r: bool)
    ensures
        r == q@.contains(e),
{
    let mut k: usize = 0;
    while k < q.len()
        invariant
            k <= q@.len(),
            forall|a: int| 0 <= a < k ==> q@[a] != e,
        decreases q@.len() - k,
    {
        if q[k] == e {
            return true;
        }
        k += 1;
    }
    false
}

impl Simulation {
    /// Tests whether a staged match names `e`.
    fn is_pending_member(&self, e: usize) -> (r: bool)
        ensures
            r == pending_member(*self, e as int),
    {
        let mut k: usize = 0;
        while k < self.pending_matches.len()
            invariant
                k <= self.pending_matches@.len(),
                forall|a: int|
                    0 <= a < k ==> (#[trigger] self.pending_matches@[a]).e1 != e
                        && self.pending_matches@[a].e2 != e,
            decreases self.pending_matches@.len() - k,
        {
            let p = self.pending_matches[k];
            if p.e1 == e || p.e2 == e {
                return true;
            }
            k += 1;
        }
        false
    }

    /// Drives the Eligible-to-Seeking transition: every living,
    /// unpartnered adult below elderhood that is not already seeking
    /// starts to seek. Everything but the seeking flags is untouched;
    /// re-running the pass changes nothing more.
    pub fn start_partner_seeking(&mut self)
        requires
            old(self).wf(),
        ensures
            final(self).wf(),
            final(self).n_ids() == old(self).n_ids(),
            forall|i: int|
                old(self).alive(i) && eligible_to_seek(*old(self), i) ==> final(self).individuals@[i] == Some(Individual { seeking: true, ..old(self).ind(i) }),
            forall|i: int|
                0 <= i < old(self).n_ids() && !eligible_to_seek(*old(self), i) ==> final(self).individuals@[i] == old(self).individuals@[i],
            final(self).relationships == old(self).relationships,
            final(self).seekers.females == old(self).seekers.females,
            final(self).seekers.males == old(self).seekers.males,
            final(self).pending_matches == old(self).pending_matches,
            final(self).pending_widows == old(self).pending_widows,
            final(self).log == old(self).log,
            final(self).params == old(self).params,
            final(self).time == old(self).time,
    {
        let n = self.individuals.len();
        let mut id: usize = 0;
        while id < n
            invariant
                old(self).wf(),
                self.wf(),
                id <= n,
                n == old(self).individuals@.len(),
                self.individuals@.len() == n,
                forall|i: int| id <= i < n ==> self.individuals@[i] == old(self).individuals@[i],
                forall|i: int|
                    0 <= i < id && old(self).alive(i) && eligible_to_seek(*old(self), i)
                        ==> self.individuals@[i] == Some(
                        Individual { seeking: true, ..old(self).ind(i) },
                    ),
                forall|i: int|
                    0 <= i < id && !eligible_to_seek(*old(self), i) ==> self.individuals@[i] == old(self).individuals@[i],
                self.relationships == old(self).relationships,
                self.seekers.females == old(self).seekers.females,
                self.seekers.males == old(self).seekers.males,
                self.pending_matches == old(self).pending_matches,
                self.pending_widows == old(self).pending_widows,
                self.log == old(self).log,
                self.params == old(self).params,
                self.time == old(self).time,
            decreases n - id,
        {
            let slot = self.individuals[id];
            if let Some(rec) = slot {
                if rec.adult && !rec.elder && rec.partnership.is_none() && !rec.seeking {
                    let ghost before = *self;
                    let newrec = Individual { seeking: true, ..rec };
                    self.individuals.set(id, Some(newrec));
                    proof {
                        assert(before.alive(id as int));
                        assert(before.ind_wf(id as int));
                        if before.in_queues(id as int) {
                            lemma_queued_alive_seeking(before, id as int);
                        }
                        lemma_wf_record_update(before, *self, id as int, newrec);
                    }
                }
            }
            id += 1;
        }
    }

    /// Admits every seeker that is not yet queued into its sex's queue, in
    /// identifier order. The guard makes re-entry harmless: an identifier
    /// already queued, or held by a staged match awaiting resolution, is
    /// not enqueued a second time.
    pub fn queue_partner_seekers(&mut self)
        requires
            old(self).wf(),
        ensures
            final(self).wf(),
            final(self).seekers.females@ == old(self).seekers.females@ + queue_candidates(
                *old(self),
                Sex::Female,
                old(self).n_ids(),
            ),
            final(self).seekers.males@ == old(self).seekers.males@ + queue_candidates(
                *old(self),
                Sex::Male,
                old(self).n_ids(),
            ),
            final(self).individuals == old(self).individuals,
            final(self).relationships == old(self).relationships,
            final(self).pending_matches == old(self).pending_matches,
            final(self).pending_widows == old(self).pending_widows,
            final(self).log == old(self).log,
            final(self).params == old(self).params,
            final(self).time == old(self).time,
    {
        let n = self.individuals.len();
        let mut id: usize = 0;
        while id < n
            invariant
                old(self).wf(),
                self.wf(),
                id <= n,
                n == old(self).individuals@.len(),
                self.individuals == old(self).individuals,
                self.seekers.females@ == old(self).seekers.females@ + queue_candidates(
                    *old(self),
                    Sex::Female,
                    id as int,
                ),
                self.seekers.males@ == old(self).seekers.males@ + queue_candidates(
                    *old(self),
                    Sex::Male,
                    id as int,
                ),
                self.relationships == old(self).relationships,
                self.pending_matches == old(self).pending_matches,
                self.pending_widows == old(self).pending_widows,
                self.log == old(self).log,
                self.params == old(self).params,
                self.time == old(self).time,
            decreases n - id,
        {
            let ghost before = *self;
            let ghost orig = *old(self);
            proof {
                // the queues grown so far hold only identifiers below id,
                // so membership of id itself is unchanged from the start
                lemma_candidates_elements(orig, Sex::Female, id as int);
                lemma_candidates_elements(orig, Sex::Male, id as int);
                lemma_concat_contains(
                    orig.seekers.females@,
                    queue_candidates(orig, Sex::Female, id as int),
                );
                lemma_concat_contains(
                    orig.seekers.males@,
                    queue_candidates(orig, Sex::Male, id as int),
                );
                lemma_concat_contains(before.seekers.females@, before.seekers.males@);
                lemma_concat_contains(orig.seekers.females@, orig.seekers.males@);
            }
            let slot = self.individuals[id];
            if let Some(rec) = slot {
                let queued = vec_contains_id(&self.seekers.females, id) || vec_contains_id(
                    &self.seekers.males,
                    id,
                );
                let held = self.is_pending_member(id);
                if rec.seeking && !queued && !held {
                    proof {
                        assert(!before.in_queues(id as int));
                        assert(!orig.seekers.females@.contains(id));
                        assert(!orig.seekers.males@.contains(id));
                        assert(!orig.in_queues(id as int));
                        assert(!pending_member(orig, id as int));
                        assert(queue_candidate(orig, rec.demog.sex, id as int));
                    }
                    self.seekers.add_seeker(id, rec.demog.sex);
                    proof {
                        match rec.demog.sex {
                            Sex::Female => {
                                lemma_insert_middle(
                                    before.seekers.females@,
                                    before.seekers.males@,
                                    id,
                                );
                            },
                            Sex::Male => {
                                lemma_append_right(
                                    before.seekers.females@,
                                    before.seekers.males@,
                                    id,
                                );
                                lemma_push_nodup(before.queued_ids(), id);
                                assert(self.queued_ids() =~= before.queued_ids().push(id));
                            },
                        }
                        lemma_wf_enqueue(before, *self, id);
                    }
                } else {
                    proof {
                        if queued {
                            // already in a queue at the start of the pass
                            assert(before.seekers.females@.contains(id)
                                || before.seekers.males@.contains(id));
                            assert(orig.seekers.females@.contains(id) || orig.seekers.males@.contains(
                                id,
                            ));
                            assert(orig.in_queues(id as int));
                        }
                        assert(!queue_candidate(orig, Sex::Female, id as int));
                        assert(!queue_candidate(orig, Sex::Male, id as int));
                    }
                }
            }
            proof {
                assert(queue_candidates(orig, Sex::Female, id + 1 as int) == (if queue_candidate(
                    orig,
                    Sex::Female,
                    id as int,
                ) {
                    queue_candidates(orig, Sex::Female, id as int).push(id)
                } else {
                    queue_candidates(orig, Sex::Female, id as int)
                }));
                assert(queue_candidates(orig, Sex::Male, id + 1 as int) == (if queue_candidate(
                    orig,
                    Sex::Male,
                    id as int,
                ) {
                    queue_candidates(orig, Sex::Male, id as int).push(id)
                } else {
                    queue_candidates(orig, Sex::Male, id as int)
                }));
            }
            id += 1;
        }
    }
}

/// Whether the elder-eviction pass removes individual `i` from seeking.
pub open spec fn evicted_elder(s: Simulation, i: int) -> bool {
    s.alive(i) && s.ind(i).seeking && s.ind(i).elder
}

/// The queue `q` with every entry evicted by elderhood purged.
pub open spec fn keep_non_elder(q: Seq<usize>, s: Simulation) -> Seq<usize>
    decreases q.len(),
{
    if q.len() == 0 {
        Seq::empty()
    } else {
        let p = keep_non_elder(q.drop_last(), s);
        if evicted_elder(s, q.last() as int) {
            p
        } else {
            p.push(q.last())
        }
    }
}

/// What the purge keeps is a duplicate-free selection of non-evicted
/// entries of the original queue.
pub(crate) proof fn lemma_keep_non_elder_props(q: Seq<usize>, s: Simulation)
    requires
        q.no_duplicates(),
    ensures
        keep_non_elder(q, s).no_duplicates(),
        forall|y: usize|
            #[trigger] keep_non_elder(q, s).contains(y) ==> q.contains(y) && !evicted_elder(
                s,
                y as int,
            ),
    decreases q.len(),
{
    if q.len() > 0 {
        let q0 = q.drop_last();
        assert(q0.no_duplicates()) by {
            assert forall|a: int, b: int| 0 <= a < b < q0.len() implies q0[a] != q0[b] by {
                assert(q[a] == q0[a] && q[b] == q0[b]);
            }
        }
        lemma_keep_non_elder_props(q0, s);
        let p = keep_non_elder(q0, s);
        assert forall|y: usize| #[trigger] q0.contains(y) implies q.contains(y) by {
            let idx = choose|idx: int| 0 <= idx < q0.len() && q0[idx] == y;
            assert(q[idx] == y);
        }
        if !evicted_elder(s, q.last() as int) {
            assert(!p.contains(q.last())) by {
                if p.contains(q.last()) {
                    assert(q0.contains(q.last()));
                    let idx = choose|idx: int| 0 <= idx < q0.len() && q0[idx] == q.last();
                    assert(q[idx] == q[q.len() - 1]);
                }
            }
            lemma_push_nodup(p, q.last());
            assert(q.contains(q.last()));
        }
    }
}

/// Whether a queue entry survives the matching round's filter: still
/// alive, still seeking, unpartnered, and not an elder.
pub open spec fn seeker_valid(s: Simulation, e: int) -> bool {
    s.alive(e) && s.ind(e).seeking && s.ind(e).partnership is None && !s.ind(e).elder
}

/// The queue `q` filtered to the entries the matching round pairs from.
pub open spec fn valid_seekers(q: Seq<usize>, s: Simulation) -> Seq<usize>
    decreases q.len(),
{
    if q.len() == 0 {
        Seq::empty()
    } else {
        let p = valid_seekers(q.drop_last(), s);
        if seeker_valid(s, q.last() as int) {
            p.push(q.last())
        } else {
            p
        }
    }
}

/// The filtered queue is a duplicate-free selection of valid entries.
pub(crate) proof fn lemma_valid_seekers_props(q: Seq<usize>, s: Simulation)
    requires
        q.no_duplicates(),
    ensures
        valid_seekers(q, s).no_duplicates(),
        forall|y: usize|
            #[trigger] valid_seekers(q, s).contains(y) ==> q.contains(y) && seeker_valid(
                s,
                y as int,
            ),
    decreases q.len(),
{
    if q.len() > 0 {
        let q0 = q.drop_last();
        assert(q0.no_duplicates()) by {
            assert forall|a: int, b: int| 0 <= a < b < q0.len() implies q0[a] != q0[b] by {
                assert(q[a] == q0[a] && q[b] == q0[b]);
            }
        }
        lemma_valid_seekers_props(q0, s);
        let p = valid_seekers(q0, s);
        assert forall|y: usize| #[trigger] q0.contains(y) implies q.contains(y) by {
            let idx = choose|idx: int| 0 <= idx < q0.len() && q0[idx] == y;
            assert(q[idx] == y);
        }
        if seeker_valid(s, q.last() as int) {
            assert(!p.contains(q.last())) by {
                if p.contains(q.last()) {
                    assert(q0.contains(q.last()));
                    let idx = choose|idx: int| 0 <= idx < q0.len() && q0[idx] == q.last();
                    assert(q[idx] == q[q.len() - 1]);
                }
            }
            lemma_push_nodup(p, q.last());
            assert(q.contains(q.last()));
        }
    }
}

impl Simulation {
    /// The entries of `q` that the elder-eviction pass keeps.
    fn kept_after_elder_eviction(&self, q: &Vec<usize>) -> (r: Vec<usize>)
        ensures
            r@ == keep_non_elder(q@, *self),
    {
        let mut r: Vec<usize> = Vec::new();
        let mut k: usize = 0;
        while k < q.len()
            invariant
                k <= q@.len(),
                r@ == keep_non_elder(q@.take(k as int), *self),
            decreases q@.len() - k,
        {
            let ghost prefix = q@.take(k as int);
            let e = q[k];
            let mut evict = false;
            if e < self.individuals.len() {
                if let Some(rec) = self.individuals[e] {
                    evict = rec.seeking && rec.elder;
                }
            }
            if !evict {
                r.push(e);
            }
            proof {
                assert(q@.take(k + 1 as int).drop_last() =~= prefix);
                assert(q@.take(k + 1 as int).last() == q@[k as int]);
            }
            k += 1;
        }
        proof {
            assert(q@.take(q@.len() as int) =~= q@);
        }
        r
    }

    /// The entries of `q` still valid for matching.
    fn valid_list(&self, q: &Vec<usize>) -> (r: Vec<usize>)
        ensures
            r@ == valid_seekers(q@, *self),
    {
        let mut r: Vec<usize> = Vec::new();
        let mut k: usize = 0;
        while k < q.len()
            invariant
                k <= q@.len(),
                r@ == valid_seekers(q@.take(k as int), *self),
            decreases q@.len() - k,
        {
            let ghost prefix = q@.take(k as int);
            let e = q[k];
            let mut valid = false;
            if e < self.individuals.len() {
                if let Some(rec) = self.individuals[e] {
                    valid = rec.seeking && rec.partnership.is_none() && !rec.elder;
                }
            }
            if valid {
                r.push(e);
            }
            proof {
                assert(q@.take(k + 1 as int).drop_last() =~= prefix);
                assert(q@.take(k + 1 as int).last() == q@[k as int]);
            }
            k += 1;
        }
        proof {
            assert(q@.take(q@.len() as int) =~= q@);
        }
        r
    }

    /// Drives the Seeking-to-Elder-ineligible transition: the instant an
    /// individual is both seeking and an elder it is evicted from its
    /// queue and stops seeking, matched or not.
    pub fn stop_elder_partner_seeking(&mut self)
        requires
            old(self).wf(),
        ensures
            final(self).wf(),
            final(self).n_ids() == old(self).n_ids(),
            final(self).seekers.females@ == keep_non_elder(old(self).seekers.females@, *old(self)),
            final(self).seekers.males@ == keep_non_elder(old(self).seekers.males@, *old(self)),
            forall|i: int|
                old(self).alive(i) && evicted_elder(*old(self), i) ==> final(self).individuals@[i]
                    == Some(Individual { seeking: false, ..old(self).ind(i) }),
            forall|i: int|
                0 <= i < old(self).n_ids() && !evicted_elder(*old(self), i) ==> final(self).individuals@[i] == old(self).individuals@[i],
            final(self).relationships == old(self).relationships,
            final(self).pending_matches == old(self).pending_matches,
            final(self).pending_widows == old(self).pending_widows,
            final(self).log == old(self).log,
            final(self).params == old(self).params,
            final(self).time == old(self).time,
    {
        let ghost orig = *old(self);
        // evict from the queues first, then withdraw the flags, so that no
        // flagless individual ever sits in a queue
        let nf = self.kept_after_elder_eviction(&self.seekers.females);
        let nm = self.kept_after_elder_eviction(&self.seekers.males);
        self.seekers.females = nf;
        self.seekers.males = nm;
        proof {
            lemma_nodup_concat_parts(orig.seekers.females@, orig.seekers.males@);
            lemma_keep_non_elder_props(orig.seekers.females@, orig);
            lemma_keep_non_elder_props(orig.seekers.males@, orig);
            lemma_concat_contains(orig.seekers.females@, orig.seekers.males@);
            lemma_concat_contains(self.seekers.females@, self.seekers.males@);
            assert(self.queued_ids().no_duplicates()) by {
                lemma_concat_nodup(self.seekers.females@, self.seekers.males@);
            }
            assert(self.wf()) by {
                assert(self.inds_wf()) by {
                    assert forall|i: int| #[trigger] self.alive(i) implies self.ind_wf(i) by {
                        assert(orig.alive(i));
                        assert(orig.ind_wf(i));
                    }
                }
                assert(self.rels_wf()) by {
                    assert forall|j: int| #[trigger] self.rel_live(j) implies self.rel_wf(j) by {
                        assert(orig.rel_live(j));
                        assert(orig.rel_wf(j));
                        let p = orig.rel(j).partners;
                        if !orig.alive(p.e1 as int) {
                            let k = choose|k: int|
                                0 <= k < orig.pending_widows@.len() && (
                                #[trigger] orig.pending_widows@[k]) == (WidowNotice {
                                    deceased: p.e1,
                                    relationship: j as usize,
                                });
                            assert(self.pending_widows@[k] == orig.pending_widows@[k]);
                            assert(self.widow_pending(p.e1 as int, j));
                        }
                        if !orig.alive(p.e2 as int) {
                            let k = choose|k: int|
                                0 <= k < orig.pending_widows@.len() && (
                                #[trigger] orig.pending_widows@[k]) == (WidowNotice {
                                    deceased: p.e2,
                                    relationship: j as usize,
                                });
                            assert(self.pending_widows@[k] == orig.pending_widows@[k]);
                            assert(self.widow_pending(p.e2 as int, j));
                        }
                    }
                }
                assert(self.rels_disjoint()) by {
                    assert forall|j1: int, j2: int|
                        #![trigger self.rel_live(j1), self.rel_live(j2)]
                        self.rel_live(j1) && self.rel_live(j2) && j1 != j2
                        implies self.members_disjoint(j1, j2) by {
                        assert(orig.rel_live(j1) && orig.rel_live(j2));
                    }
                }
                assert(self.queues_wf()) by {
                    assert forall|k: int| 0 <= k < self.queued_ids().len() implies {
                        let e = (#[trigger] self.queued_ids()[k]) as int;
                        e < self.n_ids() && (self.alive(e) ==> self.ind(e).seeking)
                    } by {
                        let y = self.queued_ids()[k];
                        assert(self.queued_ids().contains(y));
                        assert(orig.queued_ids().contains(y));
                        let k0 = choose|k0: int|
                            0 <= k0 < orig.queued_ids().len() && orig.queued_ids()[k0] == y;
                        assert((orig.queued_ids()[k0] as int) < orig.n_ids() && (orig.alive(
                            orig.queued_ids()[k0] as int,
                        ) ==> orig.ind(orig.queued_ids()[k0] as int).seeking));
                    }
                }
                assert(self.pending_wf()) by {
                    assert forall|k: int|
                        0 <= k < self.pending_matches@.len() implies self.pending_pair_wf(
                        #[trigger] self.pending_matches@[k],
                    ) by {
                        let p = orig.pending_matches@[k];
                        assert(orig.pending_pair_wf(p));
                        assert(!self.queued_ids().contains(p.e1));
                        assert(!self.queued_ids().contains(p.e2));
                    }
                }
                assert(self.widows_wf()) by {
                    assert forall|k: int|
                        0 <= k < self.pending_widows@.len() implies self.widow_notice_wf(
                        #[trigger] self.pending_widows@[k],
                    ) by {
                        assert(orig.widow_notice_wf(orig.pending_widows@[k]));
                    }
                }
            }
        }
        // now withdraw the seeking flag from every evicted elder
        let n = self.individuals.len();
        let mut id: usize = 0;
        while id < n
            invariant
                orig == *old(self),
                orig.wf(),
                self.wf(),
                id <= n,
                n == orig.individuals@.len(),
                self.individuals@.len() == n,
                forall|i: int| id <= i < n ==> self.individuals@[i] == orig.individuals@[i],
                forall|i: int|
                    0 <= i < id && orig.alive(i) && evicted_elder(orig, i)
                        ==> self.individuals@[i] == Some(
                        Individual { seeking: false, ..orig.ind(i) },
                    ),
                forall|i: int|
                    0 <= i < id && !evicted_elder(orig, i) ==> self.individuals@[i]
                        == orig.individuals@[i],
                self.seekers.females@ == keep_non_elder(orig.seekers.females@, orig),
                self.seekers.males@ == keep_non_elder(orig.seekers.males@, orig),
                self.relationships == orig.relationships,
                self.pending_matches == orig.pending_matches,
                self.pending_widows == orig.pending_widows,
                self.log == orig.log,
                self.params == orig.params,
                self.time == orig.time,
            decreases n - id,
        {
            let slot = self.individuals[id];
            if let Some(rec) = slot {
                if rec.seeking && rec.elder {
                    let ghost before = *self;
                    let newrec = Individual { seeking: false, ..rec };
                    self.individuals.set(id, Some(newrec));
                    proof {
                        assert(before.alive(id as int));
                        assert(before.ind_wf(id as int));
                        assert(evicted_elder(orig, id as int));
                        assert(!before.in_queues(id as int)) by {
                            if before.in_queues(id as int) {
                                lemma_concat_contains(
                                    before.seekers.females@,
                                    before.seekers.males@,
                                );
                                lemma_nodup_concat_parts(
                                    orig.seekers.females@,
                                    orig.seekers.males@,
                                );
                                lemma_keep_non_elder_props(orig.seekers.females@, orig);
                                lemma_keep_non_elder_props(orig.seekers.males@, orig);
                                assert(!evicted_elder(orig, id as int));
                            }
                        }
                        lemma_wf_record_update(before, *self, id as int, newrec);
                    }
                }
            }
            id += 1;
        }
    }
}

/// The pairs a matching round stages: position-for-position across the
/// two filtered queues, up to the shorter length.
pub open spec fn matched_pairs(vf: Seq<usize>, vm: Seq<usize>, k: int) -> Seq<Partners> {
    Seq::new(k as nat, |i: int| Partners { e1: vf[i], e2: vm[i] })
}

/// A matching round leaves the state well-formed.
#[verifier::rlimit(100)]
pub(crate) proof fn lemma_wf_match(pre: Simulation, post: Simulation, k: int)
    requires
        pre.wf(),
        post.individuals@ == pre.individuals@,
        post.relationships@ == pre.relationships@,
        post.pending_widows@ == pre.pending_widows@,
        post.log == pre.log,
        0 <= k <= valid_seekers(pre.seekers.females@, pre).len(),
        k <= valid_seekers(pre.seekers.males@, pre).len(),
        post.seekers.females@ == valid_seekers(pre.seekers.females@, pre).skip(k),
        post.seekers.males@ == valid_seekers(pre.seekers.males@, pre).skip(k),
        post.pending_matches@ == pre.pending_matches@ + matched_pairs(
            valid_seekers(pre.seekers.females@, pre),
            valid_seekers(pre.seekers.males@, pre),
            k,
        ),
    ensures
        post.wf(),
{
    let f = pre.seekers.females@;
    let m = pre.seekers.males@;
    let vf = valid_seekers(f, pre);
    let vm = valid_seekers(m, pre);
    let news = matched_pairs(vf, vm, k);
    assert(pre.individuals.len() == pre.individuals@.len());
    lemma_nodup_concat_parts(f, m);
    lemma_valid_seekers_props(f, pre);
    lemma_valid_seekers_props(m, pre);
    lemma_subrange_nodup(vf, k, vf.len() as int);
    lemma_subrange_nodup(vm, k, vm.len() as int);
    lemma_concat_contains(f, m);
    lemma_concat_contains(post.seekers.females@, post.seekers.males@);
    assert(post.seekers.females@ == vf.subrange(k, vf.len() as int));
    assert(post.seekers.males@ == vm.subrange(k, vm.len() as int));
    // anything in the shrunk queues was in the old ones
    assert forall|y: usize| #[trigger] post.queued_ids().contains(y) implies pre.queued_ids().contains(
        y,
    ) by {
        if post.seekers.females@.contains(y) {
            assert(vf.contains(y));
            assert(f.contains(y));
        } else {
            assert(post.seekers.males@.contains(y));
            assert(vm.contains(y));
            assert(m.contains(y));
        }
    }
    assert(post.inds_wf()) by {
        assert forall|i: int| #[trigger] post.alive(i) implies post.ind_wf(i) by {
            assert(pre.alive(i));
            assert(pre.ind_wf(i));
        }
    }
    assert(post.rels_wf()) by {
        assert forall|j: int| #[trigger] post.rel_live(j) implies post.rel_wf(j) by {
            assert(pre.rel_live(j));
            assert(pre.rel_wf(j));
            let p = pre.rel(j).partners;
            if !pre.alive(p.e1 as int) {
                let w = choose|w: int|
                    0 <= w < pre.pending_widows@.len() && (#[trigger] pre.pending_widows@[w])
                        == (WidowNotice { deceased: p.e1, relationship: j as usize });
                assert(post.pending_widows@[w] == pre.pending_widows@[w]);
                assert(post.widow_pending(p.e1 as int, j));
            }
            if !pre.alive(p.e2 as int) {
                let w = choose|w: int|
                    0 <= w < pre.pending_widows@.len() && (#[trigger] pre.pending_widows@[w])
                        == (WidowNotice { deceased: p.e2, relationship: j as usize });
                assert(post.pending_widows@[w] == pre.pending_widows@[w]);
                assert(post.widow_pending(p.e2 as int, j));
            }
        }
    }
    assert(post.rels_disjoint()) by {
        assert forall|j1: int, j2: int|
            #![trigger post.rel_live(j1), post.rel_live(j2)]
            post.rel_live(j1) && post.rel_live(j2) && j1 != j2 implies post.members_disjoint(
            j1,
            j2,
        ) by {
            assert(pre.rel_live(j1) && pre.rel_live(j2));
        }
    }
    assert(post.queues_wf()) by {
        assert(post.queued_ids().no_duplicates()) by {
            assert forall|x: usize|
                !(#[trigger] post.seekers.females@.contains(x) && post.seekers.males@.contains(
                    x,
                )) by {
                if post.seekers.females@.contains(x) && post.seekers.males@.contains(x) {
                    assert(vf.contains(x) && vm.contains(x));
                    assert(f.contains(x) && m.contains(x));
                }
            }
            lemma_concat_nodup(post.seekers.females@, post.seekers.males@);
        }
        assert forall|w: int| 0 <= w < post.queued_ids().len() implies {
            let e = (#[trigger] post.queued_ids()[w]) as int;
            e < post.n_ids() && (post.alive(e) ==> post.ind(e).seeking)
        } by {
            let y = post.queued_ids()[w];
            assert(post.queued_ids().contains(y));
            assert(pre.queued_ids().contains(y));
            let k0 = choose|k0: int| 0 <= k0 < pre.queued_ids().len() && pre.queued_ids()[k0] == y;
            assert((pre.queued_ids()[k0] as int) < pre.n_ids() && (pre.alive(
                pre.queued_ids()[k0] as int,
            ) ==> pre.ind(pre.queued_ids()[k0] as int).seeking));
        }
    }
    assert(post.pending_wf()) by {
        // the staged pairs: old ones kept their properties, new ones are
        // valid seekers drawn one from each queue
        assert forall|w: int|
            0 <= w < post.pending_matches@.len() implies post.pending_pair_wf(
            #[trigger] post.pending_matches@[w],
        ) by {
            if w < pre.pending_matches@.len() {
                let p = pre.pending_matches@[w];
                assert(pre.pending_pair_wf(p));
                assert(post.pending_matches@[w] == p);
                assert(!post.queued_ids().contains(p.e1));
                assert(!post.queued_ids().contains(p.e2));
            } else {
                let i = w - pre.pending_matches@.len();
                let p = news[i];
                assert(post.pending_matches@[w] == p);
                assert(p.e1 == vf[i] && p.e2 == vm[i]);
                assert(vf.contains(vf[i]) && vm.contains(vm[i]));
                assert(seeker_valid(pre, p.e1 as int) && seeker_valid(pre, p.e2 as int));
                assert(f.contains(p.e1) && m.contains(p.e2));
                assert(p.e1 != p.e2);
                assert(!post.queued_ids().contains(p.e1)) by {
                    if post.seekers.females@.contains(p.e1) {
                        let a = choose|a: int|
                            k <= a < vf.len() && vf[a] == p.e1 && post.seekers.females@[a - k]
                                == p.e1;
                        assert(post.seekers.females@[a - k] == vf[a]);
                        assert(vf[a] == vf[i]);
                    } else if post.seekers.males@.contains(p.e1) {
                        assert(vm.contains(p.e1));
                        assert(m.contains(p.e1));
                    }
                }
                assert(!post.queued_ids().contains(p.e2)) by {
                    if post.seekers.males@.contains(p.e2) {
                        let a = choose|a: int|
                            k <= a < vm.len() && vm[a] == p.e2 && post.seekers.males@[a - k]
                                == p.e2;
                        assert(post.seekers.males@[a - k] == vm[a]);
                        assert(vm[a] == vm[i]);
                    } else if post.seekers.females@.contains(p.e2) {
                        assert(vf.contains(p.e2));
                        assert(f.contains(p.e2));
                    }
                }
            }
        }
        assert forall|k1: int, k2: int|
            #![trigger post.pending_matches@[k1], post.pending_matches@[k2]]
            0 <= k1 < k2 < post.pending_matches@.len() implies Simulation::pairs_disjoint(
            post.pending_matches@[k1],
            post.pending_matches@[k2],
        ) by {
            let n0 = pre.pending_matches@.len() as int;
            if k2 < n0 {
                assert(Simulation::pairs_disjoint(
                    pre.pending_matches@[k1],
                    pre.pending_matches@[k2],
                ));
            } else if k1 >= n0 {
                let i1 = k1 - n0;
                let i2 = k2 - n0;
                assert(post.pending_matches@[k1] == news[i1]);
                assert(post.pending_matches@[k2] == news[i2]);
                assert(vf.contains(vf[i1]) && vm.contains(vm[i1]));
                assert(vf.contains(vf[i2]) && vm.contains(vm[i2]));
                assert(f.contains(vf[i1]) && f.contains(vf[i2]));
                assert(m.contains(vm[i1]) && m.contains(vm[i2]));
            } else {
                let p1 = pre.pending_matches@[k1];
                let i2 = k2 - n0;
                assert(post.pending_matches@[k1] == p1);
                assert(post.pending_matches@[k2] == news[i2]);
                assert(pre.pending_pair_wf(p1));
                assert(vf.contains(vf[i2]) && vm.contains(vm[i2]));
                assert(f.contains(vf[i2]) && m.contains(vm[i2]));
                // the old pair's members are dequeued, the new pair's
                // members came from the queues
                assert(pre.queued_ids().contains(vf[i2]) && pre.queued_ids().contains(vm[i2]));
                assert(!pre.in_queues(p1.e1 as int) && !pre.in_queues(p1.e2 as int));
            }
        }
    }
    assert(post.widows_wf()) by {
        assert forall|w: int|
            0 <= w < post.pending_widows@.len() implies post.widow_notice_wf(
            #[trigger] post.pending_widows@[w],
        ) by {
            assert(pre.widow_notice_wf(pre.pending_widows@[w]));
        }
    }
}

impl Simulation {
    /// One matching round: filters both queues down to entries that are
    /// still alive, still seeking, unpartnered and not elder — removal or
    /// a prior claim is no error, just silently filtered — then pairs the
    /// survivors first-eligible-in-first-out, position for position up to
    /// the shorter filtered length. The pairs are staged for resolution;
    /// unmatched remainders stay queued, in order, for the next round.
    pub fn match_partners(&mut self)
        requires
            old(self).wf(),
        ensures
            final(self).wf(),
            final(self).seekers.females@ == valid_seekers(
                old(self).seekers.females@,
                *old(self),
            ).skip(
                min(
                    valid_seekers(old(self).seekers.females@, *old(self)).len() as int,
                    valid_seekers(old(self).seekers.males@, *old(self)).len() as int,
                ),
            ),
            final(self).seekers.males@ == valid_seekers(
                old(self).seekers.males@,
                *old(self),
            ).skip(
                min(
                    valid_seekers(old(self).seekers.females@, *old(self)).len() as int,
                    valid_seekers(old(self).seekers.males@, *old(self)).len() as int,
                ),
            ),
            final(self).pending_matches@ == old(self).pending_matches@ + matched_pairs(
                valid_seekers(old(self).seekers.females@, *old(self)),
                valid_seekers(old(self).seekers.males@, *old(self)),
                min(
                    valid_seekers(old(self).seekers.females@, *old(self)).len() as int,
                    valid_seekers(old(self).seekers.males@, *old(self)).len() as int,
                ),
            ),
            final(self).individuals == old(self).individuals,
            final(self).relationships == old(self).relationships,
            final(self).pending_widows == old(self).pending_widows,
            final(self).log == old(self).log,
            final(self).params == old(self).params,
            final(self).time == old(self).time,
    {
        let ghost orig = *old(self);
        let vf = self.valid_list(&self.seekers.females);
        let vm = self.valid_list(&self.seekers.males);
        let k = if vf.len() < vm.len() {
            vf.len()
        } else {
            vm.len()
        };
        let mut i: usize = 0;
        while i < k
            invariant
                i <= k,
                k <= vf@.len() && k <= vm@.len(),
                self.pending_matches@ == orig.pending_matches@ + matched_pairs(vf@, vm@, i as int),
                self.individuals == orig.individuals,
                self.relationships == orig.relationships,
                self.seekers.females == orig.seekers.females,
                self.seekers.males == orig.seekers.males,
                self.pending_widows == orig.pending_widows,
                self.log == orig.log,
                self.params == orig.params,
                self.time == orig.time,
            decreases k - i,
        {
            self.pending_matches.push(Partners { e1: vf[i], e2: vm[i] });
            proof {
                assert(matched_pairs(vf@, vm@, i + 1 as int) =~= matched_pairs(
                    vf@,
                    vm@,
                    i as int,
                ).push(Partners { e1: vf@[i as int], e2: vm@[i as int] }));
            }
            i += 1;
        }
        let mut nf: Vec<usize> = Vec::new();
        let mut a: usize = k;
        while a < vf.len()
            invariant
                k <= a <= vf@.len(),
                nf@ == vf@.subrange(k as int, a as int),
            decreases vf@.len() - a,
        {
            nf.push(vf[a]);
            proof {
                assert(vf@.subrange(k as int, a + 1 as int) =~= vf@.subrange(
                    k as int,
                    a as int,
                ).push(vf@[a as int]));
            }
            a += 1;
        }
        let mut nm: Vec<usize> = Vec::new();
        let mut b: usize = k;
        while b < vm.len()
            invariant
                k <= b <= vm@.len(),
                nm@ == vm@.subrange(k as int, b as int),
            decreases vm@.len() - b,
        {
            nm.push(vm[b]);
            proof {
                assert(vm@.subrange(k as int, b + 1 as int) =~= vm@.subrange(
                    k as int,
                    b as int,
                ).push(vm@[b as int]));
            }
            b += 1;
        }
        self.seekers.females = nf;
        self.seekers.males = nm;
        proof {
            assert(vf@ == valid_seekers(orig.seekers.females@, orig));
            assert(vm@ == valid_seekers(orig.seekers.males@, orig));
            assert(self.seekers.females@ == vf@.skip(k as int));
            assert(self.seekers.males@ == vm@.skip(k as int));
            lemma_wf_match(orig, *self, k as int);
        }
    }
}

/// Whether a staged member can still be bound: alive, still seeking, and
/// not claimed by an earlier pair.
pub open spec fn resolvable(s: Simulation, e: int) -> bool {
    s.alive(e) && s.ind(e).seeking && s.ind(e).partnership is None
}

/// Whether a staged pair resolves into a partnership.
pub open spec fn pair_bound(s: Simulation, p: Partners) -> bool {
    resolvable(s, p.e1 as int) && resolvable(s, p.e2 as int)
}

/// How many of the staged pairs resolve.
pub open spec fn count_bound(s: Simulation, pairs: Seq<Partners>) -> int
    decreases pairs.len(),
{
    if pairs.len() == 0 {
        0
    } else {
        count_bound(s, pairs.drop_last()) + if pair_bound(s, pairs.last()) {
            1int
        } else {
            0int
        }
    }
}

/// Binding one resolvable, dequeued pair into a fresh partnership
/// preserves well-formedness.
#[verifier::rlimit(100)]
pub(crate) proof fn lemma_wf_bind(pre: Simulation, post: Simulation, p: Partners, rid: usize)
    requires
        pre.wf(),
        pre.pending_matches@.len() == 0,
        resolvable(pre, p.e1 as int),
        resolvable(pre, p.e2 as int),
        p.e1 != p.e2,
        !pre.in_queues(p.e1 as int),
        !pre.in_queues(p.e2 as int),
        rid as int == pre.n_rels(),
        post.relationships@ == pre.relationships@.push(
            Some(Relationship { partners: p, formed_at: pre.time }),
        ),
        post.individuals@ == pre.individuals@.update(
            p.e1 as int,
            Some(
                Individual {
                    partnership: Some(rid),
                    seeking: false,
                    ..pre.ind(p.e1 as int)
                },
            ),
        ).update(
            p.e2 as int,
            Some(
                Individual {
                    partnership: Some(rid),
                    seeking: false,
                    ..pre.ind(p.e2 as int)
                },
            ),
        ),
        post.seekers.females@ == pre.seekers.females@,
        post.seekers.males@ == pre.seekers.males@,
        post.pending_matches@ == pre.pending_matches@,
        post.pending_widows@ == pre.pending_widows@,
    ensures
        post.wf(),
{
    let e1 = p.e1 as int;
    let e2 = p.e2 as int;
    assert(post.rel_live(rid as int));
    assert(post.rel(rid as int) == Relationship { partners: p, formed_at: pre.time });
    assert(post.alive(e1) && post.ind(e1) == Individual {
        partnership: Some(rid),
        seeking: false,
        ..pre.ind(e1)
    });
    assert(post.alive(e2) && post.ind(e2) == Individual {
        partnership: Some(rid),
        seeking: false,
        ..pre.ind(e2)
    });
    assert(post.inds_wf()) by {
        assert forall|i: int| #[trigger] post.alive(i) implies post.ind_wf(i) by {
            assert(pre.alive(i));
            assert(pre.ind_wf(i));
            if i != e1 && i != e2 {
                assert(post.ind(i) == pre.ind(i));
                if post.ind(i).partnership is Some {
                    let ji = post.ind(i).partnership->Some_0 as int;
                    assert(pre.rel_live(ji));
                    assert(post.rel_live(ji) && post.rel(ji) == pre.rel(ji));
                }
            } else {
                assert(post.is_member(rid as int, i));
            }
        }
    }
    assert(post.rels_wf()) by {
        assert forall|j: int| #[trigger] post.rel_live(j) implies post.rel_wf(j) by {
            if j == rid as int {
                assert(post.rel_wf(j));
            } else {
                assert(pre.rel_live(j));
                assert(pre.rel_wf(j));
                let q = pre.rel(j).partners;
                assert(post.rel(j) == pre.rel(j));
                // the newly bound members were unpartnered, so they are
                // not members of any older live partnership
                assert(pre.alive(q.e1 as int) ==> q.e1 as int != e1 && q.e1 as int != e2);
                assert(pre.alive(q.e2 as int) ==> q.e2 as int != e1 && q.e2 as int != e2);
                assert(!pre.alive(q.e1 as int) ==> q.e1 as int != e1 && q.e1 as int != e2);
                assert(!pre.alive(q.e2 as int) ==> q.e2 as int != e1 && q.e2 as int != e2);
                assert(post.individuals@[q.e1 as int] == pre.individuals@[q.e1 as int]);
                assert(post.individuals@[q.e2 as int] == pre.individuals@[q.e2 as int]);
                if !pre.alive(q.e1 as int) {
                    let w = choose|w: int|
                        0 <= w < pre.pending_widows@.len() && (#[trigger] pre.pending_widows@[w])
                            == (WidowNotice { deceased: q.e1, relationship: j as usize });
                    assert(post.pending_widows@[w] == pre.pending_widows@[w]);
                    assert(post.widow_pending(q.e1 as int, j));
                }
                if !pre.alive(q.e2 as int) {
                    let w = choose|w: int|
                        0 <= w < pre.pending_widows@.len() && (#[trigger] pre.pending_widows@[w])
                            == (WidowNotice { deceased: q.e2, relationship: j as usize });
                    assert(post.pending_widows@[w] == pre.pending_widows@[w]);
                    assert(post.widow_pending(q.e2 as int, j));
                }
            }
        }
    }
    assert(post.rels_disjoint()) by {
        assert forall|j1: int, j2: int|
            #![trigger post.rel_live(j1), post.rel_live(j2)]
            post.rel_live(j1) && post.rel_live(j2) && j1 != j2 implies post.members_disjoint(
            j1,
            j2,
        ) by {
            if j1 != rid as int && j2 != rid as int {
                assert(pre.rel_live(j1) && pre.rel_live(j2));
            } else {
                let jo = if j1 == rid as int {
                    j2
                } else {
                    j1
                };
                assert(pre.rel_live(jo));
                assert(pre.rel_wf(jo));
                let q = pre.rel(jo).partners;
                assert(pre.alive(q.e1 as int) ==> q.e1 as int != e1 && q.e1 as int != e2);
                assert(pre.alive(q.e2 as int) ==> q.e2 as int != e1 && q.e2 as int != e2);
            }
        }
    }
    assert(post.queued_ids() == pre.queued_ids());
    assert(post.queues_wf()) by {
        assert forall|k: int| 0 <= k < post.queued_ids().len() implies {
            let e = (#[trigger] post.queued_ids()[k]) as int;
            e < post.n_ids() && (post.alive(e) ==> post.ind(e).seeking)
        } by {
            let y = pre.queued_ids()[k];
            assert((pre.queued_ids()[k] as int) < pre.n_ids() && (pre.alive(
                pre.queued_ids()[k] as int,
            ) ==> pre.ind(pre.queued_ids()[k] as int).seeking));
            assert(pre.queued_ids().contains(y));
            assert(y as int != e1 && y as int != e2);
        }
    }
    assert(post.pending_wf());
    assert(post.widows_wf()) by {
        assert forall|k: int|
            0 <= k < post.pending_widows@.len() implies post.widow_notice_wf(
            #[trigger] post.pending_widows@[k],
        ) by {
            let w = pre.pending_widows@[k];
            assert(pre.widow_notice_wf(w));
            assert(!pre.alive(w.deceased as int));
            assert(w.deceased as int != e1 && w.deceased as int != e2);
            assert(post.alive(w.deceased as int) == pre.alive(w.deceased as int));
            if post.rel_live(w.relationship as int) {
                assert((w.relationship as int) < pre.n_rels());
                assert(post.rel(w.relationship as int) == pre.rel(w.relationship as int));
            }
        }
    }
}

impl Simulation {
    /// Whether the record under `e` can still be bound by resolution.
    fn is_resolvable(&self, e: usize) -> (r: bool)
        ensures
            r == resolvable(*self, e as int),
    {
        if e < self.individuals.len() {
            if let Some(rec) = self.individuals[e] {
                rec.seeking && rec.partnership.is_none()
            } else {
                false
            }
        } else {
            false
        }
    }

    /// Resolves every staged match, in staging order. A pair whose members
    /// are both still alive, seeking and unclaimed becomes a partnership:
    /// a fresh record is created, both members bind to it and stop
    /// seeking, and a `PartnerFormed` event is emitted. A pair whose
    /// member despawned or was claimed before resolution completes is
    /// discarded rather than resolved, and the surviving, still-eligible
    /// member merely stops seeking, to be re-admitted on the next
    /// eligibility pass — never left partnered with nothing.
    pub fn resolve_matches(&mut self)
        requires
            old(self).wf(),
        ensures
            final(self).wf(),
            final(self).pending_matches@.len() == 0,
            final(self).n_rels() == old(self).n_rels() + count_bound(
                *old(self),
                old(self).pending_matches@,
            ),
            forall|j: int|
                0 <= j < old(self).n_rels() ==> final(self).relationships@[j] == old(self).relationships@[j],
            // each staged pair resolves or is discarded, exactly by the
            // staged state of its two members
            forall|k: int|
                #![trigger old(self).pending_matches@[k]]
                0 <= k < old(self).pending_matches@.len() ==> {
                    let p = old(self).pending_matches@[k];
                    let rid = old(self).n_rels() + count_bound(
                        *old(self),
                        old(self).pending_matches@.take(k),
                    );
                    &&& (pair_bound(*old(self), p) ==> {
                        &&& final(self).rel_live(rid)
                        &&& final(self).rel(rid) == (Relationship {
                            partners: p,
                            formed_at: old(self).time,
                        })
                        &&& final(self).individuals@[p.e1 as int] == Some(
                            Individual {
                                partnership: Some(rid as usize),
                                seeking: false,
                                ..old(self).ind(p.e1 as int)
                            },
                        )
                        &&& final(self).individuals@[p.e2 as int] == Some(
                            Individual {
                                partnership: Some(rid as usize),
                                seeking: false,
                                ..old(self).ind(p.e2 as int)
                            },
                        )
                        &&& final(self).log.partnerships@.contains(
                            PartnerEvent {
                                individual1: p.e1,
                                individual2: p.e2,
                                relationship_entity: rid as usize,
                                time: old(self).time,
                            },
                        )
                    })
                    &&& (!pair_bound(*old(self), p) && resolvable(*old(self), p.e1 as int)
                        ==> final(self).individuals@[p.e1 as int] == Some(
                        Individual { seeking: false, ..old(self).ind(p.e1 as int) },
                    ))
                    &&& (!pair_bound(*old(self), p) && resolvable(*old(self), p.e2 as int)
                        ==> final(self).individuals@[p.e2 as int] == Some(
                        Individual { seeking: false, ..old(self).ind(p.e2 as int) },
                    ))
                },
            // individuals no staged pair names are untouched
            forall|i: int|
                0 <= i < old(self).n_ids() && !pending_member(*old(self), i) ==> final(self).individuals@[i] == old(self).individuals@[i],
            forall|i: int|
                0 <= i < old(self).n_ids() && !resolvable(*old(self), i) ==> final(self).individuals@[i] == old(self).individuals@[i],
            final(self).individuals@.len() == old(self).n_ids(),
            final(self).seekers.females == old(self).seekers.females,
            final(self).seekers.males == old(self).seekers.males,
            final(self).pending_widows == old(self).pending_widows,
            old(self).log.partnerships@.is_prefix_of(final(self).log.partnerships@),
            final(self).log.partnerships@.len() == old(self).log.partnerships@.len() + count_bound(
                *old(self),
                old(self).pending_matches@,
            ),
            final(self).log.births == old(self).log.births,
            final(self).log.deaths == old(self).log.deaths,
            final(self).log.breakups == old(self).log.breakups,
            final(self).log.widowings == old(self).log.widowings,
            final(self).params == old(self).params,
            final(self).time == old(self).time,
    {
        let ghost orig = *old(self);
        let mut pairs: Vec<Partners> = Vec::new();
        core::mem::swap(&mut pairs, &mut self.pending_matches);
        proof {
            assert(pairs@ == orig.pending_matches@);
            assert(self.wf()) by {
                assert(self.inds_wf()) by {
                    assert forall|i: int| #[trigger] self.alive(i) implies self.ind_wf(i) by {
                        assert(orig.alive(i));
                        assert(orig.ind_wf(i));
                    }
                }
                assert(self.rels_wf()) by {
                    assert forall|j: int| #[trigger] self.rel_live(j) implies self.rel_wf(j) by {
                        assert(orig.rel_live(j));
                        assert(orig.rel_wf(j));
                    }
                }
                assert(self.rels_disjoint()) by {
                    assert forall|j1: int, j2: int|
                        #![trigger self.rel_live(j1), self.rel_live(j2)]
                        self.rel_live(j1) && self.rel_live(j2) && j1 != j2
                        implies self.members_disjoint(j1, j2) by {
                        assert(orig.rel_live(j1) && orig.rel_live(j2));
                    }
                }
                assert(self.queues_wf()) by {
                    assert forall|k: int| 0 <= k < self.queued_ids().len() implies {
                        let e = (#[trigger] self.queued_ids()[k]) as int;
                        e < self.n_ids() && (self.alive(e) ==> self.ind(e).seeking)
                    } by {
                        let e = orig.queued_ids()[k] as int;
                        assert(e < orig.n_ids() && (orig.alive(e) ==> orig.ind(e).seeking));
                    }
                }
                assert(self.widows_wf()) by {
                    assert forall|k: int|
                        0 <= k < self.pending_widows@.len() implies self.widow_notice_wf(
                        #[trigger] self.pending_widows@[k],
                    ) by {
                        assert(orig.widow_notice_wf(orig.pending_widows@[k]));
                    }
                }
            }
        }
        let n_pairs = pairs.len();
        let mut i: usize = 0;
        while i < n_pairs
            invariant
                orig == *old(self),
                orig.wf(),
                self.wf(),
                i <= n_pairs,
                n_pairs == pairs@.len(),
                pairs@ == orig.pending_matches@,
                self.pending_matches@.len() == 0,
                self.individuals@.len() == orig.n_ids(),
                self.n_rels() == orig.n_rels() + count_bound(orig, pairs@.take(i as int)),
                forall|j: int|
                    0 <= j < orig.n_rels() ==> self.relationships@[j] == orig.relationships@[j],
                // processed pairs already show their final shape
                forall|k: int|
                    #![trigger pairs@[k]]
                    0 <= k < i ==> {
                        let p = pairs@[k];
                        let rid = orig.n_rels() + count_bound(orig, pairs@.take(k));
                        &&& (pair_bound(orig, p) ==> {
                            &&& self.rel_live(rid)
                            &&& self.rel(rid) == (Relationship {
                                partners: p,
                                formed_at: orig.time,
                            })
                            &&& self.individuals@[p.e1 as int] == Some(
                                Individual {
                                    partnership: Some(rid as usize),
                                    seeking: false,
                                    ..orig.ind(p.e1 as int)
                                },
                            )
                            &&& self.individuals@[p.e2 as int] == Some(
                                Individual {
                                    partnership: Some(rid as usize),
                                    seeking: false,
                                    ..orig.ind(p.e2 as int)
                                },
                            )
                            &&& self.log.partnerships@.contains(
                                PartnerEvent {
                                    individual1: p.e1,
                                    individual2: p.e2,
                                    relationship_entity: rid as usize,
                                    time: orig.time,
                                },
                            )
                        })
                        &&& (!pair_bound(orig, p) && resolvable(orig, p.e1 as int)
                            ==> self.individuals@[p.e1 as int] == Some(
                            Individual { seeking: false, ..orig.ind(p.e1 as int) },
                        ))
                        &&& (!pair_bound(orig, p) && resolvable(orig, p.e2 as int)
                            ==> self.individuals@[p.e2 as int] == Some(
                            Individual { seeking: false, ..orig.ind(p.e2 as int) },
                        ))
                    },
                // unprocessed pairs' members are untouched
                forall|k: int|
                    i <= k < n_pairs ==> self.individuals@[(#[trigger] pairs@[k]).e1 as int]
                        == orig.individuals@[pairs@[k].e1 as int] && self.individuals@[pairs@[k].e2
                        as int] == orig.individuals@[pairs@[k].e2 as int],
                forall|x: int|
                    0 <= x < orig.n_ids() && !pending_member(orig, x) ==> self.individuals@[x]
                        == orig.individuals@[x],
                forall|x: int|
                    0 <= x < orig.n_ids() && !resolvable(orig, x) ==> self.individuals@[x]
                        == orig.individuals@[x],
                self.seekers.females == orig.seekers.females,
                self.seekers.males == orig.seekers.males,
                self.pending_widows == orig.pending_widows,
                orig.log.partnerships@.is_prefix_of(self.log.partnerships@),
                self.log.partnerships@.len() == orig.log.partnerships@.len() + count_bound(
                    orig,
                    pairs@.take(i as int),
                ),
                self.log.births == orig.log.births,
                self.log.deaths == orig.log.deaths,
                self.log.breakups == orig.log.breakups,
                self.log.widowings == orig.log.widowings,
                self.params == orig.params,
                self.time == orig.time,
            decreases n_pairs - i,
        {
            let ghost pre_iter = *self;
            let pr = pairs[i];
            proof {
                assert(orig.pending_pair_wf(pr));
                assert(resolvable(*self, pr.e1 as int) == resolvable(orig, pr.e1 as int));
                assert(resolvable(*self, pr.e2 as int) == resolvable(orig, pr.e2 as int));
            }
            let v1 = self.is_resolvable(pr.e1);
            let v2 = self.is_resolvable(pr.e2);
            if v1 && v2 {
                let rid = self.relationships.len();
                let rec1 = match self.individuals[pr.e1] {
                    Some(r) => r,
                    None => {
                        proof {
                            assert(false);
                        }
                        Individual {
                            demog: crate::individual::Demog { age: 0, sex: Sex::Female },
                            mother: None,
                            adult: false,
                            elder: false,
                            seeking: false,
                            partnership: None,
                            gestation: None,
                        }
                    },
                };
                let rec2 = match self.individuals[pr.e2] {
                    Some(r) => r,
                    None => {
                        proof {
                            assert(false);
                        }
                        rec1
                    },
                };
                self.relationships.push(Some(Relationship { partners: pr, formed_at: self.time }));
                self.individuals.set(
                    pr.e1,
                    Some(Individual { partnership: Some(rid), seeking: false, ..rec1 }),
                );
                self.individuals.set(
                    pr.e2,
                    Some(Individual { partnership: Some(rid), seeking: false, ..rec2 }),
                );
                let ghost mid = *self;
                proof {
                    assert(!pre_iter.in_queues(pr.e1 as int) && !pre_iter.in_queues(
                        pr.e2 as int,
                    )) by {
                        lemma_concat_contains(orig.seekers.females@, orig.seekers.males@);
                        lemma_concat_contains(pre_iter.seekers.females@, pre_iter.seekers.males@);
                    }
                    lemma_wf_bind(pre_iter, mid, pr, rid);
                }
                self.log.partnerships.push(
                    PartnerEvent {
                        individual1: pr.e1,
                        individual2: pr.e2,
                        relationship_entity: rid,
                        time: self.time,
                    },
                );
                proof {
                    crate::sim::lemma_wf_views(mid, *self);
                    crate::sim::lemma_prefix_push(
                        mid.log.partnerships@,
                        PartnerEvent {
                            individual1: pr.e1,
                            individual2: pr.e2,
                            relationship_entity: rid,
                            time: orig.time,
                        },
                    );
                    crate::sim::lemma_prefix_trans(
                        orig.log.partnerships@,
                        mid.log.partnerships@,
                        self.log.partnerships@,
                    );
                    assert(self.log.partnerships@.last() == (PartnerEvent {
                        individual1: pr.e1,
                        individual2: pr.e2,
                        relationship_entity: rid,
                        time: orig.time,
                    }));
                }
            } else {
                if v1 {
                    let rec1 = match self.individuals[pr.e1] {
                        Some(r) => r,
                        None => {
                            proof {
                                assert(false);
                            }
                            Individual {
                                demog: crate::individual::Demog { age: 0, sex: Sex::Female },
                                mother: None,
                                adult: false,
                                elder: false,
                                seeking: false,
                                partnership: None,
                                gestation: None,
                            }
                        },
                    };
                    let ghost before = *self;
                    self.individuals.set(pr.e1, Some(Individual { seeking: false, ..rec1 }));
                    proof {
                        assert(before.alive(pr.e1 as int));
                        assert(before.ind_wf(pr.e1 as int));
                        assert(!before.in_queues(pr.e1 as int)) by {
                            lemma_concat_contains(orig.seekers.females@, orig.seekers.males@);
                            lemma_concat_contains(before.seekers.females@, before.seekers.males@);
                        }
                        lemma_wf_record_update(
                            before,
                            *self,
                            pr.e1 as int,
                            Individual { seeking: false, ..rec1 },
                        );
                    }
                }
                if v2 {
                    let rec2 = match self.individuals[pr.e2] {
                        Some(r) => r,
                        None => {
                            proof {
                                assert(false);
                            }
                            Individual {
                                demog: crate::individual::Demog { age: 0, sex: Sex::Female },
                                mother: None,
                                adult: false,
                                elder: false,
                                seeking: false,
                                partnership: None,
                                gestation: None,
                            }
                        },
                    };
                    let ghost before = *self;
                    self.individuals.set(pr.e2, Some(Individual { seeking: false, ..rec2 }));
                    proof {
                        assert(before.alive(pr.e2 as int));
                        assert(before.ind_wf(pr.e2 as int));
                        assert(!before.in_queues(pr.e2 as int)) by {
                            lemma_concat_contains(orig.seekers.females@, orig.seekers.males@);
                            lemma_concat_contains(before.seekers.females@, before.seekers.males@);
                        }
                        lemma_wf_record_update(
                            before,
                            *self,
                            pr.e2 as int,
                            Individual { seeking: false, ..rec2 },
                        );
                    }
                }
            }
            proof {
                assert(pairs@.take(i + 1 as int).drop_last() =~= pairs@.take(i as int));
                assert(pairs@.take(i + 1 as int).last() == pairs@[i as int]);
                // a pair shares no member with any other pair, so this
                // step left every other pair's members as they were
                assert forall|k: int|
                    0 <= k < n_pairs && k != i implies Simulation::pairs_disjoint(
                    #[trigger] pairs@[k],
                    pairs@[i as int],
                ) by {
                    if k < i {
                        assert(Simulation::pairs_disjoint(pairs@[k], pairs@[i as int]));
                    } else {
                        assert(Simulation::pairs_disjoint(pairs@[i as int], pairs@[k]));
                    }
                }
            }
            i += 1;
        }
        proof {
            assert(pairs@.take(n_pairs as int) =~= pairs@);
        }
    }
}

/// Dissolving one live partnership — record blanked, both living members'
/// references cleared — preserves well-formedness.
#[verifier::rlimit(100)]
pub(crate) proof fn lemma_wf_dissolve(pre: Simulation, post: Simulation, j: int)
    requires
        pre.wf(),
        pre.rel_live(j),
        post.relationships@ == pre.relationships@.update(j, None::<Relationship>),
        ({
            let p = pre.rel(j).partners;
            let s1 = if pre.alive(p.e1 as int) {
                pre.individuals@.update(
                    p.e1 as int,
                    Some(Individual { partnership: None, ..pre.ind(p.e1 as int) }),
                )
            } else {
                pre.individuals@
            };
            post.individuals@ == (if pre.alive(p.e2 as int) {
                s1.update(
                    p.e2 as int,
                    Some(Individual { partnership: None, ..pre.ind(p.e2 as int) }),
                )
            } else {
                s1
            })
        }),
        post.seekers.females@ == pre.seekers.females@,
        post.seekers.males@ == pre.seekers.males@,
        post.pending_matches@ == pre.pending_matches@,
        post.pending_widows@ == pre.pending_widows@,
    ensures
        post.wf(),
{
    let p = pre.rel(j).partners;
    let e1 = p.e1 as int;
    let e2 = p.e2 as int;
    assert(pre.rel_wf(j));
    assert(post.inds_wf()) by {
        assert forall|i: int| #[trigger] post.alive(i) implies post.ind_wf(i) by {
            assert(pre.alive(i));
            assert(pre.ind_wf(i));
            if i != e1 && i != e2 {
                assert(post.ind(i) == pre.ind(i));
                if post.ind(i).partnership is Some {
                    let ji = post.ind(i).partnership->Some_0 as int;
                    assert(pre.rel_live(ji) && pre.is_member(ji, i));
                    assert(ji != j);
                    assert(post.rel_live(ji) && post.rel(ji) == pre.rel(ji));
                }
            }
        }
    }
    assert(post.rels_wf()) by {
        assert forall|j2: int| #[trigger] post.rel_live(j2) implies post.rel_wf(j2) by {
            assert(j2 != j);
            assert(pre.rel_live(j2));
            assert(pre.rel_wf(j2));
            assert(pre.members_disjoint(j2, j));
            let q = pre.rel(j2).partners;
            assert(post.rel(j2) == pre.rel(j2));
            assert(post.individuals@[q.e1 as int] == pre.individuals@[q.e1 as int]);
            assert(post.individuals@[q.e2 as int] == pre.individuals@[q.e2 as int]);
            if !pre.alive(q.e1 as int) {
                let w = choose|w: int|
                    0 <= w < pre.pending_widows@.len() && (#[trigger] pre.pending_widows@[w])
                        == (WidowNotice { deceased: q.e1, relationship: j2 as usize });
                assert(post.pending_widows@[w] == pre.pending_widows@[w]);
                assert(post.widow_pending(q.e1 as int, j2));
            }
            if !pre.alive(q.e2 as int) {
                let w = choose|w: int|
                    0 <= w < pre.pending_widows@.len() && (#[trigger] pre.pending_widows@[w])
                        == (WidowNotice { deceased: q.e2, relationship: j2 as usize });
                assert(post.pending_widows@[w] == pre.pending_widows@[w]);
                assert(post.widow_pending(q.e2 as int, j2));
            }
        }
    }
    assert(post.rels_disjoint()) by {
        assert forall|j1: int, j2: int|
            #![trigger post.rel_live(j1), post.rel_live(j2)]
            post.rel_live(j1) && post.rel_live(j2) && j1 != j2 implies post.members_disjoint(
            j1,
            j2,
        ) by {
            assert(pre.rel_live(j1) && pre.rel_live(j2));
        }
    }
    assert(post.queued_ids() == pre.queued_ids());
    assert(post.queues_wf()) by {
        assert forall|k: int| 0 <= k < post.queued_ids().len() implies {
            let e = (#[trigger] post.queued_ids()[k]) as int;
            e < post.n_ids() && (post.alive(e) ==> post.ind(e).seeking)
        } by {
            let e = pre.queued_ids()[k] as int;
            assert(e < pre.n_ids() && (pre.alive(e) ==> pre.ind(e).seeking));
        }
    }
    assert(post.pending_wf()) by {
        assert forall|k: int|
            0 <= k < post.pending_matches@.len() implies post.pending_pair_wf(
            #[trigger] post.pending_matches@[k],
        ) by {
            let pr = pre.pending_matches@[k];
            assert(pre.pending_pair_wf(pr));
            assert(post.alive(pr.e1 as int) == pre.alive(pr.e1 as int));
            assert(post.alive(pr.e2 as int) == pre.alive(pr.e2 as int));
            if pre.alive(pr.e1 as int) {
                assert(post.ind(pr.e1 as int).seeking == pre.ind(pr.e1 as int).seeking && post.ind(
                    pr.e1 as int,
                ).elder == pre.ind(pr.e1 as int).elder);
            }
            if pre.alive(pr.e2 as int) {
                assert(post.ind(pr.e2 as int).seeking == pre.ind(pr.e2 as int).seeking && post.ind(
                    pr.e2 as int,
                ).elder == pre.ind(pr.e2 as int).elder);
            }
        }
    }
    assert(post.widows_wf()) by {
        assert forall|k: int|
            0 <= k < post.pending_widows@.len() implies post.widow_notice_wf(
            #[trigger] post.pending_widows@[k],
        ) by {
            let w = pre.pending_widows@[k];
            assert(pre.widow_notice_wf(w));
            assert(post.alive(w.deceased as int) == pre.alive(w.deceased as int));
            if post.rel_live(w.relationship as int) {
                assert(w.relationship as int != j);
                assert(post.rel(w.relationship as int) == pre.rel(w.relationship as int));
            }
        }
    }
}

impl Simulation {
    /// The per-tick breakup hazard: every live partnership independently
    /// dissolves with probability `1 - e^(-dt * breakup_rate)`. A
    /// dissolved partnership's record is destroyed, both members' (they
    /// re-enter partner seeking on the next eligibility pass) references
    /// are cleared, and a `Breakup` event is emitted. With a zero timestep
    /// or a zero rate nothing dissolves.
    pub fn random_breakups(&mut self, dt: u64)
        requires
            old(self).wf(),
        ensures
            final(self).wf(),
            final(self).n_rels() == old(self).n_rels(),
            final(self).individuals@.len() == old(self).n_ids(),
            // each partnership either stands untouched or is dissolved
            forall|j: int|
                old(self).rel_live(j) ==> final(self).relationships@[j] == old(self).relationships@[j] || final(self).relationships@[j] is None,
            forall|j: int|
                0 <= j < old(self).n_rels() && !old(self).rel_live(j) ==> final(self).relationships@[j] == old(self).relationships@[j],
            // a zero hazard dissolves nothing
            dt == 0 || old(self).params.breakup_rate == 0 ==> final(self).relationships@ == old(self).relationships@ && final(self).individuals@ == old(self).individuals@ && final(self).log.breakups@ == old(self).log.breakups@,
            // an overwhelming hazard dissolves every live partnership
            dt as int * old(self).params.breakup_rate as int >= crate::hazard::EXPONENT_CAP
                ==> forall|j: int|
                old(self).rel_live(j) ==> final(self).relationships@[j] is None,
            // members of a dissolved partnership lose exactly their
            // reference; everyone else is untouched
            forall|i: int|
                old(self).alive(i) && (#[trigger] old(self).ind(i)).partnership is Some && final(self).relationships@[old(self).ind(i).partnership->Some_0 as int] is None ==> final(self).individuals@[i] == Some(Individual { partnership: None, ..old(self).ind(i) }),
            forall|i: int|
                old(self).alive(i) && !((#[trigger] old(self).ind(i)).partnership is Some && final(self).relationships@[old(self).ind(i).partnership->Some_0 as int] is None) ==> final(self).individuals@[i] == old(self).individuals@[i],
            forall|i: int|
                0 <= i < old(self).n_ids() && !old(self).alive(i) ==> final(self).individuals@[i]
                    == old(self).individuals@[i],
            // each dissolution is logged, exactly once
            old(self).log.breakups@.is_prefix_of(final(self).log.breakups@),
            final(self).log.breakups@.len() == old(self).log.breakups@.len() + count_dissolved(
                *old(self),
                *final(self),
                old(self).n_rels(),
            ),
            forall|j: int|
                old(self).rel_live(j) && final(self).relationships@[j] is None ==> final(self).log.breakups@.contains(
                    BreakupEvent {
                        individual1: old(self).rel(j).partners.e1,
                        individual2: old(self).rel(j).partners.e2,
                        relationship_entity: j as usize,
                        time: old(self).time,
                    },
                ),
            final(self).seekers.females == old(self).seekers.females,
            final(self).seekers.males == old(self).seekers.males,
            final(self).pending_matches == old(self).pending_matches,
            final(self).pending_widows == old(self).pending_widows,
            final(self).log.births == old(self).log.births,
            final(self).log.deaths == old(self).log.deaths,
            final(self).log.partnerships == old(self).log.partnerships,
            final(self).log.widowings == old(self).log.widowings,
            final(self).params == old(self).params,
            final(self).time == old(self).time,
    {
        let prob = crate::hazard::hazard_probability(dt, self.params.breakup_rate);
        let n = self.relationships.len();
        proof {
            lemma_count_dissolved_zero(*old(self), *self, n as int);
        }
        let mut j: usize = 0;
        while j < n
            invariant
                orig_inv_breakups(*old(self), *self, j as int, n as int),
                old(self).wf(),
                self.wf(),
                j <= n,
                prob <= crate::hazard::HAZARD_ONE,
                prob == 0 <==> (dt == 0 || old(self).params.breakup_rate == 0),
                prob == 0 ==> self.relationships@ == old(self).relationships@,
                dt as int * old(self).params.breakup_rate as int >= crate::hazard::EXPONENT_CAP
                    ==> prob == crate::hazard::HAZARD_ONE,
                prob == crate::hazard::HAZARD_ONE ==> forall|j2: int|
                    0 <= j2 < j && old(self).rel_live(j2) ==> self.relationships@[j2] is None,
            decreases n - j,
        {
            let ghost pre_iter = *self;
            let slot = self.relationships[j];
            if let Some(r) = slot {
                proof {
                    assert(pre_iter.rel_live(j as int));
                    assert(old(self).rel_live(j as int));
                    assert(pre_iter.relationships@[j as int] == old(self).relationships@[j as int]);
                    assert(pre_iter.rel_wf(j as int));
                }
                if crate::hazard::hazard_draw(prob) {
                    let p = r.partners;
                    self.relationships.set(j, None);
                    if p.e1 < self.individuals.len() {
                        if let Some(rec1) = self.individuals[p.e1] {
                            self.individuals.set(
                                p.e1,
                                Some(Individual { partnership: None, ..rec1 }),
                            );
                        }
                    }
                    if p.e2 < self.individuals.len() {
                        if let Some(rec2) = self.individuals[p.e2] {
                            self.individuals.set(
                                p.e2,
                                Some(Individual { partnership: None, ..rec2 }),
                            );
                        }
                    }
                    let ghost mid = *self;
                    proof {
                        lemma_wf_dissolve(pre_iter, mid, j as int);
                    }
                    self.log.breakups.push(
                        BreakupEvent {
                            individual1: p.e1,
                            individual2: p.e2,
                            relationship_entity: j,
                            time: self.time,
                        },
                    );
                    proof {
                        crate::sim::lemma_wf_views(mid, *self);
                        crate::sim::lemma_prefix_push(
                            mid.log.breakups@,
                            BreakupEvent {
                                individual1: p.e1,
                                individual2: p.e2,
                                relationship_entity: j,
                                time: old(self).time,
                            },
                        );
                        crate::sim::lemma_prefix_trans(
                            old(self).log.breakups@,
                            mid.log.breakups@,
                            self.log.breakups@,
                        );
                    }
                }
            }
            proof {
                breakup_step_restore(*old(self), pre_iter, *self, j as int, n as int);
            }
            j += 1;
        }
    }
}

/// How many of the first `n` partnership slots were live in `orig` and
/// are destroyed in `cur`.
pub open spec fn count_dissolved(orig: Simulation, cur: Simulation, n: int) -> int
    decreases n,
{
    if n <= 0 {
        0
    } else {
        count_dissolved(orig, cur, n - 1) + if orig.rel_live(n - 1) && cur.relationships@[n
            - 1] is None {
            1int
        } else {
            0int
        }
    }
}

/// Equal partnership slots give equal dissolved counts.
pub(crate) proof fn lemma_count_dissolved_same(
    orig: Simulation,
    a: Simulation,
    b: Simulation,
    n: int,
)
    requires
        forall|j2: int| 0 <= j2 < n ==> a.relationships@[j2] == b.relationships@[j2],
    ensures
        count_dissolved(orig, a, n) == count_dissolved(orig, b, n),
    decreases n,
{
    if n > 0 {
        lemma_count_dissolved_same(orig, a, b, n - 1);
    }
}

/// A state whose live slots are untouched has a dissolved count of zero.
pub(crate) proof fn lemma_count_dissolved_zero(orig: Simulation, cur: Simulation, n: int)
    requires
        forall|j2: int| 0 <= j2 < n ==> cur.relationships@[j2] == orig.relationships@[j2],
    ensures
        count_dissolved(orig, cur, n) == 0,
    decreases n,
{
    if n > 0 {
        lemma_count_dissolved_zero(orig, cur, n - 1);
    }
}

/// Changing one partnership slot moves the dissolved count by exactly
/// that slot's contribution.
pub(crate) proof fn lemma_count_dissolved_update(
    orig: Simulation,
    a: Simulation,
    b: Simulation,
    j: int,
    n: int,
)
    requires
        0 <= j < n,
        forall|j2: int|
            0 <= j2 < n && j2 != j ==> a.relationships@[j2] == b.relationships@[j2],
    ensures
        count_dissolved(orig, b, n) == count_dissolved(orig, a, n) + (if orig.rel_live(j)
            && b.relationships@[j] is None {
            1int
        } else {
            0int
        }) - (if orig.rel_live(j) && a.relationships@[j] is None {
            1int
        } else {
            0int
        }),
    decreases n,
{
    if j == n - 1 {
        lemma_count_dissolved_same(orig, a, b, n - 1);
    } else {
        lemma_count_dissolved_update(orig, a, b, j, n - 1);
    }
}

/// State of the breakup pass over `orig` after the first `j` partnership
/// slots have been processed.
pub(crate) open spec fn orig_inv_breakups(orig: Simulation, cur: Simulation, j: int, n: int)
    -> bool {
    &&& n == orig.n_rels()
    &&& cur.n_rels() == n
    &&& cur.individuals@.len() == orig.n_ids()
    &&& (forall|j2: int| j <= j2 < n ==> cur.relationships@[j2] == orig.relationships@[j2])
    &&& (forall|j2: int|
        orig.rel_live(j2) ==> cur.relationships@[j2] == orig.relationships@[j2]
            || cur.relationships@[j2] is None)
    &&& (forall|j2: int|
        0 <= j2 < n && !orig.rel_live(j2) ==> cur.relationships@[j2] == orig.relationships@[j2])
    &&& (forall|i: int|
        orig.alive(i) && (#[trigger] orig.ind(i)).partnership is Some
            && cur.relationships@[orig.ind(i).partnership->Some_0 as int] is None
            ==> cur.individuals@[i] == Some(Individual { partnership: None, ..orig.ind(i) }))
    &&& (forall|i: int|
        orig.alive(i) && !((#[trigger] orig.ind(i)).partnership is Some
            && cur.relationships@[orig.ind(i).partnership->Some_0 as int] is None)
            ==> cur.individuals@[i] == orig.individuals@[i])
    &&& (forall|i: int|
        0 <= i < orig.n_ids() && !orig.alive(i) ==> cur.individuals@[i] == orig.individuals@[i])
    &&& (cur.relationships@ == orig.relationships@ ==> cur.individuals@ == orig.individuals@
        && cur.log.breakups@ == orig.log.breakups@)
    &&& orig.log.breakups@.is_prefix_of(cur.log.breakups@)
    &&& cur.log.breakups@.len() == orig.log.breakups@.len() + count_dissolved(orig, cur, n)
    &&& (forall|j2: int|
        orig.rel_live(j2) && cur.relationships@[j2] is None ==> cur.log.breakups@.contains(
            BreakupEvent {
                individual1: orig.rel(j2).partners.e1,
                individual2: orig.rel(j2).partners.e2,
                relationship_entity: j2 as usize,
                time: orig.time,
            },
        ))
    &&& cur.seekers.females == orig.seekers.females
    &&& cur.seekers.males == orig.seekers.males
    &&& cur.pending_matches == orig.pending_matches
    &&& cur.pending_widows == orig.pending_widows
    &&& cur.log.births == orig.log.births
    &&& cur.log.deaths == orig.log.deaths
    &&& cur.log.partnerships == orig.log.partnerships
    &&& cur.log.widowings == orig.log.widowings
    &&& cur.params == orig.params
    &&& cur.time == orig.time
}

/// Dissolving slot `j`, previously live and untouched, raises the
/// dissolved count by one.
pub(crate) proof fn proof_count_step(
    orig: Simulation,
    pre: Simulation,
    post: Simulation,
    j: int,
    n: int,
)
    requires
        0 <= j < n,
        n <= pre.relationships@.len(),
        n <= orig.relationships@.len(),
        pre.rel_live(j),
        pre.relationships@[j] == orig.relationships@[j],
        post.relationships@ == pre.relationships@.update(j, None::<Relationship>),
    ensures
        count_dissolved(orig, post, n) == count_dissolved(orig, pre, n) + 1,
{
    assert forall|j2: int|
        0 <= j2 < n && j2 != j implies pre.relationships@[j2] == post.relationships@[j2] by {}
    lemma_count_dissolved_update(orig, pre, post, j, n);
    assert(orig.rel_live(j));
    assert(pre.relationships@[j] is Some);
    assert(post.relationships@[j] is None);
}

/// One breakup step keeps the pass description accurate.
#[verifier::rlimit(100)]
pub(crate) proof fn breakup_step_restore(
    orig: Simulation,
    pre: Simulation,
    post: Simulation,
    j: int,
    n: int,
)
    requires
        orig.wf(),
        pre.wf(),
        0 <= j < n,
        orig_inv_breakups(orig, pre, j, n),
        // the step either left everything alone or dissolved slot j
        post == pre || (pre.rel_live(j) && {
            let p = pre.rel(j).partners;
            let s1 = if pre.alive(p.e1 as int) {
                pre.individuals@.update(
                    p.e1 as int,
                    Some(Individual { partnership: None, ..pre.ind(p.e1 as int) }),
                )
            } else {
                pre.individuals@
            };
            &&& post.relationships@ == pre.relationships@.update(j, None::<Relationship>)
            &&& post.individuals@ == (if pre.alive(p.e2 as int) {
                s1.update(
                    p.e2 as int,
                    Some(Individual { partnership: None, ..pre.ind(p.e2 as int) }),
                )
            } else {
                s1
            })
            &&& post.log.breakups@ == pre.log.breakups@.push(
                BreakupEvent {
                    individual1: p.e1,
                    individual2: p.e2,
                    relationship_entity: j as usize,
                    time: orig.time,
                },
            )
            &&& post.seekers.females == pre.seekers.females
            &&& post.seekers.males == pre.seekers.males
            &&& post.pending_matches == pre.pending_matches
            &&& post.pending_widows == pre.pending_widows
            &&& post.log.births == pre.log.births
            &&& post.log.deaths == pre.log.deaths
            &&& post.log.partnerships == pre.log.partnerships
            &&& post.log.widowings == pre.log.widowings
            &&& post.params == pre.params
            &&& post.time == pre.time
        }),
        orig.log.breakups@.is_prefix_of(post.log.breakups@),
    ensures
        orig_inv_breakups(orig, post, j + 1, n),
{
    if post == pre {
        assert forall|j2: int| j + 1 <= j2 < n implies post.relationships@[j2]
            == orig.relationships@[j2] by {}
        lemma_count_dissolved_same(orig, pre, post, n);
        return ;
    }
    proof_count_step(orig, pre, post, j, n);
    let p = pre.rel(j).partners;
    let e1 = p.e1 as int;
    let e2 = p.e2 as int;
    assert(pre.rel_wf(j));
    assert(pre.relationships@[j] == orig.relationships@[j]);
    assert(orig.rel_live(j));
    assert(orig.rel(j).partners == p);
    // the two cleared members referenced exactly partnership j
    assert(pre.alive(e1) ==> pre.ind(e1).partnership == Some(j as usize));
    assert(pre.alive(e2) ==> pre.ind(e2).partnership == Some(j as usize));
    assert(pre.alive(e1) ==> orig.alive(e1) && orig.individuals@[e1] == pre.individuals@[e1]) by {
        if pre.alive(e1) {
            assert(!(orig.ind(e1).partnership is Some
                && pre.relationships@[orig.ind(e1).partnership->Some_0 as int] is None));
        }
    }
    assert(pre.alive(e2) ==> orig.alive(e2) && orig.individuals@[e2] == pre.individuals@[e2]) by {
        if pre.alive(e2) {
            assert(!(orig.ind(e2).partnership is Some
                && pre.relationships@[orig.ind(e2).partnership->Some_0 as int] is None));
        }
    }
    assert(!pre.alive(e1) ==> !orig.alive(e1) || orig.individuals@[e1] is None);
    assert forall|i: int|
        orig.alive(i) && (#[trigger] orig.ind(i)).partnership is Some
            && post.relationships@[orig.ind(i).partnership->Some_0 as int] is None
        implies post.individuals@[i] == Some(Individual { partnership: None, ..orig.ind(i) }) by {
        let ji = orig.ind(i).partnership->Some_0 as int;
        if ji == j {
            // i is a live member of the dissolved partnership
            assert(pre.individuals@[i] == orig.individuals@[i]);
            assert(pre.alive(i));
            assert(pre.ind(i).partnership == Some(j as usize));
            assert(pre.ind_wf(i));
            assert(pre.is_member(j, i));
            assert(i == e1 || i == e2);
        } else {
            assert(pre.relationships@[ji] == post.relationships@[ji]);
            assert(pre.individuals@[i] == Some(Individual { partnership: None, ..orig.ind(i) }));
            if i == e1 && pre.alive(e1) {
                assert(false);
            }
            if i == e2 && pre.alive(e2) {
                assert(false);
            }
        }
    }
    assert forall|i: int|
        orig.alive(i) && !((#[trigger] orig.ind(i)).partnership is Some
            && post.relationships@[orig.ind(i).partnership->Some_0 as int] is None)
        implies post.individuals@[i] == orig.individuals@[i] by {
        assert(pre.individuals@[i] == orig.individuals@[i]);
        if (i == e1 && pre.alive(e1)) || (i == e2 && pre.alive(e2)) {
            assert(pre.ind(i).partnership == Some(j as usize));
            assert(orig.ind(i).partnership == Some(j as usize));
            assert(false);
        }
    }
    assert forall|j2: int|
        orig.rel_live(j2) && post.relationships@[j2] is None
        implies post.log.breakups@.contains(
        BreakupEvent {
            individual1: orig.rel(j2).partners.e1,
            individual2: orig.rel(j2).partners.e2,
            relationship_entity: j2 as usize,
            time: orig.time,
        },
    ) by {
        let ev = BreakupEvent {
            individual1: orig.rel(j2).partners.e1,
            individual2: orig.rel(j2).partners.e2,
            relationship_entity: j2 as usize,
            time: orig.time,
        };
        if j2 == j {
            assert(post.log.breakups@.last() == ev);
        } else {
            assert(pre.relationships@[j2] is None);
            crate::sim::lemma_prefix_push(
                pre.log.breakups@,
                BreakupEvent {
                    individual1: p.e1,
                    individual2: p.e2,
                    relationship_entity: j as usize,
                    time: orig.time,
                },
            );
            lemma_contains_prefix(pre.log.breakups@, post.log.breakups@, ev);
        }
    }
}

} // verus!
