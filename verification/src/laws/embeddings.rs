//! A codebook signal reads as a vector signal of the same observations does.

use vstd::prelude::*;

use crate::channel::{Channel, Sample};
use crate::clusters::lemma_total_counts;
use crate::decl::SignalPlan;
use crate::exact::Exact;
use crate::kind::SlotKind;
use crate::ladder::{stepped, Tier};
use crate::laws::clusters::{
    all_finite, booked, law_merge_keeps_the_total, law_total_is_of_all_vectors,
};
use crate::laws::consolidation::{each_remembered, is_real, remembered, summarised};
use crate::laws::ladders::{law_closed_slots_feed_the_archive_above, ran};
use crate::laws::vectors::{all_of_dim, gathered, lifted};
use crate::ring::{absent, folded};
use crate::slot::Summary;

verus! {

/// Whether a codebook slot is a vector slot but for its centroids: both are absent, or
/// the total of the one is the other.
pub open spec fn stands_for(
    a: Option<Summary<Exact>>,
    b: Option<Summary<Exact>>,
    k: nat,
    dim: nat,
) -> bool {
    match (a, b) {
        (None, None) => true,
        (Some(Summary::Clusters(x)), Some(Summary::Vector(v))) => {
            &&& x.k == k
            &&& x.dim == dim
            &&& all_finite(x.items, dim)
            &&& x.total_of() == v
        },
        _ => false,
    }
}

spec fn all_stand(
    a: Seq<Option<Summary<Exact>>>,
    b: Seq<Option<Summary<Exact>>>,
    k: nat,
    dim: nat,
) -> bool {
    &&& a.len() == b.len()
    &&& forall|i: int| 0 <= i < a.len() ==> stands_for(#[trigger] a[i], b[i], k, dim)
}

/// Whether an archive of codebooks is one of vectors but for their centroids.
spec fn tier_stands(a: Tier<Exact>, b: Tier<Exact>, k: nat, dim: nat) -> bool {
    &&& a.spec == b.spec
    &&& a.units == b.units
    &&& a.seen == b.seen
    &&& a.unknown == b.unknown
    &&& stands_for(a.pending, b.pending, k, dim)
    &&& a.ring.wf()
    &&& a.ring.capacity == b.ring.capacity
    &&& a.ring.written == b.ring.written
    &&& all_stand(a.ring.slots, b.ring.slots, k, dim)
}

spec fn tiers_stand(a: Seq<Tier<Exact>>, b: Seq<Tier<Exact>>, k: nat, dim: nat) -> bool {
    &&& a.len() == b.len()
    &&& forall|i: int| 0 <= i < a.len() ==> tier_stands(#[trigger] a[i], b[i], k, dim)
}

proof fn lemma_joined_stands(
    a: Option<Summary<Exact>>,
    b: Option<Summary<Exact>>,
    c: Option<Summary<Exact>>,
    d: Option<Summary<Exact>>,
    k: nat,
    dim: nat,
)
    requires
        stands_for(a, b, k, dim),
        stands_for(c, d, k, dim),
        a is Some,
        c is Some,
    ensures
        stands_for(Some(a->0.joined(c->0)), Some(b->0.joined(d->0)), k, dim),
{
    if let (Some(Summary::Clusters(x)), Some(Summary::Clusters(y))) = (a, c) {
        law_merge_keeps_the_total(x, y);
    }
}

proof fn lemma_fed_stands(
    a: Tier<Exact>,
    b: Tier<Exact>,
    x: Option<Summary<Exact>>,
    y: Option<Summary<Exact>>,
    k: nat,
    dim: nat,
)
    requires
        tier_stands(a, b, k, dim),
        stands_for(x, y, k, dim),
    ensures
        tier_stands(a.fed(x).0, b.fed(y).0, k, dim),
        a.fed(x).1 is Some <==> b.fed(y).1 is Some,
        a.fed(x).1 is Some ==> stands_for(a.fed(x).1->0, b.fed(y).1->0, k, dim),
{
    if a.pending is Some && x is Some {
        lemma_joined_stands(a.pending, b.pending, x, y, k, dim);
    }
    let (s, t) = (a.absorbed(x), b.absorbed(y));
    assert(stands_for(s.pending, t.pending, k, dim));
    if s.seen >= s.units {
        let (p, q) = (s.ring.with(s.closing()).slots, t.ring.with(t.closing()).slots);
        assert(stands_for(s.closing(), t.closing(), k, dim));
        assert forall|i: int| 0 <= i < p.len() implies stands_for(
            #[trigger] p[i],
            q[i],
            k,
            dim,
        ) by {
            let shift: int = if s.ring.slots.len() < s.ring.capacity {
                0
            } else {
                1
            };
            if i < p.len() - 1 {
                assert(p[i] == s.ring.slots[i + shift]);
                assert(q[i] == t.ring.slots[i + shift]);
            }
        }
    }
}

proof fn lemma_stepped_stands(
    a: Seq<Tier<Exact>>,
    b: Seq<Tier<Exact>>,
    x: Option<Summary<Exact>>,
    y: Option<Summary<Exact>>,
    k: nat,
    dim: nat,
)
    requires
        tiers_stand(a, b, k, dim),
        stands_for(x, y, k, dim),
    ensures
        tiers_stand(stepped(a, x), stepped(b, y), k, dim),
    decreases a.len(),
{
    if a.len() > 0 {
        assert(tier_stands(a[0], b[0], k, dim));
        lemma_fed_stands(a[0], b[0], x, y, k, dim);
        let (p, q) = (a.drop_first(), b.drop_first());
        assert forall|i: int| 0 <= i < p.len() implies tier_stands(
            #[trigger] p[i],
            q[i],
            k,
            dim,
        ) by {
            assert(tier_stands(a[i + 1], b[i + 1], k, dim));
        }
        let (u, v) = match a[0].fed(x).1 {
            Some(slot) => {
                lemma_stepped_stands(p, q, slot, b[0].fed(y).1->0, k, dim);
                (stepped(p, slot), stepped(q, b[0].fed(y).1->0))
            },
            None => (p, q),
        };
        let (s, t) = (stepped(a, x), stepped(b, y));
        assert(s =~= seq![a[0].fed(x).0] + u);
        assert(t =~= seq![b[0].fed(y).0] + v);
        assert forall|i: int| 0 <= i < s.len() implies tier_stands(
            #[trigger] s[i],
            t[i],
            k,
            dim,
        ) by {
            if i > 0 {
                assert(s[i] == u[i - 1]);
                assert(t[i] == v[i - 1]);
            }
        }
    }
}

proof fn lemma_ran_stands(
    a: Seq<Tier<Exact>>,
    b: Seq<Tier<Exact>>,
    x: Seq<Option<Summary<Exact>>>,
    y: Seq<Option<Summary<Exact>>>,
    k: nat,
    dim: nat,
)
    requires
        tiers_stand(a, b, k, dim),
        all_stand(x, y, k, dim),
    ensures
        tiers_stand(ran(a, x), ran(b, y), k, dim),
    decreases x.len(),
{
    if x.len() > 0 {
        let (p, q) = (x.drop_last(), y.drop_last());
        assert forall|i: int| 0 <= i < p.len() implies stands_for(
            #[trigger] p[i],
            q[i],
            k,
            dim,
        ) by {
            assert(stands_for(x[i], y[i], k, dim));
        }
        lemma_ran_stands(a, b, p, q, k, dim);
        assert(stands_for(x[x.len() - 1], y[y.len() - 1], k, dim));
        lemma_stepped_stands(ran(a, p), ran(b, q), x.last(), y.last(), k, dim);
    }
}

proof fn lemma_folded_stands(
    a: Seq<Option<Summary<Exact>>>,
    b: Seq<Option<Summary<Exact>>>,
    k: nat,
    dim: nat,
)
    requires
        all_stand(a, b, k, dim),
    ensures
        stands_for(folded(a), folded(b), k, dim),
        absent(a) == absent(b),
    decreases a.len(),
{
    if a.len() > 0 {
        let (p, q) = (a.drop_last(), b.drop_last());
        assert forall|i: int| 0 <= i < p.len() implies stands_for(
            #[trigger] p[i],
            q[i],
            k,
            dim,
        ) by {
            assert(stands_for(a[i], b[i], k, dim));
        }
        lemma_folded_stands(p, q, k, dim);
        assert(stands_for(a[a.len() - 1], b[b.len() - 1], k, dim));
        if folded(p) is Some && a.last() is Some {
            lemma_joined_stands(folded(p), folded(q), a.last(), b.last(), k, dim);
        }
    }
}

/// Whether every observation is a vector of real numbers, of the declared dimension.
pub open spec fn all_points(seen: Seq<Sample<Exact>>, dim: nat) -> bool {
    forall|i: int|
        0 <= i < seen.len() ==> is_real(#[trigger] seen[i]) && (seen[i] matches Sample::Vector(v)
            && v.len() == dim)
}

spec fn points_of(seen: Seq<Sample<Exact>>) -> Seq<Seq<real>> {
    Seq::new(
        seen.len(),
        |i: int|
            Seq::new(seen[i]->Vector_0.len(), |j: int| seen[i]->Vector_0[j]->Finite_0),
    )
}

proof fn lemma_summaries(plan: SignalPlan<Exact>, seen: Seq<Sample<Exact>>)
    requires
        plan.kind is Clusters,
        all_points(seen, plan.dim),
    ensures
        summarised(plan, seen) == Summary::Clusters(
            booked(
                points_of(seen).map_values(|v: Seq<real>| lifted(v)),
                plan.k,
                plan.dim,
            ),
        ),
        summarised((SignalPlan { kind: SlotKind::Vector, ..plan }), seen) == Summary::Vector(
            gathered(points_of(seen), plan.dim),
        ),
        all_of_dim(points_of(seen), plan.dim),
    decreases seen.len(),
{
    let all = points_of(seen);
    let up = all.map_values(|v: Seq<real>| lifted(v));
    assert forall|i: int| 0 <= i < all.len() implies (#[trigger] all[i]).len() == plan.dim by {
        assert(is_real(seen[i]));
    }
    if seen.len() > 0 {
        let before = seen.drop_last();
        assert forall|i: int| 0 <= i < before.len() implies is_real(#[trigger] before[i]) && (
        before[i] matches Sample::Vector(v) && v.len() == plan.dim) by {
            assert(is_real(seen[i]));
            assert(before[i] == seen[i]);
        }
        lemma_summaries(plan, before);
        assert(all.drop_last() =~= points_of(before));
        assert(up.drop_last() =~= points_of(before).map_values(|v: Seq<real>| lifted(v)));
        assert(is_real(seen[seen.len() - 1]));
        let v = seen.last()->Vector_0;
        assert(lifted(all.last()) =~= v) by {
            assert forall|j: int| 0 <= j < v.len() implies v[j] is Finite by {}
        }
        assert(up.last() == v);
    }
}

proof fn lemma_codebook_shape(vs: Seq<Seq<Exact>>, k: nat, dim: nat)
    ensures
        booked(vs, k, dim).k == k,
        booked(vs, k, dim).dim == dim,
    decreases vs.len(),
{
    if vs.len() > 0 {
        lemma_codebook_shape(vs.drop_last(), k, dim);
    }
}

proof fn lemma_remembered_stands(plan: SignalPlan<Exact>, seen: Seq<Sample<Exact>>)
    requires
        plan.kind is Clusters,
        all_points(seen, plan.dim),
    ensures
        stands_for(
            remembered(plan, seen),
            remembered((SignalPlan { kind: SlotKind::Vector, ..plan }), seen),
            plan.k,
            plan.dim,
        ),
{
    lemma_summaries(plan, seen);
    law_total_is_of_all_vectors(points_of(seen), plan.k, plan.dim);
    lemma_codebook_shape(
        points_of(seen).map_values(|v: Seq<real>| lifted(v)),
        plan.k,
        plan.dim,
    );
}

/// A codebook signal reads as the vector signal of the same observations would, at
/// every resolution and however its centroids were paired on the way up: the same
/// spread, the same drift, the same number of observations, unknown at the same times.
pub proof fn law_codebook_reads_as_its_vectors(
    plan: SignalPlan<Exact>,
    groups: Seq<Seq<Sample<Exact>>>,
    i: int,
    resolution_secs: nat,
    baseline: Option<Seq<Exact>>,
)
    requires
        plan.valid(),
        plan.kind is Clusters,
        0 <= i < plan.archives.len(),
        forall|g: int| 0 <= g < groups.len() ==> all_points(#[trigger] groups[g], plan.dim),
    ensures
        ({
            let vectors = SignalPlan { kind: SlotKind::Vector, ..plan };
            let a = ran(Channel::empty(plan).tiers, each_remembered(plan, groups))[i];
            let b = ran(Channel::empty(vectors).tiers, each_remembered(vectors, groups))[i];
            a.pane(resolution_secs, baseline) == b.pane(resolution_secs, baseline)
        }),
{
    let vectors = SignalPlan { kind: SlotKind::Vector, ..plan };
    let (k, dim) = (plan.k, plan.dim);
    let (x, y) = (each_remembered(plan, groups), each_remembered(vectors, groups));
    let (s, t) = (Channel::empty(plan).tiers, Channel::empty(vectors).tiers);
    assert forall|g: int| 0 <= g < x.len() implies stands_for(#[trigger] x[g], y[g], k, dim) by {
        assert(all_points(groups[g], dim));
        lemma_remembered_stands(plan, groups[g]);
    }
    assert forall|j: int| 0 <= j < s.len() implies tier_stands(#[trigger] s[j], t[j], k, dim) by {
        assert(plan.archives[j].slots > 0);
        assert(plan.units(j) == vectors.units(j));
    }
    lemma_ran_stands(s, t, x, y, k, dim);
    let (a, b) = (ran(s, x)[i], ran(t, y)[i]);
    assert(ran(s, x).len() == s.len()) by {
        law_closed_slots_feed_the_archive_above(s, x);
    }
    assert(tier_stands(a, b, k, dim));
    lemma_folded_stands(a.ring.slots, b.ring.slots, k, dim);
    if let Some(Summary::Clusters(book)) = folded(a.ring.slots) {
        lemma_total_counts(book.dim, book.items);
    }
}

} // verus!
