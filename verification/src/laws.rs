//! Properties of the merge that hold for every class list.
use vstd::prelude::*;
use crate::collision::{first_colon, CollisionView};
use crate::variants::variants_for_collision;
use crate::merge::{ResolvedView, 
    claims, kept_at, kept_entries, kept_from, lemma_shift, merged_output, primary_collision,
    seen_from, survives, Entry,
};

verus! {

/// The collisions seen grow as the walk moves towards the front of the list.
proof fn lemma_seen_grows(es: Seq<Entry>, i: int, j: int)
    requires
        0 <= i <= j <= es.len(),
    ensures
        seen_from(es, j).subset_of(seen_from(es, i)),
    decreases j - i,
{
    if i < j {
        lemma_seen_grows(es, i + 1, j);
    }
}

/// A collision that an entry stands for is among those seen from it on.
proof fn lemma_own_collision_seen(es: Seq<Entry>, j: int, c: CollisionView)
    requires
        0 <= j < es.len(),
        es[j] is Ok,
        primary_collision(es[j]->Ok_0) == Some(c),
    ensures
        seen_from(es, j).contains(c),
{
}

/// A collision seen from `k` on was claimed by a kept entry at `k` or later.
proof fn lemma_seen_has_claimant(es: Seq<Entry>, k: int, c: CollisionView)
    requires
        0 <= k <= es.len(),
        seen_from(es, k).contains(c),
    ensures
        exists|j: int| k <= j < es.len() && kept_at(es, j) && #[trigger] claims(es[j]).contains(c),
    decreases es.len() - k,
{
    if k < es.len() {
        if seen_from(es, k + 1).contains(c) {
            lemma_seen_has_claimant(es, k + 1, c);
            let j = choose|j: int|
                k + 1 <= j < es.len() && kept_at(es, j) && #[trigger] claims(es[j]).contains(c);
            assert(k <= j < es.len() && kept_at(es, j) && claims(es[j]).contains(c));
        } else {
            assert(kept_at(es, k) && claims(es[k]).contains(c));
        }
    }
}

/// The last class of a list is always kept.
pub proof fn law_last_class_kept(es: Seq<Entry>)
    requires
        es.len() > 0,
    ensures
        kept_at(es, es.len() - 1),
{
}

/// A class that did not parse is always kept, as written.
pub proof fn law_unparsed_class_kept(es: Seq<Entry>, i: int)
    requires
        0 <= i < es.len(),
        es[i] is Err,
    ensures
        kept_at(es, i),
{
}

/// Of two classes with the same collision, the earlier one is dropped: the
/// later class wins.
pub proof fn law_later_class_wins(es: Seq<Entry>, i: int, j: int)
    requires
        0 <= i < j < es.len(),
        es[i] is Ok,
        es[j] is Ok,
        primary_collision(es[i]->Ok_0) is Some,
        primary_collision(es[i]->Ok_0) == primary_collision(es[j]->Ok_0),
    ensures
        !kept_at(es, i),
{
    let c = primary_collision(es[j]->Ok_0)->Some_0;
    lemma_own_collision_seen(es, j, c);
    lemma_seen_grows(es, i + 1, j);
}

/// A class is dropped when a later kept class claims its collision, for
/// instance when a later shorthand such as `p-10` overrides `px-5`.
pub proof fn law_claimed_collision_loses(es: Seq<Entry>, i: int, j: int)
    requires
        0 <= i < j < es.len(),
        kept_at(es, j),
        es[i] is Ok,
        primary_collision(es[i]->Ok_0) is Some,
        claims(es[j]).contains(primary_collision(es[i]->Ok_0)->Some_0),
    ensures
        !kept_at(es, i),
{
    lemma_seen_grows(es, i + 1, j);
}

/// A class is dropped only for a reason: it has a collision, and a later kept
/// class claims it.  Classes that do not conflict all survive.
pub proof fn law_dropped_only_by_conflict(es: Seq<Entry>, i: int)
    requires
        0 <= i < es.len(),
        !kept_at(es, i),
    ensures
        es[i] is Ok,
        primary_collision(es[i]->Ok_0) is Some,
        exists|j: int|
            i < j < es.len() && kept_at(es, j) && #[trigger] claims(es[j]).contains(
                primary_collision(es[i]->Ok_0)->Some_0,
            ),
{
    let c = primary_collision(es[i]->Ok_0)->Some_0;
    lemma_seen_has_claimant(es, i + 1, c);
}

/// The kept entries from `i` on are kept again when merged alone, and they
/// claim the same collisions.
proof fn lemma_kept_stable(es: Seq<Entry>, i: int)
    requires
        0 <= i <= es.len(),
    ensures
        seen_from(kept_from(es, i), 0) == seen_from(es, i),
        kept_from(kept_from(es, i), 0) == kept_from(es, i),
    decreases es.len() - i,
{
    if i < es.len() {
        lemma_kept_stable(es, i + 1);
        let rest = kept_from(es, i + 1);
        if kept_at(es, i) {
            let k = seq![es[i]] + rest;
            lemma_shift(es[i], rest, 0);
            assert(k[0] == es[i]);
            assert(survives(k[0], seen_from(k, 1)));
        }
    }
}

/// Merging is idempotent: merging the kept classes again keeps all of them,
/// and gives the same output.
pub proof fn law_merge_idempotent(es: Seq<Entry>)
    ensures
        kept_entries(kept_entries(es)) == kept_entries(es),
        merged_output(kept_entries(es)) == merged_output(es),
{
    lemma_kept_stable(es, 0);
}

/// Every collision an entry claims carries the entry's own importance and
/// normalised variants.
proof fn lemma_claims_scope(e: Entry, d: CollisionView)
    requires
        e is Ok,
        claims(e).contains(d),
    ensures
        d.important == e->Ok_0.style.important,
        d.variants == variants_for_collision(e->Ok_0.style.variants),
{
}

/// A later kept class with a collision id drops an earlier class that has the
/// same importance and the same variants (up to reordering) and whose
/// collision id is that id or one of the ids it overrides: `p-10` after
/// `px-5`, `hover:p-10` after `hover:px-5`, `!p-10` after `!px-5`.
pub proof fn law_override_within_same_scope(es: Seq<Entry>, i: int, j: int, x: Seq<char>)
    requires
        0 <= i < j < es.len(),
        kept_at(es, j),
        es[i] is Ok,
        es[j] is Ok,
        es[i]->Ok_0.collision_id == Some(x),
        es[j]->Ok_0.collision_id is Some,
        es[j]->Ok_0.collision_id == Some(x) || (es[j]->Ok_0.collisions is Some
            && es[j]->Ok_0.collisions->Some_0.contains(x)),
        es[i]->Ok_0.style.important == es[j]->Ok_0.style.important,
        variants_for_collision(es[i]->Ok_0.style.variants) == variants_for_collision(
            es[j]->Ok_0.style.variants,
        ),
    ensures
        !kept_at(es, i),
{
    let c = primary_collision(es[i]->Ok_0)->Some_0;
    assert(claims(es[j]).contains(c));
    law_claimed_collision_loses(es, i, j);
}

/// A later class with an arbitrary property drops an earlier one with the
/// same property name, importance and variants (up to reordering):
/// `[color:red]` after `[color:blue]`.
pub proof fn law_arbitrary_property_later_wins(es: Seq<Entry>, i: int, j: int)
    requires
        0 <= i < j < es.len(),
        es[i] is Ok,
        es[j] is Ok,
        es[i]->Ok_0.collision_id is None,
        es[j]->Ok_0.collision_id is None,
        es[i]->Ok_0.style.arbitrary is Some,
        es[j]->Ok_0.style.arbitrary is Some,
        first_colon(es[i]->Ok_0.style.arbitrary->Some_0) is Some,
        first_colon(es[j]->Ok_0.style.arbitrary->Some_0) is Some,
        es[i]->Ok_0.style.arbitrary->Some_0.take(
            first_colon(es[i]->Ok_0.style.arbitrary->Some_0)->Some_0,
        ) == es[j]->Ok_0.style.arbitrary->Some_0.take(
            first_colon(es[j]->Ok_0.style.arbitrary->Some_0)->Some_0,
        ),
        es[i]->Ok_0.style.important == es[j]->Ok_0.style.important,
        variants_for_collision(es[i]->Ok_0.style.variants) == variants_for_collision(
            es[j]->Ok_0.style.variants,
        ),
    ensures
        !kept_at(es, i),
{
    law_later_class_wins(es, i, j);
}

/// The collision id a class goes by: its own, or for an arbitrary property
/// the property name before the first `:`.
pub open spec fn key_id(r: ResolvedView) -> Seq<char> {
    match r.collision_id {
        Some(x) => x,
        None => r.style.arbitrary->Some_0.take(first_colon(r.style.arbitrary->Some_0)->Some_0),
    }
}

/// A class is dropped only by a later kept class with the same importance and
/// the same variants (up to reordering), whose own id is the dropped class's
/// id, or which has an id and overrides the dropped class's id: a `hover:`
/// class never removes a plain one, nor an important class a plain one, and
/// classes of unrelated groups never remove each other.
pub proof fn law_drop_needs_same_scope(es: Seq<Entry>, i: int)
    requires
        0 <= i < es.len(),
        !kept_at(es, i),
    ensures
        es[i] is Ok,
        es[i]->Ok_0.collision_id is Some || (es[i]->Ok_0.style.arbitrary is Some && first_colon(
            es[i]->Ok_0.style.arbitrary->Some_0,
        ) is Some),
        exists|j: int|
            i < j < es.len() && kept_at(es, j) && #[trigger] es[j] is Ok
                && es[j]->Ok_0.style.important == es[i]->Ok_0.style.important
                && variants_for_collision(es[j]->Ok_0.style.variants) == variants_for_collision(
                es[i]->Ok_0.style.variants,
            ) && (key_id(es[j]->Ok_0) == key_id(es[i]->Ok_0) || (es[j]->Ok_0.collision_id is Some
                && es[j]->Ok_0.collisions is Some && es[j]->Ok_0.collisions->Some_0.contains(
                key_id(es[i]->Ok_0),
            ))),
{
    law_dropped_only_by_conflict(es, i);
    let c = primary_collision(es[i]->Ok_0)->Some_0;
    let j = choose|j: int| i < j < es.len() && kept_at(es, j) && #[trigger] claims(es[j]).contains(c);
    assert(es[j] is Ok);
    lemma_claims_scope(es[j], c);
    assert(c.collision_id == key_id(es[i]->Ok_0));
    let cj = primary_collision(es[j]->Ok_0)->Some_0;
    assert(cj.collision_id == key_id(es[j]->Ok_0));
}

/// Positions of the kept entries from `i` on.
proof fn lemma_kept_positions(es: Seq<Entry>, i: int) -> (idx: Seq<int>)
    requires
        0 <= i <= es.len(),
    ensures
        idx.len() == kept_from(es, i).len(),
        forall|k: int|
            0 <= k < idx.len() ==> i <= #[trigger] idx[k] < es.len() && kept_from(es, i)[k]
                == es[idx[k]] && kept_at(es, idx[k]),
        forall|a: int, b: int| 0 <= a < b < idx.len() ==> idx[a] < idx[b],
        forall|m: int| i <= m < es.len() && kept_at(es, m) ==> idx.contains(m),
    decreases es.len() - i,
{
    if i == es.len() {
        Seq::empty()
    } else {
        let rest = lemma_kept_positions(es, i + 1);
        if kept_at(es, i) {
            let idx = seq![i] + rest;
            assert forall|k: int| 0 <= k < idx.len() implies i <= #[trigger] idx[k] < es.len()
                && kept_from(es, i)[k] == es[idx[k]] && kept_at(es, idx[k]) by {
                if k > 0 {
                    assert(idx[k] == rest[k - 1]);
                }
            }
            assert forall|m: int| i <= m < es.len() && kept_at(es, m) implies idx.contains(m) by {
                if m == i {
                    assert(idx[0] == i);
                } else {
                    let k = choose|k: int| 0 <= k < rest.len() && rest[k] == m;
                    assert(idx[k + 1] == m);
                }
            }
            idx
        } else {
            assert forall|m: int| i <= m < es.len() && kept_at(es, m) implies rest.contains(m) by {
                assert(m != i);
            }
            rest
        }
    }
}

/// The merge keeps exactly the entries that survive, in their original
/// order, and writes their sources joined by single spaces.
pub proof fn law_output_keeps_order(es: Seq<Entry>)
    ensures
        exists|idx: Seq<int>|
            {
                &&& #[trigger] idx.len() == kept_entries(es).len()
                &&& forall|a: int, b: int| 0 <= a < b < idx.len() ==> idx[a] < idx[b]
                &&& forall|k: int|
                    0 <= k < idx.len() ==> 0 <= #[trigger] idx[k] < es.len() && kept_entries(
                        es,
                    )[k] == es[idx[k]] && kept_at(es, idx[k])
                &&& forall|m: int| 0 <= m < es.len() && kept_at(es, m) ==> idx.contains(m)
            },
        merged_output(es) == crate::text::join(
            kept_entries(es).map_values(|e: Entry| crate::merge::entry_source(e)),
            " "@,
        ),
{
    let idx = lemma_kept_positions(es, 0);
    assert(idx.len() == kept_entries(es).len());
}

} // verus!
