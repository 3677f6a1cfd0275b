//! Normalising the variant (modifier) list of a class before conflicts are
//! compared, so that `hover:focus:block` and `focus:hover:block` collide.
use vstd::prelude::*;
use vstd::relations::*;
use crate::text::{lemma_lex_total_ordering, lex_order, sort_strings, str_eq, views};

verus! {

/// Modifiers whose position relative to other modifiers changes the generated
/// CSS, e.g. `*:hover:block` (hover on direct children) differs from
/// `hover:*:block` (children of a hovered element).  They are never reordered.
pub open spec fn is_order_sensitive(v: Seq<char>) -> bool {
    ||| v == "*"@
    ||| v == "**"@
    ||| v == "after"@
    ||| v == "backdrop"@
    ||| v == "before"@
    ||| v == "details-content"@
    ||| v == "file"@
    ||| v == "first-letter"@
    ||| v == "first-line"@
    ||| v == "marker"@
    ||| v == "placeholder"@
    ||| v == "selection"@
}

/// Whether a modifier keeps its position during normalisation.
pub fn order_sensitive(v: &str) -> (r: bool)
    ensures
        r == is_order_sensitive(v@),
{
    str_eq(v, "*") || str_eq(v, "**") || str_eq(v, "after") || str_eq(v, "backdrop") || str_eq(
        v,
        "before",
    ) || str_eq(v, "details-content") || str_eq(v, "file") || str_eq(v, "first-letter")
        || str_eq(v, "first-line") || str_eq(v, "marker") || str_eq(v, "placeholder") || str_eq(
        v,
        "selection",
    )
}

/// The modifiers that may be reordered, in their original order.
pub open spec fn sortable_variants(vs: Seq<Seq<char>>) -> Seq<Seq<char>>
    decreases vs.len(),
{
    if vs.len() == 0 {
        seq![]
    } else {
        let front = sortable_variants(vs.drop_last());
        if is_order_sensitive(vs.last()) {
            front
        } else {
            front.push(vs.last())
        }
    }
}

/// Puts `sorted` back into the slots of `vs` that hold reorderable modifiers,
/// left to right, and leaves the order-sensitive modifiers where they are.
pub open spec fn refill(vs: Seq<Seq<char>>, sorted: Seq<Seq<char>>) -> Seq<Seq<char>>
    decreases vs.len(),
{
    if vs.len() == 0 {
        seq![]
    } else {
        let front = vs.drop_last();
        let slot = if is_order_sensitive(vs.last()) {
            vs.last()
        } else {
            sorted[sortable_variants(front).len() as int]
        };
        refill(front, sorted).push(slot)
    }
}

/// The normalised variant list: order-sensitive modifiers stay in place, the
/// others are sorted lexicographically into the remaining positions.
pub open spec fn variants_for_collision(vs: Seq<Seq<char>>) -> Seq<Seq<char>> {
    refill(vs, sortable_variants(vs).sort_by(lex_order()))
}

/// Sorts variants for collision detection, preserving the position of
/// order-sensitive modifiers while sorting the rest alphabetically.
pub fn sort_variants_for_collision(variants: &[String]) -> (r: Vec<String>)
    ensures
        views(r@) == variants_for_collision(views(variants@)),
{
    let ghost vs = views(variants@);
    let n: usize = variants.len();
    let mut sortable: Vec<String> = Vec::new();
    let mut i: usize = 0;
    while i < n
        invariant
            n == variants@.len(),
            vs == views(variants@),
            i <= n,
            views(sortable@) == sortable_variants(vs.take(i as int)),
        decreases n - i,
    {
        proof {
            assert(vs.take(i + 1).drop_last() =~= vs.take(i as int));
        }
        if !order_sensitive(variants[i].as_str()) {
            sortable.push(variants[i].clone());
            proof {
                assert(views(sortable@) =~= sortable_variants(vs.take(i as int)).push(vs[i as int]));
            }
        }
        i = i + 1;
    }
    proof {
        assert(vs.take(n as int) =~= vs);
    }
    let sorted = sort_strings(&sortable);
    let ghost svals = views(sorted@);
    proof {
        lemma_lex_total_ordering();
        sortable_variants(vs).lemma_sort_by_ensures(lex_order());
        broadcast use vstd::seq_lib::group_to_multiset_ensures;
        vstd::seq_lib::to_multiset_len(svals);
        vstd::seq_lib::to_multiset_len(sortable_variants(vs));
        assert(svals.len() == sortable_variants(vs).len());
    }
    let slen: usize = sorted.len();
    let mut result: Vec<String> = Vec::new();
    let mut k: usize = 0;
    let mut i: usize = 0;
    while i < n
        invariant
            n == variants@.len(),
            vs == views(variants@),
            svals == views(sorted@),
            slen == sorted@.len(),
            svals.len() == sortable_variants(vs).len(),
            i <= n,
            k == sortable_variants(vs.take(i as int)).len(),
            views(result@) == refill(vs.take(i as int), svals),
        decreases n - i,
    {
        proof {
            assert(vs.take(i + 1).drop_last() =~= vs.take(i as int));
            lemma_sortable_prefix_len(vs, i + 1);
        }
        if order_sensitive(variants[i].as_str()) {
            result.push(variants[i].clone());
        } else {
            proof {
                assert(vs.take(i + 1).last() == vs[i as int]);
                assert(sortable_variants(vs.take(i + 1)).len() == k + 1);
            }
            result.push(sorted[k].clone());
            k = k + 1;
        }
        proof {
            assert(views(result@) =~= refill(vs.take(i + 1), svals));
        }
        i = i + 1;
    }
    proof {
        assert(vs.take(n as int) =~= vs);
    }
    result
}

/// A prefix has no more reorderable modifiers than the whole list.
pub proof fn lemma_sortable_prefix_len(vs: Seq<Seq<char>>, i: int)
    requires
        0 <= i <= vs.len(),
    ensures
        sortable_variants(vs.take(i)).len() <= sortable_variants(vs).len(),
    decreases vs.len() - i,
{
    if i == vs.len() {
        assert(vs.take(i) =~= vs);
    } else {
        lemma_sortable_prefix_len(vs, i + 1);
        assert(vs.take(i + 1).drop_last() =~= vs.take(i));
    }
}

/// No order-sensitive modifier is among the reorderable ones.
proof fn lemma_sortable_not_sensitive(vs: Seq<Seq<char>>)
    ensures
        forall|j: int|
            0 <= j < sortable_variants(vs).len() ==> !is_order_sensitive(
                #[trigger] sortable_variants(vs)[j],
            ),
    decreases vs.len(),
{
    if vs.len() > 0 {
        let front = sortable_variants(vs.drop_last());
        lemma_sortable_not_sensitive(vs.drop_last());
        assert forall|j: int| 0 <= j < sortable_variants(vs).len() implies !is_order_sensitive(
            #[trigger] sortable_variants(vs)[j],
        ) by {
            if j < front.len() {
                assert(sortable_variants(vs)[j] == front[j]);
            }
        }
    }
}

/// The sorted reorderable modifiers are all reorderable, and as many as before.
proof fn lemma_sorted_sortable(vs: Seq<Seq<char>>)
    ensures
        total_ordering(lex_order()),
        sortable_variants(vs).sort_by(lex_order()).len() == sortable_variants(vs).len(),
        sortable_variants(vs).sort_by(lex_order()).to_multiset()
            == sortable_variants(vs).to_multiset(),
        sorted_by(sortable_variants(vs).sort_by(lex_order()), lex_order()),
        forall|j: int|
            0 <= j < sortable_variants(vs).len() ==> !is_order_sensitive(
                #[trigger] sortable_variants(vs).sort_by(lex_order())[j],
            ),
{
    let sv = sortable_variants(vs);
    let sorted = sv.sort_by(lex_order());
    lemma_lex_total_ordering();
    sv.lemma_sort_by_ensures(lex_order());
    lemma_sortable_not_sensitive(vs);
    vstd::seq_lib::to_multiset_len(sv);
    vstd::seq_lib::to_multiset_len(sorted);
    assert forall|j: int| 0 <= j < sv.len() implies !is_order_sensitive(#[trigger] sorted[j]) by {
        assert(sorted.contains(sorted[j]));
        assert(sv.contains(sorted[j]));
    }
}

/// Shape of a refilled list: same length, same order-sensitive entries in the
/// same places, and its reorderable entries are the first values of `sorted`.
proof fn lemma_refill_shape(vs: Seq<Seq<char>>, sorted: Seq<Seq<char>>)
    requires
        sorted.len() >= sortable_variants(vs).len(),
        forall|j: int| 0 <= j < sorted.len() ==> !is_order_sensitive(#[trigger] sorted[j]),
    ensures
        refill(vs, sorted).len() == vs.len(),
        forall|i: int|
            0 <= i < vs.len() ==> (is_order_sensitive(#[trigger] refill(vs, sorted)[i])
                <==> is_order_sensitive(vs[i])),
        forall|i: int|
            0 <= i < vs.len() && is_order_sensitive(vs[i]) ==> #[trigger] refill(vs, sorted)[i]
                == vs[i],
        sortable_variants(refill(vs, sorted)) == sorted.take(sortable_variants(vs).len() as int),
    decreases vs.len(),
{
    if vs.len() == 0 {
        assert(sorted.take(0) =~= Seq::<Seq<char>>::empty());
    } else {
        let front = vs.drop_last();
        lemma_sortable_prefix_len(vs, vs.len() - 1);
        assert(vs.take(vs.len() - 1) =~= front);
        lemma_refill_shape(front, sorted);
        let r = refill(vs, sorted);
        assert(r.drop_last() =~= refill(front, sorted));
        let n: int = sortable_variants(front).len() as int;
        if !is_order_sensitive(vs.last()) {
            assert(sorted.take(n).push(sorted[n]) =~= sorted.take(n + 1));
        }
    }
}

/// Two lists with the same order-sensitive entries in the same places refill alike.
proof fn lemma_refill_same_layout(a: Seq<Seq<char>>, b: Seq<Seq<char>>, sorted: Seq<Seq<char>>)
    requires
        a.len() == b.len(),
        forall|i: int| 0 <= i < a.len() ==> (is_order_sensitive(a[i]) <==> is_order_sensitive(b[i])),
        forall|i: int| 0 <= i < a.len() && is_order_sensitive(a[i]) ==> a[i] == b[i],
    ensures
        refill(a, sorted) == refill(b, sorted),
        sortable_variants(a).len() == sortable_variants(b).len(),
    decreases a.len(),
{
    if a.len() > 0 {
        lemma_refill_same_layout(a.drop_last(), b.drop_last(), sorted);
    }
}

/// Reordering the reorderable modifiers of a variant list does not change its
/// normalised form: `hover:focus:block` and `focus:hover:block` collide.
pub proof fn law_variant_order_irrelevant(a: Seq<Seq<char>>, b: Seq<Seq<char>>)
    requires
        a.len() == b.len(),
        forall|i: int| 0 <= i < a.len() ==> (is_order_sensitive(a[i]) <==> is_order_sensitive(b[i])),
        forall|i: int| 0 <= i < a.len() && is_order_sensitive(a[i]) ==> a[i] == b[i],
        sortable_variants(a).to_multiset() == sortable_variants(b).to_multiset(),
    ensures
        variants_for_collision(a) == variants_for_collision(b),
{
    lemma_sorted_sortable(a);
    lemma_sorted_sortable(b);
    let sa = sortable_variants(a).sort_by(lex_order());
    let sb = sortable_variants(b).sort_by(lex_order());
    vstd::seq_lib::lemma_sorted_unique(sa, sb, lex_order());
    lemma_refill_same_layout(a, b, sa);
}

/// Normalising an already normalised variant list changes nothing.
pub proof fn law_variants_for_collision_idempotent(vs: Seq<Seq<char>>)
    ensures
        variants_for_collision(variants_for_collision(vs)) == variants_for_collision(vs),
{
    lemma_sorted_sortable(vs);
    let sorted = sortable_variants(vs).sort_by(lex_order());
    let r = variants_for_collision(vs);
    lemma_refill_shape(vs, sorted);
    assert(sorted.take(sorted.len() as int) =~= sorted);
    assert(sortable_variants(r) == sorted);
    sorted.lemma_sort_by_ensures(lex_order());
    vstd::seq_lib::lemma_sorted_unique(sorted.sort_by(lex_order()), sorted, lex_order());
    lemma_refill_same_layout(r, vs, sorted);
}

/// Counting: a refilled list holds the entries of `vs`, with its reorderable
/// ones traded for the first values of `sorted`.
proof fn lemma_refill_counts(vs: Seq<Seq<char>>, sorted: Seq<Seq<char>>)
    requires
        sorted.len() >= sortable_variants(vs).len(),
    ensures
        refill(vs, sorted).to_multiset().add(sortable_variants(vs).to_multiset())
            == vs.to_multiset().add(
            sorted.take(sortable_variants(vs).len() as int).to_multiset(),
        ),
    decreases vs.len(),
{
    broadcast use vstd::multiset::group_multiset_axioms;
    broadcast use vstd::seq_lib::group_to_multiset_ensures;

    if vs.len() == 0 {
        assert(sorted.take(0) =~= Seq::<Seq<char>>::empty());
        assert(refill(vs, sorted).to_multiset().add(sortable_variants(vs).to_multiset())
            =~= vs.to_multiset().add(sorted.take(0).to_multiset()));
    } else {
        let front = vs.drop_last();
        let x = vs.last();
        lemma_sortable_prefix_len(vs, vs.len() - 1);
        assert(vs.take(vs.len() - 1) =~= front);
        lemma_refill_counts(front, sorted);
        assert(vs =~= front.push(x));
        let nf = sortable_variants(front).len() as int;
        let rf = refill(front, sorted);
        let sf = sortable_variants(front);
        let slot = if is_order_sensitive(x) {
            x
        } else {
            sorted[nf]
        };
        assert(refill(vs, sorted) == rf.push(slot));
        assert(refill(vs, sorted).to_multiset() == rf.to_multiset().insert(slot));
        assert(vs.to_multiset() == front.to_multiset().insert(x));
        if is_order_sensitive(x) {
            assert(sortable_variants(vs) == sf);
            let lhs = refill(vs, sorted).to_multiset().add(sortable_variants(vs).to_multiset());
            let rhs = vs.to_multiset().add(sorted.take(nf).to_multiset());
            assert forall|y: Seq<char>| lhs.count(y) == rhs.count(y) by {
                assert(rf.to_multiset().add(sf.to_multiset()).count(y) == front.to_multiset().add(
                    sorted.take(nf).to_multiset(),
                ).count(y));
            }
            assert(lhs =~= rhs);
        } else {
            assert(sortable_variants(vs) == sf.push(x));
            assert(sortable_variants(vs).to_multiset() == sf.to_multiset().insert(x));
            assert(sorted.take(nf + 1) =~= sorted.take(nf).push(sorted[nf]));
            assert(sorted.take(nf + 1).to_multiset() == sorted.take(nf).to_multiset().insert(
                sorted[nf],
            ));
            let lhs = refill(vs, sorted).to_multiset().add(sortable_variants(vs).to_multiset());
            let rhs = vs.to_multiset().add(sorted.take(nf + 1).to_multiset());
            assert forall|y: Seq<char>| lhs.count(y) == rhs.count(y) by {
                assert(rf.to_multiset().add(sf.to_multiset()).count(y) == front.to_multiset().add(
                    sorted.take(nf).to_multiset(),
                ).count(y));
            }
            assert(lhs =~= rhs);
        }
    }
}

/// Normalising a variant list keeps the same modifiers, only reordered.
pub proof fn law_variants_for_collision_permutes(vs: Seq<Seq<char>>)
    ensures
        variants_for_collision(vs).to_multiset() == vs.to_multiset(),
{
    broadcast use vstd::multiset::group_multiset_axioms;

    lemma_sorted_sortable(vs);
    let sorted = sortable_variants(vs).sort_by(lex_order());
    lemma_refill_counts(vs, sorted);
    assert(sorted.take(sorted.len() as int) =~= sorted);
    let m = sortable_variants(vs).to_multiset();
    let r = variants_for_collision(vs).to_multiset();
    assert forall|x: Seq<char>| r.count(x) == vs.to_multiset().count(x) by {
        assert(r.add(m).count(x) == vs.to_multiset().add(m).count(x));
    }
    assert(r =~= vs.to_multiset());
}

/// The modifiers that keep their position are exactly these twelve; every
/// other modifier, such as `first` or `hover`, may be reordered.
pub proof fn law_order_sensitive_modifiers(v: Seq<char>)
    ensures
        is_order_sensitive(v) <==> seq![
            "*"@,
            "**"@,
            "after"@,
            "backdrop"@,
            "before"@,
            "details-content"@,
            "file"@,
            "first-letter"@,
            "first-line"@,
            "marker"@,
            "placeholder"@,
            "selection"@,
        ].contains(v),
{
    let list = seq![
        "*"@,
        "**"@,
        "after"@,
        "backdrop"@,
        "before"@,
        "details-content"@,
        "file"@,
        "first-letter"@,
        "first-line"@,
        "marker"@,
        "placeholder"@,
        "selection"@,
    ];
    assert(list[0] == "*"@ && list[1] == "**"@ && list[2] == "after"@ && list[3] == "backdrop"@);
    assert(list[4] == "before"@ && list[5] == "details-content"@ && list[6] == "file"@);
    assert(list[7] == "first-letter"@ && list[8] == "first-line"@ && list[9] == "marker"@);
    assert(list[10] == "placeholder"@ && list[11] == "selection"@);
    if list.contains(v) {
        let k = choose|k: int| 0 <= k < list.len() && list[k] == v;
        assert(0 <= k < 12);
    }
}

/// The reorderable modifiers of a concatenation are those of its parts.
proof fn lemma_sortable_append(x: Seq<Seq<char>>, y: Seq<Seq<char>>)
    ensures
        sortable_variants(x + y) == sortable_variants(x) + sortable_variants(y),
    decreases y.len(),
{
    if y.len() == 0 {
        assert(x + y =~= x);
        assert(sortable_variants(x) + sortable_variants(y) =~= sortable_variants(x));
    } else {
        let y1 = y.drop_last();
        lemma_sortable_append(x, y1);
        assert((x + y).drop_last() =~= x + y1);
        assert((x + y).last() == y.last());
        if is_order_sensitive(y.last()) {
        } else {
            assert(sortable_variants(x + y) =~= sortable_variants(x) + sortable_variants(y));
        }
    }
}

/// Swapping two neighbouring modifiers that are not among the twelve
/// order-sensitive ones leaves the normalised variants unchanged:
/// `first:hover:p-4` and `hover:first:p-4` collide.
pub proof fn law_reorderable_neighbours_commute(
    pre: Seq<Seq<char>>,
    a: Seq<char>,
    b: Seq<char>,
    post: Seq<Seq<char>>,
)
    requires
        !seq![
            "*"@,
            "**"@,
            "after"@,
            "backdrop"@,
            "before"@,
            "details-content"@,
            "file"@,
            "first-letter"@,
            "first-line"@,
            "marker"@,
            "placeholder"@,
            "selection"@,
        ].contains(a),
        !seq![
            "*"@,
            "**"@,
            "after"@,
            "backdrop"@,
            "before"@,
            "details-content"@,
            "file"@,
            "first-letter"@,
            "first-line"@,
            "marker"@,
            "placeholder"@,
            "selection"@,
        ].contains(b),
    ensures
        variants_for_collision(pre + seq![a, b] + post) == variants_for_collision(
            pre + seq![b, a] + post,
        ),
{
    broadcast use vstd::seq_lib::group_to_multiset_ensures;
    broadcast use vstd::multiset::group_multiset_axioms;

    law_order_sensitive_modifiers(a);
    law_order_sensitive_modifiers(b);
    let s = pre + seq![a, b] + post;
    let t = pre + seq![b, a] + post;
    let ab: Seq<Seq<char>> = seq![a, b];
    let ba: Seq<Seq<char>> = seq![b, a];
    assert(sortable_variants(ab) =~= ab) by {
        let one: Seq<Seq<char>> = seq![a];
        assert(one.drop_last() =~= Seq::<Seq<char>>::empty());
        assert(one.last() == a);
        assert(!is_order_sensitive(a));
        assert(sortable_variants(Seq::<Seq<char>>::empty()) =~= Seq::<Seq<char>>::empty());
        assert(sortable_variants(one) =~= one);
        assert(ab.drop_last() =~= one);
        assert(ab.last() == b);
        assert(one.push(b) =~= ab);
    }
    assert(sortable_variants(ba) =~= ba) by {
        let one: Seq<Seq<char>> = seq![b];
        assert(one.drop_last() =~= Seq::<Seq<char>>::empty());
        assert(one.last() == b);
        assert(!is_order_sensitive(b));
        assert(sortable_variants(Seq::<Seq<char>>::empty()) =~= Seq::<Seq<char>>::empty());
        assert(sortable_variants(one) =~= one);
        assert(ba.drop_last() =~= one);
        assert(ba.last() == a);
        assert(one.push(a) =~= ba);
    }
    lemma_sortable_append(pre, ab);
    lemma_sortable_append(pre + ab, post);
    lemma_sortable_append(pre, ba);
    lemma_sortable_append(pre + ba, post);
    let sp = sortable_variants(pre);
    let so = sortable_variants(post);
    vstd::seq_lib::lemma_multiset_commutative(sp + ab, so);
    vstd::seq_lib::lemma_multiset_commutative(sp + ba, so);
    vstd::seq_lib::lemma_multiset_commutative(sp, ab);
    vstd::seq_lib::lemma_multiset_commutative(sp, ba);
    assert(ab.to_multiset() =~= ba.to_multiset()) by {
        assert(ab =~= seq![a].push(b));
        assert(ba =~= seq![b].push(a));
        assert(seq![a] =~= Seq::<Seq<char>>::empty().push(a));
        assert(seq![b] =~= Seq::<Seq<char>>::empty().push(b));
    }
    assert(sortable_variants(s).to_multiset() =~= sortable_variants(t).to_multiset());
    assert forall|i: int| 0 <= i < s.len() implies (is_order_sensitive(s[i]) <==> is_order_sensitive(
        t[i],
    )) && (is_order_sensitive(s[i]) ==> s[i] == t[i]) by {
        if i < pre.len() || i >= pre.len() + 2 {
            assert(s[i] == t[i]);
        }
    }
    law_variant_order_irrelevant(s, t);
}

} // verus!
