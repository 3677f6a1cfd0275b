//! Merging a class list: of classes that conflict, the last one wins.
use vstd::prelude::*;
use crate::ast::{opt_chars, AstStyle, StyleView};
use crate::collision::{arbitrary_collision, opt_collision, Collision, CollisionView};
use crate::text::{join, join_strings, views};
use crate::variants::{sort_variants_for_collision, variants_for_collision};

verus! {

/// A parsed class together with what the collision functions said of it.
pub struct ResolvedStyle {
    pub style: AstStyle,
    /// The collision id of the class, `None` when it has none.
    pub collision_id: Option<String>,
    /// The collision ids that the class overrides besides its own (a
    /// shorthand such as `p-10` overrides `px-5`), asked for its id.
    pub collisions: Option<Vec<String>>,
}

/// The mathematical content of a [`ResolvedStyle`].
pub struct ResolvedView {
    pub style: StyleView,
    pub collision_id: Option<Seq<char>>,
    pub collisions: Option<Seq<Seq<char>>>,
}

impl View for ResolvedStyle {
    type V = ResolvedView;

    open spec fn view(&self) -> ResolvedView {
        ResolvedView {
            style: self.style@,
            collision_id: match self.collision_id {
                Some(id) => Some(id@),
                None => None,
            },
            collisions: match self.collisions {
                Some(ids) => Some(views(ids@)),
                None => None,
            },
        }
    }
}

/// One entry of a class list: a resolved class, or a class that did not parse
/// (kept as written).
pub type Entry = Result<ResolvedView, Seq<char>>;

pub open spec fn entry_view(e: Result<ResolvedStyle, String>) -> Entry {
    match e {
        Ok(r) => Ok(r@),
        Err(s) => Err(s@),
    }
}

pub open spec fn entries_view(es: Seq<Result<ResolvedStyle, String>>) -> Seq<Entry> {
    es.map_values(|e: Result<ResolvedStyle, String>| entry_view(e))
}

/// The collision a class stands for: by its collision id, or else by the
/// property of an arbitrary `[property:value]` class.
pub open spec fn primary_collision(r: ResolvedView) -> Option<CollisionView> {
    primary_key(r.style, r.collision_id)
}

/// The collision of a class with the given collision id (if any).
pub open spec fn primary_key(style: StyleView, collision_id: Option<Seq<char>>) -> Option<
    CollisionView,
> {
    match collision_id {
        Some(id) => Some(
            CollisionView {
                important: style.important,
                variants: variants_for_collision(style.variants),
                collision_id: id,
            },
        ),
        None => arbitrary_collision(style),
    }
}

/// The collisions of the ids `ids` under the given importance and variants.
pub open spec fn overridden(important: bool, variants: Seq<Seq<char>>, ids: Seq<Seq<char>>) -> Set<
    CollisionView,
> {
    Set::new(
        |d: CollisionView|
            d.important == important && d.variants == variants && ids.contains(d.collision_id),
    )
}

proof fn lemma_overridden_push(
    important: bool,
    variants: Seq<Seq<char>>,
    ids: Seq<Seq<char>>,
    id: Seq<char>,
)
    ensures
        overridden(important, variants, ids.push(id)) == overridden(important, variants, ids).insert(
            CollisionView { important, variants, collision_id: id },
        ),
{
    let c = CollisionView { important, variants, collision_id: id };
    assert forall|d: CollisionView|
        overridden(important, variants, ids.push(id)).contains(d) <==> overridden(
            important,
            variants,
            ids,
        ).insert(c).contains(d) by {
        if ids.push(id).contains(d.collision_id) {
            let j = choose|j: int| 0 <= j < ids.push(id).len() && ids.push(id)[j] == d.collision_id;
            if j < ids.len() {
                assert(ids[j] == d.collision_id);
            }
        }
        if ids.contains(d.collision_id) {
            let j = choose|j: int| 0 <= j < ids.len() && ids[j] == d.collision_id;
            assert(ids.push(id)[j] == d.collision_id);
        }
        if d == c {
            assert(ids.push(id)[ids.len() as int] == id);
        }
    }
    assert(overridden(important, variants, ids.push(id)) =~= overridden(important, variants, ids).insert(c));
}

/// The collisions that a kept entry makes earlier entries lose to: its own,
/// and those of the ids it overrides, under the same importance and variants.
pub open spec fn claims(e: Entry) -> Set<CollisionView> {
    match e {
        Err(_) => Set::empty(),
        Ok(r) => match primary_collision(r) {
            None => Set::empty(),
            Some(c) => match (r.collision_id, r.collisions) {
                (Some(_), Some(ids)) => overridden(c.important, c.variants, ids).insert(c),
                _ => set![c],
            },
        },
    }
}

/// Whether an entry survives, given the collisions of the entries after it.
pub open spec fn survives(e: Entry, seen: Set<CollisionView>) -> bool {
    match e {
        Err(_) => true,
        Ok(r) => match primary_collision(r) {
            Some(c) => !seen.contains(c),
            None => true,
        },
    }
}

/// The collisions claimed by the surviving entries from position `i` on.
pub open spec fn seen_from(es: Seq<Entry>, i: int) -> Set<CollisionView>
    decreases es.len() - i,
{
    if i >= es.len() {
        Set::empty()
    } else {
        let later = seen_from(es, i + 1);
        if survives(es[i], later) {
            later.union(claims(es[i]))
        } else {
            later
        }
    }
}

/// Whether the entry at `i` is kept by the merge.
pub open spec fn kept_at(es: Seq<Entry>, i: int) -> bool {
    survives(es[i], seen_from(es, i + 1))
}

/// The kept entries from position `i` on, in order.
pub open spec fn kept_from(es: Seq<Entry>, i: int) -> Seq<Entry>
    decreases es.len() - i,
{
    if i >= es.len() {
        seq![]
    } else if kept_at(es, i) {
        seq![es[i]] + kept_from(es, i + 1)
    } else {
        kept_from(es, i + 1)
    }
}

/// The entries that the merge keeps, in order.
pub open spec fn kept_entries(es: Seq<Entry>) -> Seq<Entry> {
    kept_from(es, 0)
}

/// What an entry writes to the output.
pub open spec fn entry_source(e: Entry) -> Seq<char> {
    match e {
        Ok(r) => r.style.source,
        Err(s) => s,
    }
}

/// The merged class list: the kept entries, joined by single spaces.
pub open spec fn merged_output(es: Seq<Entry>) -> Seq<char> {
    join(kept_entries(es).map_values(|e: Entry| entry_source(e)), " "@)
}

/// The set of the collisions held in a list.
pub open spec fn collision_set(v: Seq<Collision>) -> Set<CollisionView> {
    Set::new(|c: CollisionView| exists|j: int| 0 <= j < v.len() && v[j]@ == c)
}

fn strings_eq(a: &Vec<String>, b: &Vec<String>) -> (r: bool)
    ensures
        r == (views(a@) == views(b@)),
{
    if a.len() != b.len() {
        assert(views(a@).len() != views(b@).len());
        return false;
    }
    let mut i: usize = 0;
    while i < a.len()
        invariant
            a.len() == b.len(),
            i <= a.len(),
            forall|j: int| 0 <= j < i ==> a@[j]@ == b@[j]@,
        decreases a.len() - i,
    {
        if a[i] != b[i] {
            assert(views(a@)[i as int] != views(b@)[i as int]);
            return false;
        }
        i = i + 1;
    }
    assert(views(a@) =~= views(b@));
    true
}

fn clone_strings(v: &Vec<String>) -> (r: Vec<String>)
    ensures
        views(r@) == views(v@),
{
    let mut r: Vec<String> = Vec::new();
    let mut i: usize = 0;
    while i < v.len()
        invariant
            i <= v.len(),
            views(r@) == views(v@).take(i as int),
        decreases v.len() - i,
    {
        let x = v[i].clone();
        assert(x@ == views(v@)[i as int]);
        let ghost old_r = r@;
        r.push(x);
        proof {
            assert(views(r@) =~= views(old_r).push(x@));
            assert(views(v@).take(i + 1) =~= views(v@).take(i as int).push(views(v@)[i as int]));
            assert(views(r@) =~= views(v@).take(i + 1));
        }
        i = i + 1;
    }
    proof {
        assert(views(v@).take(v.len() as int) =~= views(v@));
    }
    r
}

fn collision_eq(a: &Collision, b: &Collision) -> (r: bool)
    ensures
        r == (a@ == b@),
{
    a.important == b.important && strings_eq(&a.variants, &b.variants) && a.collision_id
        == b.collision_id
}

fn seen_contains(seen: &Vec<Collision>, c: &Collision) -> (r: bool)
    ensures
        r == collision_set(seen@).contains(c@),
{
    let mut i: usize = 0;
    while i < seen.len()
        invariant
            i <= seen.len(),
            forall|j: int| 0 <= j < i ==> seen@[j]@ != c@,
        decreases seen.len() - i,
    {
        if collision_eq(&seen[i], c) {
            return true;
        }
        i = i + 1;
    }
    false
}

fn record(seen: &mut Vec<Collision>, c: Collision)
    ensures
        collision_set(final(seen)@) == collision_set(old(seen)@).insert(c@),
{
    let ghost cv = c@;
    seen.push(c);
    proof {
        let s = final(seen)@;
        assert(s[s.len() - 1]@ == cv);
        assert forall|d: CollisionView| #[trigger]
            collision_set(s).contains(d) <==> collision_set(old(seen)@).insert(cv).contains(d) by {
            if collision_set(s).contains(d) {
                let j = choose|j: int| 0 <= j < s.len() && s[j]@ == d;
                if j < s.len() - 1 {
                    assert(old(seen)@[j]@ == d);
                }
            }
            if collision_set(old(seen)@).contains(d) {
                let j = choose|j: int| 0 <= j < old(seen)@.len() && old(seen)@[j]@ == d;
                assert(s[j]@ == d);
            }
        }
        assert(collision_set(s) =~= collision_set(old(seen)@).insert(cv));
    }
}

/// The collision key of a class with the given collision id, and its source.
fn key_of(style: AstStyle, collision_id: &Option<String>) -> (r: (String, Option<Collision>))
    ensures
        r.0@ == style@.source,
        opt_collision(r.1) == primary_key(style@, opt_chars(*collision_id)),
{
    let source = style.source.clone();
    match collision_id {
        Some(id) => {
            let variants = sort_variants_for_collision(style.variants.as_slice());
            (source, Some(Collision { important: style.important, variants, collision_id: id.clone() }))
        },
        None => (source, Collision::check_arbitrary(style)),
    }
}

/// Records the collisions of the ids that a kept class overrides.
fn record_overridden(
    seen: &mut Vec<Collision>,
    important: bool,
    variants: &Vec<String>,
    ids: &Vec<String>,
)
    ensures
        collision_set(final(seen)@) == collision_set(old(seen)@).union(
            overridden(important, views(variants@), views(ids@)),
        ),
{
    let ghost before = collision_set(seen@);
    let mut k: usize = 0;
    proof {
        assert(overridden(important, views(variants@), views(ids@).take(0)) =~= Set::empty());
        assert(before.union(Set::empty()) =~= before);
    }
    while k < ids.len()
        invariant
            k <= ids.len(),
            collision_set(seen@) == before.union(
                overridden(important, views(variants@), views(ids@).take(k as int)),
            ),
        decreases ids.len() - k,
    {
        let extra = Collision {
            important,
            variants: clone_strings(variants),
            collision_id: ids[k].clone(),
        };
        record(seen, extra);
        proof {
            assert(views(ids@).take(k + 1) =~= views(ids@).take(k as int).push(ids@[k as int]@));
            lemma_overridden_push(
                important,
                views(variants@),
                views(ids@).take(k as int),
                ids@[k as int]@,
            );
            assert(collision_set(seen@) =~= before.union(
                overridden(important, views(variants@), views(ids@).take(k + 1)),
            ));
        }
        k = k + 1;
    }
    proof {
        assert(views(ids@).take(ids@.len() as int) =~= views(ids@));
    }
}

/// Merges a resolved class list: walking from the last class to the first, a
/// class is dropped when a later kept class already claimed its collision;
/// classes without a collision, and classes that did not parse, are kept.
/// The kept classes are joined with single spaces, in their original order.
pub fn merge_resolved(entries: Vec<Result<ResolvedStyle, String>>) -> (merged: String)
    ensures
        merged@ == merged_output(entries_view(entries@)),
{
    let ghost es = entries_view(entries@);
    let n: usize = entries.len();
    let mut entries = entries;
    let mut seen: Vec<Collision> = Vec::new();
    let mut kept: Vec<String> = Vec::new();
    let mut i: usize = n;
    proof {
        assert(collision_set(seen@) =~= Set::<CollisionView>::empty());
        assert(entries_view(entries@) =~= es.take(n as int));
    }
    while i > 0
        invariant
            i <= n,
            n == es.len(),
            entries_view(entries@) == es.take(i as int),
            collision_set(seen@) == seen_from(es, i as int),
            views(kept@) == kept_from(es, i as int).map_values(|e: Entry| entry_source(e)),
        decreases i,
    {
        assert(entries@.len() == entries_view(entries@).len());
        let ghost old_entries = entries@;
        let entry = entries.pop().unwrap();
        proof {
            assert(entries_view(old_entries)[i - 1] == entry_view(old_entries[i - 1]));
            assert(es.take(i as int)[i - 1] == es[i - 1]);
        }
        i = i - 1;
        let ghost e = es[i as int];
        let ghost later = seen_from(es, i + 1);
        proof {
            assert(entries_view(entries@) =~= es.take(i as int));
            assert(entry_view(entry) == e);
        }
        let source: String;
        let keep: bool;
        match entry {
            Err(s) => {
                source = s;
                keep = true;
                proof {
                    assert(collision_set(seen@) =~= later.union(claims(e)));
                }
            },
            Ok(resolved) => {
                let ResolvedStyle { style, collision_id, collisions } = resolved;
                let (src, key) = key_of(style, &collision_id);
                source = src;
                match key {
                    None => {
                        keep = true;
                    },
                    Some(c) => {
                        if seen_contains(&seen, &c) {
                            keep = false;
                        } else {
                            let important = c.important;
                            let variants = clone_strings(&c.variants);
                            record(&mut seen, c);
                            if collision_id.is_some() {
                                if let Some(ids) = &collisions {
                                    record_overridden(&mut seen, important, &variants, ids);
                                }
                            }
                            keep = true;
                            proof {
                                assert(collision_set(seen@) =~= later.union(claims(e)));
                            }
                        }
                    },
                }
            },
        }
        proof {
            assert(keep == kept_at(es, i as int));
            assert(source@ == entry_source(e));
        }
        let ghost old_kept = views(kept@);
        if keep {
            kept.insert(0, source);
            proof {
                assert(views(kept@) =~= seq![entry_source(e)] + old_kept);
            }
        }
    }
    join_strings(&kept, " ")
}

/// Whether `e` holds `s` together with the collision id that `f` can give
/// for it (from its elements and its arbitrary part).
pub open spec fn resolved_entry<F>(s: Result<AstStyle, String>, e: Result<ResolvedStyle, String>, f: F) -> bool where
    F: Fn(&Vec<String>, &Option<String>) -> Option<String>,
 {
    match s {
        Err(x) => e == Err::<ResolvedStyle, String>(x),
        Ok(st) => match e {
            Err(_) => false,
            Ok(r) => r.style == st && f.ensures((&st.elements, &st.arbitrary), r.collision_id),
        },
    }
}

/// Whether the overridden ids of the entry at `i` are what `g` can answer for
/// its collision id when the entry is kept and has an id, and are absent
/// otherwise: `g` is asked only for kept classes that have an id.
pub open spec fn asked_when_kept<G>(entries: Seq<Result<ResolvedStyle, String>>, i: int, g: G) -> bool where
    G: Fn(&String) -> Option<Vec<String>>,
 {
    match entries[i] {
        Err(_) => true,
        Ok(r) => match r.collision_id {
            Some(id) => if kept_at(entries_view(entries), i) {
                g.ensures((&id,), r.collisions)
            } else {
                r.collisions is None
            },
            None => r.collisions is None,
        },
    }
}

/// Whether `entries` resolves each class of `styles` as `resolved_entry` and
/// `asked_when_kept` say.
pub open spec fn resolved_from<F, G>(
    styles: Seq<Result<AstStyle, String>>,
    entries: Seq<Result<ResolvedStyle, String>>,
    f: F,
    g: G,
) -> bool where
    F: Fn(&Vec<String>, &Option<String>) -> Option<String>,
    G: Fn(&String) -> Option<Vec<String>>,
 {
    &&& entries.len() == styles.len()
    &&& forall|i: int| 0 <= i < styles.len() ==> resolved_entry(styles[i], #[trigger] entries[i], f)
    &&& forall|i: int| 0 <= i < styles.len() ==> #[trigger] asked_when_kept(entries, i, g)
}

/// Walking past a first entry that is not counted shifts positions by one.
pub proof fn lemma_shift(x: Entry, s: Seq<Entry>, k: int)
    requires
        0 <= k <= s.len(),
    ensures
        seen_from(seq![x] + s, k + 1) == seen_from(s, k),
        kept_from(seq![x] + s, k + 1) == kept_from(s, k),
    decreases s.len() - k,
{
    let t = seq![x] + s;
    if k < s.len() {
        lemma_shift(x, s, k + 1);
        assert(t[k + 1] == s[k]);
    }
}

/// Merges a parsed class list, resolving conflicts.  Walking from the last
/// class to the first, each class that parsed is given its collision id by
/// `collision_id_fn` (from its elements and its arbitrary part; `None` when
/// it has none); a class whose collision was already claimed by a later kept
/// class is dropped, and for a kept class with an id `collisions_fn` is asked
/// which other ids it overrides.  The kept classes are joined with single
/// spaces, in their original order.  Whatever the two functions answer, the
/// result is the merge of the list resolved with those answers.
pub fn tw_merge_override<F, G>(
    styles: Vec<Result<AstStyle, String>>,
    collision_id_fn: F,
    collisions_fn: G,
) -> (merged: String) where
    F: Fn(&Vec<String>, &Option<String>) -> Option<String>,
    G: Fn(&String) -> Option<Vec<String>>,

    requires
        forall|e: &Vec<String>, a: &Option<String>| collision_id_fn.requires((e, a)),
        forall|id: &String| collisions_fn.requires((id,)),
    ensures
        exists|entries: Seq<Result<ResolvedStyle, String>>|
            #[trigger] resolved_from(styles@, entries, collision_id_fn, collisions_fn)
                && merged@ == merged_output(entries_view(entries)),
{
    let ghost input = styles@;
    let ghost n: int = styles@.len() as int;
    let mut styles = styles;
    let ghost mut built: Seq<Result<ResolvedStyle, String>> = Seq::empty();
    let mut seen: Vec<Collision> = Vec::new();
    let mut kept: Vec<String> = Vec::new();
    proof {
        assert(collision_set(seen@) =~= Set::<CollisionView>::empty());
        assert(entries_view(built) =~= Seq::<Entry>::empty());
        assert(input.take(n) =~= input);
    }
    while styles.len() > 0
        invariant
            forall|e: &Vec<String>, a: &Option<String>| collision_id_fn.requires((e, a)),
            forall|id: &String| collisions_fn.requires((id,)),
            n == input.len(),
            styles@ == input.take(styles@.len() as int),
            styles@.len() <= n,
            built.len() == n - styles@.len(),
            forall|j: int|
                0 <= j < built.len() ==> resolved_entry(
                    input[styles@.len() + j],
                    #[trigger] built[j],
                    collision_id_fn,
                ),
            forall|j: int| 0 <= j < built.len() ==> #[trigger] asked_when_kept(built, j, collisions_fn),
            collision_set(seen@) == seen_from(entries_view(built), 0),
            views(kept@) == kept_from(entries_view(built), 0).map_values(|e: Entry| entry_source(e)),
        decreases styles@.len(),
    {
        let ghost m: int = styles@.len() - 1;
        let style = styles.pop().unwrap();
        proof {
            assert(input.take(m + 1)[m] == input[m]);
            assert(styles@ =~= input.take(m));
        }
        let ghost later = seen_from(entries_view(built), 0);
        let ghost entry: Result<ResolvedStyle, String>;
        let source: String;
        let keep: bool;
        match style {
            Err(s) => {
                proof {
                    entry = Err(s);
                }
                source = s;
                keep = true;
                proof {
                    assert(collision_set(seen@) =~= later.union(claims(entry_view(entry))));
                }
            },
            Ok(style) => {
                let collision_id = collision_id_fn(&style.elements, &style.arbitrary);
                let ghost st = style;
                let (src, key) = key_of(style, &collision_id);
                source = src;
                match key {
                    None => {
                        keep = true;
                        proof {
                            entry = Ok(ResolvedStyle { style: st, collision_id, collisions: None });
                        }
                    },
                    Some(c) => {
                        if seen_contains(&seen, &c) {
                            keep = false;
                            proof {
                                entry = Ok(ResolvedStyle { style: st, collision_id, collisions: None });
                            }
                        } else {
                            let important = c.important;
                            let variants = clone_strings(&c.variants);
                            record(&mut seen, c);
                            let collisions = match &collision_id {
                                Some(id) => collisions_fn(id),
                                None => None,
                            };
                            if let Some(ids) = &collisions {
                                record_overridden(&mut seen, important, &variants, ids);
                            }
                            keep = true;
                            proof {
                                entry = Ok(ResolvedStyle { style: st, collision_id, collisions });
                                assert(collision_set(seen@) =~= later.union(claims(entry_view(entry))));
                            }
                        }
                    },
                }
            },
        }
        let ghost old_built = built;
        let ghost old_kept = views(kept@);
        proof {
            built = seq![entry] + old_built;
            let v = entries_view(built);
            let ov = entries_view(old_built);
            assert(v =~= seq![entry_view(entry)] + ov);
            lemma_shift(entry_view(entry), ov, 0);
            assert(v[0] == entry_view(entry));
            assert(keep == kept_at(v, 0));
            assert(source@ == entry_source(entry_view(entry)));
            assert forall|j: int| 0 <= j < built.len() implies resolved_entry(
                input[m + j],
                #[trigger] built[j],
                collision_id_fn,
            ) by {
                if j > 0 {
                    assert(built[j] == old_built[j - 1]);
                }
            }
            assert forall|j: int| 0 <= j < built.len() implies #[trigger] asked_when_kept(
                built,
                j,
                collisions_fn,
            ) by {
                if j > 0 {
                    assert(built[j] == old_built[j - 1]);
                    assert(asked_when_kept(old_built, j - 1, collisions_fn));
                    lemma_shift(entry_view(entry), ov, j);
                    assert(v[j] == ov[j - 1]);
                    assert(kept_at(v, j) == kept_at(ov, j - 1));
                }
            }
        }
        if keep {
            kept.insert(0, source);
            proof {
                assert(views(kept@) =~= seq![entry_source(entry_view(entry))] + old_kept);
            }
        }
    }
    let merged = join_strings(&kept, " ");
    proof {
        assert(resolved_from(input, built, collision_id_fn, collisions_fn));
    }
    merged
}

} // verus!
