//! Character-level string facts: equality, the lexicographic order that
//! `str`'s `Ord` uses, and joining with a separator.
use vstd::prelude::*;
use vstd::relations::*;
use vstd::string::*;

verus! {

/// The character sequences of a sequence of strings.
pub open spec fn views(v: Seq<String>) -> Seq<Seq<char>> {
    v.map_values(|s: String| s@)
}

/// Lexicographic "less than or equal" on strings, comparing characters by
/// their code points.  For valid UTF-8 this is the same order as the byte-wise
/// order of `str`'s `Ord`.
pub open spec fn lex_le(a: Seq<char>, b: Seq<char>) -> bool
    decreases a.len(),
{
    if a.len() == 0 {
        true
    } else if b.len() == 0 {
        false
    } else if a[0] != b[0] {
        a[0] < b[0]
    } else {
        lex_le(a.drop_first(), b.drop_first())
    }
}

/// `lex_le` as a relation, for the ordering predicates of vstd.
pub open spec fn lex_order() -> spec_fn(Seq<char>, Seq<char>) -> bool {
    |a: Seq<char>, b: Seq<char>| lex_le(a, b)
}

pub proof fn lemma_lex_reflexive(a: Seq<char>)
    ensures
        lex_le(a, a),
    decreases a.len(),
{
    if a.len() > 0 {
        lemma_lex_reflexive(a.drop_first());
    }
}

pub proof fn lemma_lex_antisymmetric(a: Seq<char>, b: Seq<char>)
    requires
        lex_le(a, b),
        lex_le(b, a),
    ensures
        a == b,
    decreases a.len(),
{
    if a.len() > 0 && b.len() > 0 {
        lemma_lex_antisymmetric(a.drop_first(), b.drop_first());
        assert(a =~= seq![a[0]] + a.drop_first());
        assert(b =~= seq![b[0]] + b.drop_first());
    }
    assert(a =~= b);
}

pub proof fn lemma_lex_transitive(a: Seq<char>, b: Seq<char>, c: Seq<char>)
    requires
        lex_le(a, b),
        lex_le(b, c),
    ensures
        lex_le(a, c),
    decreases a.len(),
{
    if a.len() > 0 && b.len() > 0 && c.len() > 0 {
        if a[0] == b[0] && b[0] == c[0] {
            lemma_lex_transitive(a.drop_first(), b.drop_first(), c.drop_first());
        }
    }
}

pub proof fn lemma_lex_total(a: Seq<char>, b: Seq<char>)
    ensures
        lex_le(a, b) || lex_le(b, a),
    decreases a.len(),
{
    if a.len() > 0 && b.len() > 0 && a[0] == b[0] {
        lemma_lex_total(a.drop_first(), b.drop_first());
    }
}

/// The lexicographic order is a total order.
pub proof fn lemma_lex_total_ordering()
    ensures
        total_ordering(lex_order()),
{
    assert forall|x: Seq<char>| #[trigger] lex_order()(x, x) by {
        lemma_lex_reflexive(x);
    }
    assert forall|x: Seq<char>, y: Seq<char>|
        #[trigger] lex_order()(x, y) && #[trigger] lex_order()(y, x) implies x == y by {
        lemma_lex_antisymmetric(x, y);
    }
    assert forall|x: Seq<char>, y: Seq<char>, z: Seq<char>|
        #[trigger] lex_order()(x, y) && #[trigger] lex_order()(y, z) implies lex_order()(x, z) by {
        lemma_lex_transitive(x, y, z);
    }
    assert forall|x: Seq<char>, y: Seq<char>|
        #[trigger] lex_order()(x, y) || #[trigger] lex_order()(y, x) by {
        lemma_lex_total(x, y);
    }
}

/// Skipping a common prefix does not change the comparison.
proof fn lemma_lex_skip(a: Seq<char>, b: Seq<char>, i: int)
    requires
        0 <= i <= a.len(),
        i <= b.len(),
        forall|j: int| 0 <= j < i ==> a[j] == b[j],
    ensures
        lex_le(a, b) == lex_le(a.skip(i), b.skip(i)),
    decreases i,
{
    if i > 0 {
        lemma_lex_skip(a, b, i - 1);
        let a1 = a.skip(i - 1);
        let b1 = b.skip(i - 1);
        assert(a1[0] == a[i - 1] && b1[0] == b[i - 1]);
        assert(a1.drop_first() =~= a.skip(i));
        assert(b1.drop_first() =~= b.skip(i));
    } else {
        assert(a.skip(0) =~= a);
        assert(b.skip(0) =~= b);
    }
}

/// Whether `a` sorts before or equal to `b`.
pub fn str_le(a: &str, b: &str) -> (r: bool)
    ensures
        r == lex_le(a@, b@),
{
    let la: usize = a.unicode_len();
    let lb: usize = b.unicode_len();
    let mut i: usize = 0;
    while i < la && i < lb
        invariant
            la == a@.len(),
            lb == b@.len(),
            i <= la,
            i <= lb,
            forall|j: int| 0 <= j < i ==> a@[j] == b@[j],
        decreases la - i,
    {
        let ca = a.get_char(i);
        let cb = b.get_char(i);
        if ca != cb {
            proof {
                lemma_lex_skip(a@, b@, i as int);
                assert(a@.skip(i as int)[0] == ca);
                assert(b@.skip(i as int)[0] == cb);
            }
            return ca < cb;
        }
        i = i + 1;
    }
    proof {
        lemma_lex_skip(a@, b@, i as int);
    }
    la <= lb
}

/// Whether two strings hold the same characters.
pub fn str_eq(a: &str, b: &str) -> (r: bool)
    ensures
        r == (a@ == b@),
{
    let la: usize = a.unicode_len();
    let lb: usize = b.unicode_len();
    if la != lb {
        return false;
    }
    let mut i: usize = 0;
    while i < la
        invariant
            la == a@.len(),
            lb == b@.len(),
            la == lb,
            i <= la,
            forall|j: int| 0 <= j < i ==> a@[j] == b@[j],
        decreases la - i,
    {
        if a.get_char(i) != b.get_char(i) {
            return false;
        }
        i = i + 1;
    }
    assert(a@ =~= b@);
    true
}

/// `parts` joined with `sep` between each two neighbours.
pub open spec fn join(parts: Seq<Seq<char>>, sep: Seq<char>) -> Seq<char>
    decreases parts.len(),
{
    if parts.len() == 0 {
        seq![]
    } else if parts.len() == 1 {
        parts[0]
    } else {
        join(parts.drop_last(), sep) + sep + parts.last()
    }
}

/// Joins strings with a separator, as `[&str]::join` does.
pub fn join_strings(parts: &Vec<String>, sep: &str) -> (r: String)
    ensures
        r@ == join(views(parts@), sep@),
{
    let mut r = String::new();
    let mut j: usize = 0;
    while j < parts.len()
        invariant
            j <= parts.len(),
            r@ == join(views(parts@).take(j as int), sep@),
        decreases parts.len() - j,
    {
        proof {
            assert(views(parts@).take(j + 1).drop_last() =~= views(parts@).take(j as int));
        }
        if j > 0 {
            r.append(sep);
        } else {
            assert(r@ =~= Seq::<char>::empty());
        }
        r.append(parts[j].as_str());
        proof {
            if j == 0 {
                assert(r@ =~= views(parts@).take(1)[0]);
            }
        }
        j = j + 1;
    }
    proof {
        assert(views(parts@).take(parts.len() as int) =~= views(parts@));
    }
    r
}

/// Sorts strings into ascending lexicographic order (insertion sort).
pub fn sort_strings(vals: &Vec<String>) -> (r: Vec<String>)
    ensures
        views(r@) == views(vals@).sort_by(lex_order()),
{
    proof {
        lemma_lex_total_ordering();
    }
    let mut out: Vec<String> = Vec::new();
    let mut i: usize = 0;
    proof {
        assert(views(out@) =~= views(vals@.take(0)));
    }
    while i < vals.len()
        invariant
            i <= vals.len(),
            total_ordering(lex_order()),
            sorted_by(views(out@), lex_order()),
            views(out@).to_multiset() == views(vals@.take(i as int)).to_multiset(),
        decreases vals.len() - i,
    {
        let x = vals[i].clone();
        let mut p: usize = 0;
        while p < out.len() && str_le(out[p].as_str(), x.as_str())
            invariant
                p <= out.len(),
                forall|k: int| 0 <= k < p ==> lex_le(out@[k]@, x@),
            decreases out.len() - p,
        {
            p = p + 1;
        }
        let ghost old_out = views(out@);
        proof {
            if p < out.len() {
                lemma_lex_total(old_out[p as int], x@);
                assert forall|k: int| p <= k < old_out.len() implies lex_le(x@, old_out[k]) by {
                    if k > p {
                        assert(lex_order()(old_out[p as int], old_out[k]));
                        lemma_lex_transitive(x@, old_out[p as int], old_out[k]);
                    }
                }
            }
        }
        out.insert(p, x);
        proof {
            let new_out = views(out@);
            assert(new_out =~= old_out.insert(p as int, x@));
            assert forall|a: int, b: int| 0 <= a < b < new_out.len() implies
                #[trigger] lex_order()(new_out[a], new_out[b]) by {
                if b < p {
                    assert(lex_order()(old_out[a], old_out[b]));
                } else if b == p {
                } else if a < p {
                    lemma_lex_transitive(new_out[a], x@, new_out[b]);
                } else if a == p {
                } else {
                    assert(lex_order()(old_out[a - 1], old_out[b - 1]));
                }
            }
            broadcast use vstd::seq_lib::group_to_multiset_ensures;
            assert(views(vals@.take(i + 1)) =~= views(vals@.take(i as int)).push(x@));
        }
        i = i + 1;
    }
    proof {
        assert(vals@.take(vals.len() as int) =~= vals@);
        let sorted = views(vals@).sort_by(lex_order());
        views(vals@).lemma_sort_by_ensures(lex_order());
        vstd::seq_lib::lemma_sorted_unique(views(out@), sorted, lex_order());
    }
    out
}

} // verus!
