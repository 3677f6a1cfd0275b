//! The key under which two classes conflict.
use vstd::prelude::*;
use vstd::string::*;
use crate::ast::{AstStyle, StyleView};
use crate::text::views;
use crate::variants::{sort_variants_for_collision, variants_for_collision};

verus! {

/// Two classes conflict when they agree on importance, on their normalised
/// variants and on their collision id.
#[derive(Debug, PartialEq, Eq, Hash)]
pub struct Collision {
    pub important: bool,
    pub variants: Vec<String>,
    pub collision_id: String,
}

/// The mathematical content of a [`Collision`].
pub struct CollisionView {
    pub important: bool,
    pub variants: Seq<Seq<char>>,
    pub collision_id: Seq<char>,
}

impl View for Collision {
    type V = CollisionView;

    open spec fn view(&self) -> CollisionView {
        CollisionView {
            important: self.important,
            variants: views(self.variants@),
            collision_id: self.collision_id@,
        }
    }
}

/// The view of an optional collision.
pub open spec fn opt_collision(c: Option<Collision>) -> Option<CollisionView> {
    match c {
        Some(c) => Some(c@),
        None => None,
    }
}

/// The position of the first `:` in `s`, if there is one.
pub open spec fn first_colon(s: Seq<char>) -> Option<int>
    decreases s.len(),
{
    if s.len() == 0 {
        None
    } else if s[0] == ':' {
        Some(0)
    } else {
        match first_colon(s.drop_first()) {
            Some(k) => Some(k + 1),
            None => None,
        }
    }
}

/// The collision of a class with an arbitrary property such as `[color:blue]`:
/// its id is the property name, the part of the brackets before the first `:`.
pub open spec fn arbitrary_collision(style: StyleView) -> Option<CollisionView> {
    match style.arbitrary {
        None => None,
        Some(a) => match first_colon(a) {
            None => None,
            Some(k) => Some(
                CollisionView {
                    important: style.important,
                    variants: variants_for_collision(style.variants),
                    collision_id: a.take(k),
                },
            ),
        },
    }
}

/// Facts about the first colon: it is one, and none stands before it.
proof fn lemma_first_colon(s: Seq<char>)
    ensures
        match first_colon(s) {
            Some(k) => 0 <= k < s.len() && s[k] == ':' && forall|j: int| 0 <= j < k ==> s[j] != ':',
            None => forall|j: int| 0 <= j < s.len() ==> s[j] != ':',
        },
    decreases s.len(),
{
    if s.len() > 0 && s[0] != ':' {
        lemma_first_colon(s.drop_first());
        assert forall|j: int| 0 < j < s.len() implies s[j] == s.drop_first()[j - 1] by {}
    }
}

/// Finds the first `:` of a string.
fn find_colon(s: &str) -> (r: Option<usize>)
    ensures
        match r {
            Some(k) => first_colon(s@) == Some(k as int),
            None => first_colon(s@) is None,
        },
{
    let n: usize = s.unicode_len();
    let mut i: usize = 0;
    proof {
        lemma_first_colon(s@);
    }
    while i < n
        invariant
            n == s@.len(),
            i <= n,
            forall|j: int| 0 <= j < i ==> s@[j] != ':',
            match first_colon(s@) {
                Some(k) => 0 <= k < s@.len() && s@[k] == ':' && forall|j: int|
                    0 <= j < k ==> s@[j] != ':',
                None => forall|j: int| 0 <= j < s@.len() ==> s@[j] != ':',
            },
        decreases n - i,
    {
        if s.get_char(i) == ':' {
            return Some(i);
        }
        i = i + 1;
    }
    None
}

impl Collision {
    /// The collision of a class with an arbitrary property: for
    /// `[color:blue]` the id is `color`.  `None` when the class has no
    /// arbitrary part or that part holds no `:`.
    pub fn check_arbitrary(style: AstStyle) -> (r: Option<Collision>)
        ensures
            opt_collision(r) == arbitrary_collision(style@),
    {
        let arbitrary = match &style.arbitrary {
            Some(a) => a,
            None => {
                return None;
            },
        };
        let index: usize = match find_colon(arbitrary.as_str()) {
            Some(k) => k,
            None => {
                return None;
            },
        };
        proof {
            lemma_first_colon(arbitrary@);
        }
        let collision_id = String::from_str(arbitrary.as_str().substring_char(0, index));
        let variants = sort_variants_for_collision(style.variants.as_slice());
        Some(Collision { collision_id, important: style.important, variants })
    }
}

} // verus!
