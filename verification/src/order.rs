use vstd::prelude::*;

verus! {

/// Outcome of a three-way comparison.
#[derive(Clone, Copy, Debug, PartialEq, Eq, Structural)]
pub enum Rel {
    Less,
    Equal,
    Greater,
}

/// A totally ordered type: the keys of the ordered maps.
pub trait TotalKey: Sized {
    /// `self` comes strictly before `other`.
    spec fn before(&self, other: &Self) -> bool;

    /// No value comes before itself; what comes before a value comes before
    /// all that come after it; of two different values one comes before the
    /// other.
    proof fn order_laws()
        ensures
            forall|a: Self| !(#[trigger] a.before(&a)),
            forall|a: Self, b: Self, c: Self| #[trigger]
                a.before(&b) && #[trigger] b.before(&c) ==> a.before(&c),
            forall|a: Self, b: Self| #[trigger] a.before(&b) || a == b || b.before(&a),
    ;

    /// Three-way comparison of `self` against `other`.
    fn compare(&self, other: &Self) -> (r: Rel)
        ensures
            (r == Rel::Less) == self.before(other),
            (r == Rel::Equal) == (*self == *other),
            (r == Rel::Greater) == other.before(self),
    ;
}

/// The ordered collections of the standard library, keyed by `u32`, go by
/// the order of the numbers.
pub open spec fn std_orders_u32() -> bool {
    vstd::laws_cmp::obeys_cmp::<u32>() && vstd::std_specs::btree::key_obeys_cmp_spec::<u32>()
}

pub proof fn lemma_std_orders_u32()
    ensures
        std_orders_u32(),
{
    broadcast use vstd::laws_cmp::group_laws_cmp;
    broadcast use vstd::std_specs::btree::group_btree_axioms;

}

/// `x` lies above the lower bound, if there is one.
pub open spec fn above<K: TotalKey>(lo: Option<K>, x: K) -> bool {
    lo is None || lo.unwrap().before(&x)
}

/// `x` lies below the upper bound, if there is one.
pub open spec fn below<K: TotalKey>(x: K, hi: Option<K>) -> bool {
    hi is None || x.before(&hi.unwrap())
}

/// `a` comes strictly before `b`.
pub open spec fn precedes<T: TotalKey>(a: T, b: T) -> bool {
    a.before(&b)
}

/// `a` does not come after `b`.
pub open spec fn at_most<T: TotalKey>(a: T, b: T) -> bool {
    !b.before(&a)
}

/// Whether `a` comes strictly before `b`.
pub fn less<T: TotalKey>(a: &T, b: &T) -> (r: bool)
    ensures
        r == precedes(*a, *b),
{
    a.compare(b) == Rel::Less
}

impl TotalKey for u8 {
    open spec fn before(&self, other: &Self) -> bool {
        (*self as int) < (*other as int)
    }

    proof fn order_laws() {
    }

    fn compare(&self, other: &Self) -> (r: Rel) {
        if *self < *other {
            Rel::Less
        } else if *self == *other {
            Rel::Equal
        } else {
            Rel::Greater
        }
    }
}

impl TotalKey for u16 {
    open spec fn before(&self, other: &Self) -> bool {
        (*self as int) < (*other as int)
    }

    proof fn order_laws() {
    }

    fn compare(&self, other: &Self) -> (r: Rel) {
        if *self < *other {
            Rel::Less
        } else if *self == *other {
            Rel::Equal
        } else {
            Rel::Greater
        }
    }
}

impl TotalKey for u32 {
    open spec fn before(&self, other: &Self) -> bool {
        (*self as int) < (*other as int)
    }

    proof fn order_laws() {
    }

    fn compare(&self, other: &Self) -> (r: Rel) {
        if *self < *other {
            Rel::Less
        } else if *self == *other {
            Rel::Equal
        } else {
            Rel::Greater
        }
    }
}

impl TotalKey for u64 {
    open spec fn before(&self, other: &Self) -> bool {
        (*self as int) < (*other as int)
    }

    proof fn order_laws() {
    }

    fn compare(&self, other: &Self) -> (r: Rel) {
        if *self < *other {
            Rel::Less
        } else if *self == *other {
            Rel::Equal
        } else {
            Rel::Greater
        }
    }
}

impl TotalKey for usize {
    open spec fn before(&self, other: &Self) -> bool {
        (*self as int) < (*other as int)
    }

    proof fn order_laws() {
    }

    fn compare(&self, other: &Self) -> (r: Rel) {
        if *self < *other {
            Rel::Less
        } else if *self == *other {
            Rel::Equal
        } else {
            Rel::Greater
        }
    }
}

impl TotalKey for i8 {
    open spec fn before(&self, other: &Self) -> bool {
        (*self as int) < (*other as int)
    }

    proof fn order_laws() {
    }

    fn compare(&self, other: &Self) -> (r: Rel) {
        if *self < *other {
            Rel::Less
        } else if *self == *other {
            Rel::Equal
        } else {
            Rel::Greater
        }
    }
}

impl TotalKey for i16 {
    open spec fn before(&self, other: &Self) -> bool {
        (*self as int) < (*other as int)
    }

    proof fn order_laws() {
    }

    fn compare(&self, other: &Self) -> (r: Rel) {
        if *self < *other {
            Rel::Less
        } else if *self == *other {
            Rel::Equal
        } else {
            Rel::Greater
        }
    }
}

impl TotalKey for i32 {
    open spec fn before(&self, other: &Self) -> bool {
        (*self as int) < (*other as int)
    }

    proof fn order_laws() {
    }

    fn compare(&self, other: &Self) -> (r: Rel) {
        if *self < *other {
            Rel::Less
        } else if *self == *other {
            Rel::Equal
        } else {
            Rel::Greater
        }
    }
}

impl TotalKey for i64 {
    open spec fn before(&self, other: &Self) -> bool {
        (*self as int) < (*other as int)
    }

    proof fn order_laws() {
    }

    fn compare(&self, other: &Self) -> (r: Rel) {
        if *self < *other {
            Rel::Less
        } else if *self == *other {
            Rel::Equal
        } else {
            Rel::Greater
        }
    }
}

impl TotalKey for isize {
    open spec fn before(&self, other: &Self) -> bool {
        (*self as int) < (*other as int)
    }

    proof fn order_laws() {
    }

    fn compare(&self, other: &Self) -> (r: Rel) {
        if *self < *other {
            Rel::Less
        } else if *self == *other {
            Rel::Equal
        } else {
            Rel::Greater
        }
    }
}

impl TotalKey for char {
    open spec fn before(&self, other: &Self) -> bool {
        (*self as int) < (*other as int)
    }

    proof fn order_laws() {
    }

    fn compare(&self, other: &Self) -> (r: Rel) {
        if *self < *other {
            Rel::Less
        } else if *self == *other {
            Rel::Equal
        } else {
            Rel::Greater
        }
    }
}

impl TotalKey for () {
    open spec fn before(&self, other: &Self) -> bool {
        false
    }

    proof fn order_laws() {
    }

    fn compare(&self, other: &Self) -> (r: Rel) {
        Rel::Equal
    }
}

/// Pairs in dictionary order: by the first part, and by the second where
/// the first parts are the same.
impl<A: TotalKey, B: TotalKey> TotalKey for (A, B) {
    open spec fn before(&self, other: &Self) -> bool {
        self.0.before(&other.0) || (self.0 == other.0 && self.1.before(&other.1))
    }

    proof fn order_laws() {
        A::order_laws();
        B::order_laws();
    }

    fn compare(&self, other: &Self) -> (r: Rel) {
        proof {
            A::order_laws();
            B::order_laws();
        }
        match self.0.compare(&other.0) {
            Rel::Less => Rel::Less,
            Rel::Greater => Rel::Greater,
            Rel::Equal => self.1.compare(&other.1),
        }
    }
}

} // verus!
