//! Boolean filters over candidate bitmasks.
//!
//! The variant set is closed: a filter either accepts everything, compares
//! a masked subset of the bits against a fixed value, or is a disjunction
//! of other filters.  An empty disjunction is non-restrictive: it accepts
//! every bitmask.
use vstd::prelude::*;

verus! {

/// A predicate over candidate bitmasks.
#[derive(Debug)]
pub enum Filter {
    /// Accepts every bitmask.
    AlwaysTrue,
    /// Accepts `b` exactly when `b & mask == value`.
    MaskEqualsValue { mask: u128, value: u128 },
    /// Accepts `b` when the list is empty or some member accepts `b`.
    Or(Vec<Filter>),
}

/// Whether some member of `fs` accepts `b`; false for an empty sequence.
pub open spec fn spec_any_matches(fs: Seq<Filter>, b: u128) -> bool
    decreases fs,
{
    if fs.len() == 0 {
        false
    } else {
        fs[0].spec_matches(b) || spec_any_matches(fs.skip(1), b)
    }
}

impl Filter {
    /// What `matches` returns, as a mathematical predicate.
    pub open spec fn spec_matches(self, b: u128) -> bool
        decreases self,
    {
        match self {
            Filter::AlwaysTrue => true,
            Filter::MaskEqualsValue { mask, value } => b & mask == value,
            Filter::Or(fs) => fs@.len() == 0 || spec_any_matches(fs@, b),
        }
    }

    /// Whether this filter accepts the bitmask `b`.
    pub fn matches(&self, b: u128) -> (r: bool)
        ensures
            r == self.spec_matches(b),
        decreases *self,
    {
        match self {
            Filter::AlwaysTrue => true,
            Filter::MaskEqualsValue { mask, value } => (b & *mask) == *value,
            Filter::Or(fs) => {
                if fs.len() == 0 {
                    true
                } else {
                    let mut i: usize = 0;
                    let mut found: bool = false;
                    while i < fs.len()
                        invariant
                            *self == Filter::Or(*fs),
                            0 <= i <= fs@.len(),
                            found == exists|j: int| 0 <= j < i && #[trigger] fs@[j].spec_matches(b),
                        decreases fs@.len() - i,
                    {
                        proof {
                            assert(decreases_to!(self->Or_0 => self->Or_0@));
                            assert(decreases_to!(self->Or_0@ => self->Or_0@[i as int]));
                        }
                        if fs[i].matches(b) {
                            found = true;
                        }
                        i = i + 1;
                    }
                    proof {
                        lemma_any_matches(fs@, b);
                    }
                    found
                }
            },
        }
    }
}

/// Some member of `fs` accepts `b` exactly when a member at some index does.
pub proof fn lemma_any_matches(fs: Seq<Filter>, b: u128)
    ensures
        spec_any_matches(fs, b) == exists|i: int|
            0 <= i < fs.len() && #[trigger] fs[i].spec_matches(b),
    decreases fs.len(),
{
    if fs.len() == 0 {
    } else {
        lemma_any_matches(fs.skip(1), b);
        if fs[0].spec_matches(b) {
        } else if spec_any_matches(fs.skip(1), b) {
            let j = choose|j: int|
                0 <= j < fs.skip(1).len() && #[trigger] fs.skip(1)[j].spec_matches(b);
            assert(fs.skip(1)[j] == fs[j + 1]);
            assert(fs[j + 1].spec_matches(b));
        } else {
            assert forall|i: int| 0 <= i < fs.len() implies !(#[trigger] fs[i].spec_matches(b)) by {
                if i > 0 {
                    assert(fs.skip(1)[i - 1] == fs[i]);
                }
            }
        }
    }
}

/// The empty disjunction is vacuously true, and a one-member disjunction
/// accepts exactly what its member accepts.
pub proof fn lemma_or_empty_and_singleton(f: Filter, b: u128)
    ensures
        forall|fs: Vec<Filter>| fs@.len() == 0 ==> #[trigger] Filter::Or(fs).spec_matches(b),
        forall|fs: Vec<Filter>| fs@ =~= seq![f] ==> #[trigger] Filter::Or(fs).spec_matches(b)
            == f.spec_matches(b),
{
    assert forall|fs: Vec<Filter>| fs@ =~= seq![f] implies #[trigger] Filter::Or(fs).spec_matches(b)
        == f.spec_matches(b) by {
        lemma_any_matches(fs@, b);
        if f.spec_matches(b) {
            assert(fs@[0].spec_matches(b));
        }
    }
}

/// A mask-equals-value filter accepts any bitmask equal to its value,
/// provided the value carries no bits outside the mask.
pub proof fn lemma_mev_accepts_value(mask: u128, value: u128)
    requires
        value & mask == value,
    ensures
        (Filter::MaskEqualsValue { mask, value }).spec_matches(value),
{
}

/// Bits outside the mask never change the outcome: two bitmasks that agree
/// inside the mask are accepted or rejected together.
pub proof fn lemma_mev_ignores_bits_outside_mask(mask: u128, value: u128, b: u128, c: u128)
    requires
        b & mask == c & mask,
    ensures
        (Filter::MaskEqualsValue { mask, value }).spec_matches(b)
            == (Filter::MaskEqualsValue { mask, value }).spec_matches(c),
{
}

/// A bitmask that differs from the value inside the mask is rejected.
pub proof fn lemma_mev_rejects_difference_inside_mask(mask: u128, value: u128, b: u128)
    requires
        b & mask != value & mask,
        value & mask == value,
    ensures
        !(Filter::MaskEqualsValue { mask, value }).spec_matches(b),
{
}

} // verus!
