//! Conditions: the predicate under which a configuration fragment
//! applies. A condition names candidate values for a fixed environment
//! attribute (the buffer's file type); the empty value set is the
//! default/no-condition marker. Conditions decompose into atomic
//! single-value conditions for aggregation, and equality of the value
//! sets is the aggregation key.

use vstd::prelude::*;

use crate::text::str_eq;

verus! {

/// A predicate gating when a fragment applies: the set of file types it
/// is scoped to. An empty set is the default marker, applying
/// unconditionally and equal to no non-empty condition.
#[derive(Debug, Clone)]
pub struct Condition {
    filetype: Vec<String>,
}

impl View for Condition {
    type V = Seq<Seq<char>>;

    closed spec fn view(&self) -> Seq<Seq<char>> {
        self.filetype.deep_view()
    }
}

impl DeepView for Condition {
    type V = Seq<Seq<char>>;

    open spec fn deep_view(&self) -> Seq<Seq<char>> {
        self.view()
    }
}

impl Condition {
    /// A condition scoped to the given file types; empty means default.
    pub fn new(filetype: Vec<String>) -> (r: Condition)
        ensures
            r@ == filetype.deep_view(),
    {
        Condition { filetype }
    }

    /// The default/no-condition marker.
    pub fn empty() -> (r: Condition)
        ensures
            r@ == Seq::<Seq<char>>::empty(),
    {
        let r = Condition { filetype: Vec::new() };
        proof {
            assert(r@ =~~= Seq::<Seq<char>>::empty());
        }
        r
    }

    /// True when this is the default marker (no candidate values).
    pub fn is_default(&self) -> (r: bool)
        ensures
            r == (self@.len() == 0),
    {
        self.filetype.is_empty()
    }

    /// The candidate file-type values this condition names.
    pub fn filetypes(&self) -> (r: &Vec<String>)
        ensures
            r.deep_view() == self@,
    {
        &self.filetype
    }

    /// The host events on which this condition must be re-evaluated: the
    /// file-type-changed event when any file type is named, nothing for
    /// the default marker.
    pub fn events(&self) -> (r: Vec<String>)
        ensures
            self@.len() > 0 ==> r.deep_view() == seq!["FileType"@],
            self@.len() == 0 ==> r.deep_view() == Seq::<Seq<char>>::empty(),
    {
        let mut ret: Vec<String> = Vec::new();
        if !self.filetype.is_empty() {
            ret.push("FileType".to_owned());
            proof {
                assert(ret.deep_view() =~~= seq!["FileType"@]);
            }
        } else {
            proof {
                assert(ret.deep_view() =~~= Seq::<Seq<char>>::empty());
            }
        }
        ret
    }

    /// This condition decomposed into atomic conditions, one per
    /// candidate value, in order; the default marker decomposes into
    /// nothing.
    pub fn atoms(&self) -> (r: Vec<Condition>)
        ensures
            r.deep_view().len() == self@.len(),
            forall|i: int| 0 <= i < self@.len() ==> #[trigger] r.deep_view()[i] == seq![self@[i]],
    {
        let ghost dv = self@;
        let mut r: Vec<Condition> = Vec::new();
        let mut i: usize = 0;
        while i < self.filetype.len()
            invariant
                0 <= i <= self.filetype.len(),
                dv == self@,
                r.deep_view().len() == i,
                forall|j: int| 0 <= j < i ==> #[trigger] r.deep_view()[j] == seq![dv[j]],
            decreases self.filetype.len() - i,
        {
            let mut one: Vec<String> = Vec::new();
            one.push(self.filetype[i].clone());
            let cond = Condition { filetype: one };
            let ghost gcond = cond@;
            let ghost prev = r.deep_view();
            proof {
                assert(gcond =~~= seq![dv[i as int]]);
            }
            r.push(cond);
            proof {
                assert(r.deep_view() =~~= prev.push(gcond));
            }
            i += 1;
        }
        r
    }
}

impl Condition {
    /// A copy of this condition, equal under the view.
    pub fn dup(&self) -> (r: Condition)
        ensures
            r@ == self@,
    {
        Condition { filetype: crate::algebra::dup_strings(&self.filetype) }
    }
}

impl PartialEq for Condition {
    /// Two conditions are equal exactly when they name the same values
    /// in the same order.
    fn eq(&self, other: &Condition) -> (r: bool) {
        let a = &self.filetype;
        let b = &other.filetype;
        if a.len() != b.len() {
            proof {
                assert(self@.len() == a@.len() && other@.len() == b@.len());
            }
            return false;
        }
        let mut i: usize = 0;
        while i < a.len()
            invariant
                0 <= i <= a.len(),
                a@.len() == b@.len(),
                a == self.filetype,
                b == other.filetype,
                forall|j: int| 0 <= j < i ==> self@[j] == other@[j],
            decreases a.len() - i,
        {
            if !str_eq(a[i].as_str(), b[i].as_str()) {
                assert(self@[i as int] != other@[i as int]);
                return false;
            }
            i += 1;
        }
        proof {
            assert(self@ =~~= other@);
        }
        true
    }
}

impl vstd::std_specs::cmp::PartialEqSpecImpl for Condition {
    open spec fn obeys_eq_spec() -> bool {
        true
    }

    open spec fn eq_spec(&self, other: &Condition) -> bool {
        self@ == other@
    }
}

impl Default for Condition {
    /// The default condition is the default/no-condition marker.
    fn default() -> (r: Condition)
        ensures
            r@ == Seq::<Seq<char>>::empty(),
    {
        Condition::empty()
    }
}

} // verus!
