//! The check that a value can be handed to the writer: every number in the
//! order that its fields are written in is the number of a field.

use crate::payload::SdPayload;
use crate::protected::SdProtected;
use crate::sd_cwt::SdCwt;
use crate::unprotected::Unprotected;
use vstd::prelude::*;

verus! {

/// Whether every number of a list is below `bound`.
pub fn all_below(list: &Vec<usize>, bound: usize) -> (r: bool)
    ensures
        r == forall|i: int| 0 <= i < list@.len() ==> #[trigger] list@[i] < bound,
{
    let mut i: usize = 0;
    while i < list.len()
        invariant
            i <= list.len(),
            forall|j: int| 0 <= j < i ==> #[trigger] list@[j] < bound,
        decreases list.len() - i,
    {
        if list[i] >= bound {
            return false;
        }
        i += 1;
    }
    true
}

impl SdProtected {
    /// Whether every number in the order that the fields are written in is
    /// the number of a field.
    pub fn is_well_formed(&self) -> (r: bool)
        ensures
            r == self@.well_formed(),
    {
        proof {
            let plain = seq![0usize, 1usize, 2usize];
            assert(plain[0] == 0 && plain[1] == 1 && plain[2] == 2);
        }
        match &self.encodings {
            Some(e) => if e.orig_deser_order.len() == 3 {
                let r = all_below(&e.orig_deser_order, 3);
                proof {
                    assert(self@.order() == e.orig_deser_order@);
                    if r {
                        assert forall|i: int| 0 <= i < self@.order().len() implies #[trigger] self@.order()[i] < 3 by {
                            assert(e.orig_deser_order@[i] < 3);
                        }
                    } else {
                        let i = choose|i: int| 0 <= i < e.orig_deser_order@.len() && !(#[trigger] e.orig_deser_order@[i] < 3);
                        assert(!(self@.order()[i] < 3));
                    }
                }
                r
            } else {
                true
            },
            None => true,
        }
    }
}

impl Unprotected {
    /// Whether every number in the order that the fields are written in is
    /// the number of a field.
    pub fn is_well_formed(&self) -> (r: bool)
        ensures
            r == self@.well_formed(),
    {
        let count = self.count();
        proof {
            let plain = seq![0usize, 1usize, 2usize];
            assert(plain[0] == 0 && plain[1] == 1 && plain[2] == 2);
        }
        match &self.encodings {
            Some(e) => if e.orig_deser_order.len() == count {
                let r = all_below(&e.orig_deser_order, 3);
                proof {
                    assert(self@.order() == e.orig_deser_order@);
                    if r {
                        assert forall|i: int| 0 <= i < self@.order().len() implies #[trigger] self@.order()[i] < 3 by {
                            assert(e.orig_deser_order@[i] < 3);
                        }
                    } else {
                        let i = choose|i: int| 0 <= i < e.orig_deser_order@.len() && !(#[trigger] e.orig_deser_order@[i] < 3);
                        assert(!(self@.order()[i] < 3));
                    }
                }
                r
            } else {
                true
            },
            None => true,
        }
    }
}

impl SdPayload {
    /// Whether every number in the order that the fields are written in is
    /// the number of a field.
    pub fn is_well_formed(&self) -> (r: bool)
        ensures
            r == self@.well_formed(),
    {
        let count = self.count();
        match &self.encodings {
            Some(e) => if e.orig_deser_order.len() == count {
                let r = all_below(&e.orig_deser_order, 12);
                proof {
                    assert(self@.order() == e.orig_deser_order@);
                    if r {
                        assert forall|i: int| 0 <= i < self@.order().len() implies #[trigger] self@.order()[i] < 12 by {
                            assert(e.orig_deser_order@[i] < 12);
                        }
                    } else {
                        let i = choose|i: int| 0 <= i < e.orig_deser_order@.len() && !(#[trigger] e.orig_deser_order@[i] < 12);
                        assert(!(self@.order()[i] < 12));
                    }
                }
                r
            } else {
                true
            },
            None => true,
        }
    }
}

impl SdCwt {
    /// Whether the headers and the claims can be handed to the writer.
    pub fn is_well_formed(&self) -> (r: bool)
        ensures
            r == self@.well_formed(),
    {
        self.protected.is_well_formed() && self.unprotected.is_well_formed()
            && self.payload.is_well_formed()
    }
}

} // verus!
