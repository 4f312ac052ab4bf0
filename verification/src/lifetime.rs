//! A variable's live interval and the overlap test that induces conflicts.

use vstd::prelude::*;

verus! {

/// Identifier of a program variable.
pub type VarId = u16;

/// One variable's live interval, in clock cycles. A well-formed lifetime has
/// `t_def <= t_use`; construction through `new` enforces this.
#[derive(Clone, Copy, Debug)]
pub struct VarLifetime {
    pub id: VarId,
    pub t_def: u16,
    pub t_use: u16,
}

/// Failure to build a lifetime from raw ticks.
#[derive(Clone, Copy, Debug)]
pub enum VarLifetimeError {
    /// The definition tick lies after the use tick.
    UseBeforeDef(VarLifetime),
}

/// Two closed intervals `[t_def, t_use]` share at least one tick.
/// Touching endpoints count as overlap.
pub open spec fn spec_overlap(a: VarLifetime, b: VarLifetime) -> bool {
    !(a.t_use < b.t_def || b.t_use < a.t_def)
}

impl VarLifetime {
    /// The interval is ordered: definition no later than last use.
    pub open spec fn wf(self) -> bool {
        self.t_def <= self.t_use
    }

    /// Builds a lifetime, rejecting intervals whose definition tick lies
    /// after their use tick.
    pub fn new(id: VarId, t_def: u16, t_use: u16) -> (r: Result<VarLifetime, VarLifetimeError>)
        ensures
            t_def <= t_use <==> r is Ok,
            r matches Ok(lt) ==> lt == (VarLifetime { id, t_def, t_use }),
            r matches Err(e) ==> e == VarLifetimeError::UseBeforeDef(
                VarLifetime { id, t_def, t_use },
            ),
    {
        let var_lt = VarLifetime { id, t_def, t_use };

        if t_def <= t_use {
            Ok(var_lt)
        } else {
            Err(VarLifetimeError::UseBeforeDef(var_lt))
        }
    }

    /// Whether the two live intervals share a tick.
    pub fn overlap(&self, other: &VarLifetime) -> (r: bool)
        ensures
            r == spec_overlap(*self, *other),
    {
        !(self.t_use < other.t_def || other.t_use < self.t_def)
    }
}

impl PartialEq for VarLifetime {
    /// Two lifetimes are equal when their intervals coincide; the
    /// identifier does not matter.
    fn eq(&self, other: &VarLifetime) -> bool {
        self.t_def == other.t_def && self.t_use == other.t_use
    }
}

impl vstd::std_specs::cmp::PartialEqSpecImpl for VarLifetime {
    open spec fn obeys_eq_spec() -> bool {
        true
    }

    open spec fn eq_spec(&self, other: &VarLifetime) -> bool {
        self.t_def == other.t_def && self.t_use == other.t_use
    }
}

impl PartialOrd for VarLifetime {
    /// Equal intervals compare equal; disjoint intervals order by time;
    /// otherwise the overlap makes the two lifetimes incomparable.
    fn partial_cmp(&self, other: &VarLifetime) -> Option<core::cmp::Ordering> {
        if self.t_def == other.t_def && self.t_use == other.t_use {
            Some(core::cmp::Ordering::Equal)
        } else if !self.overlap(other) {
            if self.t_use < other.t_def {
                Some(core::cmp::Ordering::Less)
            } else {
                Some(core::cmp::Ordering::Greater)
            }
        } else {
            None
        }
    }
}

impl vstd::std_specs::cmp::PartialOrdSpecImpl for VarLifetime {
    open spec fn obeys_partial_cmp_spec() -> bool {
        true
    }

    open spec fn partial_cmp_spec(&self, other: &VarLifetime) -> Option<core::cmp::Ordering> {
        if self.t_def == other.t_def && self.t_use == other.t_use {
            Some(core::cmp::Ordering::Equal)
        } else if !spec_overlap(*self, *other) {
            if self.t_use < other.t_def {
                Some(core::cmp::Ordering::Less)
            } else {
                Some(core::cmp::Ordering::Greater)
            }
        } else {
            None
        }
    }
}

/// Overlap does not depend on the order of its arguments.
pub proof fn lemma_overlap_symmetric(a: VarLifetime, b: VarLifetime)
    ensures
        spec_overlap(a, b) == spec_overlap(b, a),
{
}

} // verus!
