//! The allocation table: one row per register, one cell per cycle, filled
//! from a finished variable-to-register binding.

use vstd::prelude::*;

use crate::lifetime::{VarId, VarLifetime};

verus! {

/// Identifier of an abstract register (a color index).
pub type RegId = u16;

/// A bound variable's lifetime runs past the declared cycle horizon. The
/// offending variable, the horizon and the actual tick are reported.
#[derive(Clone, Copy, Debug, PartialEq, Eq, Structural)]
pub enum RegAllocError {
    ExceedsHorizon { id: VarId, horizon: usize, t_use: u16 },
}

/// One register's occupancy: which variable holds it at each cycle.
#[derive(Debug)]
pub struct RegAlloc {
    pub id: RegId,
    pub cycle_cells: Vec<Option<VarId>>,
}

/// The table lists a lifetime for `id`.
pub open spec fn has_var(vars_lt: Seq<VarLifetime>, id: VarId) -> bool {
    exists|i: int| 0 <= i < vars_lt.len() && (#[trigger] vars_lt[i]).id == id
}

/// The lifetime the table lists for `id`.
pub open spec fn lt_of(vars_lt: Seq<VarLifetime>, id: VarId) -> VarLifetime {
    vars_lt[choose|i: int| 0 <= i < vars_lt.len() && (#[trigger] vars_lt[i]).id == id]
}

/// The lifetime covers cycle `c`.
pub open spec fn covers(lt: VarLifetime, c: int) -> bool {
    lt.t_def <= c <= lt.t_use
}

/// The registers named by the binding, in order of first appearance.
pub open spec fn regs_of(binding: Seq<(VarId, RegId)>) -> Seq<RegId>
    decreases binding.len(),
{
    if binding.len() == 0 {
        Seq::empty()
    } else {
        let prev = regs_of(binding.drop_last());
        if prev.contains(binding.last().1) {
            prev
        } else {
            prev.push(binding.last().1)
        }
    }
}

/// What register `reg` holds at cycle `c`: the last variable in binding
/// order that is bound to `reg` and whose lifetime covers `c`.
pub open spec fn cell_of(
    binding: Seq<(VarId, RegId)>,
    vars_lt: Seq<VarLifetime>,
    reg: RegId,
    c: int,
) -> Option<VarId>
    decreases binding.len(),
{
    if binding.len() == 0 {
        None
    } else {
        let (vid, rid) = binding.last();
        if rid == reg && covers(lt_of(vars_lt, vid), c) {
            Some(vid)
        } else {
            cell_of(binding.drop_last(), vars_lt, reg, c)
        }
    }
}

/// Position of the lifetime that the table lists for `id`.
fn find_var(vars_lt: &[VarLifetime], id: VarId) -> (i: usize)
    requires
        vars_lt@.map_values(|lt: VarLifetime| lt.id).no_duplicates(),
        has_var(vars_lt@, id),
    ensures
        i < vars_lt@.len(),
        vars_lt@[i as int].id == id,
        vars_lt@[i as int] == lt_of(vars_lt@, id),
{
    let mut i: usize = 0;
    while i < vars_lt.len()
        invariant
            i <= vars_lt@.len(),
            has_var(vars_lt@, id),
            vars_lt@.map_values(|lt: VarLifetime| lt.id).no_duplicates(),
            forall|k: int| 0 <= k < i ==> (#[trigger] vars_lt@[k]).id != id,
        decreases vars_lt@.len() - i,
    {
        if vars_lt[i].id == id {
            proof {
                let w = choose|w: int|
                    0 <= w < vars_lt@.len() && (#[trigger] vars_lt@[w]).id == id;
                let ids = vars_lt@.map_values(|lt: VarLifetime| lt.id);
                assert(ids[w] == id && ids[i as int] == id);
                assert(w == i);
            }
            return i;
        }
        i = i + 1;
    }
    proof {
        let w = choose|w: int| 0 <= w < vars_lt@.len() && (#[trigger] vars_lt@[w]).id == id;
        assert(false);
    }
    unreached()
}

impl RegAlloc {
    /// Builds the allocation table. Every binding entry must name a listed
    /// variable. A lifetime reaching past the horizon is reported, with the
    /// first offender in binding order; otherwise one row per register
    /// comes back, in order of first appearance, each row holding at every
    /// cycle the last variable in binding order that covers it.
    pub fn new(
        binding: &[(VarId, RegId)],
        vars_lt: &[VarLifetime],
        cycles_num: usize,
    ) -> (r: Result<Vec<RegAlloc>, RegAllocError>)
        requires
            vars_lt@.map_values(|lt: VarLifetime| lt.id).no_duplicates(),
            forall|k: int| 0 <= k < binding@.len() ==> has_var(vars_lt@, (#[trigger] binding@[k]).0),
        ensures
            r is Err <==> exists|k: int|
                0 <= k < binding@.len() && lt_of(vars_lt@, (#[trigger] binding@[k]).0).t_use
                    >= cycles_num,
            r matches Err(e) ==> exists|k: int|
                #![auto]
                0 <= k < binding@.len() && e == (RegAllocError::ExceedsHorizon {
                    id: binding@[k].0,
                    horizon: cycles_num,
                    t_use: lt_of(vars_lt@, binding@[k].0).t_use,
                }) && lt_of(vars_lt@, binding@[k].0).t_use >= cycles_num && (forall|kp: int|
                    0 <= kp < k ==> lt_of(vars_lt@, (#[trigger] binding@[kp]).0).t_use
                        < cycles_num),
            r matches Ok(rows) ==> {
                &&& rows@.len() == regs_of(binding@).len()
                &&& forall|t: int|
                    0 <= t < rows@.len() ==> (#[trigger] rows@[t]).id == regs_of(binding@)[t]
                &&& forall|t: int|
                    0 <= t < rows@.len() ==> (#[trigger] rows@[t]).cycle_cells@.len() == cycles_num
                &&& forall|t: int, c: int|
                    0 <= t < rows@.len() && 0 <= c < cycles_num ==> (
                    #[trigger] rows@[t].cycle_cells@[c]) == cell_of(
                        binding@,
                        vars_lt@,
                        regs_of(binding@)[t],
                        c,
                    )
            },
    {
        // Bounds pass: report the first lifetime past the horizon.
        let mut k: usize = 0;
        while k < binding.len()
            invariant
                k <= binding@.len(),
                vars_lt@.map_values(|lt: VarLifetime| lt.id).no_duplicates(),
                forall|t: int|
                    0 <= t < binding@.len() ==> has_var(vars_lt@, (#[trigger] binding@[t]).0),
                forall|kp: int|
                    0 <= kp < k ==> lt_of(vars_lt@, (#[trigger] binding@[kp]).0).t_use
                        < cycles_num,
            decreases binding@.len() - k,
        {
            let vid = binding[k].0;
            let i = find_var(vars_lt, vid);
            if vars_lt[i].t_use as usize >= cycles_num {
                return Err(
                    RegAllocError::ExceedsHorizon {
                        id: vid,
                        horizon: cycles_num,
                        t_use: vars_lt[i].t_use,
                    },
                );
            }
            k = k + 1;
        }

        // Registers, in order of first appearance.
        let mut regs: Vec<RegId> = Vec::new();
        let mut k: usize = 0;
        proof {
            assert(binding@.take(0) =~= Seq::<(VarId, RegId)>::empty());
        }
        while k < binding.len()
            invariant
                k <= binding@.len(),
                regs@ == regs_of(binding@.take(k as int)),
            decreases binding@.len() - k,
        {
            let rid = binding[k].1;
            let mut seen = false;
            let mut t: usize = 0;
            while t < regs.len()
                invariant
                    t <= regs@.len(),
                    seen == exists|s: int| 0 <= s < t && #[trigger] regs@[s] == rid,
                decreases regs@.len() - t,
            {
                if regs[t] == rid {
                    proof {
                        assert(regs@[t as int] == rid);
                    }
                    seen = true;
                }
                t = t + 1;
            }
            proof {
                assert(seen == regs@.contains(rid)) by {
                    if regs@.contains(rid) {
                        let s = choose|s: int| 0 <= s < regs@.len() && regs@[s] == rid;
                        assert(exists|s2: int| 0 <= s2 < regs@.len() && #[trigger] regs@[s2] == rid);
                    }
                }
                assert(binding@.take(k + 1).drop_last() =~= binding@.take(k as int));
                assert(binding@.take(k + 1).last() == binding@[k as int]);
            }
            if !seen {
                regs.push(rid);
            }
            k = k + 1;
        }
        proof {
            assert(binding@.take(binding@.len() as int) =~= binding@);
        }

        // One row per register.
        let mut rows: Vec<RegAlloc> = Vec::new();
        let mut t: usize = 0;
        while t < regs.len()
            invariant
                t <= regs@.len(),
                regs@ == regs_of(binding@),
                vars_lt@.map_values(|lt: VarLifetime| lt.id).no_duplicates(),
                forall|m: int|
                    0 <= m < binding@.len() ==> has_var(vars_lt@, (#[trigger] binding@[m]).0),
                forall|kp: int|
                    0 <= kp < binding@.len() ==> lt_of(vars_lt@, (#[trigger] binding@[kp]).0).t_use
                        < cycles_num,
                rows@.len() == t,
                forall|s: int| 0 <= s < t ==> (#[trigger] rows@[s]).id == regs@[s],
                forall|s: int| 0 <= s < t ==> (#[trigger] rows@[s]).cycle_cells@.len() == cycles_num,
                forall|s: int, c: int|
                    0 <= s < t && 0 <= c < cycles_num ==> (#[trigger] rows@[s].cycle_cells@[c])
                        == cell_of(binding@, vars_lt@, regs@[s], c),
            decreases regs@.len() - t,
        {
            let reg = regs[t];
            let cells = Self::fill_cells(binding, vars_lt, cycles_num, reg);
            rows.push(RegAlloc { id: reg, cycle_cells: cells });
            t = t + 1;
        }
        Ok(rows)
    }

    /// Fills one register's row: walks the binding in order and paints
    /// each bound variable's live interval over the cells.
    fn fill_cells(
        binding: &[(VarId, RegId)],
        vars_lt: &[VarLifetime],
        cycles_num: usize,
        reg: RegId,
    ) -> (cells: Vec<Option<VarId>>)
        requires
            vars_lt@.map_values(|lt: VarLifetime| lt.id).no_duplicates(),
            forall|k: int| 0 <= k < binding@.len() ==> has_var(vars_lt@, (#[trigger] binding@[k]).0),
            forall|k: int|
                0 <= k < binding@.len() ==> lt_of(vars_lt@, (#[trigger] binding@[k]).0).t_use
                    < cycles_num,
        ensures
            cells@.len() == cycles_num,
            forall|c: int|
                0 <= c < cycles_num ==> #[trigger] cells@[c] == cell_of(
                    binding@,
                    vars_lt@,
                    reg,
                    c,
                ),
    {
        let mut cells: Vec<Option<VarId>> = vec![None; cycles_num];
        let mut k: usize = 0;
        proof {
            assert(binding@.take(0) =~= Seq::<(VarId, RegId)>::empty());
        }
        while k < binding.len()
            invariant
                k <= binding@.len(),
                cells@.len() == cycles_num,
                vars_lt@.map_values(|lt: VarLifetime| lt.id).no_duplicates(),
                forall|m: int|
                    0 <= m < binding@.len() ==> has_var(vars_lt@, (#[trigger] binding@[m]).0),
                forall|m: int|
                    0 <= m < binding@.len() ==> lt_of(vars_lt@, (#[trigger] binding@[m]).0).t_use
                        < cycles_num,
                forall|c: int|
                    0 <= c < cycles_num ==> #[trigger] cells@[c] == cell_of(
                        binding@.take(k as int),
                        vars_lt@,
                        reg,
                        c,
                    ),
            decreases binding@.len() - k,
        {
            let vid = binding[k].0;
            let rid = binding[k].1;
            proof {
                assert(binding@.take(k + 1).drop_last() =~= binding@.take(k as int));
                assert(binding@.take(k + 1).last() == binding@[k as int]);
            }
            if rid == reg {
                let i = find_var(vars_lt, vid);
                let t_def = vars_lt[i].t_def;
                let t_use = vars_lt[i].t_use;
                let ghost before = cells@;
                if t_def <= t_use {
                    let mut c: usize = t_def as usize;
                    while c <= t_use as usize
                        invariant
                            t_def as int <= c <= t_use + 1,
                            t_use < cycles_num,
                            cells@.len() == cycles_num,
                            forall|cp: int|
                                t_def <= cp < c ==> #[trigger] cells@[cp] == Some(vid),
                            forall|cp: int|
                                0 <= cp < cycles_num && !(t_def <= cp < c)
                                    ==> #[trigger] cells@[cp] == before[cp],
                        decreases t_use + 1 - c,
                    {
                        cells.set(c, Some(vid));
                        c = c + 1;
                    }
                }
                proof {
                    assert(vars_lt@[i as int] == lt_of(vars_lt@, vid));
                    assert forall|cp: int|
                        0 <= cp < cycles_num implies #[trigger] cells@[cp] == cell_of(
                        binding@.take(k + 1),
                        vars_lt@,
                        reg,
                        cp,
                    ) by {
                        if covers(lt_of(vars_lt@, vid), cp) {
                            assert(cells@[cp] == Some(vid));
                        } else {
                            assert(cells@[cp] == before[cp]);
                        }
                    }
                }
            } else {
                proof {
                    assert forall|cp: int|
                        0 <= cp < cycles_num implies #[trigger] cells@[cp] == cell_of(
                        binding@.take(k + 1),
                        vars_lt@,
                        reg,
                        cp,
                    ) by {}
                }
            }
            k = k + 1;
        }
        proof {
            assert(binding@.take(binding@.len() as int) =~= binding@);
        }
        cells
    }
}

} // verus!
