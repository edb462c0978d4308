//! Homology groups with their summands told apart: free ones from
//! cyclic ones of finite order.

use vstd::prelude::*;
pub use crate::boundary::SimplicalComplex;
use crate::error::HomologyError;
use crate::homology::{
    boundary_operators, calc_homology_groups, calc_homology_groups_spec, independent_cycles,
    records,
};
use crate::matrix::{IntMatrix, Mat};

verus! {

/// One cyclic summand of a homology group.
#[derive(Clone, Copy, Debug, PartialEq, Eq, Structural)]
pub enum Summand {
    /// An infinite cyclic summand.
    Free,
    /// A cyclic summand of the given finite order.
    Torsion(i128),
}

/// A homology group: the cycles that generate it, one column each, and
/// the kind of summand each of them generates.
#[derive(Debug)]
pub struct HomologyGroup {
    pub generators: IntMatrix,
    pub summands: Vec<Summand>,
}

/// The summand that an order stands for: order 1 is a free summand, any
/// other order a finite one.
pub open spec fn summand_of_order(o: i128) -> Summand {
    if o == 1 {
        Summand::Free
    } else {
        Summand::Torsion(o)
    }
}

/// The order that stands for a summand: 1 for a free one.
pub open spec fn order_of_summand(s: Summand) -> int {
    match s {
        Summand::Free => 1,
        Summand::Torsion(t) => t as int,
    }
}

/// The orders that stand for a list of summands.
pub open spec fn orders_of(s: Seq<Summand>) -> Seq<int> {
    s.map_values(|x: Summand| order_of_summand(x))
}

/// The records of a list of homology groups, as values, with 1 for the
/// order of a free summand.
pub open spec fn group_records(l: Seq<HomologyGroup>) -> Seq<(Mat, Seq<int>)> {
    Seq::new(l.len(), |k: int| (l[k].generators@, orders_of(l[k].summands@)))
}

/// In every dimension the generators in `l` are independent cycles of
/// the complex `sc`: the boundary operator that leaves their chain
/// group sends them to zero.
pub open spec fn groups_are_cycles(l: Seq<HomologyGroup>, sc: SimplicalComplex) -> bool {
    let d = boundary_operators(sc);
    &&& independent_cycles(l[0].generators@, d.0)
    &&& independent_cycles(l[1].generators@, d.1)
    &&& independent_cycles(l[2].generators@, d.2)
}

/// The summands that a list of orders stands for.
pub fn summands_of(orders: &Vec<i128>) -> (r: Vec<Summand>)
    ensures
        r@.len() == orders@.len(),
        forall|i: int| 0 <= i < orders@.len() ==> (#[trigger] r@[i]) == summand_of_order(orders@[i]),
        orders_of(r@) == orders@.map_values(|x: i128| x as int),
{
    let mut r: Vec<Summand> = Vec::new();
    let mut i: usize = 0;
    while i < orders.len()
        invariant
            i <= orders@.len(),
            r@.len() == i,
            forall|x: int| 0 <= x < i ==> (#[trigger] r@[x]) == summand_of_order(orders@[x]),
        decreases orders@.len() - i,
    {
        let o: i128 = orders[i];
        if o == 1 {
            r.push(Summand::Free);
        } else {
            r.push(Summand::Torsion(o));
        }
        i += 1;
    }
    assert(orders_of(r@) =~= orders@.map_values(|x: i128| x as int));
    r
}

/// The homology groups of a complex in dimensions 0, 1 and 2, each
/// with its generating cycles and with every summand marked as free or
/// as cyclic of a finite order.
///
/// The records are those of [`calc_homology_groups_spec`]: the call
/// fails with `MalformedComplex` exactly when the complex is not closed
/// under taking faces, and otherwise with `Overflow` exactly when the
/// computation leaves the machine's integers.
pub fn calc_homology_group_list(sc: SimplicalComplex) -> (r: Result<
    Vec<HomologyGroup>,
    HomologyError,
>)
    ensures
        match r {
            Ok(l) => {
                &&& calc_homology_groups_spec(sc) is Ok
                &&& calc_homology_groups_spec(sc)->Ok_0 == group_records(l@)
                &&& l@.len() == 3
                &&& groups_are_cycles(l@, sc)
            },
            Err(e) => calc_homology_groups_spec(sc) is Err && calc_homology_groups_spec(sc)->Err_0
                == e,
        },
{
    let groups = calc_homology_groups(sc)?;
    let ghost v = groups@;
    let mut homology_groups: Vec<HomologyGroup> = Vec::new();
    let mut rest = groups;
    let h2 = rest.pop();
    let h1 = rest.pop();
    let h0 = rest.pop();
    match (h0, h1, h2) {
        (Some(g0), Some(g1), Some(g2)) => {
            let s0 = summands_of(&g0.1);
            let s1 = summands_of(&g1.1);
            let s2 = summands_of(&g2.1);
            homology_groups.push(HomologyGroup { generators: g0.0, summands: s0 });
            homology_groups.push(HomologyGroup { generators: g1.0, summands: s1 });
            homology_groups.push(HomologyGroup { generators: g2.0, summands: s2 });
        },
        _ => {},
    }
    proof {
        assert(group_records(homology_groups@) =~= records(v));
    }
    Ok(homology_groups)
}

} // verus!
