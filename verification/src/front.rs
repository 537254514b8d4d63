//! Non-dominated points and the Pareto front made of them.
use vstd::prelude::*;

use crate::types::{Assignment, TernaryVal};

verus! {

/// The partial assignments of a list of solutions.
pub open spec fn sol_views(sols: Seq<Assignment>) -> Seq<Seq<TernaryVal>> {
    sols.map_values(|s: Assignment| s@)
}

/// What a point is: its costs and its solutions.
pub struct PointView {
    pub costs: Seq<isize>,
    pub sols: Seq<Seq<TernaryVal>>,
}

/// A point in objective space together with solutions that have its costs.
#[derive(Debug)]
pub struct NonDomPoint {
    costs: Vec<isize>,
    sols: Vec<Assignment>,
}

impl View for NonDomPoint {
    type V = PointView;

    closed spec fn view(&self) -> PointView {
        PointView { costs: self.costs@, sols: sol_views(self.sols@) }
    }
}

impl Clone for NonDomPoint {
    fn clone(&self) -> (res: NonDomPoint)
        ensures
            res@ == self@,
    {
        let mut costs: Vec<isize> = Vec::new();
        for i in 0..self.costs.len()
            invariant
                costs@ == self.costs@.take(i as int),
        {
            costs.push(self.costs[i]);
            assert(self.costs@.take(i + 1) =~= self.costs@.take(i as int).push(
                self.costs@[i as int],
            ));
        }
        assert(self.costs@.take(self.costs@.len() as int) =~= self.costs@);
        let mut sols: Vec<Assignment> = Vec::new();
        for i in 0..self.sols.len()
            invariant
                sols@.len() == i,
                forall|j: int| 0 <= j < i ==> (#[trigger] sols@[j])@ == self.sols@[j]@,
        {
            sols.push(self.sols[i].clone());
        }
        assert(sol_views(sols@) =~= sol_views(self.sols@));
        NonDomPoint { costs, sols }
    }
}

impl NonDomPoint {
    /// Creates a point without solutions.
    pub fn new(costs: Vec<isize>) -> (p: NonDomPoint)
        ensures
            p@ == (PointView { costs: costs@, sols: Seq::empty() }),
    {
        let p = NonDomPoint { costs, sols: Vec::new() };
        assert(p@.sols =~= Seq::empty());
        p
    }

    /// Adds a solution.
    pub fn add_sol(&mut self, sol: Assignment)
        ensures
            final(self)@ == (PointView {
                costs: old(self)@.costs,
                sols: old(self)@.sols.push(sol@),
            }),
    {
        self.sols.push(sol);
        assert(self@.sols =~= old(self)@.sols.push(sol@));
    }

    /// The number of solutions.
    pub fn n_sols(&self) -> (n: usize)
        ensures
            n == self@.sols.len(),
    {
        self.sols.len()
    }

    /// The costs of the point.
    pub fn costs(&self) -> (costs: &Vec<isize>)
        ensures
            costs@ == self@.costs,
    {
        &self.costs
    }

    /// Converts the solutions.
    fn convert_solutions<C: Fn(&Assignment) -> Assignment>(
        &self,
        conv: &C,
        Ghost(points): Ghost<Seq<PointView>>,
        Ghost(i): Ghost<int>,
    ) -> (p: NonDomPoint)
        requires
            0 <= i < points.len(),
            points[i] == self@,
            forall|sol: &Assignment| has_sol(points, sol@) ==> #[trigger] conv.requires((sol,)),
        ensures
            points_match(self@, p@, conv),
    {
        let mut costs: Vec<isize> = Vec::new();
        for k in 0..self.costs.len()
            invariant
                costs@ == self.costs@.take(k as int),
        {
            costs.push(self.costs[k]);
            assert(self.costs@.take(k + 1) =~= self.costs@.take(k as int).push(
                self.costs@[k as int],
            ));
        }
        assert(self.costs@.take(self.costs@.len() as int) =~= self.costs@);
        let mut p = NonDomPoint::new(costs);
        for k in 0..self.sols.len()
            invariant
                0 <= i < points.len(),
                points[i] == self@,
                forall|sol: &Assignment| has_sol(points, sol@) ==> #[trigger] conv.requires((sol,)),
                p@.costs == self@.costs,
                p@.sols.len() == k,
                forall|j: int|
                    0 <= j < k ==> converts(conv, self@.sols[j], #[trigger] p@.sols[j]),
        {
            let ghost earlier = p@.sols;
            assert(points[i].sols[k as int] == self.sols@[k as int]@);
            let sol = conv(&self.sols[k]);
            assert(converts(conv, self@.sols[k as int], sol@));
            p.add_sol(sol);
            assert forall|j: int| 0 <= j < k + 1 implies converts(
                conv,
                self@.sols[j],
                #[trigger] p@.sols[j],
            ) by {
                if j < k {
                    assert(p@.sols[j] == earlier[j]);
                }
            }
        }
        p
    }

    /// The solutions of the point.
    pub fn sols(&self) -> (sols: &Vec<Assignment>)
        ensures
            sol_views(sols@) == self@.sols,
    {
        &self.sols
    }
}

/// Whether a solution is one at some point.
pub open spec fn has_sol(points: Seq<PointView>, sol: Seq<TernaryVal>) -> bool {
    exists|i: int, j: int|
        0 <= i < points.len() && 0 <= j < points[i].sols.len() && #[trigger] points[i].sols[j]
            == sol
}

/// Whether a solution may have been converted to another.
pub open spec fn converts<C: Fn(&Assignment) -> Assignment>(
    conv: &C,
    sol: Seq<TernaryVal>,
    other: Seq<TernaryVal>,
) -> bool {
    exists|s: Assignment, t: Assignment|
        s@ == sol && t@ == other && #[trigger] conv.ensures((&s,), t)
}

/// Whether a point has the costs of another and its solutions, converted.
pub open spec fn points_match<C: Fn(&Assignment) -> Assignment>(
    before: PointView,
    after: PointView,
    conv: &C,
) -> bool {
    &&& after.costs == before.costs
    &&& after.sols.len() == before.sols.len()
    &&& forall|j: int|
        0 <= j < after.sols.len() ==> converts(conv, before.sols[j], #[trigger] after.sols[j])
}

/// The points of a list.
pub open spec fn point_views(pps: Seq<NonDomPoint>) -> Seq<PointView> {
    pps.map_values(|p: NonDomPoint| p@)
}

/// The non-dominated points that were found, in the order in which they were.
#[derive(Debug)]
pub struct ParetoFront {
    ndoms: Vec<NonDomPoint>,
}

impl View for ParetoFront {
    type V = Seq<PointView>;

    closed spec fn view(&self) -> Seq<PointView> {
        point_views(self.ndoms@)
    }
}

impl Clone for ParetoFront {
    fn clone(&self) -> (res: ParetoFront)
        ensures
            res@ == self@,
    {
        let mut ndoms: Vec<NonDomPoint> = Vec::new();
        for i in 0..self.ndoms.len()
            invariant
                ndoms@.len() == i,
                forall|j: int| 0 <= j < i ==> (#[trigger] ndoms@[j])@ == self.ndoms@[j]@,
        {
            ndoms.push(self.ndoms[i].clone());
        }
        assert(point_views(ndoms@) =~= point_views(self.ndoms@));
        ParetoFront { ndoms }
    }
}

impl ParetoFront {
    /// Creates an empty front.
    pub fn new() -> (f: ParetoFront)
        ensures
            f@ == Seq::<PointView>::empty(),
    {
        let f = ParetoFront { ndoms: Vec::new() };
        assert(f@ =~= Seq::<PointView>::empty());
        f
    }

    /// Adds a point.
    pub fn add_pp(&mut self, pp: NonDomPoint)
        ensures
            final(self)@ == old(self)@.push(pp@),
    {
        self.ndoms.push(pp);
        assert(self@ =~= old(self)@.push(pp@));
    }

    /// The points of the front.
    pub fn points(&self) -> (pps: &Vec<NonDomPoint>)
        ensures
            point_views(pps@) == self@,
    {
        &self.ndoms
    }

    /// Converts the solutions of all points. Costs and order stay the same.
    pub fn convert_solutions<C: Fn(&Assignment) -> Assignment>(&self, conv: &C) -> (f: ParetoFront)
        requires
            forall|sol: &Assignment| has_sol(self@, sol@) ==> #[trigger] conv.requires((sol,)),
        ensures
            f@.len() == self@.len(),
            forall|i: int|
                0 <= i < f@.len() ==> points_match(self@[i], #[trigger] f@[i], conv),
    {
        let mut f = ParetoFront::new();
        for i in 0..self.ndoms.len()
            invariant
                forall|sol: &Assignment| has_sol(self@, sol@) ==> #[trigger] conv.requires((sol,)),
                f@.len() == i,
                forall|k: int|
                    0 <= k < i ==> points_match(self@[k], #[trigger] f@[k], conv),
        {
            let ghost earlier = f@;
            f.add_pp(self.ndoms[i].convert_solutions(conv, Ghost(self@), Ghost(i as int)));
            assert forall|k: int| 0 <= k < i + 1 implies points_match(
                self@[k],
                #[trigger] f@[k],
                conv,
            ) by {
                if k < i {
                    assert(f@[k] == earlier[k]);
                }
            }
        }
        f
    }
}

} // verus!
