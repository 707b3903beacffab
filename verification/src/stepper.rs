//! The geometric median by iteration: steps are taken until one of them
//! moves the point by less than a given distance.

use crate::clock::{no_time, now, plus, since, span_nanos};
use crate::geo_median::{bumped, bumped_by, can_place, GeoMedian, GeoMedianData, GeoMedianStep};
use crate::ostresh::Ostresh;
use crate::point::{seq_sub, Point};
use crate::scalar::{tolerance, tolerance_spec, Real};
use crate::space::MinkowskiSpace;
use crate::steiner_tree::{
    lemma_moved_trans, lemma_node_moved, moved, node_moved, relaxed, NodeView, SteinerTree,
};
use std::time::Duration;
use vstd::prelude::*;

verus! {

/// What the stepper counts and times.
#[derive(Debug)]
pub struct GeoMedianStepperData {
    time: Duration,
    total_steps: u64,
    inits: u64,
}

/// A geometric median found by steps of `I`.
#[derive(Debug)]
pub struct GeoMedianStepper<P: Point, I> {
    node_dist_cutoff: P::R,
    step: I,
    single: bool,
    data: GeoMedianStepperData,
}

/// Where the stepper ends within `fuel` steps, from the step numbered `s`
/// with `x` in hand - or nothing, where more steps are needed. A step goes
/// where the law `step` says; the node moves there; and the stepper ends
/// where the step was shorter than `cutoff`, where it takes single steps,
/// or where the number of the step cannot rise.
pub open spec fn walked<P: Point, M: MinkowskiSpace<P>>(
    step: spec_fn(Seq<P::R>, Seq<NodeView<P::R>>, usize, usize, M) -> Seq<P::R>,
    cutoff: P::R,
    single: bool,
    v: Seq<NodeView<P::R>>,
    node: usize,
    geo: M,
    x: Seq<P::R>,
    s: usize,
    fuel: nat,
) -> Option<Seq<P::R>>
    decreases fuel,
{
    if fuel == 0 {
        None
    } else {
        let x1 = step(x, v, node, s, geo);
        if geo.norm_spec(seq_sub(x1, v[node as int].coords)).lt_spec(cutoff) || single || s
            == usize::MAX {
            Some(x1)
        } else {
            walked::<P, M>(
                step,
                cutoff,
                single,
                node_moved(v, node, x1),
                node,
                geo,
                x1,
                (s + 1) as usize,
                (fuel - 1) as nat,
            )
        }
    }
}

/// Whether the stepper ends within `fuel` steps.
pub open spec fn walk_ends<P: Point, M: MinkowskiSpace<P>>(
    step: spec_fn(Seq<P::R>, Seq<NodeView<P::R>>, usize, usize, M) -> Seq<P::R>,
    cutoff: P::R,
    single: bool,
    v: Seq<NodeView<P::R>>,
    node: usize,
    geo: M,
    fuel: nat,
) -> bool {
    walked::<P, M>(step, cutoff, single, v, node, geo, v[node as int].coords, 1, fuel) is Some
}

/// Where the stepper puts a node: where it ends, from the first step with the
/// place of the node in hand - or, should it never end, where the node lies.
pub open spec fn stepper_place<P: Point, M: MinkowskiSpace<P>>(
    step: spec_fn(Seq<P::R>, Seq<NodeView<P::R>>, usize, usize, M) -> Seq<P::R>,
    cutoff: P::R,
    single: bool,
    v: Seq<NodeView<P::R>>,
    node: usize,
    geo: M,
) -> Seq<P::R> {
    if exists|fuel: nat| walk_ends::<P, M>(step, cutoff, single, v, node, geo, fuel) {
        let fuel = choose|fuel: nat| walk_ends::<P, M>(step, cutoff, single, v, node, geo, fuel);
        walked::<P, M>(step, cutoff, single, v, node, geo, v[node as int].coords, 1, fuel)->0
    } else {
        v[node as int].coords
    }
}

/// Whether the stepper ends with step `m`, counted from the first: within
/// `m` steps, and not within fewer.
pub open spec fn walk_takes<P: Point, M: MinkowskiSpace<P>>(
    step: spec_fn(Seq<P::R>, Seq<NodeView<P::R>>, usize, usize, M) -> Seq<P::R>,
    cutoff: P::R,
    single: bool,
    v: Seq<NodeView<P::R>>,
    node: usize,
    geo: M,
    m: nat,
) -> bool {
    &&& walk_ends::<P, M>(step, cutoff, single, v, node, geo, m)
    &&& m >= 1
    &&& !walk_ends::<P, M>(step, cutoff, single, v, node, geo, (m - 1) as nat)
}

/// More fuel does not change where the stepper ends.
pub proof fn lemma_walked_fuel<P: Point, M: MinkowskiSpace<P>>(
    step: spec_fn(Seq<P::R>, Seq<NodeView<P::R>>, usize, usize, M) -> Seq<P::R>,
    cutoff: P::R,
    single: bool,
    v: Seq<NodeView<P::R>>,
    node: usize,
    geo: M,
    x: Seq<P::R>,
    s: usize,
    fuel: nat,
    more: nat,
)
    requires
        walked::<P, M>(step, cutoff, single, v, node, geo, x, s, fuel) is Some,
    ensures
        walked::<P, M>(step, cutoff, single, v, node, geo, x, s, fuel + more) == walked::<P, M>(
            step,
            cutoff,
            single,
            v,
            node,
            geo,
            x,
            s,
            fuel,
        ),
    decreases fuel,
{
    if fuel > 0 {
        let x1 = step(x, v, node, s, geo);
        if geo.norm_spec(seq_sub(x1, v[node as int].coords)).lt_spec(cutoff) || single || s
            == usize::MAX {
        } else {
            lemma_walked_fuel::<P, M>(
                step,
                cutoff,
                single,
                node_moved(v, node, x1),
                node,
                geo,
                x1,
                (s + 1) as usize,
                (fuel - 1) as nat,
                more,
            );
        }
    }
}

/// Where the stepper ends is where it puts the node.
pub proof fn lemma_stepper_place<P: Point, M: MinkowskiSpace<P>>(
    step: spec_fn(Seq<P::R>, Seq<NodeView<P::R>>, usize, usize, M) -> Seq<P::R>,
    cutoff: P::R,
    single: bool,
    v: Seq<NodeView<P::R>>,
    node: usize,
    geo: M,
    fuel: nat,
)
    requires
        walk_ends::<P, M>(step, cutoff, single, v, node, geo, fuel),
    ensures
        stepper_place::<P, M>(step, cutoff, single, v, node, geo) == walked::<P, M>(
            step,
            cutoff,
            single,
            v,
            node,
            geo,
            v[node as int].coords,
            1,
            fuel,
        )->0,
{
    let other = choose|f: nat| walk_ends::<P, M>(step, cutoff, single, v, node, geo, f);
    let x = v[node as int].coords;
    if other <= fuel {
        lemma_walked_fuel::<P, M>(
            step,
            cutoff,
            single,
            v,
            node,
            geo,
            x,
            1,
            other,
            (fuel - other) as nat,
        );
    } else {
        lemma_walked_fuel::<P, M>(
            step,
            cutoff,
            single,
            v,
            node,
            geo,
            x,
            1,
            fuel,
            (other - fuel) as nat,
        );
    }
}

impl GeoMedianStepperData {
    /// The number of steps taken.
    pub closed spec fn spec_total_steps(&self) -> u64 {
        self.total_steps
    }

    /// The number of points made ready.
    pub closed spec fn spec_inits(&self) -> u64 {
        self.inits
    }

    /// The time spent so far.
    pub closed spec fn spec_time(&self) -> Duration {
        self.time
    }

    /// Nothing counted yet, and no time spent.
    pub fn new() -> (d: Self)
        ensures
            d.spec_total_steps() == 0,
            d.spec_inits() == 0,
            span_nanos(d.spec_time()) == 0,
    {
        GeoMedianStepperData { time: no_time(), total_steps: 0, inits: 0 }
    }

    /// The number of steps taken.
    pub fn total_steps(&self) -> (n: u64)
        ensures
            n == self.spec_total_steps(),
    {
        self.total_steps
    }

    /// The number of points made ready.
    pub fn inits(&self) -> (n: u64)
        ensures
            n == self.spec_inits(),
    {
        self.inits
    }
}

impl Clone for GeoMedianStepperData {
    fn clone(&self) -> (r: Self)
        ensures
            r.spec_total_steps() == self.spec_total_steps(),
            r.spec_inits() == self.spec_inits(),
    {
        GeoMedianStepperData { time: self.time, total_steps: self.total_steps, inits: self.inits }
    }
}

impl GeoMedianData for GeoMedianStepperData {
    fn time(&self) -> (t: &Duration)
        ensures
            *t == self.spec_time(),
    {
        &self.time
    }
}

impl<P: Point, I> GeoMedianStepper<P, I> {
    /// The distance below which a step counts as the last.
    pub closed spec fn spec_cutoff(&self) -> P::R {
        self.node_dist_cutoff
    }

    /// The iteration that does the steps.
    pub closed spec fn spec_step(&self) -> I {
        self.step
    }

    /// Whether `find` takes one step and no more.
    pub closed spec fn spec_single(&self) -> bool {
        self.single
    }

    /// The figures.
    pub closed spec fn spec_data(&self) -> GeoMedianStepperData {
        self.data
    }

    /// A stepper that goes on until a step moves the point by less than `a`.
    pub fn new(a: P::R, step: I) -> (s: Self)
        ensures
            s.spec_cutoff() == a,
            s.spec_step() == step,
            !s.spec_single(),
            s.spec_data().spec_total_steps() == 0,
            s.spec_data().spec_inits() == 0,
    {
        GeoMedianStepper { node_dist_cutoff: a, step, single: false, data: GeoMedianStepperData::new() }
    }

    /// A stepper with the cutoff `1 / 100000`.
    pub fn default_with_step(step: I) -> (s: Self)
        ensures
            s.spec_cutoff() == tolerance_spec::<P::R>(100000),
            s.spec_step() == step,
            !s.spec_single(),
            s.spec_data().spec_total_steps() == 0,
            s.spec_data().spec_inits() == 0,
    {
        Self::new(tolerance::<P::R>(100000), step)
    }

    /// The same stepper, but `find` takes one step and no more.
    pub fn single_step(self) -> (s: Self)
        ensures
            s.spec_cutoff() == self.spec_cutoff(),
            s.spec_step() == self.spec_step(),
            s.spec_single(),
            s.spec_data() == self.spec_data(),
    {
        GeoMedianStepper {
            node_dist_cutoff: self.node_dist_cutoff,
            step: self.step,
            single: true,
            data: self.data,
        }
    }

    /// The iteration that does the steps.
    pub fn step_alg(&mut self) -> (i: &mut I)
        ensures
            *i == old(self).spec_step(),
            final(self).spec_step() == *final(i),
            final(self).spec_cutoff() == old(self).spec_cutoff(),
            final(self).spec_single() == old(self).spec_single(),
            final(self).spec_data() == old(self).spec_data(),
    {
        &mut self.step
    }

    /// Moves `node` to `x` and says whether the stepper is content: whether
    /// the distance in `geo` from `x` to where the node lay is below the
    /// cutoff.
    pub fn settle<M: MinkowskiSpace<P>>(
        &self,
        tree: &mut SteinerTree<P>,
        node: usize,
        x: &P,
        geo: &M,
    ) -> (r: bool)
        requires
            can_place(*old(tree), node),
            x.coords_spec().len() == old(tree)@[node as int].coords.len(),
        ensures
            final(tree).wf(),
            relaxed(*old(tree), *final(tree)),
            final(tree)@ == node_moved(old(tree)@, node, x.coords_spec()),
            r == geo.norm_spec(seq_sub(x.coords_spec(), old(tree)@[node as int].coords)).lt_spec(
                self.spec_cutoff(),
            ),
    {
        let change = geo.dist(x, tree.i(node).p());
        tree.move_node(node, x);
        proof {
            lemma_node_moved(old(tree)@, node, x.coords_spec());
        }
        change.lt(self.node_dist_cutoff)
    }
}

impl<P: Point> Default for GeoMedianStepper<P, Ostresh> {
    /// Ostresh's steps with the cutoff `1 / 10000`.
    fn default() -> (s: Self)
        ensures
            s.spec_cutoff() == tolerance_spec::<P::R>(10000),
            !s.spec_single(),
            s.spec_data().spec_total_steps() == 0,
            s.spec_data().spec_inits() == 0,
    {
        GeoMedianStepper::new(tolerance::<P::R>(10000), Ostresh::default())
    }
}

impl<P: Point, M: MinkowskiSpace<P>, I: GeoMedianStep<P, M>> GeoMedian<P, M> for GeoMedianStepper<
    P,
    I,
> {
    type D = GeoMedianStepperData;

    /// The place of `stepper_place`, by the steps of the iteration.
    open spec fn find_law(&self) -> spec_fn(Seq<NodeView<P::R>>, usize, M) -> Seq<P::R> {
        |v: Seq<NodeView<P::R>>, node: usize, geo: M|
            stepper_place::<P, M>(
                self.spec_step().step_law(),
                self.spec_cutoff(),
                self.spec_single(),
                v,
                node,
                geo,
            )
    }

    /// Where the iteration puts the node.
    open spec fn init_law(&self) -> spec_fn(Seq<NodeView<P::R>>, usize, M) -> Seq<P::R> {
        self.spec_step().init_law()
    }

    /// The stepper is worn out when the count of its steps cannot rise.
    open spec fn worn_out(&self) -> bool {
        self.spec_data().spec_total_steps() == u64::MAX
    }

    /// Counts the point and lets the iteration make it ready.
    fn init(&mut self, tree: &mut SteinerTree<P>, node: usize, geo: &M)
        ensures
            final(self).spec_cutoff() == old(self).spec_cutoff(),
            final(self).spec_single() == old(self).spec_single(),
            final(self).spec_data().spec_inits() == bumped(old(self).spec_data().spec_inits()),
            final(self).spec_data().spec_total_steps() == old(self).spec_data().spec_total_steps(),
    {
        if self.data.inits < u64::MAX {
            self.data.inits += 1;
        }
        self.step.init(tree, node, geo);
    }

    /// Takes steps, each from where the last one led, until `settle` is
    /// content with one - or, for a single-step stepper, takes one step. The
    /// steps are counted; where the count cannot rise any more, no step is
    /// taken. So the count rises by the number of steps that the stepper
    /// takes to its end, as far as it can rise, and the node lies where the
    /// stepper ends if the count could take all the steps.
    fn find(&mut self, tree: &mut SteinerTree<P>, node: usize, geo: &M)
        ensures
            forall|m: nat| #[trigger]
                walk_takes::<P, M>(
                    old(self).spec_step().step_law(),
                    old(self).spec_cutoff(),
                    old(self).spec_single(),
                    old(tree)@,
                    node,
                    *geo,
                    m,
                ) ==> final(self).spec_data().spec_total_steps() == bumped_by(
                    old(self).spec_data().spec_total_steps(),
                    m as int,
                ) && (old(self).spec_data().spec_total_steps() + m <= u64::MAX
                    ==> final(tree)@[node as int].coords == (old(self).find_law())(
                    old(tree)@,
                    node,
                    *geo,
                )),
            (forall|m: nat|
                !#[trigger] walk_ends::<P, M>(
                    old(self).spec_step().step_law(),
                    old(self).spec_cutoff(),
                    old(self).spec_single(),
                    old(tree)@,
                    node,
                    *geo,
                    m,
                )) ==> final(self).spec_data().spec_total_steps() == u64::MAX,
            final(self).spec_cutoff() == old(self).spec_cutoff(),
            final(self).spec_single() == old(self).spec_single(),
            final(self).spec_data().spec_inits() == old(self).spec_data().spec_inits(),
            final(self).spec_data().spec_total_steps() >= old(self).spec_data().spec_total_steps(),
            old(self).spec_data().spec_total_steps() < u64::MAX
                ==> final(self).spec_data().spec_total_steps()
                > old(self).spec_data().spec_total_steps(),
            old(self).spec_single() ==> final(self).spec_data().spec_total_steps() == bumped(
                old(self).spec_data().spec_total_steps(),
            ),
    {
        let start = now();
        let mut x = tree.i(node).p().duplicate();
        let mut s: usize = 1;
        let mut done = false;
        let ghost law = self.step.step_law();
        let ghost cutoff = self.node_dist_cutoff;
        let ghost single = self.single;
        let ghost v0 = tree@;
        let ghost x0 = x.coords_spec();
        let ghost mut used: nat = 0;
        while !done && self.data.total_steps < u64::MAX
            invariant
                can_place(*tree, node),
                moved(old(tree)@, tree@),
                tree.spec_terminal_count() == old(tree).spec_terminal_count(),
                tree@ == node_moved(old(tree)@, node, tree@[node as int].coords),
                x.coords_spec().len() == tree@[node as int].coords.len(),
                self.node_dist_cutoff == old(self).node_dist_cutoff,
                self.single == old(self).single,
                self.data.inits == old(self).data.inits,
                self.data.total_steps >= old(self).data.total_steps,
                self.data.total_steps == old(self).data.total_steps + used,
                done ==> used >= 1 && walked::<P, M>(
                    law,
                    cutoff,
                    single,
                    v0,
                    node,
                    *geo,
                    x0,
                    1,
                    (used - 1) as nat,
                ) is None,
                (s > 1 || done) ==> (self.data.total_steps > old(self).data.total_steps),
                (s == 1 && !done) ==> (self.data.total_steps == old(self).data.total_steps),
                (self.single && done) ==> (self.data.total_steps == old(self).data.total_steps + 1),
                self.single ==> s == 1,
                1 <= s,
                law == old(self).step.step_law(),
                self.step.step_law() == law,
                self.step.init_law() == old(self).step.init_law(),
                cutoff == self.node_dist_cutoff,
                single == self.single,
                v0 == old(tree)@,
                x0 == v0[node as int].coords,
                !done ==> forall|f: nat|
                    walked::<P, M>(law, cutoff, single, v0, node, *geo, x0, 1, used + f)
                        == #[trigger] walked::<P, M>(
                        law,
                        cutoff,
                        single,
                        tree@,
                        node,
                        *geo,
                        x.coords_spec(),
                        s,
                        f,
                    ),
                done ==> walked::<P, M>(law, cutoff, single, v0, node, *geo, x0, 1, used) == Some(
                    tree@[node as int].coords,
                ),
            decreases
                    if done {
                        0int
                    } else {
                        1int
                    },
                    u64::MAX - self.data.total_steps,
        {
            self.data.total_steps += 1;
            let ghost here = tree@;
            let ghost hand = x.coords_spec();
            self.step.step(&mut x, tree, node, s, geo);
            let content = self.settle(tree, node, &x, geo);
            proof {
                lemma_moved_trans(old(tree)@, here, tree@);
                assert(tree@ =~= node_moved(old(tree)@, node, tree@[node as int].coords));
                assert(tree@ == node_moved(here, node, x.coords_spec()));
            }
            if content || self.single || s == usize::MAX {
                done = true;
                proof {
                    assert(walked::<P, M>(law, cutoff, single, here, node, *geo, hand, s, 1) == Some(
                        x.coords_spec(),
                    ));
                    assert(walked::<P, M>(law, cutoff, single, v0, node, *geo, x0, 1, used + 0)
                        == walked::<P, M>(law, cutoff, single, here, node, *geo, hand, s, 0));
                    used = used + 1;
                }
            } else {
                proof {
                    assert forall|f: nat|
                        walked::<P, M>(law, cutoff, single, v0, node, *geo, x0, 1, (used + 1) + f)
                            == #[trigger] walked::<P, M>(
                            law,
                            cutoff,
                            single,
                            tree@,
                            node,
                            *geo,
                            x.coords_spec(),
                            (s + 1) as usize,
                            f,
                        ) by {
                        assert(walked::<P, M>(law, cutoff, single, v0, node, *geo, x0, 1, used + (f + 1))
                            == walked::<P, M>(
                            law,
                            cutoff,
                            single,
                            here,
                            node,
                            *geo,
                            hand,
                            s,
                            (f + 1) as nat,
                        ));
                    }
                    used = used + 1;
                }
                s += 1;
            }
        }
        proof {
            if done {
                lemma_stepper_place::<P, M>(law, cutoff, single, v0, node, *geo, used);
            } else {
                assert(walked::<P, M>(law, cutoff, single, v0, node, *geo, x0, 1, used + 0)
                    == walked::<P, M>(law, cutoff, single, tree@, node, *geo, x.coords_spec(), s, 0));
            }
            assert forall|m: nat| #[trigger]
                walk_takes::<P, M>(law, cutoff, single, v0, node, *geo, m) implies (if done {
                m == used
            } else {
                m > used
            }) by {
                if m < used {
                    let to = if done {
                        (used - 1) as nat
                    } else {
                        used
                    };
                    lemma_walked_fuel::<P, M>(
                        law,
                        cutoff,
                        single,
                        v0,
                        node,
                        *geo,
                        x0,
                        1,
                        m,
                        (to - m) as nat,
                    );
                } else if m == used {
                } else if done {
                    lemma_walked_fuel::<P, M>(
                        law,
                        cutoff,
                        single,
                        v0,
                        node,
                        *geo,
                        x0,
                        1,
                        used,
                        (m - 1 - used) as nat,
                    );
                }
            }
        }
        self.data.time = plus(self.data.time, since(&start));
    }

    /// The figures, as `data` hands them out.
    open spec fn figures(&self) -> GeoMedianStepperData {
        self.spec_data()
    }

    fn data(&self) -> (d: &GeoMedianStepperData) {
        &self.data
    }
}

} // verus!
