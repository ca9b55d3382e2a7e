//! How targets are gathered from a start address on: in overwrite mode, the
//! addresses in cyclic order; otherwise, one free address after another. The
//! search ends with an error once it has gone round the address space without
//! gathering enough targets.
use vstd::prelude::*;
use crate::address::{
    Address, key, lemma_wrapping_step_one, next_address, spec_line_of, spec_page_of,
};
use crate::data::{DataModel, cyclic_distance, excluded, lemma_cyclic_distance};
use crate::result::Error;

verus! {

impl DataModel {
    /// The outcome of gathering targets in overwrite mode from `origin` on,
    /// with at most `fuel` more steps: each address from `next` on in turn is
    /// prepared, and added unless it is excluded, until `n` targets are
    /// gathered; reaching a gathered target again, or a step that does not
    /// move further from `origin` in cyclic order (the lap is done) while
    /// targets are missing, fails with `MaxCellLimitExceeded`. `None` if the
    /// fuel runs out first.
    pub open spec fn overwrite_walk(
        self,
        n: nat,
        exclude: Option<Seq<Address>>,
        origin: Address,
        targets: Set<Address>,
        next: Address,
        fuel: nat,
    ) -> Option<(Result<Set<Address>, Error>, DataModel)>
        decreases fuel,
    {
        if targets.len() >= n {
            Some((Ok(targets), self))
        } else if fuel == 0 {
            None
        } else {
            let (r, d) = self.prepare(next);
            match r {
                Err(e) => Some((Err(e), d)),
                Ok(_) => if targets.contains(next) {
                    Some((Err(Error::MaxCellLimitExceeded), d))
                } else {
                    let t2 = if excluded(exclude, next) {
                        targets
                    } else {
                        targets.insert(next)
                    };
                    if t2.len() < n && cyclic_distance(origin, d.step(next)) <= cyclic_distance(
                        origin,
                        next,
                    ) {
                        Some((Err(Error::MaxCellLimitExceeded), d))
                    } else {
                        d.overwrite_walk(n, exclude, origin, t2, d.step(next), (fuel - 1) as nat)
                    }
                },
            }
        }
    }

    /// The outcome of gathering free targets from `origin` on, with at most
    /// `fuel` more steps: from the address after `next`, the first free
    /// address is found and added unless it is excluded, until `n` targets
    /// are gathered; a free address that is not further from `origin` in
    /// cyclic order than `next` (the lap is done) fails with
    /// `MaxCellLimitExceeded`. `None` if the fuel runs out first.
    pub open spec fn free_walk(
        self,
        n: nat,
        exclude: Option<Seq<Address>>,
        origin: Address,
        targets: Set<Address>,
        next: Address,
        fuel: nat,
    ) -> Option<(Result<Set<Address>, Error>, DataModel)>
        decreases fuel,
    {
        if targets.len() >= n {
            Some((Ok(targets), self))
        } else if fuel == 0 {
            None
        } else {
            let (r, d) = self.first_free(self.step(next));
            match r {
                Err(e) => Some((Err(e), d)),
                Ok(x) => if cyclic_distance(origin, x) <= cyclic_distance(origin, next) {
                    Some((Err(Error::MaxCellLimitExceeded), d))
                } else {
                    d.free_walk(
                        n,
                        exclude,
                        origin,
                        if excluded(exclude, x) {
                            targets
                        } else {
                            targets.insert(x)
                        },
                        x,
                        (fuel - 1) as nat,
                    )
                },
            }
        }
    }

    /// The outcome of finding `n` targets from `start` on with at most `fuel`
    /// steps. Without overwriting, and where any target is asked for, `start`
    /// is prepared and taken if it is free and not excluded, and free
    /// addresses after it are gathered.
    pub open spec fn targets_with_fuel(
        self,
        n: nat,
        start: Address,
        overwrite: bool,
        exclude: Option<Seq<Address>>,
        fuel: nat,
    ) -> Option<(Result<Set<Address>, Error>, DataModel)> {
        if overwrite {
            self.overwrite_walk(n, exclude, start, Set::empty(), start, fuel)
        } else if n == 0 {
            Some((Ok(Set::empty()), self))
        } else {
            let (r, d) = self.prepare(start);
            match r {
                Err(e) => Some((Err(e), d)),
                Ok(_) => d.free_walk(
                    n,
                    exclude,
                    start,
                    if !d.colored(start) && !excluded(exclude, start) {
                        set![start]
                    } else {
                        Set::empty()
                    },
                    start,
                    fuel,
                ),
            }
        }
    }

    /// The overwrite walk ends before it would take a step that does not
    /// move further from `origin`.
    pub proof fn lemma_overwrite_walk_ends(
        self,
        n: nat,
        exclude: Option<Seq<Address>>,
        origin: Address,
        targets: Set<Address>,
        next: Address,
        fuel: nat,
    )
        requires
            fuel + cyclic_distance(origin, next) >= 4294967296,
        ensures
            self.overwrite_walk(n, exclude, origin, targets, next, fuel) is Some,
        decreases fuel,
    {
        lemma_cyclic_distance(origin, next, next);
        if targets.len() < n {
            let (r, d) = self.prepare(next);
            if r is Ok && !targets.contains(next) {
                let t2 = if excluded(exclude, next) {
                    targets
                } else {
                    targets.insert(next)
                };
                let nx = d.step(next);
                if t2.len() >= n {
                    assert(d.overwrite_walk(n, exclude, origin, t2, nx, (fuel - 1) as nat) is Some);
                } else if cyclic_distance(origin, nx) > cyclic_distance(origin, next) {
                    d.lemma_overwrite_walk_ends(n, exclude, origin, t2, nx, (fuel - 1) as nat);
                }
            }
        }
    }

    /// The free walk ends before it would find an address that is not further
    /// from `origin`.
    pub proof fn lemma_free_walk_ends(
        self,
        n: nat,
        exclude: Option<Seq<Address>>,
        origin: Address,
        targets: Set<Address>,
        next: Address,
        fuel: nat,
    )
        requires
            fuel + cyclic_distance(origin, next) >= 4294967296,
        ensures
            self.free_walk(n, exclude, origin, targets, next, fuel) is Some,
        decreases fuel,
    {
        lemma_cyclic_distance(origin, next, next);
        if targets.len() < n {
            let (r, d) = self.first_free(self.step(next));
            if r is Ok {
                let x = r->Ok_0;
                if cyclic_distance(origin, x) > cyclic_distance(origin, next) {
                    let t2 = if excluded(exclude, x) {
                        targets
                    } else {
                        targets.insert(x)
                    };
                    d.lemma_free_walk_ends(n, exclude, origin, t2, x, (fuel - 1) as nat);
                }
            }
        }
    }

    /// Finding targets always ends, within one lap of the address space.
    pub proof fn lemma_targets_end(
        self,
        n: nat,
        start: Address,
        overwrite: bool,
        exclude: Option<Seq<Address>>,
    )
        ensures
            self.targets_end(n, start, overwrite, exclude),
    {
        let fuel: nat = 4294967296;
        lemma_cyclic_distance(start, start, start);
        if overwrite {
            self.lemma_overwrite_walk_ends(n, exclude, start, Set::empty(), start, fuel);
        } else if n > 0 {
            let (r, d) = self.prepare(start);
            if r is Ok {
                let t = if !d.colored(start) && !excluded(exclude, start) {
                    set![start]
                } else {
                    Set::empty()
                };
                d.lemma_free_walk_ends(n, exclude, start, t, start, fuel);
            }
        }
        assert(self.targets_with_fuel(n, start, overwrite, exclude, fuel) is Some);
    }

    /// Finding targets ends.
    pub open spec fn targets_end(
        self,
        n: nat,
        start: Address,
        overwrite: bool,
        exclude: Option<Seq<Address>>,
    ) -> bool {
        exists|fuel: nat| #[trigger] self.targets_with_fuel(n, start, overwrite, exclude, fuel) is Some
    }

    /// The outcome of finding `n` targets from `start` on, where that ends.
    pub open spec fn targets(
        self,
        n: nat,
        start: Address,
        overwrite: bool,
        exclude: Option<Seq<Address>>,
    ) -> (Result<Set<Address>, Error>, DataModel) {
        let fuel = choose|fuel: nat| #[trigger] self.targets_with_fuel(n, start, overwrite, exclude, fuel) is Some;
        self.targets_with_fuel(n, start, overwrite, exclude, fuel).unwrap()
    }

    /// More fuel does not change an outcome of the overwrite walk.
    pub proof fn lemma_overwrite_walk_fuel(
        self,
        n: nat,
        exclude: Option<Seq<Address>>,
        origin: Address,
        targets: Set<Address>,
        next: Address,
        fuel: nat,
        more: nat,
    )
        requires
            self.overwrite_walk(n, exclude, origin, targets, next, fuel) is Some,
            fuel <= more,
        ensures
            self.overwrite_walk(n, exclude, origin, targets, next, more) == self.overwrite_walk(
                n,
                exclude, origin,
                targets,
                next,
                fuel,
            ),
        decreases fuel,
    {
        if targets.len() < n && fuel > 0 {
            let (r, d) = self.prepare(next);
            if r is Ok && !targets.contains(next) {
                let t2 = if excluded(exclude, next) {
                    targets
                } else {
                    targets.insert(next)
                };
                if !(t2.len() < n && cyclic_distance(origin, d.step(next)) <= cyclic_distance(origin, next)) {
                d.lemma_overwrite_walk_fuel(
                    n,
                    exclude, origin,
                    t2,
                    d.step(next),
                    (fuel - 1) as nat,
                    (more - 1) as nat,
                );
                }
            }
        }
    }

    /// More fuel does not change an outcome of the free walk.
    pub proof fn lemma_free_walk_fuel(
        self,
        n: nat,
        exclude: Option<Seq<Address>>,
        origin: Address,
        targets: Set<Address>,
        next: Address,
        fuel: nat,
        more: nat,
    )
        requires
            self.free_walk(n, exclude, origin, targets, next, fuel) is Some,
            fuel <= more,
        ensures
            self.free_walk(n, exclude, origin, targets, next, more) == self.free_walk(
                n,
                exclude, origin,
                targets,
                next,
                fuel,
            ),
        decreases fuel,
    {
        if targets.len() < n && fuel > 0 {
            let (r, d) = self.first_free(self.step(next));
            if r is Ok {
                let x = r->Ok_0;
                let t2 = if excluded(exclude, x) {
                    targets
                } else {
                    targets.insert(x)
                };
                if cyclic_distance(origin, x) > cyclic_distance(origin, next) {
                    d.lemma_free_walk_fuel(n, exclude, origin, t2, x, (fuel - 1) as nat, (more - 1) as nat);
                }
            }
        }
    }

    /// Any fuel with which finding targets ends gives the outcome.
    pub proof fn lemma_targets_fuel(
        self,
        n: nat,
        start: Address,
        overwrite: bool,
        exclude: Option<Seq<Address>>,
        fuel: nat,
    )
        requires
            self.targets_with_fuel(n, start, overwrite, exclude, fuel) is Some,
        ensures
            self.targets(n, start, overwrite, exclude) == self.targets_with_fuel(
                n,
                start,
                overwrite,
                exclude,
                fuel,
            ).unwrap(),
    {
        let f = choose|f: nat| #[trigger] self.targets_with_fuel(n, start, overwrite, exclude, f) is Some;
        let (r, d) = self.prepare(start);
        if overwrite {
            if f <= fuel {
                self.lemma_overwrite_walk_fuel(n, exclude, start, Set::empty(), start, f, fuel);
            } else {
                self.lemma_overwrite_walk_fuel(n, exclude, start, Set::empty(), start, fuel, f);
            }
        } else if r is Ok {
            let t = if !d.colored(start) && !excluded(exclude, start) {
                set![start]
            } else {
                Set::empty()
            };
            if f <= fuel {
                d.lemma_free_walk_fuel(n, exclude, start, t, start, f, fuel);
            } else {
                d.lemma_free_walk_fuel(n, exclude, start, t, start, fuel, f);
            }
        }
    }

    /// The targets an overwrite walk gathers include those it started with.
    pub proof fn lemma_overwrite_walk_grows(
        self,
        n: nat,
        exclude: Option<Seq<Address>>,
        origin: Address,
        targets: Set<Address>,
        next: Address,
        fuel: nat,
    )
        requires
            self.overwrite_walk(n, exclude, origin, targets, next, fuel) is Some,
        ensures
            self.overwrite_walk(n, exclude, origin, targets, next, fuel).unwrap().0 matches Ok(ts)
                ==> targets.subset_of(ts),
        decreases fuel,
    {
        if targets.len() < n && fuel > 0 {
            let (r, d) = self.prepare(next);
            if r is Ok && !targets.contains(next) {
                let t2 = if excluded(exclude, next) {
                    targets
                } else {
                    targets.insert(next)
                };
                if !(t2.len() < n && cyclic_distance(origin, d.step(next)) <= cyclic_distance(
                    origin,
                    next,
                )) {
                    d.lemma_overwrite_walk_grows(n, exclude, origin, t2, d.step(next), (fuel - 1) as nat);
                }
            }
        }
    }

    /// The targets a free walk gathers include those it started with.
    pub proof fn lemma_free_walk_grows(
        self,
        n: nat,
        exclude: Option<Seq<Address>>,
        origin: Address,
        targets: Set<Address>,
        next: Address,
        fuel: nat,
    )
        requires
            self.free_walk(n, exclude, origin, targets, next, fuel) is Some,
        ensures
            self.free_walk(n, exclude, origin, targets, next, fuel).unwrap().0 matches Ok(ts)
                ==> targets.subset_of(ts),
        decreases fuel,
    {
        if targets.len() < n && fuel > 0 {
            let (r, d) = self.first_free(self.step(next));
            if r is Ok {
                let x = r->Ok_0;
                if cyclic_distance(origin, x) > cyclic_distance(origin, next) {
                    let t2 = if excluded(exclude, x) {
                        targets
                    } else {
                        targets.insert(x)
                    };
                    d.lemma_free_walk_grows(n, exclude, origin, t2, x, (fuel - 1) as nat);
                }
            }
        }
    }

    /// Targets asked for from a start that is not excluded, and that holds no
    /// color or may be overwritten, include the start.
    pub proof fn lemma_start_among_targets(
        self,
        n: nat,
        start: Address,
        overwrite: bool,
        exclude: Option<Seq<Address>>,
    )
        requires
            self.counts_positive(),
            n >= 1,
            !excluded(exclude, start),
            overwrite || !self.colored(start),
        ensures
            self.targets(n, start, overwrite, exclude).0 matches Ok(ts) ==> ts.contains(start),
    {
        self.lemma_targets_end(n, start, overwrite, exclude);
        let f = choose|f: nat| #[trigger] self.targets_with_fuel(n, start, overwrite, exclude, f) is Some;
        self.lemma_targets_fuel(n, start, overwrite, exclude, f);
        let (r, d) = self.prepare(start);
        self.lemma_prepared(start);
        if overwrite {
            assert(f > 0);
            if r is Ok {
                let t2 = Set::<Address>::empty().insert(start);
                if !(t2.len() < n && cyclic_distance(start, d.step(start)) <= cyclic_distance(
                    start,
                    start,
                )) {
                    d.lemma_overwrite_walk_grows(n, exclude, start, t2, d.step(start), (f - 1) as nat);
                    assert(t2.contains(start));
                }
            }
        } else if r is Ok {
            assert(d.colored(start) == self.colored(start));
            d.lemma_free_walk_grows(n, exclude, start, set![start], start, f);
            assert(set![start].contains(start));
        }
    }

    /// A single target asked for from a start that is not excluded, and that
    /// holds no color or may be overwritten, is the start itself.
    pub proof fn lemma_start_target(
        self,
        start: Address,
        overwrite: bool,
        exclude: Option<Seq<Address>>,
    )
        requires
            self.counts_positive(),
            !excluded(exclude, start),
            overwrite || !self.colored(start),
        ensures
            self.targets(1, start, overwrite, exclude).0 matches Ok(ts) ==> ts == set![start],
    {
        let (r, d) = self.prepare(start);
        self.lemma_prepared(start);
        if overwrite {
            if r is Ok {
                let t2 = Set::<Address>::empty().insert(start);
                assert(t2.len() == 1);
                assert(d.overwrite_walk(1, exclude, start, t2, d.step(start), 0) == Some(
                    (Ok::<Set<Address>, Error>(t2), d),
                ));
                assert(t2 =~= set![start]);
            }
        } else if r is Ok {
            assert(d.colored(start) == self.colored(start));
            assert(set![start].len() == 1);
        }
        assert(self.targets_with_fuel(1, start, overwrite, exclude, 1) is Some);
        self.lemma_targets_fuel(1, start, overwrite, exclude, 1);
    }

    /// Finding a single target ends, and gives a single address, not
    /// excluded, where it succeeds.
    pub proof fn lemma_single_target(
        self,
        start: Address,
        overwrite: bool,
        exclude: Option<Seq<Address>>,
    )
        requires
            self.counts_positive(),
        ensures
            self.targets_end(1, start, overwrite, exclude),
            self.targets(1, start, overwrite, exclude).0 matches Ok(ts) ==> exists|x: Address|
                ts == set![x] && !excluded(exclude, x),
    {
        self.lemma_targets_end(1, start, overwrite, exclude);
        self.lemma_targets_found(1, start, overwrite, exclude);
        if let Ok(ts) = self.targets(1, start, overwrite, exclude).0 {
            let x = ts.choose();
            assert(ts.contains(x));
            assert(ts.remove(x).len() == 0);
            assert(ts.remove(x) =~= Set::empty());
            assert(ts =~= set![x]) by {
                assert forall|y: Address| ts.contains(y) implies y == x by {
                    if y != x {
                        assert(ts.remove(x).contains(y));
                    }
                }
            }
        }
    }

    /// The data after an overwrite walk keeps the cells, the settings and the
    /// metadata, and its counts stay positive.
    pub proof fn lemma_overwrite_walk_keeps(
        self,
        n: nat,
        exclude: Option<Seq<Address>>,
        origin: Address,
        targets: Set<Address>,
        next: Address,
        fuel: nat,
    )
        requires
            self.counts_positive(),
            self.overwrite_walk(n, exclude, origin, targets, next, fuel) is Some,
        ensures
            self.overwrite_walk(n, exclude, origin, targets, next, fuel).unwrap().1.counts_positive(),
            self.overwrite_walk(n, exclude, origin, targets, next, fuel).unwrap().1.extends(self),
            self.overwrite_walk(n, exclude, origin, targets, next, fuel).unwrap().1.cells == self.cells,
        decreases fuel,
    {
        if targets.len() < n {
            let (r, d) = self.prepare(next);
            self.lemma_prepared(next);
            if r is Ok && !targets.contains(next) {
                let t2 = if excluded(exclude, next) {
                    targets
                } else {
                    targets.insert(next)
                };
                if !(t2.len() < n && cyclic_distance(origin, d.step(next)) <= cyclic_distance(origin, next)) {
                d.lemma_overwrite_walk_keeps(n, exclude, origin, t2, d.step(next), (fuel - 1) as nat);
                let d2 = d.overwrite_walk(n, exclude, origin, t2, d.step(next), (fuel - 1) as nat).unwrap().1;
                d2.lemma_extends_trans(d, self);
                }
            }
        } else {
            assert(self.extends(self));
        }
    }

    /// The data after a free walk keeps the cells, the settings and the
    /// metadata, and its counts stay positive.
    pub proof fn lemma_free_walk_keeps(
        self,
        n: nat,
        exclude: Option<Seq<Address>>,
        origin: Address,
        targets: Set<Address>,
        next: Address,
        fuel: nat,
    )
        requires
            self.counts_positive(),
            self.free_walk(n, exclude, origin, targets, next, fuel) is Some,
        ensures
            self.free_walk(n, exclude, origin, targets, next, fuel).unwrap().1.counts_positive(),
            self.free_walk(n, exclude, origin, targets, next, fuel).unwrap().1.extends(self),
            self.free_walk(n, exclude, origin, targets, next, fuel).unwrap().1.cells == self.cells,
        decreases fuel,
    {
        if targets.len() < n {
            let (r, d) = self.first_free(self.step(next));
            self.lemma_first_free_keeps(self.step(next));
            if r is Ok {
                let x = r->Ok_0;
                let t2 = if excluded(exclude, x) {
                    targets
                } else {
                    targets.insert(x)
                };
                if cyclic_distance(origin, x) > cyclic_distance(origin, next) {
                d.lemma_free_walk_keeps(n, exclude, origin, t2, x, (fuel - 1) as nat);
                let d2 = d.free_walk(n, exclude, origin, t2, x, (fuel - 1) as nat).unwrap().1;
                d2.lemma_extends_trans(d, self);
                }
            }
        } else {
            assert(self.extends(self));
        }
    }

    /// The data after finding targets keeps the cells, the settings and the
    /// metadata, and its counts stay positive.
    pub proof fn lemma_targets_keep(
        self,
        n: nat,
        start: Address,
        overwrite: bool,
        exclude: Option<Seq<Address>>,
    )
        requires
            self.counts_positive(),
            self.targets_end(n, start, overwrite, exclude),
        ensures
            self.targets(n, start, overwrite, exclude).1.counts_positive(),
            self.targets(n, start, overwrite, exclude).1.extends(self),
            self.targets(n, start, overwrite, exclude).1.cells == self.cells,
    {
        let f = choose|f: nat| #[trigger] self.targets_with_fuel(n, start, overwrite, exclude, f) is Some;
        self.lemma_targets_fuel(n, start, overwrite, exclude, f);
        if overwrite {
            self.lemma_overwrite_walk_keeps(n, exclude, start, Set::empty(), start, f);
        } else {
            let (r, d) = self.prepare(start);
            self.lemma_prepared(start);
            if r is Ok {
                let t = if !d.colored(start) && !excluded(exclude, start) {
                    set![start]
                } else {
                    Set::empty()
                };
                d.lemma_free_walk_keeps(n, exclude, start, t, start, f);
                let d2 = d.free_walk(n, exclude, start, t, start, f).unwrap().1;
                d2.lemma_extends_trans(d, self);
            }
        }
    }

    /// The targets gathered by an overwrite walk are finite, as many as
    /// requested, and none is excluded.
    pub proof fn lemma_overwrite_walk_found(
        self,
        n: nat,
        exclude: Option<Seq<Address>>,
        origin: Address,
        targets: Set<Address>,
        next: Address,
        fuel: nat,
    )
        requires
            self.counts_positive(),
            self.overwrite_walk(n, exclude, origin, targets, next, fuel) is Some,
            targets.finite(),
            targets.len() <= n,
            forall|t: Address| #[trigger] targets.contains(t) ==> !excluded(exclude, t) && self.settled(t),
        ensures
            self.overwrite_walk(n, exclude, origin, targets, next, fuel).unwrap().0 matches Ok(ts) ==> ts.finite()
                && ts.len() == n && forall|t: Address| #[trigger] ts.contains(t) ==> !excluded(exclude, t)
                && self.overwrite_walk(n, exclude, origin, targets, next, fuel).unwrap().1.settled(t),
        decreases fuel,
    {
        if targets.len() < n {
            let (r, d) = self.prepare(next);
            self.lemma_prepared(next);
            assert forall|t: Address| #[trigger] targets.contains(t) implies d.settled(t) by {
                d.lemma_extends_settled(self, t);
            }
            if r is Ok && !targets.contains(next) {
                let t2 = if excluded(exclude, next) {
                    targets
                } else {
                    targets.insert(next)
                };
                if !(t2.len() < n && cyclic_distance(origin, d.step(next)) <= cyclic_distance(origin, next)) {
                d.lemma_overwrite_walk_found(n, exclude, origin, t2, d.step(next), (fuel - 1) as nat);
                }
            }
        }
    }

    /// The targets gathered by a free walk are finite, as many as requested,
    /// free, and none is excluded.
    pub proof fn lemma_free_walk_found(
        self,
        n: nat,
        exclude: Option<Seq<Address>>,
        origin: Address,
        targets: Set<Address>,
        next: Address,
        fuel: nat,
    )
        requires
            self.counts_positive(),
            self.free_walk(n, exclude, origin, targets, next, fuel) is Some,
            targets.finite(),
            targets.len() <= n,
            forall|t: Address| #[trigger] targets.contains(t) ==> !excluded(exclude, t) && !self.colored(t),
        ensures
            self.free_walk(n, exclude, origin, targets, next, fuel).unwrap().0 matches Ok(ts) ==> ts.finite()
                && ts.len() == n && forall|t: Address| #[trigger] ts.contains(t) ==> !excluded(exclude, t)
                && !self.colored(t),
        decreases fuel,
    {
        if targets.len() < n {
            let (r, d) = self.first_free(self.step(next));
            self.lemma_first_free_keeps(self.step(next));
            if r is Ok {
                let x = r->Ok_0;
                let t2 = if excluded(exclude, x) {
                    targets
                } else {
                    targets.insert(x)
                };
                let pd = self.prepared(self.step(next));
                let w = choose|w: Address| pd.valid(w) && !pd.colored(w);
                pd.lemma_first_free_exists(self.step(next), w);
                assert(d.first_free_at(self.step(next), x));
                if cyclic_distance(origin, x) > cyclic_distance(origin, next) {
                d.lemma_free_walk_found(n, exclude, origin, t2, x, (fuel - 1) as nat);
                d.lemma_free_walk_keeps(n, exclude, origin, t2, x, (fuel - 1) as nat);
                }
            }
        }
    }

    /// Finding targets that succeeds gives exactly `n` addresses, none of them
    /// excluded; without overwriting, none of them holds a color.
    pub proof fn lemma_targets_found(
        self,
        n: nat,
        start: Address,
        overwrite: bool,
        exclude: Option<Seq<Address>>,
    )
        requires
            self.counts_positive(),
            self.targets_end(n, start, overwrite, exclude),
        ensures
            self.targets(n, start, overwrite, exclude).0 matches Ok(ts) ==> ts.finite() && ts.len() == n
                && forall|t: Address| #[trigger] ts.contains(t)
                ==> !excluded(exclude, t) && (!overwrite ==> !self.colored(t)) && (overwrite
                ==> self.targets(n, start, overwrite, exclude).1.settled(t)),
    {
        let f = choose|f: nat| #[trigger] self.targets_with_fuel(n, start, overwrite, exclude, f) is Some;
        self.lemma_targets_fuel(n, start, overwrite, exclude, f);
        if overwrite {
            self.lemma_overwrite_walk_found(n, exclude, start, Set::empty(), start, f);
        } else {
            let (r, d) = self.prepare(start);
            self.lemma_prepared(start);
            if r is Ok {
                let t = if !d.colored(start) && !excluded(exclude, start) {
                    set![start]
                } else {
                    Set::empty()
                };
                assert(set![start].len() == 1);
                if t.len() <= n {
                    d.lemma_free_walk_found(n, exclude, start, t, start, f);
                }
            }
        }
    }

    /// A free walk fails with `InvalidAddress`, or with
    /// `MaxCellLimitExceeded` when every address within bounds of the data it
    /// leaves holds a color.
    pub proof fn lemma_free_walk_fails(
        self,
        n: nat,
        exclude: Option<Seq<Address>>,
        origin: Address,
        targets: Set<Address>,
        next: Address,
        fuel: nat,
    )
        requires
            self.free_walk(n, exclude, origin, targets, next, fuel) is Some,
        ensures
            self.free_walk(n, exclude, origin, targets, next, fuel).unwrap().0 matches Err(e) ==> e is InvalidAddress
                || e == Error::MaxCellLimitExceeded,
        decreases fuel,
    {
        if targets.len() < n {
            let (r, d) = self.first_free(self.step(next));
            if r is Ok {
                let x = r->Ok_0;
                let t2 = if excluded(exclude, x) {
                    targets
                } else {
                    targets.insert(x)
                };
                if cyclic_distance(origin, x) > cyclic_distance(origin, next) {
                d.lemma_free_walk_fails(n, exclude, origin, t2, x, (fuel - 1) as nat);
                }
            }
        }
    }

    /// Finding free targets fails with `InvalidAddress` or with
    /// `MaxCellLimitExceeded`.
    pub proof fn lemma_free_targets_fail(
        self,
        n: nat,
        start: Address,
        exclude: Option<Seq<Address>>,
    )
        requires
            self.targets_end(n, start, false, exclude),
        ensures
            self.targets(n, start, false, exclude).0 matches Err(e) ==> e is InvalidAddress || e
                == Error::MaxCellLimitExceeded,
    {
        let f = choose|f: nat| #[trigger] self.targets_with_fuel(n, start, false, exclude, f) is Some;
        self.lemma_targets_fuel(n, start, false, exclude, f);
        let (r, d) = self.prepare(start);
        if r is Ok {
            let t = if !d.colored(start) && !excluded(exclude, start) {
                set![start]
            } else {
                Set::empty()
            };
            d.lemma_free_walk_fails(n, exclude, start, t, start, f);
        }
    }
}

impl DataModel {
    /// Whether `b` lies within bounds can no longer change as more groups are
    /// prepared: its page is beyond the last, or its page is prepared and
    /// either its line is beyond the page's last or its line is prepared.
    pub open spec fn fixed(self, b: Address) -> bool {
        ||| b.page >= self.maximum_page_count
        ||| self.metadata.contains_key(spec_page_of(b)@) && (b.line >= self.line_count(b)
            || self.metadata.contains_key(spec_line_of(b)@))
    }

    /// A fixed address stays fixed, within bounds or not, as the data is
    /// extended.
    pub proof fn lemma_fixed_extends(self, old: DataModel, b: Address)
        requires
            self.extends(old),
            old.fixed(b),
        ensures
            self.fixed(b),
            self.valid(b) == old.valid(b),
    {
        if b.page < old.maximum_page_count {
            assert(self.metadata.contains_key(spec_page_of(b)@));
            assert(self.line_count(b) == old.line_count(b));
            if old.metadata.contains_key(spec_line_of(b)@) {
                assert(self.metadata.contains_key(spec_line_of(b)@));
                assert(self.column_count(b) == old.column_count(b));
            }
        }
    }

    /// An address within bounds and fixed is settled.
    pub proof fn lemma_fixed_valid_settled(self, b: Address)
        requires
            self.fixed(b),
            self.valid(b),
        ensures
            self.settled(b),
    {
    }

    /// From a settled address, the addresses after it up to the next address
    /// (or to the end of the address space, when the step wraps) are fixed
    /// and out of bounds; and the next address's missing groups start at its
    /// own position: a missing page at its first line and column, a missing
    /// line at its first column.
    pub proof fn lemma_step_tail(self, a: Address)
        requires
            self.counts_positive(),
            self.settled(a),
        ensures
            forall|b: Address|
                key(a) < key(b) && (key(b) < key(self.step(a)) || key(self.step(a)) <= key(a))
                    ==> #[trigger] self.fixed(b) && !self.valid(b),
            !self.metadata.contains_key(spec_page_of(self.step(a))@) ==> self.step(a).line == 0
                && self.step(a).column == 0,
            !self.metadata.contains_key(spec_line_of(self.step(a))@) ==> self.step(a).column == 0,
            key(self.step(a)) <= key(a) ==> self.step(a) == (Address { page: 0, line: 0, column: 0 }),
    {
        let pages = self.maximum_page_count as int;
        let lines = self.line_count(a) as int;
        let columns = self.column_count(a) as int;
        lemma_wrapping_step_one(a, pages, lines, columns);
        let n = self.step(a);
        assert(n == next_address(a, pages, lines, columns));
        assert forall|b: Address|
            key(a) < key(b) && (key(b) < key(n) || key(n) <= key(a)) implies #[trigger] self.fixed(b)
                && !self.valid(b) by {
            if b.page == a.page {
                assert(spec_page_of(b)@ == spec_page_of(a)@);
                assert(self.line_count(b) == lines);
                if b.line == a.line {
                    assert(spec_line_of(b)@ == spec_line_of(a)@);
                    assert(self.column_count(b) == columns);
                }
            }
        }
        if a.column + 1 < columns {
            assert(spec_page_of(n)@ == spec_page_of(a)@);
            assert(spec_line_of(n)@ == spec_line_of(a)@);
        } else if a.line + 1 < lines {
            assert(spec_page_of(n)@ == spec_page_of(a)@);
        }
    }

    /// The first lap of an overwrite walk from `s` has reached `next`: the
    /// addresses before it, in cyclic order from `s`, are fixed, and the
    /// targets are those of them within bounds and not excluded.
    pub open spec fn first_lap(
        self,
        s: Address,
        exclude: Option<Seq<Address>>,
        targets: Set<Address>,
        next: Address,
    ) -> bool {
        &&& self.counts_positive()
        &&& self.settled(s)
        &&& next != s
        &&& self.valid(next)
        &&& (!self.metadata.contains_key(spec_page_of(next)@) ==> next.line == 0 && next.column == 0)
        &&& (!self.metadata.contains_key(spec_line_of(next)@) ==> next.column == 0)
        &&& forall|b: Address|
            cyclic_distance(s, b) < cyclic_distance(s, next) ==> #[trigger] self.fixed(b)
        &&& forall|b: Address|
            #![trigger targets.contains(b)]
            #![trigger self.valid(b)]
            cyclic_distance(s, b) < cyclic_distance(s, next) ==> (targets.contains(b) <==> self.valid(b)
                && !excluded(exclude, b))
        &&& forall|b: Address|
            #[trigger] targets.contains(b) ==> cyclic_distance(s, b) < cyclic_distance(s, next)
        &&& targets.finite()
    }

    /// What gathering `n` overwrite targets from `s` gave, read on the data
    /// it left: on success, the addresses within bounds and not excluded up
    /// to some distance from `s` in cyclic order; on failure, a
    /// `MaxCellLimitExceeded` error, with fewer than `n` such addresses in
    /// all.
    pub open spec fn gathered(
        self,
        s: Address,
        exclude: Option<Seq<Address>>,
        n: nat,
        r: Result<Set<Address>, Error>,
    ) -> bool {
        match r {
            Ok(ts) => self.initial_segment(s, exclude, ts),
            Err(e) => e == Error::MaxCellLimitExceeded && self.too_few(exclude, n),
        }
    }

    /// The set holds exactly the addresses within bounds and not excluded up
    /// to some distance from `s` in cyclic order.
    pub open spec fn initial_segment(
        self,
        s: Address,
        exclude: Option<Seq<Address>>,
        ts: Set<Address>,
    ) -> bool {
        exists|bound: int| #[trigger] self.segment(s, exclude, ts, bound)
    }

    /// Fewer than `n` addresses lie within bounds and are not excluded.
    pub open spec fn too_few(self, exclude: Option<Seq<Address>>, n: nat) -> bool {
        exists|ts: Set<Address>| #[trigger] self.covers(exclude, ts) && ts.finite() && ts.len() < n
    }

    /// The set holds exactly the addresses within bounds and not excluded
    /// whose distance from `s` in cyclic order is below `bound`.
    pub open spec fn segment(
        self,
        s: Address,
        exclude: Option<Seq<Address>>,
        ts: Set<Address>,
        bound: int,
    ) -> bool {
        forall|b: Address|
            #[trigger] ts.contains(b) <==> self.valid(b) && !excluded(exclude, b) && cyclic_distance(
                s,
                b,
            ) < bound
    }

    /// The set holds every address within bounds and not excluded.
    pub open spec fn covers(self, exclude: Option<Seq<Address>>, ts: Set<Address>) -> bool {
        forall|b: Address| self.valid(b) && !excluded(exclude, b) ==> #[trigger] ts.contains(b)
    }

    /// The first lap gathers the addresses within bounds and not excluded, in
    /// cyclic order, until there are enough or the lap is done.
    pub proof fn lemma_first_lap(
        self,
        s: Address,
        n: nat,
        exclude: Option<Seq<Address>>,
        targets: Set<Address>,
        next: Address,
        fuel: nat,
    )
        requires
            self.first_lap(s, exclude, targets, next),
            self.overwrite_walk(n, exclude, s, targets, next, fuel) is Some,
        ensures
            self.overwrite_walk(n, exclude, s, targets, next, fuel).unwrap().1.gathered(
                s,
                exclude,
                n,
                self.overwrite_walk(n, exclude, s, targets, next, fuel).unwrap().0,
            ),
        decreases fuel,
    {
        if targets.len() >= n {
            let bound = cyclic_distance(s, next);
            assert forall|b: Address| #[trigger] targets.contains(b) <==> self.valid(b) && !excluded(
                exclude,
                b,
            ) && cyclic_distance(s, b) < bound by {
                if targets.contains(b) {
                    assert(cyclic_distance(s, b) < bound);
                }
            }
            assert(self.segment(s, exclude, targets, bound));
            assert(self.initial_segment(s, exclude, targets));
        } else {
            let (r, d) = self.prepare(next);
            self.lemma_prepared(next);
            assert(d.valid(next)) by {
                if self.metadata.contains_key(spec_page_of(next)@) {
                    assert(d.line_count(next) == self.line_count(next));
                }
                assert(d.line_count(next) > 0);
                if self.metadata.contains_key(spec_line_of(next)@) {
                    assert(d.column_count(next) == self.column_count(next));
                }
                assert(d.column_count(next) > 0);
            }
            assert(!targets.contains(next));
            let t2 = if excluded(exclude, next) {
                targets
            } else {
                targets.insert(next)
            };
            d.lemma_extends_settled(self, s);
            let n2 = d.step(next);
            d.lemma_step(s, next);
            d.lemma_step_tail(next);
            lemma_cyclic_distance(s, next, n2);
            assert forall|b: Address| cyclic_distance(s, b) < cyclic_distance(s, next) implies #[trigger] d.fixed(b)
                && d.valid(b) == self.valid(b) by {
                assert(self.fixed(b));
                d.lemma_fixed_extends(self, b);
            }
            assert forall|b: Address|
                cyclic_distance(s, next) < cyclic_distance(s, b) && (n2 == s || cyclic_distance(s, b)
                    < cyclic_distance(s, n2)) implies #[trigger] d.fixed(b) && !d.valid(b) by {
                lemma_cyclic_distance(s, b, b);
                assert(key(next) < key(b) && (key(b) < key(n2) || key(n2) <= key(next)));
            }
            if n2 == s {
                assert forall|b: Address| #[trigger] d.fixed(b) by {
                    lemma_cyclic_distance(s, b, next);
                    if cyclic_distance(s, b) < cyclic_distance(s, next) {
                    } else if b == next {
                    } else {
                        assert(cyclic_distance(s, next) < cyclic_distance(s, b));
                    }
                }
                assert forall|b: Address|
                    #![trigger t2.contains(b)]
                    #![trigger d.valid(b)]
                    t2.contains(b) <==> d.valid(b) && !excluded(exclude, b) by {
                    lemma_cyclic_distance(s, b, next);
                    if d.valid(b) {
                        assert(cyclic_distance(s, b) <= cyclic_distance(s, next));
                    }
                    if targets.contains(b) {
                        assert(cyclic_distance(s, b) < cyclic_distance(s, next));
                    }
                    if cyclic_distance(s, b) < cyclic_distance(s, next) {
                        assert(targets.contains(b) <==> self.valid(b) && !excluded(exclude, b));
                    }
                }
                if t2.len() < n {
                    assert(d.covers(exclude, t2));
                    assert(d.covers(exclude, t2) && t2.finite() && t2.len() < n);
                    assert(d.too_few(exclude, n));
                } else {
                    assert forall|b: Address| #[trigger] t2.contains(b) <==> d.valid(b) && !excluded(
                        exclude,
                        b,
                    ) && cyclic_distance(s, b) < 4294967296 by {
                        lemma_cyclic_distance(s, b, b);
                    }
                    assert(d.segment(s, exclude, t2, 4294967296));
                    assert(d.initial_segment(s, exclude, t2));
                }
            } else {
                assert forall|b: Address|
                    cyclic_distance(s, b) < cyclic_distance(s, n2) implies #[trigger] d.fixed(b) by {
                    lemma_cyclic_distance(s, b, next);
                }
                assert forall|b: Address|
                    #![trigger t2.contains(b)]
                    #![trigger d.valid(b)]
                    cyclic_distance(s, b) < cyclic_distance(s, n2) implies (t2.contains(b) <==> d.valid(b)
                        && !excluded(exclude, b)) by {
                    lemma_cyclic_distance(s, b, next);
                    if targets.contains(b) {
                        assert(cyclic_distance(s, b) < cyclic_distance(s, next));
                    }
                    if cyclic_distance(s, b) < cyclic_distance(s, next) {
                        assert(targets.contains(b) <==> self.valid(b) && !excluded(exclude, b));
                    }
                }
                assert forall|b: Address| #[trigger] t2.contains(b) implies cyclic_distance(s, b)
                    < cyclic_distance(s, n2) by {
                    if targets.contains(b) {
                        assert(cyclic_distance(s, b) < cyclic_distance(s, next));
                    }
                }
                d.lemma_first_lap(s, n, exclude, t2, n2, (fuel - 1) as nat);
            }
        }
    }

    /// Gathering `n` overwrite targets from `s` fails with `InvalidAddress`
    /// for `s` out of bounds; else, on the data it leaves, it gives the
    /// addresses within bounds and not excluded up to some distance from `s`
    /// in cyclic order, or fails with `MaxCellLimitExceeded` when fewer than
    /// `n` such addresses exist.
    pub proof fn lemma_overwrite_targets(
        self,
        n: nat,
        s: Address,
        exclude: Option<Seq<Address>>,
    )
        requires
            self.counts_positive(),
            self.targets_end(n, s, true, exclude),
        ensures
            self.targets(n, s, true, exclude).0 == Err::<Set<Address>, Error>(Error::InvalidAddress(s))
                || self.targets(n, s, true, exclude).1.gathered(
                s,
                exclude,
                n,
                self.targets(n, s, true, exclude).0,
            ),
    {
        let f = choose|f: nat| #[trigger] self.targets_with_fuel(n, s, true, exclude, f) is Some;
        self.lemma_targets_fuel(n, s, true, exclude, f);
        let e = Set::<Address>::empty();
        assert(e.len() == 0);
        if n == 0 {
            assert(self.segment(s, exclude, e, 0));
            assert(self.initial_segment(s, exclude, e));
        } else {
            let (r, d) = self.prepare(s);
            if r is Ok {
                self.lemma_prepared(s);
                let t1 = if excluded(exclude, s) {
                    e
                } else {
                    e.insert(s)
                };
                let n1 = d.step(s);
                d.lemma_step(s, s);
                d.lemma_step_tail(s);
                lemma_cyclic_distance(s, s, n1);
                assert forall|b: Address|
                    0 < cyclic_distance(s, b) && (n1 == s || cyclic_distance(s, b) < cyclic_distance(
                        s,
                        n1,
                    )) implies #[trigger] d.fixed(b) && !d.valid(b) by {
                    lemma_cyclic_distance(s, b, b);
                    lemma_cyclic_distance(s, b, s);
                    assert(key(s) < key(b) && (key(b) < key(n1) || key(n1) <= key(s)));
                }
                if n1 == s {
                    assert forall|b: Address| #[trigger] d.fixed(b) by {
                        lemma_cyclic_distance(s, b, s);
                    }
                    assert forall|b: Address|
                        #![trigger t1.contains(b)]
                        #![trigger d.valid(b)]
                        t1.contains(b) <==> d.valid(b) && !excluded(exclude, b) by {
                        lemma_cyclic_distance(s, b, s);
                    }
                    if t1.len() < n {
                    assert(self.overwrite_walk(n, exclude, s, e, s, f) == Some(
                        (Err::<Set<Address>, Error>(Error::MaxCellLimitExceeded), d),
                    ));
                    assert(d.covers(exclude, t1));
                    assert(d.covers(exclude, t1) && t1.finite() && t1.len() < n);
                    assert(d.too_few(exclude, n));
                } else {
                    assert(self.overwrite_walk(n, exclude, s, e, s, f) == d.overwrite_walk(
                        n,
                        exclude,
                        s,
                        t1,
                        n1,
                        (f - 1) as nat,
                    ));
                    assert forall|b: Address| #[trigger] t1.contains(b) <==> d.valid(b) && !excluded(
                        exclude,
                        b,
                    ) && cyclic_distance(s, b) < 4294967296 by {
                        lemma_cyclic_distance(s, b, b);
                    }
                    assert(d.segment(s, exclude, t1, 4294967296));
                    assert(d.initial_segment(s, exclude, t1));
                }
                } else {
                    assert forall|b: Address|
                        cyclic_distance(s, b) < cyclic_distance(s, n1) implies #[trigger] d.fixed(b) by {
                        lemma_cyclic_distance(s, b, s);
                    }
                    assert forall|b: Address|
                        #![trigger t1.contains(b)]
                        #![trigger d.valid(b)]
                        cyclic_distance(s, b) < cyclic_distance(s, n1) implies (t1.contains(b) <==> d.valid(
                            b,
                        ) && !excluded(exclude, b)) by {
                        lemma_cyclic_distance(s, b, s);
                    }
                    assert forall|b: Address| #[trigger] t1.contains(b) implies cyclic_distance(s, b)
                        < cyclic_distance(s, n1) by {
                        lemma_cyclic_distance(s, b, s);
                    }
                    assert(self.overwrite_walk(n, exclude, s, e, s, f) == d.overwrite_walk(
                        n,
                        exclude,
                        s,
                        t1,
                        n1,
                        (f - 1) as nat,
                    ));
                    d.lemma_first_lap(s, n, exclude, t1, n1, (f - 1) as nat);
                }
            }
        }
    }
}


/// Distances from `t` follow from distances from `s`: an address at or after
/// `t` in cyclic order from `s` is as far from `t` as it is beyond it, and one
/// before `t` is reached from `t` by wrapping around.
pub proof fn lemma_cyclic_shift(s: Address, t: Address, b: Address)
    ensures
        cyclic_distance(t, b) == if cyclic_distance(s, b) >= cyclic_distance(s, t) {
            cyclic_distance(s, b) - cyclic_distance(s, t)
        } else {
            cyclic_distance(s, b) - cyclic_distance(s, t) + 4294967296
        },
{
}

impl DataModel {
    /// The data is `base` with more groups prepared, under formats that
    /// prepare nothing of their own: the cells and the bounds of every address
    /// are those of `base`.
    pub open spec fn plain(self, base: DataModel) -> bool {
        &&& self.counts_positive()
        &&& self.page_hook is Default
        &&& self.line_hook is Default
        &&& self.cells == base.cells
        &&& forall|b: Address| #[trigger] self.valid(b) == base.valid(b)
    }

    /// Preparing an address under such formats keeps the data plain.
    pub proof fn lemma_plain_prepared(self, base: DataModel, a: Address)
        requires
            self.plain(base),
        ensures
            self.prepared(a).plain(base),
    {
        self.lemma_prepared(a);
        let d1 = self.page_ready(a);
        let d2 = d1.line_ready(a);
        assert forall|b: Address| #[trigger] d2.valid(b) == base.valid(b) by {
            assert(d1.line_count(b) == self.line_count(b));
            assert(d1.column_count(b) == self.column_count(b));
            assert(d2.line_count(b) == d1.line_count(b));
            assert(d2.column_count(b) == d1.column_count(b));
            assert(self.valid(b) == base.valid(b));
        }
    }

    /// The set holds exactly the free addresses (within bounds and holding
    /// no color) that are not excluded and lie below `bound` in cyclic order
    /// from `s`.
    pub open spec fn free_bounded(
        self,
        s: Address,
        exclude: Option<Seq<Address>>,
        ts: Set<Address>,
        bound: int,
    ) -> bool {
        forall|b: Address|
            #[trigger] ts.contains(b) <==> self.valid(b) && !self.colored(b) && !excluded(exclude, b)
                && cyclic_distance(s, b) < bound
    }

    /// The set holds exactly the free addresses not excluded up to some
    /// distance from `s` in cyclic order.
    pub open spec fn free_segment(
        self,
        s: Address,
        exclude: Option<Seq<Address>>,
        ts: Set<Address>,
    ) -> bool {
        exists|bound: int| #[trigger] self.free_bounded(s, exclude, ts, bound)
    }

    /// The set holds every free address that is not excluded.
    pub open spec fn covers_free(self, exclude: Option<Seq<Address>>, ts: Set<Address>) -> bool {
        forall|b: Address|
            self.valid(b) && !self.colored(b) && !excluded(exclude, b) ==> #[trigger] ts.contains(b)
    }

    /// Fewer than `n` free addresses are not excluded.
    pub open spec fn too_few_free(self, exclude: Option<Seq<Address>>, n: nat) -> bool {
        exists|ts: Set<Address>| #[trigger] self.covers_free(exclude, ts) && ts.finite() && ts.len() < n
    }

    /// The first lap of a free walk from `s` gathers the free addresses not
    /// excluded in cyclic order; where the walk ends with targets, they are
    /// such a segment.
    pub proof fn lemma_free_first_lap(
        self,
        base: DataModel,
        s: Address,
        n: nat,
        exclude: Option<Seq<Address>>,
        targets: Set<Address>,
        next: Address,
        fuel: nat,
    )
        requires
            self.plain(base),
            base.valid(s),
            base.valid(next),
            next == s || !base.colored(next),
            base.free_bounded(s, exclude, targets, cyclic_distance(s, next) + 1),
            targets.finite(),
            self.free_walk(n, exclude, s, targets, next, fuel) is Some,
        ensures
            match self.free_walk(n, exclude, s, targets, next, fuel).unwrap().0 {
                Ok(ts) => base.free_segment(s, exclude, ts),
                Err(e) => e == Error::MaxCellLimitExceeded && base.too_few_free(exclude, n),
            },
        decreases fuel,
    {
        if targets.len() < n {
            let t = self.step(next);
            self.lemma_step(s, next);
            self.lemma_plain_prepared(base, t);
            let d = self.prepared(t);
            assert(self.first_free(t).1 == d);
            if exists|w: Address| d.valid(w) && !d.colored(w) {
                let w = choose|w: Address| d.valid(w) && !d.colored(w);
                d.lemma_first_free_exists(t, w);
                let x = choose|x: Address| d.first_free_at(t, x);
                assert(self.first_free(t).0 == Ok::<Address, Error>(x));
                assert(base.valid(x) && !base.colored(x));
                lemma_cyclic_distance(s, x, next);
                lemma_cyclic_distance(s, t, next);
                let t2 = if excluded(exclude, x) {
                    targets
                } else {
                    targets.insert(x)
                };
                if t != s && cyclic_distance(s, t) <= cyclic_distance(s, x) {
                    assert forall|b: Address| #[trigger] t2.contains(b) <==> base.valid(b)
                        && !base.colored(b) && !excluded(exclude, b) && cyclic_distance(s, b)
                        < cyclic_distance(s, x) + 1 by {
                        lemma_cyclic_distance(s, b, x);
                        lemma_cyclic_shift(s, t, b);
                        lemma_cyclic_shift(s, t, x);
                        assert(targets.contains(b) <==> base.valid(b) && !base.colored(b)
                            && !excluded(exclude, b) && cyclic_distance(s, b) < cyclic_distance(s, next) + 1);
                        if cyclic_distance(s, t) <= cyclic_distance(s, b) < cyclic_distance(s, x) {
                            assert(d.valid(b) ==> d.colored(b));
                        }
                        if cyclic_distance(s, next) < cyclic_distance(s, b) < cyclic_distance(s, t) {
                            assert(!self.valid(b));
                        }
                    }
                    d.lemma_free_first_lap(base, s, n, exclude, t2, x, (fuel - 1) as nat);
                } else {
                    assert forall|b: Address|
                        base.valid(b) && !base.colored(b) && !excluded(exclude, b) implies #[trigger] targets.contains(b) by {
                        lemma_cyclic_distance(s, b, next);
                        lemma_cyclic_shift(s, t, b);
                        lemma_cyclic_shift(s, t, x);
                        if cyclic_distance(s, next) < cyclic_distance(s, b) {
                            assert(self.valid(b));
                            if t != s {
                                assert(cyclic_distance(s, t) <= cyclic_distance(s, b));
                                assert(d.valid(b) && cyclic_distance(t, b) < cyclic_distance(t, x));
                            }
                        }
                    }
                    assert(cyclic_distance(s, x) <= cyclic_distance(s, next)) by {
                        lemma_cyclic_shift(s, t, x);
                        assert(self.valid(x));
                    }
                    assert(base.covers_free(exclude, targets) && targets.finite() && targets.len() < n);
                }
            } else {
                assert forall|b: Address|
                    base.valid(b) && !base.colored(b) && !excluded(exclude, b) implies #[trigger] Set::<
                    Address,
                >::empty().contains(b) by {
                    assert(d.valid(b) == base.valid(b));
                    assert(!(d.valid(b) && !d.colored(b)));
                }
                assert(base.covers_free(exclude, Set::empty()) && Set::<Address>::empty().finite()
                    && Set::<Address>::empty().len() < n);
            }
        } else {
            assert(base.free_bounded(s, exclude, targets, cyclic_distance(s, next) + 1));
        }
    }

    /// Under formats that prepare nothing of their own, free targets found
    /// from `s` are the free addresses not excluded up to some distance from
    /// `s` in cyclic order: with as many of them as were asked for, the first
    /// ones from `s` on.
    pub proof fn lemma_free_targets_segment(
        self,
        n: nat,
        s: Address,
        exclude: Option<Seq<Address>>,
    )
        requires
            self.counts_positive(),
            self.page_hook is Default,
            self.line_hook is Default,
        ensures
            self.targets_end(n, s, false, exclude),
            match self.targets(n, s, false, exclude).0 {
                Ok(ts) => self.free_segment(s, exclude, ts),
                Err(e) => e == Error::InvalidAddress(s) || (e == Error::MaxCellLimitExceeded
                    && self.too_few_free(exclude, n)),
            },
    {
        self.lemma_targets_end(n, s, false, exclude);
        let f = choose|f: nat| #[trigger] self.targets_with_fuel(n, s, false, exclude, f) is Some;
        self.lemma_targets_fuel(n, s, false, exclude, f);
        assert(self.plain(self));
        self.lemma_plain_prepared(self, s);
        let (r, d) = self.prepare(s);
        if n == 0 {
            assert(self.free_bounded(s, exclude, Set::empty(), 0));
        } else if r is Ok {
            let t = if !d.colored(s) && !excluded(exclude, s) {
                set![s]
            } else {
                Set::empty()
            };
            assert forall|b: Address| #[trigger] t.contains(b) <==> self.valid(b) && !self.colored(b)
                && !excluded(exclude, b) && cyclic_distance(s, b) < cyclic_distance(s, s) + 1 by {
                lemma_cyclic_distance(s, b, s);
            }
            d.lemma_free_first_lap(self, s, n, exclude, t, s, f);
        }
    }
}

} // verus!
