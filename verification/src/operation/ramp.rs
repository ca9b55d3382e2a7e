//! Ramps: runs of cells whose colors blend linearly between two others.
use vstd::prelude::*;
use crate::address::{Address, key, lemma_key_injective};
use crate::data::{Data, DataModel, ascending, opt_addresses};
use crate::data_text::lemma_sorted_unique;
use crate::expression::Expression;
use crate::operation::{
    HistoryEntry, InfoView, OperationInfo, PaletteOperation, Undo, lemma_set_target_step,
    lemma_source_step, on_track, patched, set_target, set_target_outcome, source, source_outcome,
};
use crate::render::{
    address_debug, bool_debug, opt_address_debug, push_address_debug, push_bool_debug,
    push_opt_address_debug,
};
use crate::result::Error;
use crate::text::{decimal, push_decimal};

verus! {

/// The `Debug` text of an `InsertRamp` with the given fields.
pub open spec fn insert_ramp_debug_text(
    location: Option<Address>,
    from: Address,
    to: Address,
    count: usize,
    overwrite: bool,
    make_sources: bool,
) -> Seq<char> {
    "InsertRamp { location: "@ + opt_address_debug(location) + ", from: "@ + address_debug(from)
        + ", to: "@ + address_debug(to) + ", count: "@ + decimal(count as nat) + ", overwrite: "@
        + bool_debug(overwrite) + ", make_sources: "@ + bool_debug(make_sources) + " }"@
}

/// Returns the `Debug` text of an `InsertRamp`.
fn insert_ramp_details(op: &InsertRamp) -> (r: String)
    ensures
        r@ == insert_ramp_debug_text(
            op.location,
            op.from,
            op.to,
            op.count,
            op.overwrite,
            op.make_sources,
        ),
{
    let mut out = String::new();
    out.append("InsertRamp { location: ");
    push_opt_address_debug(&mut out, op.location);
    out.append(", from: ");
    push_address_debug(&mut out, op.from);
    out.append(", to: ");
    push_address_debug(&mut out, op.to);
    out.append(", count: ");
    push_decimal(&mut out, op.count as u64);
    out.append(", overwrite: ");
    push_bool_debug(&mut out, op.overwrite);
    out.append(", make_sources: ");
    push_bool_debug(&mut out, op.make_sources);
    out.append(" }");
    proof {
        assert(out@ =~= insert_ramp_debug_text(
            op.location,
            op.from,
            op.to,
            op.count,
            op.overwrite,
            op.make_sources,
        ));
    }
    out
}

/// The addresses of a set in increasing order.
pub open spec fn in_order(ts: Set<Address>) -> Seq<Address> {
    choose|s: Seq<Address>| ascending(s) && s.to_set() == ts
}

/// An address missing from addresses in increasing order has a place among
/// them: those before it are smaller, those from it on larger.
proof fn lemma_insert_position(s: Seq<Address>, x: Address) -> (k: int)
    requires
        ascending(s),
        !s.contains(x),
    ensures
        0 <= k <= s.len(),
        forall|i: int| 0 <= i < k ==> key(#[trigger] s[i]) < key(x),
        forall|i: int| k <= i < s.len() ==> key(x) < key(#[trigger] s[i]),
    decreases s.len(),
{
    if s.len() == 0 {
        0
    } else if key(s.last()) < key(x) {
        assert forall|i: int| 0 <= i < s.len() implies key(#[trigger] s[i]) < key(x) by {
            if i < s.len() - 1 {
                assert(key(s[i]) < key(s[s.len() - 1]));
            }
        }
        s.len() as int
    } else {
        let n = s.len() - 1;
        assert(s[n] != x);
        lemma_key_injective(x, s[n]);
        let t = s.drop_last();
        assert(!t.contains(x)) by {
            if t.contains(x) {
                let i = choose|i: int| 0 <= i < t.len() && t[i] == x;
                assert(s[i] == x);
            }
        }
        assert(ascending(t)) by {
            assert forall|i: int, j: int| 0 <= i < j < t.len() implies key(#[trigger] t[i]) < key(
                #[trigger] t[j],
            ) by {
                assert(key(s[i]) < key(s[j]));
            }
        }
        let k = lemma_insert_position(t, x);
        assert forall|i: int| k <= i < s.len() implies key(x) < key(#[trigger] s[i]) by {
            if i < n {
                assert(t[i] == s[i]);
            }
        }
        assert forall|i: int| 0 <= i < k implies key(#[trigger] s[i]) < key(x) by {
            assert(t[i] == s[i]);
        }
        k
    }
}

/// Every finite set of addresses can be listed in increasing order.
proof fn lemma_ordered_exists(ts: Set<Address>)
    requires
        ts.finite(),
    ensures
        exists|s: Seq<Address>| ascending(s) && s.to_set() == ts,
    decreases ts.len(),
{
    if ts.len() == 0 {
        let e = Seq::<Address>::empty();
        assert forall|y: Address| !ts.contains(y) by {
            if ts.contains(y) {
                assert(ts.remove(y).len() + 1 == ts.len());
            }
        }
        assert(e.to_set() =~= ts);
        assert(ascending(e));
    } else {
        let x = ts.choose();
        assert(ts.contains(x)) by {
            if !ts.contains(x) {
                assert(ts =~= Set::<Address>::empty());
            }
        }
        let rest = ts.remove(x);
        lemma_ordered_exists(rest);
        let s0 = choose|s: Seq<Address>| ascending(s) && s.to_set() == rest;
        assert(!s0.contains(x)) by {
            if s0.contains(x) {
                assert(s0.to_set().contains(x));
            }
        }
        let k = lemma_insert_position(s0, x);
        let t = s0.subrange(0, k).push(x) + s0.subrange(k, s0.len() as int);
        assert(t.len() == s0.len() + 1);
        assert forall|i: int| 0 <= i < t.len() implies #[trigger] t[i] == (if i < k {
            s0[i]
        } else if i == k {
            x
        } else {
            s0[i - 1]
        }) by {}
        assert(ascending(t)) by {
            assert forall|i: int, j: int| 0 <= i < j < t.len() implies key(#[trigger] t[i]) < key(
                #[trigger] t[j],
            ) by {
                if j < k {
                    assert(key(s0[i]) < key(s0[j]));
                } else if j == k {
                } else if i < k {
                    assert(key(s0[i]) < key(s0[j - 1]));
                } else if i == k {
                } else {
                    assert(key(s0[i - 1]) < key(s0[j - 1]));
                }
            }
        }
        assert forall|y: Address| #[trigger] t.to_set().contains(y) <==> ts.contains(y) by {
            if ts.contains(y) {
                if y == x {
                    assert(t[k] == x);
                } else {
                    assert(rest.contains(y));
                    assert(s0.to_set().contains(y));
                    let m = choose|m: int| 0 <= m < s0.len() && s0[m] == y;
                    if m < k {
                        assert(t[m] == y);
                    } else {
                        assert(t[m + 1] == y);
                    }
                }
            }
            if t.to_set().contains(y) {
                let m = choose|m: int| 0 <= m < t.len() && t[m] == y;
                if m < k {
                    assert(s0.to_set().contains(s0[m]));
                } else if m > k {
                    assert(s0.to_set().contains(s0[m - 1]));
                }
            }
        }
        assert(t.to_set() =~= ts);
    }
}

/// The addresses of a finite set in increasing order are each of them once.
pub proof fn lemma_in_order(ts: Set<Address>)
    requires
        ts.finite(),
    ensures
        ascending(in_order(ts)),
        in_order(ts).to_set() == ts,
        in_order(ts).no_duplicates(),
        in_order(ts).len() == ts.len(),
{
    lemma_ordered_exists(ts);
    let s = in_order(ts);
    assert(s.no_duplicates()) by {
        assert forall|i: int, j: int| 0 <= i < j < s.len() implies s[i] != s[j] by {
            assert(key(s[i]) < key(s[j]));
        }
    }
    s.unique_seq_to_set();
}

/// The expression of step `step` of a ramp of `count` cells from `from` to
/// `to`.
pub open spec fn ramp_step(from: Address, to: Address, step: nat, count: usize) -> Expression {
    Expression::Ramp { from: from, to: to, step: step as usize, count: count }
}

/// The outcome of preparing the addresses of `ts` in turn; the first one out
/// of bounds fails with `InvalidAddress`.
pub open spec fn prepare_all(d: DataModel, ts: Seq<Address>) -> (Result<(), Error>, DataModel)
    decreases ts.len(),
{
    if ts.len() == 0 {
        (Ok(()), d)
    } else {
        let (r, d1) = prepare_all(d, ts.drop_last());
        match r {
            Err(x) => (Err(x), d1),
            Ok(_) => d1.prepare(ts.last()),
        }
    }
}

/// The outcome of setting the cells of `ts` in turn, the one at index `i` to
/// step `i + 1` of the ramp from `from` to `to`; the changes record what
/// each held.
pub open spec fn fill_outcome(
    d: DataModel,
    ts: Seq<Address>,
    from: Address,
    to: Address,
    count: usize,
    changes: Map<Address, Option<Expression>>,
) -> (Result<(), Error>, DataModel, Map<Address, Option<Expression>>)
    decreases ts.len(),
{
    if ts.len() == 0 {
        (Ok(()), d, changes)
    } else {
        let (r, d1, u1) = fill_outcome(d, ts.drop_last(), from, to, count, changes);
        match r {
            Err(x) => (Err(x), d1, u1),
            Ok(_) => set_target_outcome(d1, ts.last(), ramp_step(from, to, ts.len(), count), u1),
        }
    }
}

/// The outcome of placing a ramp on the targets `ts`, found in `d`: they
/// are prepared in turn, and so is the `to` source where it is missing and
/// sources are made, so that the operation fails before it changes any cell
/// where one of them lies out of bounds; the two source cells are looked up
/// (each created if it is missing and sources are made, else an
/// `InvalidAddress` error); the target at index `i` is set to step `i + 1`
/// of the ramp. The changes, from `changes` on, record what each target held
/// and the creation of the sources.
pub open spec fn ramp_tail(
    d: DataModel,
    ts: Seq<Address>,
    from: Address,
    to: Address,
    make_sources: bool,
    count: usize,
    changes: Map<Address, Option<Expression>>,
) -> (Result<Map<Address, Option<Expression>>, Error>, DataModel) {
    let (rp, dp0) = prepare_all(d, ts);
    let (rq, dp) = match rp {
        Err(x) => (Err(x), dp0),
        Ok(_) => if make_sources && !dp0.cells.contains_key(to) {
            dp0.prepare(to)
        } else {
            (Ok(()), dp0)
        },
    };
    match rq {
        Err(x) => (Err(x), dp),
        Ok(_) => {
            let (ra, da, ua) = source_outcome(dp, from, make_sources, changes);
            match ra {
                Err(x) => (Err(x), da),
                Ok(_) => {
                    let (rb, db, ub) = source_outcome(da, to, make_sources, ua);
                    match rb {
                        Err(x) => (Err(x), db),
                        Ok(_) => {
                            let (rf, df, uf) = fill_outcome(db, ts, from, to, count, ub);
                            match rf {
                                Ok(_) => (Ok(uf), df),
                                Err(x) => (Err(x), df),
                            }
                        },
                    }
                },
            }
        },
    }
}

/// Placing a ramp on distinct targets apart from the sources keeps the
/// data consistent, and the recorded changes restore the cells it started
/// from; a failure leaves the cells as they were.
proof fn lemma_ramp_tail(
    base: DataModel,
    d: DataModel,
    ts: Seq<Address>,
    from: Address,
    to: Address,
    make_sources: bool,
    count: usize,
)
    requires
        d.counts_positive(),
        d.cells_settled(),
        d.extends(base),
        d.cells == base.cells,
        ts.no_duplicates(),
        forall|i: int| 0 <= i < ts.len() ==> #[trigger] ts[i] != from && ts[i] != to,
    ensures
        ramp_tail(d, ts, from, to, make_sources, count, Map::empty()).1.counts_positive(),
        ramp_tail(d, ts, from, to, make_sources, count, Map::empty()).1.cells_settled(),
        ramp_tail(d, ts, from, to, make_sources, count, Map::empty()).1.extends(base),
        match ramp_tail(d, ts, from, to, make_sources, count, Map::empty()).0 {
            Ok(changes) => crate::operation::restorable(
                changes,
                ramp_tail(d, ts, from, to, make_sources, count, Map::empty()).1,
            ) && patched(ramp_tail(d, ts, from, to, make_sources, count, Map::empty()).1.cells, changes)
                == base.cells,
            Err(_) => ramp_tail(d, ts, from, to, make_sources, count, Map::empty()).1.cells
                == base.cells,
        },
{
    lemma_prepare_all_keeps(d, ts);
    let (rp, dp0) = prepare_all(d, ts);
    dp0.lemma_extends_trans(d, base);
    let (rq, dp) = match rp {
        Err(x) => (Err(x), dp0),
        Ok(_) => if make_sources && !dp0.cells.contains_key(to) {
            dp0.prepare(to)
        } else {
            (Ok(()), dp0)
        },
    };
    if rp is Ok && make_sources && !dp0.cells.contains_key(to) {
        dp0.lemma_prepared(to);
        dp.lemma_extends_trans(dp0, base);
        assert forall|i: int| 0 <= i < ts.len() implies dp.settled(#[trigger] ts[i]) by {
            dp.lemma_extends_settled(dp0, ts[i]);
        }
    } else {
        assert(dp.extends(dp0));
    }
    dp.lemma_extends_trans(dp0, d);
    assert forall|a: Address| #[trigger] dp.cells.contains_key(a) implies dp.settled(a) by {
        dp.lemma_extends_settled(d, a);
    }
    if rq is Ok {
        assert(rp is Ok);
        let empty = Map::<Address, Option<Expression>>::empty();
        assert(patched(dp.cells, empty) =~= base.cells);
        assert(on_track(base, dp, empty));
        lemma_source_step(base, dp, from, make_sources, empty);
        let (ra, da, ua) = source_outcome(dp, from, make_sources, empty);
        if ra is Ok {
            assert(!ua.contains_key(to) || da.cells.contains_key(to));
            lemma_source_step(base, da, to, make_sources, ua);
            if make_sources && !da.cells.contains_key(to) {
                assert(dp.settled(to));
                da.lemma_extends_settled(dp, to);
                da.lemma_prepared_settled(to);
            }
            let (rb, db, ub) = source_outcome(da, to, make_sources, ua);
            if rb is Ok {
                assert forall|i: int| 0 <= i < ts.len() implies db.settled(#[trigger] ts[i])
                    && !ub.contains_key(ts[i]) by {
                    da.lemma_extends_settled(dp, ts[i]);
                    db.lemma_extends_settled(da, ts[i]);
                }
                lemma_fill(base, db, ts, from, to, count, ub);
            }
        }
    }
}

/// Preparing stops at the first failure.
proof fn lemma_prepare_all_err(d: DataModel, ts: Seq<Address>, k: int)
    requires
        0 <= k <= ts.len(),
        prepare_all(d, ts.take(k)).0 is Err,
    ensures
        prepare_all(d, ts) == prepare_all(d, ts.take(k)),
    decreases ts.len(),
{
    if k < ts.len() {
        assert(ts.drop_last().take(k) =~= ts.take(k));
        lemma_prepare_all_err(d, ts.drop_last(), k);
    } else {
        assert(ts.take(k) =~= ts);
    }
}

/// Filling stops at the first failure.
proof fn lemma_fill_err(
    d: DataModel,
    ts: Seq<Address>,
    from: Address,
    to: Address,
    count: usize,
    changes: Map<Address, Option<Expression>>,
    k: int,
)
    requires
        0 <= k <= ts.len(),
        fill_outcome(d, ts.take(k), from, to, count, changes).0 is Err,
    ensures
        fill_outcome(d, ts, from, to, count, changes) == fill_outcome(
            d,
            ts.take(k),
            from,
            to,
            count,
            changes,
        ),
    decreases ts.len(),
{
    if k < ts.len() {
        assert(ts.drop_last().take(k) =~= ts.take(k));
        lemma_fill_err(d, ts.drop_last(), from, to, count, changes, k);
    } else {
        assert(ts.take(k) =~= ts);
    }
}

/// Preparing keeps the cells and the settings; once it succeeds, every
/// address of `ts` is settled.
proof fn lemma_prepare_all_keeps(d: DataModel, ts: Seq<Address>)
    requires
        d.counts_positive(),
    ensures
        prepare_all(d, ts).1.counts_positive(),
        prepare_all(d, ts).1.cells == d.cells,
        prepare_all(d, ts).1.extends(d),
        prepare_all(d, ts).0 is Ok ==> forall|i: int|
            0 <= i < ts.len() ==> prepare_all(d, ts).1.settled(#[trigger] ts[i]),
    decreases ts.len(),
{
    if ts.len() == 0 {
        assert(d.extends(d));
    } else {
        let t = ts.drop_last();
        lemma_prepare_all_keeps(d, t);
        let (r, d1) = prepare_all(d, t);
        if r is Ok {
            let a = ts.last();
            d1.lemma_prepared(a);
            let d2 = d1.prepared(a);
            d2.lemma_extends_trans(d1, d);
            if d2.valid(a) {
                assert forall|i: int| 0 <= i < ts.len() implies d2.settled(#[trigger] ts[i]) by {
                    if i < ts.len() - 1 {
                        assert(t[i] == ts[i]);
                        d2.lemma_extends_settled(d1, ts[i]);
                    }
                }
            }
        }
    }
}

/// The cell set by a successful `set_target_outcome` holds the expression;
/// every other cell is kept.
proof fn lemma_set_target_cells(
    d: DataModel,
    t: Address,
    e: Expression,
    changes: Map<Address, Option<Expression>>,
)
    ensures
        set_target_outcome(d, t, e, changes).0 is Ok ==> {
            let c = set_target_outcome(d, t, e, changes).1.cells;
            &&& c.contains_key(t)
            &&& c[t] == e
            &&& forall|b: Address|
                b != t ==> (#[trigger] c.contains_key(b) <==> d.cells.contains_key(b)) && (
                d.cells.contains_key(b) ==> c[b] == d.cells[b])
        },
{
}

/// With every target settled and unrecorded, filling succeeds, keeps the
/// data on track, and records changes only for the targets.
proof fn lemma_fill(
    base: DataModel,
    d: DataModel,
    ts: Seq<Address>,
    from: Address,
    to: Address,
    count: usize,
    changes: Map<Address, Option<Expression>>,
)
    requires
        on_track(base, d, changes),
        ts.no_duplicates(),
        forall|i: int|
            0 <= i < ts.len() ==> d.settled(#[trigger] ts[i]) && !changes.contains_key(ts[i]),
    ensures
        fill_outcome(d, ts, from, to, count, changes).0 is Ok,
        on_track(
            base,
            fill_outcome(d, ts, from, to, count, changes).1,
            fill_outcome(d, ts, from, to, count, changes).2,
        ),
        fill_outcome(d, ts, from, to, count, changes).1.extends(d),
        forall|b: Address|
            #[trigger] fill_outcome(d, ts, from, to, count, changes).2.contains_key(b)
                ==> changes.contains_key(b) || ts.contains(b),
    decreases ts.len(),
{
    if ts.len() > 0 {
        let t = ts.drop_last();
        let a = ts.last();
        assert(t.no_duplicates());
        assert forall|i: int| 0 <= i < t.len() implies d.settled(#[trigger] t[i]) && !changes.contains_key(
            t[i],
        ) by {
            assert(ts[i] == t[i]);
        }
        lemma_fill(base, d, t, from, to, count, changes);
        let (r1, d1, u1) = fill_outcome(d, t, from, to, count, changes);
        assert(d.settled(ts[ts.len() - 1]));
        d1.lemma_extends_settled(d, a);
        assert(!u1.contains_key(a)) by {
            if u1.contains_key(a) {
                if !changes.contains_key(a) {
                    let m = choose|m: int| 0 <= m < t.len() && t[m] == a;
                    assert(ts[m] == ts[ts.len() - 1]);
                }
            }
        }
        let e = ramp_step(from, to, ts.len(), count);
        lemma_set_target_step(base, d1, a, e, u1);
        let d2 = set_target_outcome(d1, a, e, u1).1;
        d2.lemma_extends_trans(d1, d);
        assert forall|b: Address| #[trigger] set_target_outcome(d1, a, e, u1).2.contains_key(b)
            implies changes.contains_key(b) || ts.contains(b) by {
            if b == a {
                assert(ts[ts.len() - 1] == a);
            } else if !changes.contains_key(b) {
                assert(u1.contains_key(b));
                let m = choose|m: int| 0 <= m < t.len() && t[m] == b;
                assert(ts[m] == b);
            }
        }
    } else {
        assert(d.extends(d));
    }
}

/// Prepares the addresses of `ts` in turn.
fn prepare_targets(data: &mut Data, ts: &Vec<Address>) -> (r: Result<(), Error>)
    ensures
        (r, final(data)@) == prepare_all(old(data)@, ts@),
{
    let ghost d = data@;
    let mut i: usize = 0;
    while i < ts.len()
        invariant
            i <= ts@.len(),
            d == old(data)@,
            prepare_all(d, ts@.take(i as int)) == (Ok::<(), Error>(()), data@),
        decreases ts@.len() - i,
    {
        proof {
            assert(ts@.take(i + 1).drop_last() =~= ts@.take(i as int));
        }
        match data.prepare_address(ts[i]) {
            Ok(_) => {},
            Err(x) => {
                proof {
                    lemma_prepare_all_err(d, ts@, i + 1);
                }
                return Err(x);
            },
        }
        i = i + 1;
    }
    proof {
        assert(ts@.take(ts@.len() as int) =~= ts@);
    }
    Ok(())
}

/// Sets the cells of `ts` in turn, the one at index `i` to step `i + 1` of
/// the ramp from `from` to `to`, recording the changes in `undo`.
fn fill_targets(
    data: &mut Data,
    ts: &Vec<Address>,
    from: Address,
    to: Address,
    count: usize,
    undo: &mut Undo,
) -> (r: Result<(), Error>)
    requires
        ascending(ts@),
    ensures
        (r, final(data)@, final(undo)@) == fill_outcome(old(data)@, ts@, from, to, count, old(undo)@),
        final(undo).undoing() == old(undo).undoing(),
        r is Ok ==> forall|b: Address|
            #[trigger] old(data)@.cells.contains_key(b) ==> final(data)@.cells.contains_key(b),
        r is Ok ==> forall|k: int|
            0 <= k < ts@.len() ==> final(data)@.cells.contains_key(#[trigger] ts@[k])
                && final(data)@.cells[ts@[k]] == ramp_step(from, to, (k + 1) as nat, count),
{
    let ghost d = data@;
    let ghost u = undo@;
    let ghost marker = undo.undoing();
    let mut i: usize = 0;
    while i < ts.len()
        invariant
            i <= ts@.len(),
            d == old(data)@,
            u == old(undo)@,
            marker == old(undo).undoing(),
            ascending(ts@),
            fill_outcome(d, ts@.take(i as int), from, to, count, u) == (
                Ok::<(), Error>(()),
                data@,
                undo@,
            ),
            undo.undoing() == marker,
            forall|b: Address| #[trigger] d.cells.contains_key(b) ==> data@.cells.contains_key(b),
            forall|k: int|
                0 <= k < i ==> data@.cells.contains_key(#[trigger] ts@[k]) && data@.cells[ts@[k]]
                    == ramp_step(from, to, (k + 1) as nat, count),
        decreases ts@.len() - i,
    {
        let e = Expression::Ramp { from: from, to: to, step: i + 1, count: count };
        let ghost before = data@;
        proof {
            assert(ts@.take(i + 1).drop_last() =~= ts@.take(i as int));
            assert(ts@.take(i + 1).last() == ts@[i as int]);
            lemma_set_target_cells(before, ts@[i as int], e, undo@);
        }
        match set_target(data, ts[i], e, undo) {
            Ok(_) => {},
            Err(x) => {
                proof {
                    lemma_fill_err(d, ts@, from, to, count, u, i + 1);
                }
                return Err(x);
            },
        }
        proof {
            assert forall|k: int| 0 <= k < i + 1 implies data@.cells.contains_key(#[trigger] ts@[k])
                && data@.cells[ts@[k]] == ramp_step(from, to, (k + 1) as nat, count) by {
                if k < i {
                    assert(key(ts@[k]) < key(ts@[i as int]));
                }
            }
            assert forall|b: Address| #[trigger] d.cells.contains_key(b) implies data@.cells.contains_key(b) by {
                assert(before.cells.contains_key(b));
            }
        }
        i = i + 1;
    }
    proof {
        assert(ts@.take(ts@.len() as int) =~= ts@);
    }
    Ok(())
}

/// Places a ramp on the targets `ts`: prepares them, looks up the two
/// source cells and sets the targets to the steps of the ramp.
fn place_ramp(
    data: &mut Data,
    ts: &Vec<Address>,
    from: Address,
    to: Address,
    count: usize,
    make_sources: bool,
    undo: &mut Undo,
) -> (r: Result<(), Error>)
    requires
        ascending(ts@),
    ensures
        ramp_tail(old(data)@, ts@, from, to, make_sources, count, old(undo)@) == (match r {
            Ok(_) => Ok(final(undo)@),
            Err(x) => Err(x),
        }, final(data)@),
        final(undo).undoing() == old(undo).undoing(),
        r is Ok ==> final(data)@.cells.contains_key(from) && final(data)@.cells.contains_key(to)
            && forall|k: int|
            0 <= k < ts@.len() ==> final(data)@.cells.contains_key(#[trigger] ts@[k])
                && final(data)@.cells[ts@[k]] == ramp_step(from, to, (k + 1) as nat, count),
{
    prepare_targets(data, ts)?;
    if make_sources && data.get_cell(to).is_none() {
        data.prepare_address(to)?;
    }
    source(data, from, make_sources, undo)?;
    source(data, to, make_sources, undo)?;
    let ghost before = data@;
    let r = fill_targets(data, ts, from, to, count, undo);
    proof {
        if r is Ok {
            assert(before.cells.contains_key(from));
            assert(before.cells.contains_key(to));
        }
    }
    r
}

////////////////////////////////////////////////////////////////////////////////
// InsertRamp
////////////////////////////////////////////////////////////////////////////////
/// Creates a linear color ramp of second-order cells between the colors of
/// two cells of the palette.
#[derive(Debug, Clone, Copy)]
pub struct InsertRamp {
    /// The location to start placing the ramp cells.
    location: Option<Address>,
    /// The address of the starting color of the ramp.
    from: Address,
    /// The address of the ending color of the ramp.
    to: Address,
    /// The number of cells to create.
    count: usize,
    /// Whether to overwrite existing cells when generating new ones.
    overwrite: bool,
    /// Whether to create missing source cells, rather than fail.
    make_sources: bool,
}

impl InsertRamp {
    /// The location to start placing the ramp; `None` for the first free
    /// address.
    pub closed spec fn spec_location(self) -> Option<Address> {
        self.location
    }

    /// The address of the starting color.
    pub closed spec fn spec_from(self) -> Address {
        self.from
    }

    /// The address of the ending color.
    pub closed spec fn spec_to(self) -> Address {
        self.to
    }

    /// The number of ramp cells.
    pub closed spec fn spec_count(self) -> usize {
        self.count
    }

    /// Whether existing cells may be overwritten.
    pub closed spec fn spec_overwrite(self) -> bool {
        self.overwrite
    }

    /// Whether missing source cells are created.
    pub closed spec fn spec_make_sources(self) -> bool {
        self.make_sources
    }

    /// Creates a new InsertRamp operation: `count` cells blending from the
    /// color at `from` to the color at `to`.
    pub fn new(from: Address, to: Address, count: usize) -> (r: InsertRamp)
        ensures
            r.spec_location() is None,
            r.spec_from() == from,
            r.spec_to() == to,
            r.spec_count() == count,
            !r.spec_overwrite(),
            !r.spec_make_sources(),
    {
        InsertRamp {
            location: None,
            from: from,
            to: to,
            count: count,
            overwrite: false,
            make_sources: false,
        }
    }

    /// Sets the location to start placing the ramp cells.
    pub fn located_at(self, location: Address) -> (r: InsertRamp)
        ensures
            r.spec_location() == Some(location),
            r.spec_from() == self.spec_from(),
            r.spec_to() == self.spec_to(),
            r.spec_count() == self.spec_count(),
            r.spec_overwrite() == self.spec_overwrite(),
            r.spec_make_sources() == self.spec_make_sources(),
    {
        InsertRamp { location: Some(location), ..self }
    }

    /// Configures the operation to overwrite existing cells as it places the
    /// ramp.
    pub fn overwrite(self, overwrite: bool) -> (r: InsertRamp)
        ensures
            r.spec_location() == self.spec_location(),
            r.spec_from() == self.spec_from(),
            r.spec_to() == self.spec_to(),
            r.spec_count() == self.spec_count(),
            r.spec_overwrite() == overwrite,
            r.spec_make_sources() == self.spec_make_sources(),
    {
        InsertRamp { overwrite: overwrite, ..self }
    }

    /// Configures the operation to create missing source cells, empty,
    /// instead of failing with an `InvalidAddress` error.
    pub fn make_sources(self, make_sources: bool) -> (r: InsertRamp)
        ensures
            r.spec_location() == self.spec_location(),
            r.spec_from() == self.spec_from(),
            r.spec_to() == self.spec_to(),
            r.spec_count() == self.spec_count(),
            r.spec_overwrite() == self.spec_overwrite(),
            r.spec_make_sources() == make_sources,
    {
        InsertRamp { make_sources: make_sources, ..self }
    }

    /// The start of the search for the ramp's place: the location, or else
    /// the first free address from `0:0:0` on.
    pub open spec fn spec_start(self, data: DataModel) -> (Result<Address, Error>, DataModel) {
        match self.spec_location() {
            Some(a) => (Ok(a), data),
            None => data.first_free(Address { page: 0, line: 0, column: 0 }),
        }
    }

    /// The search for the ramp's places: `count` targets from the start on,
    /// the two source addresses excluded.
    pub open spec fn spec_search(self, data: DataModel) -> (Result<Set<Address>, Error>, DataModel) {
        let (r0, d0) = self.spec_start(data);
        d0.targets(
            self.spec_count() as nat,
            r0->Ok_0,
            self.spec_overwrite(),
            Some(seq![self.spec_from(), self.spec_to()]),
        )
    }

    /// The addresses of the ramp cells in increasing order, where the search
    /// finds them.
    pub open spec fn spec_targets(self, data: DataModel) -> Seq<Address> {
        in_order(self.spec_search(data).0->Ok_0)
    }
}

impl InsertRamp {
    /// A ramp of at least one cell placed at a location apart from its
    /// sources, that may be overwritten or holds no color, has a cell at the
    /// location itself.
    pub proof fn lemma_ramp_at_location(self, data: DataModel, a: Address)
        requires
            data.counts_positive(),
            self.spec_location() == Some(a),
            self.spec_count() >= 1,
            a != self.spec_from(),
            a != self.spec_to(),
            self.spec_overwrite() || !data.colored(a),
        ensures
            self.spec_search(data).0 is Ok ==> self.spec_targets(data).contains(a),
    {
        let from = self.spec_from();
        let to = self.spec_to();
        let ex = Some(seq![from, to]);
        assert(!seq![from, to].contains(a)) by {
            if seq![from, to].contains(a) {
                let i = choose|i: int| 0 <= i < seq![from, to].len() && seq![from, to][i] == a;
                assert(seq![from, to][i] == from || seq![from, to][i] == to);
            }
        }
        data.lemma_start_among_targets(self.spec_count() as nat, a, self.spec_overwrite(), ex);
        data.lemma_targets_end(self.spec_count() as nat, a, self.spec_overwrite(), ex);
        data.lemma_targets_found(self.spec_count() as nat, a, self.spec_overwrite(), ex);
        if self.spec_search(data).0 is Ok {
            let ts = self.spec_search(data).0->Ok_0;
            lemma_in_order(ts);
            assert(in_order(ts).to_set().contains(a));
        }
    }
}

impl PaletteOperation for InsertRamp {
    open spec fn applicable(&self, data: DataModel) -> bool {
        true
    }

    open spec fn restorable(&self, data: DataModel) -> bool {
        true
    }

    /// `count` targets are found from the start on, the source addresses
    /// excluded, and the ramp is placed on them in increasing address order.
    open spec fn outcome(&self, data: DataModel) -> (
        Result<Map<Address, Option<Expression>>, Error>,
        DataModel,
    ) {
        let (r0, d0) = self.spec_start(data);
        match r0 {
            Err(x) => (Err(x), d0),
            Ok(_) => {
                let (r1, d1) = self.spec_search(data);
                match r1 {
                    Err(x) => (Err(x), d1),
                    Ok(ts) => ramp_tail(
                        d1,
                        in_order(ts),
                        self.spec_from(),
                        self.spec_to(),
                        self.spec_make_sources(),
                        self.spec_count(),
                        Map::empty(),
                    ),
                }
            },
        }
    }

    open spec fn entry_info(&self) -> InfoView {
        (
            "Insert Ramp"@,
            Some(
                insert_ramp_debug_text(
                    self.spec_location(),
                    self.spec_from(),
                    self.spec_to(),
                    self.spec_count(),
                    self.spec_overwrite(),
                    self.spec_make_sources(),
                ),
            ),
        )
    }

    fn info(&self) -> (r: OperationInfo) {
        proof {
            reveal_strlit("Insert Ramp");
        }
        OperationInfo { name: "Insert Ramp", details: Some(insert_ramp_details(self)) }
    }

    /// The entry's undo records this operation as the one it undoes; the
    /// ramp's cells, `count` of them apart from the sources, hold the steps
    /// of the ramp in increasing address order, and both source cells exist.
    fn apply(&mut self, data: &mut Data) -> (r: Result<HistoryEntry, Error>)
        ensures
            r matches Ok(e) ==> e.undo.undoing_view() == Some(old(self).entry_info()),
            r is Ok ==> ({
                let s = old(self).spec_targets(old(data)@);
                let from = old(self).spec_from();
                let to = old(self).spec_to();
                &&& s.len() == old(self).spec_count()
                &&& ascending(s)
                &&& final(data)@.cells.contains_key(from)
                &&& final(data)@.cells.contains_key(to)
                &&& forall|i: int|
                    0 <= i < s.len() ==> #[trigger] s[i] != from && s[i] != to
                        && final(data)@.cells.contains_key(s[i]) && final(data)@.cells[s[i]]
                        == ramp_step(from, to, (i + 1) as nat, old(self).spec_count())
            }),
    {
        let mut undo = Undo::new_for(self.info());
        let ghost d = data@;
        let from = self.from;
        let to = self.to;
        let starting_address = match self.location {
            Some(address) => address,
            None => data.first_free_address_after(Address::default())?,
        };
        let ghost ex = Some(seq![from, to]);
        proof {
            if self.location is None {
                d.lemma_prepared(Address { page: 0, line: 0, column: 0 });
            }
        }
        let exclude = Some(vec![from, to]);
        proof {
            assert(exclude->Some_0@ =~= seq![from, to]);
            assert(opt_addresses(exclude) == ex);
        }
        let targets = data.find_targets(self.count, starting_address, self.overwrite, exclude)?;
        proof {
            let ts = targets@.to_set();
            assert(ascending(targets@) && targets@.to_set() == ts);
            let s = in_order(ts);
            lemma_sorted_unique(s, targets@);
            assert(seq![from, to][0] == from && seq![from, to][1] == to);
            assert forall|i: int| 0 <= i < targets@.len() implies #[trigger] targets@[i] != from
                && targets@[i] != to by {
                assert(!crate::data::excluded(ex, targets@[i]));
            }
        }
        place_ramp(data, &targets, from, to, self.count, self.make_sources, &mut undo)?;
        Ok(HistoryEntry { info: self.info(), undo: undo })
    }

    proof fn lemma_outcome(&self, data: DataModel) {
        let origin = Address { page: 0, line: 0, column: 0 };
        let from = self.spec_from();
        let to = self.spec_to();
        let count = self.spec_count();
        let (r0, d0) = self.spec_start(data);
        if self.spec_location() is None {
            data.lemma_first_free_keeps(origin);
        } else {
            assert(d0.extends(data));
        }
        assert forall|a: Address| #[trigger] d0.cells.contains_key(a) implies d0.settled(a) by {
            d0.lemma_extends_settled(data, a);
        }
        if r0 is Ok {
            let start = r0->Ok_0;
            let ex = Some(seq![from, to]);
            d0.lemma_targets_end(count as nat, start, self.spec_overwrite(), ex);
            d0.lemma_targets_keep(count as nat, start, self.spec_overwrite(), ex);
            d0.lemma_targets_found(count as nat, start, self.spec_overwrite(), ex);
            let (r1, d1) = d0.targets(count as nat, start, self.spec_overwrite(), ex);
            d1.lemma_extends_trans(d0, data);
            assert forall|a: Address| #[trigger] d1.cells.contains_key(a) implies d1.settled(a) by {
                d1.lemma_extends_settled(data, a);
            }
            if r1 is Ok {
                let ts = r1->Ok_0;
                lemma_in_order(ts);
                let s = in_order(ts);
                assert(seq![from, to][0] == from && seq![from, to][1] == to);
                assert forall|i: int| 0 <= i < s.len() implies #[trigger] s[i] != from && s[i] != to by {
                    assert(s.to_set().contains(s[i]));
                    assert(!crate::data::excluded(ex, s[i]));
                }
                lemma_ramp_tail(data, d1, s, from, to, self.spec_make_sources(), count);
            }
        }
    }
}

} // verus!
