//! Operations on palette data, each of which records how to undo itself.
use vstd::prelude::*;
use crate::address::Address;
use crate::cell::Cell;
use crate::data::{Data, DataModel};
use crate::expression::Expression;
use crate::result::Error;

pub mod basic;
pub mod ramp;
pub mod undo;


pub use self::basic::{InsertCell, InsertColor, InsertWatcher, DeleteCell};
pub use self::ramp::InsertRamp;
pub use self::undo::Undo;

verus! {

/// The cells after applying recorded changes: each recorded address gets the
/// recorded expression, or loses its cell where `None` is recorded.
pub open spec fn patched(
    cells: Map<Address, Expression>,
    changes: Map<Address, Option<Expression>>,
) -> Map<Address, Expression> {
    Map::new(
        |a: Address|
            if changes.contains_key(a) {
                changes[a] is Some
            } else {
                cells.contains_key(a)
            },
        |a: Address|
            if changes.contains_key(a) {
                changes[a]->Some_0
            } else {
                cells[a]
            },
    )
}

/// The changes can be applied to the data without error: every recorded
/// address is settled, and every address recorded for removal holds a cell.
pub open spec fn restorable(changes: Map<Address, Option<Expression>>, d: DataModel) -> bool {
    forall|a: Address| #[trigger] changes.contains_key(a) ==> d.settled(a) && (changes[a] is None
        ==> d.cells.contains_key(a))
}

/// The changes after recording `x` for `a`: a recorded removal is kept,
/// anything else is replaced.
pub open spec fn recorded(
    changes: Map<Address, Option<Expression>>,
    a: Address,
    x: Option<Expression>,
) -> Map<Address, Option<Expression>> {
    if !changes.contains_key(a) || changes[a] is Some {
        changes.insert(a, x)
    } else {
        changes
    }
}

/// The outcome of looking up the source cell at `a`: a cell there is used
/// as it is; a missing one is created when `make_sources` is true, and its
/// creation recorded in `changes`; otherwise an `InvalidAddress` error.
pub open spec fn source_outcome(
    d: DataModel,
    a: Address,
    make_sources: bool,
    changes: Map<Address, Option<Expression>>,
) -> (Result<(), Error>, DataModel, Map<Address, Option<Expression>>) {
    if d.cells.contains_key(a) {
        (Ok(()), d, changes)
    } else if make_sources {
        let (r, d2) = d.create(a);
        match r {
            Ok(_) => (Ok(()), d2, recorded(changes, a, None)),
            Err(x) => (Err(x), d2, changes),
        }
    } else {
        (Err(Error::InvalidAddress(a)), d, changes)
    }
}

/// The data is consistent, extends `base`, and `changes`, which record
/// nothing at `t`, restore the cells of `base`.
pub open spec fn on_track(
    base: DataModel,
    d: DataModel,
    changes: Map<Address, Option<Expression>>,
) -> bool {
    &&& d.counts_positive()
    &&& d.cells_settled()
    &&& d.extends(base)
    &&& restorable(changes, d)
    &&& patched(d.cells, changes) == base.cells
}

/// Looking up a source keeps the data on track; a failure leaves the cells.
pub proof fn lemma_source_step(
    base: DataModel,
    d: DataModel,
    a: Address,
    make_sources: bool,
    changes: Map<Address, Option<Expression>>,
)
    requires
        on_track(base, d, changes),
        !changes.contains_key(a) || d.cells.contains_key(a),
    ensures
        source_outcome(d, a, make_sources, changes).1.counts_positive(),
        source_outcome(d, a, make_sources, changes).1.cells_settled(),
        source_outcome(d, a, make_sources, changes).1.extends(base),
        source_outcome(d, a, make_sources, changes).1.extends(d),
        match source_outcome(d, a, make_sources, changes).0 {
            Ok(_) => on_track(
                base,
                source_outcome(d, a, make_sources, changes).1,
                source_outcome(d, a, make_sources, changes).2,
            ),
            Err(_) => source_outcome(d, a, make_sources, changes).1.cells == d.cells,
        },
        forall|b: Address|
            b != a ==> (#[trigger] source_outcome(d, a, make_sources, changes).2.contains_key(b)
                <==> changes.contains_key(b)),
{
    if !d.cells.contains_key(a) && make_sources {
        d.lemma_prepared(a);
        let dp = d.prepared(a);
        let (rc, dc) = d.create(a);
        dp.lemma_extends_trans(d, base);
        assert forall|x: Address| #[trigger] dp.line_count(x) > 0 by {}
        if rc is Ok {
            let u = recorded(changes, a, None);
            assert(u =~= changes.insert(a, None));
            assert(patched(dc.cells, u) =~= base.cells);
            assert forall|x: Address| #[trigger] dc.line_count(x) > 0 by {
                assert(dp.line_count(x) > 0);
            }
            assert forall|x: Address| #[trigger] dc.column_count(x) > 0 by {
                assert(dp.column_count(x) > 0);
            }
            assert forall|x: Address| #[trigger] dc.cells.contains_key(x) implies dc.settled(x) by {
                if x != a {
                    dp.lemma_extends_settled(d, x);
                }
            }
            assert forall|x: Address| #[trigger] u.contains_key(x) implies dc.settled(x) && (u[x] is None
                ==> dc.cells.contains_key(x)) by {
                if x != a {
                    dp.lemma_extends_settled(d, x);
                }
            }
        } else {
            assert forall|x: Address| #[trigger] dc.cells.contains_key(x) implies dc.settled(x) by {
                dp.lemma_extends_settled(d, x);
            }
        }
    } else {
        assert(d.extends(base));
        assert(d.extends(d));
    }
}

/// Setting the target keeps the data on track; a failure leaves the cells.
pub proof fn lemma_set_target_step(
    base: DataModel,
    d: DataModel,
    t: Address,
    e: Expression,
    changes: Map<Address, Option<Expression>>,
)
    requires
        on_track(base, d, changes),
        !changes.contains_key(t),
    ensures
        set_target_outcome(d, t, e, changes).1.counts_positive(),
        set_target_outcome(d, t, e, changes).1.cells_settled(),
        set_target_outcome(d, t, e, changes).1.extends(base),
        set_target_outcome(d, t, e, changes).1.extends(d),
        forall|b: Address|
            b != t ==> (#[trigger] set_target_outcome(d, t, e, changes).2.contains_key(b)
                <==> changes.contains_key(b)),
        d.settled(t) ==> set_target_outcome(d, t, e, changes).0 is Ok,
        match set_target_outcome(d, t, e, changes).0 {
            Ok(_) => on_track(
                base,
                set_target_outcome(d, t, e, changes).1,
                set_target_outcome(d, t, e, changes).2,
            ) && set_target_outcome(d, t, e, changes).1.cells.contains_key(t)
                && set_target_outcome(d, t, e, changes).1.cells[t] == e,
            Err(_) => set_target_outcome(d, t, e, changes).1.cells == d.cells,
        },
{
    let (r2, d2, u) = set_target_outcome(d, t, e, changes);
    if d.cells.contains_key(t) {
        assert(u =~= changes.insert(t, Some(d.cells[t])));
        assert(patched(d2.cells, u) =~= base.cells);
        assert forall|x: Address| #[trigger] d2.line_count(x) > 0 by {
            assert(d.line_count(x) > 0);
        }
        assert forall|x: Address| #[trigger] d2.column_count(x) > 0 by {
            assert(d.column_count(x) > 0);
        }
        assert forall|x: Address| #[trigger] d2.cells.contains_key(x) implies d2.settled(x) by {
            assert(d.settled(x));
        }
        assert forall|x: Address| #[trigger] u.contains_key(x) implies d2.settled(x) && (u[x] is None
            ==> d2.cells.contains_key(x)) by {
            assert(d.settled(x));
        }
        assert(d2.extends(base));
    } else {
        d.lemma_prepared(t);
        let dp = d.prepared(t);
        let (rc, dc) = d.create(t);
        dp.lemma_extends_trans(d, base);
        if rc is Ok {
            assert(u =~= changes.insert(t, None));
            assert(patched(d2.cells, u) =~= base.cells);
            assert forall|x: Address| #[trigger] d2.line_count(x) > 0 by {
                assert(dp.line_count(x) > 0);
            }
            assert forall|x: Address| #[trigger] d2.column_count(x) > 0 by {
                assert(dp.column_count(x) > 0);
            }
            assert forall|x: Address| #[trigger] d2.cells.contains_key(x) implies d2.settled(x) by {
                if x != t {
                    dp.lemma_extends_settled(d, x);
                }
            }
            assert forall|x: Address| #[trigger] u.contains_key(x) implies d2.settled(x) && (u[x] is None
                ==> d2.cells.contains_key(x)) by {
                if x != t {
                    dp.lemma_extends_settled(d, x);
                }
            }
        } else {
            assert forall|x: Address| #[trigger] d2.cells.contains_key(x) implies d2.settled(x) by {
                dp.lemma_extends_settled(d, x);
            }
        }
    }
}

/// Returns the cell at the address to read colors from. A missing cell is
/// created if `make_sources` is true, and its creation recorded in `undo`;
/// otherwise an `InvalidAddress` error is returned.
pub(crate) fn source(
    data: &mut Data,
    address: Address,
    make_sources: bool,
    undo: &mut Undo,
) -> (r: Result<Cell, Error>)
    ensures
        final(undo).undoing() == old(undo).undoing(),
        old(data)@.cells.contains_key(address) ==> (r matches Ok(c) && c.expression()
            == old(data)@.cells[address]) && final(data)@ == old(data)@ && final(undo)@ == old(undo)@,
        !old(data)@.cells.contains_key(address) && !make_sources ==> r == Err::<Cell, Error>(
            Error::InvalidAddress(address),
        ) && final(data)@ == old(data)@ && final(undo)@ == old(undo)@,
        !old(data)@.cells.contains_key(address) && make_sources ==> final(data)@ == old(data)@.create(
            address,
        ).1 && match r {
            Ok(c) => old(data)@.create(address).0 is Ok && c.expression() == Expression::Empty
                && final(undo)@ == recorded(old(undo)@, address, None),
            Err(e) => old(data)@.create(address).0 == Err::<(), Error>(e) && final(undo)@ == old(
                undo,
            )@,
        },
{
    if let Some(cell) = data.get_cell(address) {
        Ok(cell)
    } else if make_sources {
        let cell = data.create_cell(address)?;
        undo.record(address, None);
        Ok(cell)
    } else {
        Err(Error::InvalidAddress(address))
    }
}

/// Returns the cell at the address to write to, creating it if it is missing
/// and recording its creation in `undo`.
pub(crate) fn target(data: &mut Data, address: Address, undo: &mut Undo) -> (r: Result<Cell, Error>)
    ensures
        final(undo).undoing() == old(undo).undoing(),
        old(data)@.cells.contains_key(address) ==> (r matches Ok(c) && c.expression()
            == old(data)@.cells[address]) && final(data)@ == old(data)@ && final(undo)@ == old(undo)@,
        !old(data)@.cells.contains_key(address) ==> final(data)@ == old(data)@.create(address).1
            && match r {
            Ok(c) => old(data)@.create(address).0 is Ok && c.expression() == Expression::Empty
                && final(undo)@ == recorded(old(undo)@, address, None),
            Err(e) => old(data)@.create(address).0 == Err::<(), Error>(e) && final(undo)@ == old(
                undo,
            )@,
        },
{
    if let Some(cell) = data.get_cell(address) {
        Ok(cell)
    } else {
        let cell = data.create_cell(address)?;
        undo.record(address, None);
        Ok(cell)
    }
}

/// The outcome of setting the expression at `a` to `e`: the cell is created
/// first if it is missing; the changes record the previous state of `a`.
pub open spec fn set_target_outcome(
    d: DataModel,
    a: Address,
    e: Expression,
    changes: Map<Address, Option<Expression>>,
) -> (Result<(), Error>, DataModel, Map<Address, Option<Expression>>) {
    if d.cells.contains_key(a) {
        (Ok(()), d.with_cell(a, e), recorded(changes, a, Some(d.cells[a])))
    } else {
        let (r, d2) = d.create(a);
        match r {
            Ok(_) => (
                Ok(()),
                d2.with_cell(a, e),
                recorded(recorded(changes, a, None), a, Some(Expression::Empty)),
            ),
            Err(x) => (Err(x), d2, changes),
        }
    }
}

/// Sets the expression at the address, creating the cell if it is missing,
/// and records the change in `undo`.
pub(crate) fn set_target(
    data: &mut Data,
    address: Address,
    new_element: Expression,
    undo: &mut Undo,
) -> (r: Result<(), Error>)
    ensures
        (r, final(data)@, final(undo)@) == set_target_outcome(
            old(data)@,
            address,
            new_element,
            old(undo)@,
        ),
        final(undo).undoing() == old(undo).undoing(),
{
    let target = target(data, address, undo)?;
    let cur = target.get();
    let ghost before = data@;
    data.cells.insert(address, Cell::new(new_element));
    proof {
        assert(data@.cells =~= before.cells.insert(address, new_element));
    }
    undo.record(address, Some(cur));
    Ok(())
}

/// Information about an operation.
#[derive(Debug, Clone)]
pub struct OperationInfo {
    /// The name of the operation.
    pub name: &'static str,
    /// The details of the operation.
    pub details: Option<String>,
}

/// The name and details of an operation, as text.
pub type InfoView = (Seq<char>, Option<Seq<char>>);

impl View for OperationInfo {
    type V = InfoView;

    open spec fn view(&self) -> InfoView {
        (
            self.name@,
            match self.details {
                Some(t) => Some(t@),
                None => None,
            },
        )
    }
}

impl OperationInfo {
    /// Returns a copy of the information.
    pub fn duplicate(&self) -> (r: OperationInfo)
        ensures
            r@ == self@,
    {
        OperationInfo {
            name: self.name,
            details: match &self.details {
                Some(t) => Some(t.clone()),
                None => None,
            },
        }
    }
}

/// A record of an applied operation.
pub struct HistoryEntry {
    /// Information about the operation that was applied to the palette.
    pub info: OperationInfo,
    /// The operation that undoes the applied operation.
    pub undo: Undo,
}

/// The records of operations that can be undone and redone.
pub struct OperationHistory {
    /// The record of available undos.
    pub undo_entries: Vec<HistoryEntry>,
    /// The record of available redos.
    pub redo_entries: Vec<HistoryEntry>,
}

impl Default for OperationHistory {
    fn default() -> (r: OperationHistory)
        ensures
            r.undo_entries@.len() == 0,
            r.redo_entries@.len() == 0,
    {
        OperationHistory { undo_entries: Vec::new(), redo_entries: Vec::new() }
    }
}

/// The information carried by each entry of a history.
pub open spec fn infos_of(entries: Seq<HistoryEntry>) -> Seq<InfoView> {
    entries.map_values(|e: HistoryEntry| e.info@)
}

/// The undo of each entry of a history undoes the operation the entry names.
pub open spec fn named(entries: Seq<HistoryEntry>) -> bool {
    forall|i: int|
        0 <= i < entries.len() ==> (#[trigger] entries[i]).undo.undoing_view() == Some(
            entries[i].info@,
        )
}

/// The changes recorded by each entry of a history.
pub open spec fn changes_of(entries: Seq<HistoryEntry>) -> Seq<Map<Address, Option<Expression>>> {
    entries.map_values(|e: HistoryEntry| e.undo@)
}

/// The entries of a history can be replayed from the top down on `d`: each
/// records distinct changes that can be restored without error on the data
/// that the entries above it leave.
pub open spec fn replayable(stack: Seq<HistoryEntry>, d: DataModel) -> bool
    decreases stack.len(),
{
    if stack.len() == 0 {
        true
    } else {
        let u = stack.last().undo;
        &&& u.well_recorded()
        &&& restorable(u@, d)
        &&& replayable(stack.drop_last(), DataModel { cells: patched(d.cells, u@), ..d })
    }
}

/// A history that can be replayed on some data can be replayed on data with
/// the same cells and more metadata.
pub proof fn lemma_replayable_extends(stack: Seq<HistoryEntry>, d: DataModel, d2: DataModel)
    requires
        replayable(stack, d),
        d2.extends(d),
        d2.cells == d.cells,
    ensures
        replayable(stack, d2),
    decreases stack.len(),
{
    if stack.len() > 0 {
        let u = stack.last().undo;
        assert forall|a: Address| #[trigger] u@.contains_key(a) implies d2.settled(a) && (u@[a] is None
            ==> d2.cells.contains_key(a)) by {
            d2.lemma_extends_settled(d, a);
        }
        let n = DataModel { cells: patched(d.cells, u@), ..d };
        let n2 = DataModel { cells: patched(d2.cells, u@), ..d2 };
        assert(n2.extends(n));
        lemma_replayable_extends(stack.drop_last(), n, n2);
    }
}

/// An operation that can be applied to palette data.
pub trait PaletteOperation: Sized {
    /// Applying the operation to `data` does not panic.
    spec fn applicable(&self, data: DataModel) -> bool;

    /// The changes the operation records can be applied back without error.
    spec fn restorable(&self, data: DataModel) -> bool;

    /// The outcome of applying the operation to `data`: the changes that undo
    /// it, or the error it fails with; and the data afterwards.
    spec fn outcome(&self, data: DataModel) -> (
        Result<Map<Address, Option<Expression>>, Error>,
        DataModel,
    );

    /// The information that the operation gives about itself, and that the
    /// history entry it makes carries.
    spec fn entry_info(&self) -> InfoView;

    /// Returns information about the operation.
    fn info(&self) -> (r: OperationInfo)
        ensures
            r@ == self.entry_info(),
    ;

    /// Applies the operation to the given palette data.
    fn apply(&mut self, data: &mut Data) -> (r: Result<HistoryEntry, Error>)
        requires
            old(self).applicable(old(data)@),
            old(data)@.counts_positive(),
        ensures
            final(data)@ == old(self).outcome(old(data)@).1,
            match r {
                Ok(e) => old(self).outcome(old(data)@).0 == Ok::<
                    Map<Address, Option<Expression>>,
                    Error,
                >(e.undo@) && e.info@ == old(self).entry_info() && e.undo.undoing_view() == Some(
                    e.info@,
                ),
                Err(x) => old(self).outcome(old(data)@).0 == Err::<
                    Map<Address, Option<Expression>>,
                    Error,
                >(x),
            },
    ;

    /// Applying the operation keeps the data consistent, and its recorded
    /// changes restore the cells it started from; a failed operation leaves
    /// the cells as they were.
    proof fn lemma_outcome(&self, data: DataModel)
        requires
            self.applicable(data),
            self.restorable(data),
            data.counts_positive(),
            data.cells_settled(),
        ensures
            self.outcome(data).1.counts_positive(),
            self.outcome(data).1.cells_settled(),
            self.outcome(data).1.extends(data),
            match self.outcome(data).0 {
                Ok(changes) => restorable(changes, self.outcome(data).1) && patched(
                    self.outcome(data).1.cells,
                    changes,
                ) == data.cells,
                Err(_) => self.outcome(data).1.cells == data.cells,
            },
    ;
}

} // verus!
