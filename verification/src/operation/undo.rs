//! The operation that reverts the changes of another.
use vstd::prelude::*;
use crate::address::Address;
use crate::address_map::AddressMap;
use crate::cell::Cell;
use crate::data::{Data, DataModel};
use crate::expression::Expression;
use crate::operation::{
    HistoryEntry, InfoView, OperationInfo, PaletteOperation, patched, recorded, restorable,
};
use crate::result::Error;

verus! {

/// The outcome of restoring the recorded `entries` in order: an entry with an
/// expression sets it, creating the cell if it is missing; an entry without
/// one removes the cell. The changes that revert the restoration are
/// recorded in `redo`. `None` where an entry without an expression meets an
/// address without a cell.
pub open spec fn undo_steps(
    d: DataModel,
    entries: Seq<(Address, Option<Expression>)>,
    redo: Map<Address, Option<Expression>>,
) -> Option<(Result<Map<Address, Option<Expression>>, Error>, DataModel)>
    decreases entries.len(),
{
    if entries.len() == 0 {
        Some((Ok(redo), d))
    } else {
        let a = entries[0].0;
        let rest = entries.drop_first();
        match entries[0].1 {
            Some(e) => if d.cells.contains_key(a) {
                undo_steps(d.with_cell(a, e), rest, recorded(redo, a, Some(d.cells[a])))
            } else {
                let (r, d2) = d.create(a);
                match r {
                    Err(x) => Some((Err(x), d2)),
                    Ok(_) => undo_steps(d2.with_cell(a, e), rest, recorded(redo, a, None)),
                }
            },
            None => if d.cells.contains_key(a) {
                undo_steps(d.without_cell(a), rest, recorded(redo, a, Some(d.cells[a])))
            } else {
                None
            },
        }
    }
}

/// No address is recorded twice.
pub open spec fn distinct_keys(s: Seq<(Address, Option<Expression>)>) -> bool {
    forall|i: int, j: int| 0 <= i < j < s.len() ==> (#[trigger] s[i]).0 != (#[trigger] s[j]).0
}

/// The map of recorded entries; the first entry for an address counts.
pub open spec fn to_map(s: Seq<(Address, Option<Expression>)>) -> Map<Address, Option<Expression>>
    decreases s.len(),
{
    if s.len() == 0 {
        Map::empty()
    } else {
        to_map(s.drop_first()).insert(s[0].0, s[0].1)
    }
}

/// The changes that revert `changes` on `cells`: the previous expression of
/// each changed address, or `None` where it held no cell.
pub open spec fn inverse(
    cells: Map<Address, Expression>,
    changes: Map<Address, Option<Expression>>,
) -> Map<Address, Option<Expression>> {
    Map::new(
        |a: Address| changes.contains_key(a),
        |a: Address|
            if cells.contains_key(a) {
                Some(cells[a])
            } else {
                None
            },
    )
}

/// Patching cells and then patching the result with the inverse changes
/// gives the cells back.
pub proof fn lemma_patch_inverse(
    cells: Map<Address, Expression>,
    changes: Map<Address, Option<Expression>>,
)
    ensures
        patched(patched(cells, changes), inverse(cells, changes)) == cells,
{
    assert(patched(patched(cells, changes), inverse(cells, changes)) =~= cells);
}

/// The map of distinct entries holds exactly their addresses, each with its
/// own entry.
pub proof fn lemma_to_map(s: Seq<(Address, Option<Expression>)>)
    requires
        distinct_keys(s),
    ensures
        forall|a: Address| #[trigger] to_map(s).contains_key(a) <==> exists|i: int|
            0 <= i < s.len() && s[i].0 == a,
        forall|i: int| 0 <= i < s.len() ==> #[trigger] to_map(s)[s[i].0] == s[i].1,
    decreases s.len(),
{
    if s.len() > 0 {
        let rest = s.drop_first();
        assert(forall|i: int| 0 <= i < rest.len() ==> #[trigger] rest[i] == s[i + 1]);
        assert(distinct_keys(rest)) by {
            assert forall|i: int, j: int| 0 <= i < j < rest.len() implies (#[trigger] rest[i]).0
                != (#[trigger] rest[j]).0 by {
                assert(s[i + 1] == rest[i]);
                assert(s[j + 1] == rest[j]);
            }
        }
        lemma_to_map(rest);
        assert(to_map(s) == to_map(rest).insert(s[0].0, s[0].1));
        assert forall|a: Address| #[trigger] to_map(s).contains_key(a) <==> exists|i: int|
            0 <= i < s.len() && s[i].0 == a by {
            if to_map(s).contains_key(a) {
                if a == s[0].0 {
                    assert(0 <= 0 < s.len() && s[0].0 == a);
                } else {
                    assert(to_map(rest).contains_key(a));
                    let j = choose|j: int| 0 <= j < rest.len() && rest[j].0 == a;
                    assert(s[j + 1] == rest[j]);
                    assert(0 <= j + 1 < s.len() && s[j + 1].0 == a);
                }
            }
            if exists|i: int| 0 <= i < s.len() && s[i].0 == a {
                let i = choose|i: int| 0 <= i < s.len() && s[i].0 == a;
                if i > 0 {
                    assert(rest[i - 1].0 == a);
                    assert(exists|j: int| 0 <= j < rest.len() && rest[j].0 == a);
                    assert(to_map(rest).contains_key(a));
                }
            }
        }
        assert forall|i: int| 0 <= i < s.len() implies #[trigger] to_map(s)[s[i].0] == s[i].1 by {
            if i > 0 {
                assert(rest[i - 1] == s[i]);
                assert(s[0].0 != s[i].0);
                assert(to_map(rest)[rest[i - 1].0] == rest[i - 1].1);
            }
        }
    }
}

/// Restoring distinct entries at settled addresses, whose removals meet
/// cells, succeeds: it patches the cells and records their inverse.
pub proof fn lemma_undo_steps(
    d: DataModel,
    s: Seq<(Address, Option<Expression>)>,
    redo: Map<Address, Option<Expression>>,
)
    requires
        distinct_keys(s),
        forall|i: int|
            0 <= i < s.len() ==> d.settled(#[trigger] s[i].0) && (s[i].1 is None
                ==> d.cells.contains_key(s[i].0)),
        forall|i: int| 0 <= i < s.len() ==> !redo.contains_key(#[trigger] s[i].0),
    ensures
        undo_steps(d, s, redo) == Some(
            (
                Ok::<Map<Address, Option<Expression>>, Error>(
                    redo.union_prefer_right(inverse(d.cells, to_map(s))),
                ),
                DataModel { cells: patched(d.cells, to_map(s)), ..d },
            ),
        ),
    decreases s.len(),
{
    if s.len() == 0 {
        assert(redo.union_prefer_right(inverse(d.cells, to_map(s))) =~= redo);
        assert(patched(d.cells, to_map(s)) =~= d.cells);
    } else {
        let a = s[0].0;
        let rest = s.drop_first();
        lemma_to_map(s);
        lemma_to_map(rest);
        assert(forall|i: int| 0 <= i < rest.len() ==> #[trigger] rest[i] == s[i + 1]);
        assert(forall|i: int| 0 <= i < rest.len() ==> (#[trigger] rest[i]).0 != a);
        assert(!to_map(rest).contains_key(a));
        let d1 = match s[0].1 {
            Some(e) => d.with_cell(a, e),
            None => d.without_cell(a),
        };
        let prev = if d.cells.contains_key(a) {
            Some(d.cells[a])
        } else {
            None
        };
        let redo1 = redo.insert(a, prev);
        assert(recorded(redo, a, prev) == redo1);
        if s[0].1 is Some && !d.cells.contains_key(a) {
            d.lemma_prepared_settled(a);
            assert(d.create(a).1.cells.insert(a, s[0].1->Some_0) =~= d.cells.insert(a, s[0].1->Some_0));
            assert(d.create(a).1.with_cell(a, s[0].1->Some_0) == d1);
        }
        assert forall|i: int| 0 <= i < rest.len() implies d1.settled(#[trigger] rest[i].0) && (
        rest[i].1 is None ==> d1.cells.contains_key(rest[i].0)) by {
            assert(rest[i] == s[i + 1]);
            assert(d.settled(s[i + 1].0));
        }
        lemma_undo_steps(d1, rest, redo1);
        assert(redo1.union_prefer_right(inverse(d1.cells, to_map(rest))) =~= redo.union_prefer_right(
            inverse(d.cells, to_map(s)),
        ));
        assert(patched(d1.cells, to_map(rest)) =~= patched(d.cells, to_map(s)));
    }
}

/// An address where a recorded expression can be restored: settled, or
/// within bounds where the data prepares groups with the default hooks,
/// which leave every bound as it is.
pub open spec fn restorable_at(d: DataModel, a: Address) -> bool {
    d.settled(a) || (d.page_hook is Default && d.line_hook is Default && d.valid(a))
}

/// Restoring distinct entries, each at an address where it can be restored
/// and each removal meeting a cell, succeeds: it patches the cells, records
/// their inverse, and leaves every restored address settled.
pub proof fn lemma_undo_steps_prepared(
    d: DataModel,
    s: Seq<(Address, Option<Expression>)>,
    redo: Map<Address, Option<Expression>>,
)
    requires
        d.counts_positive(),
        d.cells_settled(),
        distinct_keys(s),
        forall|i: int|
            0 <= i < s.len() ==> (s[i].1 is None ==> d.cells.contains_key(#[trigger] s[i].0)) && (
            s[i].1 is Some ==> restorable_at(d, s[i].0)),
        forall|i: int| 0 <= i < s.len() ==> !redo.contains_key(#[trigger] s[i].0),
    ensures
        undo_steps(d, s, redo) matches Some((r, d2)) && r == Ok::<
            Map<Address, Option<Expression>>,
            Error,
        >(redo.union_prefer_right(inverse(d.cells, to_map(s)))) && d2.cells == patched(
            d.cells,
            to_map(s),
        ) && d2.extends(d) && d2.counts_positive() && d2.cells_settled(),
    decreases s.len(),
{
    if s.len() == 0 {
        assert(redo.union_prefer_right(inverse(d.cells, to_map(s))) =~= redo);
        assert(patched(d.cells, to_map(s)) =~= d.cells);
        assert(d.extends(d));
    } else {
        let a = s[0].0;
        let rest = s.drop_first();
        lemma_to_map(s);
        lemma_to_map(rest);
        assert(forall|i: int| 0 <= i < rest.len() ==> #[trigger] rest[i] == s[i + 1]);
        assert(forall|i: int| 0 <= i < rest.len() ==> (#[trigger] rest[i]).0 != a);
        assert(!to_map(rest).contains_key(a));
        let prev = if d.cells.contains_key(a) {
            Some(d.cells[a])
        } else {
            None
        };
        let redo1 = redo.insert(a, prev);
        assert(recorded(redo, a, prev) == redo1);
        let base = if s[0].1 is Some && !d.cells.contains_key(a) {
            d.prepared(a)
        } else {
            d
        };
        let d1 = match s[0].1 {
            Some(e) => base.with_cell(a, e),
            None => base.without_cell(a),
        };
        if s[0].1 is Some && !d.cells.contains_key(a) {
            assert(restorable_at(d, a));
            d.lemma_prepared(a);
            if d.settled(a) {
                d.lemma_prepared_settled(a);
            } else {
                d.lemma_default_prepared_valid(a);
            }
            assert(d.prepare(a) == (Ok::<(), Error>(()), base));
            assert(d.create(a).1.cells.insert(a, s[0].1->Some_0) =~= d.cells.insert(a, s[0].1->Some_0));
            assert(d.create(a).1.with_cell(a, s[0].1->Some_0) == d1);
            assert(base.settled(a));
        } else {
            assert(base.extends(base));
        }
        assert(d1.extends(d));
        assert forall|b: Address| #[trigger] d1.line_count(b) > 0 by {
            assert(base.line_count(b) > 0);
        }
        assert forall|b: Address| #[trigger] d1.cells.contains_key(b) implies d1.settled(b) by {
            if b != a {
                assert(d.settled(b));
                d1.lemma_extends_settled(d, b);
            } else if !d.cells.contains_key(a) {
                assert(base.settled(a));
            } else {
                assert(d.settled(a));
            }
        }
        assert forall|b: Address| #[trigger] d1.column_count(b) > 0 by {
            assert(base.column_count(b) > 0);
        }
        assert forall|i: int| 0 <= i < rest.len() implies (rest[i].1 is None
            ==> d1.cells.contains_key(#[trigger] rest[i].0)) && (rest[i].1 is Some ==> restorable_at(
            d1,
            rest[i].0,
        )) by {
            assert(rest[i] == s[i + 1]);
            if rest[i].1 is Some {
                assert(restorable_at(d, s[i + 1].0));
                if d.settled(rest[i].0) {
                    d1.lemma_extends_settled(d, rest[i].0);
                } else if s[0].1 is Some && !d.cells.contains_key(a) {
                    d.lemma_default_prepared_valid(a);
                    assert(base.valid(rest[i].0) == d.valid(rest[i].0));
                }
            }
        }
        lemma_undo_steps_prepared(d1, rest, redo1);
        let d2 = undo_steps(d1, rest, redo1)->Some_0.1;
        d2.lemma_extends_trans(d1, d);
        assert(redo1.union_prefer_right(inverse(d1.cells, to_map(rest))) =~= redo.union_prefer_right(
            inverse(d.cells, to_map(s)),
        ));
        assert(patched(d1.cells, to_map(rest)) =~= patched(d.cells, to_map(s)));
    }
}

/// An operation that restores the cells another operation changed.
pub struct Undo {
    /// Information about the operation being undone.
    undoing: Option<OperationInfo>,
    /// The expressions to restore when applying the Undo; `None` removes the
    /// cell.
    saved: AddressMap<Option<Expression>>,
}

impl View for Undo {
    type V = Map<Address, Option<Expression>>;

    closed spec fn view(&self) -> Map<Address, Option<Expression>> {
        self.saved@
    }
}

impl Undo {
    /// The recorded changes in address order.
    pub closed spec fn entries(&self) -> Seq<(Address, Option<Expression>)> {
        self.saved.pairs()
    }

    /// The recorded changes are distinct entries in address order.
    pub open spec fn well_recorded(&self) -> bool {
        distinct_keys(self.entries()) && to_map(self.entries()) == self@
    }

    /// Returns the number of recorded changes.
    pub fn len(&self) -> (r: usize)
        ensures
            r == self@.dom().len(),
            self.well_recorded(),
    {
        let r = self.saved.len();
        proof {
            let s = self.entries();
            assert forall|i: int, j: int| 0 <= i < j < s.len() implies (#[trigger] s[i]).0 != (
            #[trigger] s[j]).0 by {
                assert(crate::address::key(s[i].0) < crate::address::key(s[j].0));
            }
            lemma_to_map(s);
            assert forall|a: Address| #[trigger] to_map(s).contains_key(a) == self@.contains_key(a) by {
                if to_map(s).contains_key(a) {
                    let i = choose|i: int| 0 <= i < s.len() && s[i].0 == a;
                    assert(self@.contains_key(s[i].0));
                }
                if self@.contains_key(a) {
                    let i = choose|i: int| 0 <= i < s.len() && s[i].0 == a;
                    assert(to_map(s).contains_key(s[i].0));
                }
            }
            assert forall|a: Address| #[trigger] to_map(s).contains_key(a) implies to_map(s)[a] == self@[a] by {
                let i = choose|i: int| 0 <= i < s.len() && s[i].0 == a;
                assert(to_map(s)[s[i].0] == s[i].1);
                assert(self@[s[i].0] == s[i].1);
            }
            assert(to_map(s) =~= self@);
        }
        r
    }

    /// Creates a new Undo operation for the operation with the given
    /// information, if any.
    fn new_undoing(undoing: Option<OperationInfo>) -> (r: Undo)
        ensures
            r@ == Map::<Address, Option<Expression>>::empty(),
            r.undoing() == undoing,
    {
        Undo { undoing: undoing, saved: AddressMap::new() }
    }

    /// Information about the operation being undone, if any.
    pub closed spec fn undoing(&self) -> Option<OperationInfo> {
        self.undoing
    }

    /// The information about the operation being undone, as text, if any.
    pub open spec fn undoing_view(&self) -> Option<InfoView> {
        match self.undoing() {
            Some(i) => Some(i@),
            None => None,
        }
    }

    /// Creates a new Undo operation for the operation with the given
    /// information.
    pub fn new_for(operation: OperationInfo) -> (r: Undo)
        ensures
            r@ == Map::<Address, Option<Expression>>::empty(),
            r.undoing() == Some(operation),
    {
        Undo { undoing: Some(operation), saved: AddressMap::new() }
    }

    /// Records a change to be replayed by the Undo operation: `element` is
    /// the expression to restore at `address`, or `None` to remove its cell.
    /// A recorded removal is kept.
    pub fn record(&mut self, address: Address, element: Option<Expression>)
        ensures
            final(self)@ == recorded(old(self)@, address, element),
            final(self).undoing() == old(self).undoing(),
    {
        let keep = match self.saved.get(&address) {
            Some(e) => e.is_none(),
            None => false,
        };
        if !keep {
            self.saved.insert(address, element);
        }
    }
}

impl Undo {
    /// Distinct changes whose removals meet cells and whose expressions can
    /// be restored, at settled addresses or, with the default hooks, at
    /// addresses within bounds, are restored without error: the cells are
    /// patched, the data only gains metadata, and the inverse changes are
    /// recorded, which give the cells back.
    pub proof fn lemma_restore_within_bounds(&self, data: DataModel)
        requires
            data.counts_positive(),
            data.cells_settled(),
            self.restorable(data),
        ensures
            self.applicable(data),
            self.outcome(data).0 == Ok::<Map<Address, Option<Expression>>, Error>(
                inverse(data.cells, self@),
            ),
            self.outcome(data).1.cells == patched(data.cells, self@),
            self.outcome(data).1.extends(data),
            patched(self.outcome(data).1.cells, inverse(data.cells, self@)) == data.cells,
    {
        let s = self.entries();
        lemma_to_map(s);
        assert forall|i: int|
            0 <= i < s.len() implies (s[i].1 is None ==> data.cells.contains_key(#[trigger] s[i].0))
            && (s[i].1 is Some ==> restorable_at(data, s[i].0)) by {
            assert(self@.contains_key(s[i].0));
        }
        lemma_undo_steps_prepared(data, s, Map::empty());
        assert(Map::<Address, Option<Expression>>::empty().union_prefer_right(
            inverse(data.cells, self@),
        ) =~= inverse(data.cells, self@));
        lemma_patch_inverse(data.cells, self@);
    }

    /// Distinct changes at settled addresses, whose removals meet cells, are
    /// restored without error: the cells are patched and nothing else
    /// changes, and the inverse changes are recorded.
    pub proof fn lemma_restore(&self, data: DataModel)
        requires
            self.well_recorded(),
            restorable(self@, data),
        ensures
            self.applicable(data),
            self.outcome(data) == (
                Ok::<Map<Address, Option<Expression>>, Error>(inverse(data.cells, self@)),
                DataModel { cells: patched(data.cells, self@), ..data },
            ),
    {
        let s = self.entries();
        lemma_to_map(s);
        assert forall|i: int|
            0 <= i < s.len() implies data.settled(#[trigger] s[i].0) && (s[i].1 is None
                ==> data.cells.contains_key(s[i].0)) by {
            assert(self@.contains_key(s[i].0));
        }
        lemma_undo_steps(data, s, Map::empty());
        assert(Map::<Address, Option<Expression>>::empty().union_prefer_right(
            inverse(data.cells, self@),
        ) =~= inverse(data.cells, self@));
    }
}

impl PaletteOperation for Undo {
    open spec fn applicable(&self, data: DataModel) -> bool {
        undo_steps(data, self.entries(), Map::empty()) is Some
    }

    /// Each recorded removal meets a cell, and each recorded expression can
    /// be restored at its address.
    open spec fn restorable(&self, data: DataModel) -> bool {
        &&& self.well_recorded()
        &&& forall|a: Address| #[trigger]
            self@.contains_key(a) ==> (self@[a] is None ==> data.cells.contains_key(a)) && (
            self@[a] is Some ==> restorable_at(data, a))
    }

    open spec fn outcome(&self, data: DataModel) -> (
        Result<Map<Address, Option<Expression>>, Error>,
        DataModel,
    ) {
        undo_steps(data, self.entries(), Map::empty()).unwrap()
    }

    /// The operation being undone; "Undo" where it is not known.
    open spec fn entry_info(&self) -> InfoView {
        match self.undoing_view() {
            Some(i) => i,
            None => ("Undo"@, None),
        }
    }

    fn info(&self) -> (r: OperationInfo) {
        proof {
            reveal_strlit("Undo");
        }
        match &self.undoing {
            Some(i) => i.duplicate(),
            None => OperationInfo { name: "Undo", details: None },
        }
    }

    /// The redo it records undoes the same operation.
    fn apply(&mut self, data: &mut Data) -> (r: Result<HistoryEntry, Error>) {
        let mut redo = Undo::new_undoing(Some(self.info()));
        let n = self.saved.len();
        let mut i: usize = 0;
        proof {
            assert(self.entries().skip(0) =~= self.entries());
        }
        while i < n
            invariant
                n == self.entries().len(),
                i <= n,
                undo_steps(data@, self.entries().skip(i as int), redo@) == undo_steps(
                    old(data)@,
                    self.entries(),
                    Map::empty(),
                ),
                undo_steps(old(data)@, self.entries(), Map::empty()) is Some,
                redo.undoing_view() == Some(self.entry_info()),
            decreases n - i,
        {
            let (address, item) = *self.saved.entry(i);
            proof {
                assert(self.entries().skip(i as int)[0] == (address, item));
                assert(self.entries().skip(i as int).drop_first() =~= self.entries().skip(
                    i + 1,
                ));
            }
            match item {
                Some(elem) => {
                    match data.get_cell(address) {
                        Some(cur) => {
                            let ghost before = data@;
                            data.cells.insert(address, Cell::new(elem));
                            proof {
                                assert(data@.cells =~= before.cells.insert(address, elem));
                            }
                            redo.record(address, Some(cur.get()));
                        },
                        None => {
                            data.create_cell(address)?;
                            let ghost before = data@;
                            data.cells.insert(address, Cell::new(elem));
                            proof {
                                assert(data@.cells =~= before.cells.insert(address, elem));
                            }
                            redo.record(address, None);
                        },
                    }
                },
                None => {
                    let cur = data.remove_cell(address)?;
                    redo.record(address, Some(cur));
                },
            }
            i = i + 1;
        }
        proof {
            assert(self.entries().skip(i as int) =~= Seq::<(Address, Option<Expression>)>::empty());
        }
        Ok(HistoryEntry { info: self.info(), undo: redo })
    }

    proof fn lemma_outcome(&self, data: DataModel) {
        let s = self.entries();
        lemma_to_map(s);
        assert forall|i: int|
            0 <= i < s.len() implies (s[i].1 is None ==> data.cells.contains_key(#[trigger] s[i].0))
            && (s[i].1 is Some ==> restorable_at(data, s[i].0)) by {
            assert(self@.contains_key(s[i].0));
        }
        lemma_undo_steps_prepared(data, s, Map::empty());
        let m = self@;
        let d1 = self.outcome(data).1;
        assert(Map::<Address, Option<Expression>>::empty().union_prefer_right(inverse(data.cells, m))
            =~= inverse(data.cells, m));
        assert forall|a: Address| #[trigger] inverse(data.cells, m).contains_key(a) implies d1.settled(a)
            && (inverse(data.cells, m)[a] is None ==> d1.cells.contains_key(a)) by {
            if data.cells.contains_key(a) {
                d1.lemma_extends_settled(data, a);
            } else {
                assert(m[a] is Some);
                assert(d1.cells.contains_key(a));
            }
        }
        lemma_patch_inverse(data.cells, m);
    }
}

} // verus!
