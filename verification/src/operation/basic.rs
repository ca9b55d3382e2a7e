//! Basic operations: inserting and deleting cells.
use vstd::prelude::*;
use crate::address::Address;
use crate::color::Color;
use crate::data::{Data, DataModel, lemma_own_color, lemma_watch_color, opt_addresses};
use crate::expression::Expression;
use crate::operation::{
    HistoryEntry, InfoView, OperationInfo, PaletteOperation, Undo, lemma_set_target_step,
    lemma_source_step, on_track, patched, restorable, set_target, set_target_outcome, source,
    source_outcome,
};
use crate::render::{
    address_debug, bool_debug, color_debug, opt_address_debug, push_address_debug,
    push_bool_debug, push_color_debug, push_opt_address_debug,
};
use crate::result::Error;

verus! {

/// The `Debug` text of an `InsertCell` with the given fields.
pub open spec fn insert_cell_debug_text(location: Option<Address>, overwrite: bool) -> Seq<char> {
    "InsertCell { location: "@ + opt_address_debug(location) + ", overwrite: "@ + bool_debug(
        overwrite,
    ) + " }"@
}

/// The `Debug` text of a `DeleteCell` with the given address.
pub open spec fn delete_cell_debug_text(address: Address) -> Seq<char> {
    "DeleteCell { address: "@ + address_debug(address) + " }"@
}

/// The `Debug` text of an `InsertColor` with the given fields.
pub open spec fn insert_color_debug_text(
    color: Color,
    location: Option<Address>,
    overwrite: bool,
) -> Seq<char> {
    "InsertColor { color: "@ + color_debug(color) + ", location: "@ + opt_address_debug(location)
        + ", overwrite: "@ + bool_debug(overwrite) + " }"@
}

/// The `Debug` text of an `InsertWatcher` with the given fields.
pub open spec fn insert_watcher_debug_text(
    watching: Address,
    location: Option<Address>,
    overwrite: bool,
    make_sources: bool,
) -> Seq<char> {
    "InsertWatcher { watching: "@ + address_debug(watching) + ", location: "@ + opt_address_debug(
        location,
    ) + ", overwrite: "@ + bool_debug(overwrite) + ", make_sources: "@ + bool_debug(make_sources)
        + " }"@
}

/// Returns the `Debug` text of an `InsertWatcher`.
fn insert_watcher_details(op: &InsertWatcher) -> (r: String)
    ensures
        r@ == insert_watcher_debug_text(op.watching, op.location, op.overwrite, op.make_sources),
{
    let mut out = String::new();
    out.append("InsertWatcher { watching: ");
    push_address_debug(&mut out, op.watching);
    out.append(", location: ");
    push_opt_address_debug(&mut out, op.location);
    out.append(", overwrite: ");
    push_bool_debug(&mut out, op.overwrite);
    out.append(", make_sources: ");
    push_bool_debug(&mut out, op.make_sources);
    out.append(" }");
    proof {
        assert(out@ =~= insert_watcher_debug_text(
            op.watching,
            op.location,
            op.overwrite,
            op.make_sources,
        ));
    }
    out
}

/// Returns the `Debug` text of an `InsertColor`.
fn insert_color_details(op: &InsertColor) -> (r: String)
    ensures
        r@ == insert_color_debug_text(op.color, op.location, op.overwrite),
{
    let mut out = String::new();
    out.append("InsertColor { color: ");
    push_color_debug(&mut out, op.color);
    out.append(", location: ");
    push_opt_address_debug(&mut out, op.location);
    out.append(", overwrite: ");
    push_bool_debug(&mut out, op.overwrite);
    out.append(" }");
    proof {
        assert(out@ =~= insert_color_debug_text(op.color, op.location, op.overwrite));
    }
    out
}

/// Returns the `Debug` text of an `InsertCell`.
fn insert_cell_details(op: &InsertCell) -> (r: String)
    ensures
        r@ == insert_cell_debug_text(op.location, op.overwrite),
{
    let mut out = String::new();
    out.append("InsertCell { location: ");
    push_opt_address_debug(&mut out, op.location);
    out.append(", overwrite: ");
    push_bool_debug(&mut out, op.overwrite);
    out.append(" }");
    proof {
        assert(out@ =~= insert_cell_debug_text(op.location, op.overwrite));
    }
    out
}

/// Returns the `Debug` text of a `DeleteCell`.
fn delete_cell_details(op: &DeleteCell) -> (r: String)
    ensures
        r@ == delete_cell_debug_text(op.address),
{
    let mut out = String::new();
    out.append("DeleteCell { address: ");
    push_address_debug(&mut out, op.address);
    out.append(" }");
    proof {
        assert(out@ =~= delete_cell_debug_text(op.address));
    }
    out
}

/// The outcome of inserting `e` into `data`: `location`, or else the first
/// free address from `0:0:0` on, is the start; from it one target is found;
/// where `guard` is set and overwriting is not, a target whose color is
/// derived from other cells fails with `CannotSetDerivedColor`; the target's
/// cell is set to `e`, created first if it is missing. The changes record
/// what the target held.
pub open spec fn insert_outcome(
    data: DataModel,
    location: Option<Address>,
    overwrite: bool,
    e: Expression,
    guard: bool,
) -> (Result<Map<Address, Option<Expression>>, Error>, DataModel) {
    let (r0, d0) = match location {
        Some(a) => (Ok(a), data),
        None => data.first_free(Address { page: 0, line: 0, column: 0 }),
    };
    match r0 {
        Err(x) => (Err(x), d0),
        Ok(start) => {
            let (r1, d1) = d0.targets(1, start, overwrite, None);
            match r1 {
                Err(x) => (Err(x), d1),
                Ok(ts) => {
                    let t = the_target(ts);
                    if guard && !overwrite && d1.cells.contains_key(t) && d1.cells[t].spec_order()
                        != 0 {
                        (Err(Error::CannotSetDerivedColor), d1)
                    } else {
                        let (r2, d2, u) = set_target_outcome(d1, t, e, Map::empty());
                        match r2 {
                            Ok(_) => (Ok(u), d2),
                            Err(x) => (Err(x), d2),
                        }
                    }
                },
            }
        },
    }
}

/// Inserting keeps the data consistent, and the recorded changes restore
/// the cells it started from; a failed insertion leaves the cells as they
/// were.
pub proof fn lemma_insert_outcome(
    data: DataModel,
    location: Option<Address>,
    overwrite: bool,
    e: Expression,
    guard: bool,
)
    requires
        data.counts_positive(),
        data.cells_settled(),
    ensures
        insert_outcome(data, location, overwrite, e, guard).1.counts_positive(),
        insert_outcome(data, location, overwrite, e, guard).1.cells_settled(),
        insert_outcome(data, location, overwrite, e, guard).1.extends(data),
        match insert_outcome(data, location, overwrite, e, guard).0 {
            Ok(changes) => restorable(changes, insert_outcome(data, location, overwrite, e, guard).1)
                && patched(insert_outcome(data, location, overwrite, e, guard).1.cells, changes)
                == data.cells,
            Err(_) => insert_outcome(data, location, overwrite, e, guard).1.cells == data.cells,
        },
{
    let origin = Address { page: 0, line: 0, column: 0 };
    let (r0, d0) = match location {
        Some(a) => (Ok(a), data),
        None => data.first_free(origin),
    };
    if location is None {
        data.lemma_first_free_keeps(origin);
    } else {
        assert(d0.extends(data));
    }
    assert forall|a: Address| #[trigger] d0.cells.contains_key(a) implies d0.settled(a) by {
        d0.lemma_extends_settled(data, a);
    }
    if r0 is Ok {
        let start = r0->Ok_0;
        d0.lemma_single_target(start, overwrite, None);
        d0.lemma_targets_keep(1, start, overwrite, None);
        let (r1, d1) = d0.targets(1, start, overwrite, None);
        d1.lemma_extends_trans(d0, data);
        assert forall|a: Address| #[trigger] d1.cells.contains_key(a) implies d1.settled(a) by {
            d1.lemma_extends_settled(data, a);
        }
        if r1 is Ok {
            let ts = r1->Ok_0;
            let t = the_target(ts);
            let (r2, d2, u) = set_target_outcome(d1, t, e, Map::empty());
            if d1.cells.contains_key(t) {
                assert(u =~= map![t => Some(d1.cells[t])]);
                assert(patched(d2.cells, u) =~= data.cells);
                assert forall|a: Address| #[trigger] d2.line_count(a) > 0 by {
                    assert(d1.line_count(a) > 0);
                }
                assert forall|a: Address| #[trigger] d2.column_count(a) > 0 by {
                    assert(d1.column_count(a) > 0);
                }
                assert forall|a: Address| #[trigger] d2.cells.contains_key(a) implies d2.settled(a) by {
                    assert(d1.settled(a));
                }
            } else {
                d1.lemma_prepared(t);
                let dp = d1.prepared(t);
                let (rc, dc) = d1.create(t);
                dp.lemma_extends_trans(d1, data);
                if rc is Ok {
                    assert(u =~= map![t => None]);
                    assert(d2.cells =~= data.cells.insert(t, e));
                    assert(patched(d2.cells, u) =~= data.cells);
                    assert forall|a: Address| #[trigger] d2.line_count(a) > 0 by {
                        assert(dp.line_count(a) > 0);
                    }
                    assert forall|a: Address| #[trigger] d2.column_count(a) > 0 by {
                        assert(dp.column_count(a) > 0);
                    }
                    assert forall|a: Address| #[trigger] d2.cells.contains_key(a) implies d2.settled(a) by {
                        if a != t {
                            dp.lemma_extends_settled(data, a);
                        }
                    }
                } else {
                    assert forall|a: Address| #[trigger] d2.cells.contains_key(a) implies d2.settled(a) by {
                        dp.lemma_extends_settled(data, a);
                    }
                }
            }
        }
    }
}

/// Inserts `e` into `data` as `insert_outcome` says, recording the changes
/// in `undo`.
fn insert_expression(
    data: &mut Data,
    location: Option<Address>,
    overwrite: bool,
    e: Expression,
    guard: bool,
    undo: &mut Undo,
) -> (r: Result<(), Error>)
    requires
        old(data)@.counts_positive(),
        old(undo)@ == Map::<Address, Option<Expression>>::empty(),
    ensures
        final(data)@ == insert_outcome(old(data)@, location, overwrite, e, guard).1,
        final(undo).undoing() == old(undo).undoing(),
        match r {
            Ok(_) => insert_outcome(old(data)@, location, overwrite, e, guard).0 == Ok::<
                Map<Address, Option<Expression>>,
                Error,
            >(final(undo)@),
            Err(x) => insert_outcome(old(data)@, location, overwrite, e, guard).0 == Err::<
                Map<Address, Option<Expression>>,
                Error,
            >(x),
        },
{
    let ghost d = data@;
    let starting_address = match location {
        Some(address) => address,
        None => data.first_free_address_after(Address::default())?,
    };
    let ghost d0 = data@;
    proof {
        if location is None {
            d.lemma_prepared(Address { page: 0, line: 0, column: 0 });
        }
        d0.lemma_single_target(starting_address, overwrite, None);
    }
    let targets = data.find_targets(1, starting_address, overwrite, None)?;
    proof {
        let ts = targets@.to_set();
        let x = choose|x: Address| ts == set![x];
        assert(ts.contains(x));
        if targets@.len() == 0 {
            assert(targets@.to_set() =~= Set::empty());
        }
        assert(ts.contains(targets@[0]));
        assert(the_target(ts) == targets@[0]);
    }
    let target = targets[0];
    if guard && !overwrite {
        if let Some(cell) = data.get_cell(target) {
            if cell.get().order() != 0 {
                return Err(Error::CannotSetDerivedColor);
            }
        }
    }
    set_target(data, target, e, undo)?;
    Ok(())
}

////////////////////////////////////////////////////////////////////////////////
// InsertCell
////////////////////////////////////////////////////////////////////////////////
/// Inserts a new, empty cell into the palette.
#[derive(Debug, Clone, Copy)]
pub struct InsertCell {
    /// The location to start placing the cells.
    location: Option<Address>,
    /// Whether to overwrite existing cells when generating new ones.
    overwrite: bool,
}

impl InsertCell {
    /// The location to place the cell at; `None` for the first free address.
    pub closed spec fn spec_location(self) -> Option<Address> {
        self.location
    }

    /// Whether an existing cell may be overwritten.
    pub closed spec fn spec_overwrite(self) -> bool {
        self.overwrite
    }

    /// Creates a new InsertCell operation.
    pub fn new() -> (r: InsertCell)
        ensures
            r.spec_location() is None,
            !r.spec_overwrite(),
    {
        InsertCell { location: None, overwrite: false }
    }

    /// Sets the location to place the cell.
    pub fn located_at(self, location: Address) -> (r: InsertCell)
        ensures
            r.spec_location() == Some(location),
            r.spec_overwrite() == self.spec_overwrite(),
    {
        InsertCell { location: Some(location), ..self }
    }

    /// Configures the operation to overwrite existing cells when inserted.
    pub fn overwrite(self, overwrite: bool) -> (r: InsertCell)
        ensures
            r.spec_location() == self.spec_location(),
            r.spec_overwrite() == overwrite,
    {
        InsertCell { overwrite: overwrite, ..self }
    }
}

impl Default for InsertCell {
    fn default() -> (r: InsertCell)
        ensures
            r.spec_location() is None,
            !r.spec_overwrite(),
    {
        InsertCell::new()
    }
}

/// The only address of a singleton set.
pub open spec fn the_target(ts: Set<Address>) -> Address {
    choose|t: Address| ts.contains(t)
}

impl PaletteOperation for InsertCell {
    open spec fn applicable(&self, data: DataModel) -> bool {
        true
    }

    open spec fn restorable(&self, data: DataModel) -> bool {
        true
    }

    /// Sets an empty cell, as `insert_outcome` says.
    open spec fn outcome(&self, data: DataModel) -> (
        Result<Map<Address, Option<Expression>>, Error>,
        DataModel,
    ) {
        insert_outcome(data, self.spec_location(), self.spec_overwrite(), Expression::Empty, false)
    }

    open spec fn entry_info(&self) -> InfoView {
        ("Insert Cell"@, Some(insert_cell_debug_text(self.spec_location(), self.spec_overwrite())))
    }

    fn info(&self) -> (r: OperationInfo) {
        proof {
            reveal_strlit("Insert Cell");
        }
        OperationInfo { name: "Insert Cell", details: Some(insert_cell_details(self)) }
    }

    /// The entry's undo records this operation as the one it undoes.
    fn apply(&mut self, data: &mut Data) -> (r: Result<HistoryEntry, Error>)
        ensures
            r matches Ok(e) ==> e.undo.undoing_view() == Some(old(self).entry_info()),
    {
        let mut undo = Undo::new_for(self.info());
        insert_expression(data, self.location, self.overwrite, Expression::default(), false, &mut undo)?;
        Ok(HistoryEntry { info: self.info(), undo: undo })
    }

    proof fn lemma_outcome(&self, data: DataModel) {
        lemma_insert_outcome(data, self.spec_location(), self.spec_overwrite(), Expression::Empty, false);
    }
}

/// Inserting at a location that may be overwritten, or that holds no color,
/// puts the expression in the cell at the location itself, whatever that
/// cell held.
pub proof fn lemma_insert_at_location(
    data: DataModel,
    a: Address,
    overwrite: bool,
    e: Expression,
    guard: bool,
)
    requires
        data.counts_positive(),
        overwrite || !data.colored(a),
    ensures
        insert_outcome(data, Some(a), overwrite, e, guard).0 is Ok ==> insert_outcome(
            data,
            Some(a),
            overwrite,
            e,
            guard,
        ).1.cells.contains_key(a) && insert_outcome(data, Some(a), overwrite, e, guard).1.cells[a]
            == e,
{
    data.lemma_start_target(a, overwrite, None);
    let (r1, d1) = data.targets(1, a, overwrite, None);
    if r1 is Ok {
        let ts = r1->Ok_0;
        assert(ts.contains(a));
        assert(the_target(ts) == a);
    }
}

impl InsertCell {
    /// An insertion at a location that may be overwritten, or that holds no
    /// color, leaves an empty cell at the location itself, whatever it held.
    pub proof fn lemma_empty_at_location(self, data: DataModel, a: Address)
        requires
            data.counts_positive(),
            self.spec_location() == Some(a),
            self.spec_overwrite() || !data.colored(a),
        ensures
            self.outcome(data).0 is Ok ==> self.outcome(data).1.cells.contains_key(a)
                && self.outcome(data).1.cells[a] == Expression::Empty
                && self.outcome(data).1.color_of(a) is None,
    {
        lemma_insert_at_location(data, a, self.spec_overwrite(), Expression::Empty, false);
        if self.outcome(data).0 is Ok {
            lemma_own_color(self.outcome(data).1, a);
        }
    }
}

////////////////////////////////////////////////////////////////////////////////
// InsertColor
////////////////////////////////////////////////////////////////////////////////
/// Inserts a new color into the palette.
#[derive(Debug, Clone, Copy)]
pub struct InsertColor {
    /// The color to add to the palette.
    color: Color,
    /// The location to start placing the color.
    location: Option<Address>,
    /// Whether to overwrite existing cells when generating new ones.
    overwrite: bool,
}

impl InsertColor {
    /// The color to add.
    pub closed spec fn spec_color(self) -> Color {
        self.color
    }

    /// The location to place the color at; `None` for the first free
    /// address.
    pub closed spec fn spec_location(self) -> Option<Address> {
        self.location
    }

    /// Whether an existing cell may be overwritten.
    pub closed spec fn spec_overwrite(self) -> bool {
        self.overwrite
    }

    /// Creates a new InsertColor operation.
    pub fn new(color: Color) -> (r: InsertColor)
        ensures
            r.spec_color() == color,
            r.spec_location() is None,
            !r.spec_overwrite(),
    {
        InsertColor { color: color, location: None, overwrite: false }
    }

    /// Sets the location to place the color.
    pub fn located_at(self, location: Address) -> (r: InsertColor)
        ensures
            r.spec_color() == self.spec_color(),
            r.spec_location() == Some(location),
            r.spec_overwrite() == self.spec_overwrite(),
    {
        InsertColor { location: Some(location), ..self }
    }

    /// Configures the operation to overwrite existing cells when inserted.
    pub fn overwrite(self, overwrite: bool) -> (r: InsertColor)
        ensures
            r.spec_color() == self.spec_color(),
            r.spec_location() == self.spec_location(),
            r.spec_overwrite() == overwrite,
    {
        InsertColor { overwrite: overwrite, ..self }
    }
}

impl PaletteOperation for InsertColor {
    open spec fn applicable(&self, data: DataModel) -> bool {
        true
    }

    open spec fn restorable(&self, data: DataModel) -> bool {
        true
    }

    /// Sets a cell to the color, as `insert_outcome` says.
    open spec fn outcome(&self, data: DataModel) -> (
        Result<Map<Address, Option<Expression>>, Error>,
        DataModel,
    ) {
        insert_outcome(
            data,
            self.spec_location(),
            self.spec_overwrite(),
            Expression::Color(self.spec_color()),
            true,
        )
    }

    open spec fn entry_info(&self) -> InfoView {
        (
            "Insert Color"@,
            Some(
                insert_color_debug_text(
                    self.spec_color(),
                    self.spec_location(),
                    self.spec_overwrite(),
                ),
            ),
        )
    }

    fn info(&self) -> (r: OperationInfo) {
        proof {
            reveal_strlit("Insert Color");
        }
        OperationInfo { name: "Insert Color", details: Some(insert_color_details(self)) }
    }

    /// The entry's undo records this operation as the one it undoes.
    fn apply(&mut self, data: &mut Data) -> (r: Result<HistoryEntry, Error>)
        ensures
            r matches Ok(e) ==> e.undo.undoing_view() == Some(old(self).entry_info()),
    {
        let mut undo = Undo::new_for(self.info());
        insert_expression(
            data,
            self.location,
            self.overwrite,
            Expression::Color(self.color),
            true,
            &mut undo,
        )?;
        Ok(HistoryEntry { info: self.info(), undo: undo })
    }

    proof fn lemma_outcome(&self, data: DataModel) {
        lemma_insert_outcome(
            data,
            self.spec_location(),
            self.spec_overwrite(),
            Expression::Color(self.spec_color()),
            true,
        );
    }
}

impl InsertColor {
    /// An insertion at a location that may be overwritten, or that holds no
    /// color, gives the location itself the color, whatever it held.
    pub proof fn lemma_color_at_location(self, data: DataModel, a: Address)
        requires
            data.counts_positive(),
            self.spec_location() == Some(a),
            self.spec_overwrite() || !data.colored(a),
        ensures
            self.outcome(data).0 is Ok ==> self.outcome(data).1.cells.contains_key(a)
                && self.outcome(data).1.cells[a] == Expression::Color(self.spec_color())
                && self.outcome(data).1.color_of(a) == Some(self.spec_color()),
    {
        lemma_insert_at_location(
            data,
            a,
            self.spec_overwrite(),
            Expression::Color(self.spec_color()),
            true,
        );
        if self.outcome(data).0 is Ok {
            lemma_own_color(self.outcome(data).1, a);
        }
    }
}

////////////////////////////////////////////////////////////////////////////////
// InsertWatcher
////////////////////////////////////////////////////////////////////////////////
/// Inserts a watcher into the palette: a first-order expression that has the
/// same color as another cell of the palette.
#[derive(Debug, Clone, Copy)]
pub struct InsertWatcher {
    /// The address of the cell to watch.
    watching: Address,
    /// The location to start placing the watcher.
    location: Option<Address>,
    /// Whether to overwrite existing cells when generating new ones.
    overwrite: bool,
    /// Whether to create the watched cell when it is missing, rather than
    /// fail.
    make_sources: bool,
}

impl InsertWatcher {
    /// The address of the watched cell.
    pub closed spec fn spec_watching(self) -> Address {
        self.watching
    }

    /// The location to place the watcher at; `None` for the first free
    /// address.
    pub closed spec fn spec_location(self) -> Option<Address> {
        self.location
    }

    /// Whether an existing cell may be overwritten.
    pub closed spec fn spec_overwrite(self) -> bool {
        self.overwrite
    }

    /// Whether a missing watched cell is created.
    pub closed spec fn spec_make_sources(self) -> bool {
        self.make_sources
    }

    /// Creates a new InsertWatcher operation watching the given address.
    pub fn new(address: Address) -> (r: InsertWatcher)
        ensures
            r.spec_watching() == address,
            r.spec_location() is None,
            !r.spec_overwrite(),
            !r.spec_make_sources(),
    {
        InsertWatcher { watching: address, location: None, overwrite: false, make_sources: false }
    }

    /// Sets the location to place the watcher.
    pub fn located_at(self, location: Address) -> (r: InsertWatcher)
        ensures
            r.spec_watching() == self.spec_watching(),
            r.spec_location() == Some(location),
            r.spec_overwrite() == self.spec_overwrite(),
            r.spec_make_sources() == self.spec_make_sources(),
    {
        InsertWatcher { location: Some(location), ..self }
    }

    /// Configures the operation to overwrite existing cells when inserted.
    pub fn overwrite(self, overwrite: bool) -> (r: InsertWatcher)
        ensures
            r.spec_watching() == self.spec_watching(),
            r.spec_location() == self.spec_location(),
            r.spec_overwrite() == overwrite,
            r.spec_make_sources() == self.spec_make_sources(),
    {
        InsertWatcher { overwrite: overwrite, ..self }
    }

    /// Configures the operation to create the watched cell, empty, when it is
    /// missing, instead of failing with an `InvalidAddress` error.
    pub fn make_sources(self, make_sources: bool) -> (r: InsertWatcher)
        ensures
            r.spec_watching() == self.spec_watching(),
            r.spec_location() == self.spec_location(),
            r.spec_overwrite() == self.spec_overwrite(),
            r.spec_make_sources() == make_sources,
    {
        InsertWatcher { make_sources: make_sources, ..self }
    }

    /// The start of the search for the watcher's place: the location, or
    /// else the first free address from `0:0:0` on.
    pub open spec fn spec_start(self, data: DataModel) -> (Result<Address, Error>, DataModel) {
        match self.spec_location() {
            Some(a) => (Ok(a), data),
            None => data.first_free(Address { page: 0, line: 0, column: 0 }),
        }
    }

    /// The search for the watcher's place: one target from the start on,
    /// the watched address excluded.
    pub open spec fn spec_search(self, data: DataModel) -> (Result<Set<Address>, Error>, DataModel) {
        let (r0, d0) = self.spec_start(data);
        d0.targets(1, r0->Ok_0, self.spec_overwrite(), Some(seq![self.spec_watching()]))
    }

    /// The address the watcher is placed at, where the search finds one.
    pub open spec fn spec_target(self, data: DataModel) -> Address {
        the_target(self.spec_search(data).0->Ok_0)
    }
}

impl PaletteOperation for InsertWatcher {
    open spec fn applicable(&self, data: DataModel) -> bool {
        true
    }

    open spec fn restorable(&self, data: DataModel) -> bool {
        true
    }

    /// One target is found, the watched address excluded, and prepared, so
    /// that the operation fails before it changes any cell where the target
    /// lies out of bounds; the watched cell is looked up (created if it is
    /// missing and sources are made, else an `InvalidAddress` error); the
    /// target is set to watch it. The changes record what the target held and
    /// the creation of the source.
    open spec fn outcome(&self, data: DataModel) -> (
        Result<Map<Address, Option<Expression>>, Error>,
        DataModel,
    ) {
        let w = self.spec_watching();
        let (r0, d0) = self.spec_start(data);
        match r0 {
            Err(x) => (Err(x), d0),
            Ok(_) => {
                let (r1, d1) = self.spec_search(data);
                match r1 {
                    Err(x) => (Err(x), d1),
                    Ok(ts) => {
                        let (rp, dp) = d1.prepare(the_target(ts));
                        match rp {
                            Err(x) => (Err(x), dp),
                            Ok(_) => {
                                let (rs, ds, u1) = source_outcome(
                                    dp,
                                    w,
                                    self.spec_make_sources(),
                                    Map::empty(),
                                );
                                match rs {
                                    Err(x) => (Err(x), ds),
                                    Ok(_) => {
                                        let (r2, d2, u) = set_target_outcome(
                                            ds,
                                            the_target(ts),
                                            Expression::Watch(w),
                                            u1,
                                        );
                                        match r2 {
                                            Ok(_) => (Ok(u), d2),
                                            Err(x) => (Err(x), d2),
                                        }
                                    },
                                }
                            },
                        }
                    },
                }
            },
        }
    }

    open spec fn entry_info(&self) -> InfoView {
        (
            "Insert Watcher"@,
            Some(
                insert_watcher_debug_text(
                    self.spec_watching(),
                    self.spec_location(),
                    self.spec_overwrite(),
                    self.spec_make_sources(),
                ),
            ),
        )
    }

    fn info(&self) -> (r: OperationInfo) {
        proof {
            reveal_strlit("Insert Watcher");
        }
        OperationInfo { name: "Insert Watcher", details: Some(insert_watcher_details(self)) }
    }

    /// The entry's undo records this operation as the one it undoes; the
    /// watcher, placed apart from the watched cell, has its color.
    fn apply(&mut self, data: &mut Data) -> (r: Result<HistoryEntry, Error>)
        ensures
            r matches Ok(e) ==> e.undo.undoing_view() == Some(old(self).entry_info()),
            r is Ok ==> ({
                let t = old(self).spec_target(old(data)@);
                &&& t != old(self).spec_watching()
                &&& final(data)@.cells.contains_key(t)
                &&& final(data)@.cells[t] == Expression::Watch(old(self).spec_watching())
                &&& final(data)@.color_of(t) == final(data)@.color_of(old(self).spec_watching())
            }),
    {
        let mut undo = Undo::new_for(self.info());
        let ghost d = data@;
        let ghost w = self.watching;
        let starting_address = match self.location {
            Some(address) => address,
            None => data.first_free_address_after(Address::default())?,
        };
        let ghost d0 = data@;
        proof {
            if self.location is None {
                d.lemma_prepared(Address { page: 0, line: 0, column: 0 });
            }
            d0.lemma_single_target(starting_address, self.overwrite, Some(seq![w]));
        }
        let exclude = Some(vec![self.watching]);
        proof {
            assert(exclude->Some_0@ =~= seq![w]);
            assert(opt_addresses(exclude) == Some(seq![w]));
        }
        let targets = data.find_targets(1, starting_address, self.overwrite, exclude)?;
        proof {
            let ts = targets@.to_set();
            let x = choose|x: Address| ts == set![x] && !crate::data::excluded(Some(seq![w]), x);
            assert(ts.contains(x));
            if targets@.len() == 0 {
                assert(targets@.to_set() =~= Set::empty());
            }
            assert(ts.contains(targets@[0]));
            assert(the_target(ts) == targets@[0]);
            assert(targets@[0] == x);
            assert(seq![w].contains(w));
        }
        let target = targets[0];
        data.prepare_address(target)?;
        source(data, self.watching, self.make_sources, &mut undo)?;
        set_target(data, target, Expression::Watch(self.watching), &mut undo)?;
        proof {
            lemma_watch_color(data@, target, w);
        }
        Ok(HistoryEntry { info: self.info(), undo: undo })
    }

    proof fn lemma_outcome(&self, data: DataModel) {
        let origin = Address { page: 0, line: 0, column: 0 };
        let w = self.spec_watching();
        let (r0, d0) = self.spec_start(data);
        if self.spec_location() is None {
            data.lemma_first_free_keeps(origin);
        } else {
            assert(d0.extends(data));
        }
        assert forall|a: Address| #[trigger] d0.cells.contains_key(a) implies d0.settled(a) by {
            d0.lemma_extends_settled(data, a);
        }
        if r0 is Ok {
            let start = r0->Ok_0;
            let ex = Some(seq![w]);
            d0.lemma_single_target(start, self.spec_overwrite(), ex);
            d0.lemma_targets_keep(1, start, self.spec_overwrite(), ex);
            let (r1, d1) = d0.targets(1, start, self.spec_overwrite(), ex);
            d1.lemma_extends_trans(d0, data);
            assert forall|a: Address| #[trigger] d1.cells.contains_key(a) implies d1.settled(a) by {
                d1.lemma_extends_settled(data, a);
            }
            if r1 is Ok {
                let ts = r1->Ok_0;
                let t = the_target(ts);
                let x = choose|x: Address| ts == set![x] && !crate::data::excluded(ex, x);
                assert(ts.contains(x));
                assert(ts.contains(t));
                assert(t == x);
                assert(seq![w][0] == w);
                assert(seq![w].contains(w));
                assert(t != w);
                let empty = Map::<Address, Option<Expression>>::empty();
                d1.lemma_prepared(t);
                let (rp, dp) = d1.prepare(t);
                dp.lemma_extends_trans(d1, data);
                assert forall|a: Address| #[trigger] dp.cells.contains_key(a) implies dp.settled(a) by {
                    dp.lemma_extends_settled(d1, a);
                }
                if rp is Ok {
                    assert(patched(dp.cells, empty) =~= data.cells);
                    assert(on_track(data, dp, empty));
                    assert(dp.settled(t));
                    lemma_source_step(data, dp, w, self.spec_make_sources(), empty);
                    let (rs, ds, u1) = source_outcome(dp, w, self.spec_make_sources(), empty);
                    if rs is Ok {
                        assert(!u1.contains_key(t));
                        ds.lemma_extends_settled(dp, t);
                        lemma_set_target_step(data, ds, t, Expression::Watch(w), u1);
                    }
                }
            }
        }
    }
}

impl InsertWatcher {
    /// A watcher inserted at a location apart from the watched address, that
    /// may be overwritten or holds no color, is placed at the location itself,
    /// whatever it held, and has the color of the watched cell.
    pub proof fn lemma_watcher_at_location(self, data: DataModel, a: Address)
        requires
            data.counts_positive(),
            self.spec_location() == Some(a),
            a != self.spec_watching(),
            self.spec_overwrite() || !data.colored(a),
        ensures
            self.outcome(data).0 is Ok ==> {
                let d = self.outcome(data).1;
                &&& self.spec_target(data) == a
                &&& d.cells.contains_key(a)
                &&& d.cells[a] == Expression::Watch(self.spec_watching())
                &&& d.color_of(a) == d.color_of(self.spec_watching())
            },
    {
        let w = self.spec_watching();
        let ex = Some(seq![w]);
        assert(!seq![w].contains(a)) by {
            if seq![w].contains(a) {
                let i = choose|i: int| 0 <= i < seq![w].len() && seq![w][i] == a;
                assert(seq![w][i] == w);
            }
        }
        data.lemma_start_target(a, self.spec_overwrite(), ex);
        let (r1, d1) = self.spec_search(data);
        if r1 is Ok {
            let ts = r1->Ok_0;
            assert(ts.contains(a));
            assert(the_target(ts) == a);
        }
        if self.outcome(data).0 is Ok {
            let d = self.outcome(data).1;
            assert(d.cells.contains_key(a) && d.cells[a] == Expression::Watch(w));
            lemma_watch_color(d, a, w);
        }
    }
}

////////////////////////////////////////////////////////////////////////////////
// DeleteCell
////////////////////////////////////////////////////////////////////////////////
/// Removes a cell from the palette.
#[derive(Debug, Clone, Copy)]
pub struct DeleteCell {
    /// The address of the cell to remove.
    address: Address,
}

impl DeleteCell {
    /// The address of the cell to remove.
    pub closed spec fn spec_address(self) -> Address {
        self.address
    }

    /// Creates a new DeleteCell operation targetting the given address.
    pub fn new(address: Address) -> (r: DeleteCell)
        ensures
            r.spec_address() == address,
    {
        DeleteCell { address: address }
    }
}

impl Default for DeleteCell {
    fn default() -> (r: DeleteCell)
        ensures
            r.spec_address() == (Address { page: 0, line: 0, column: 0 }),
    {
        DeleteCell { address: Address::default() }
    }
}

impl PaletteOperation for DeleteCell {
    open spec fn applicable(&self, data: DataModel) -> bool {
        true
    }

    open spec fn restorable(&self, data: DataModel) -> bool {
        true
    }

    /// The cell is removed, and its expression recorded; an `EmptyAddress`
    /// error if there is none.
    open spec fn outcome(&self, data: DataModel) -> (
        Result<Map<Address, Option<Expression>>, Error>,
        DataModel,
    ) {
        let a = self.spec_address();
        if data.cells.contains_key(a) {
            (Ok(map![a => Some(data.cells[a])]), data.without_cell(a))
        } else {
            (Err(Error::EmptyAddress(a)), data)
        }
    }

    open spec fn entry_info(&self) -> InfoView {
        ("Remove Cell"@, Some(delete_cell_debug_text(self.spec_address())))
    }

    fn info(&self) -> (r: OperationInfo) {
        proof {
            reveal_strlit("Remove Cell");
        }
        OperationInfo { name: "Remove Cell", details: Some(delete_cell_details(self)) }
    }

    /// The entry's undo records this operation as the one it undoes.
    fn apply(&mut self, data: &mut Data) -> (r: Result<HistoryEntry, Error>)
        ensures
            r matches Ok(e) ==> e.undo.undoing_view() == Some(old(self).entry_info()),
    {
        let mut undo = Undo::new_for(self.info());
        let removed = data.remove_cell(self.address)?;
        undo.record(self.address, Some(removed));
        proof {
            assert(undo@ =~= map![self.address => Some(removed)]);
        }
        Ok(HistoryEntry { info: self.info(), undo: undo })
    }

    proof fn lemma_outcome(&self, data: DataModel) {
        let a = self.spec_address();
        let d1 = self.outcome(data).1;
        assert forall|b: Address| #[trigger] d1.line_count(b) > 0 by {
            assert(data.line_count(b) > 0);
        }
        assert forall|b: Address| #[trigger] d1.column_count(b) > 0 by {
            assert(data.column_count(b) > 0);
        }
        assert forall|b: Address| #[trigger] d1.cells.contains_key(b) implies d1.settled(b) by {
            assert(data.settled(b));
        }
        if data.cells.contains_key(a) {
            assert(data.settled(a));
            assert(patched(d1.cells, map![a => Some(data.cells[a])]) =~= data.cells);
        }
    }
}

} // verus!
