//! Structured color palettes whose cells are identified by page, line and
//! column addresses.
//!
//! Each `Cell` of a `Palette` holds an `Expression`, which generates the
//! cell's `Color`. Operations change the cells and record how to undo
//! themselves, so that a palette with a history can undo and redo them.
use vstd::prelude::*;

pub mod order;
pub mod interval;
pub mod result;
pub mod address;
pub mod color;
pub mod address_map;
pub mod expression;
pub mod cell;
pub mod text;
pub mod render;
pub mod data;
pub mod data_text;
pub mod walk;
pub mod format;
pub mod operation;

pub use crate::address::{Address, Reference, spec_all};
pub use crate::color::Color;
pub use crate::expression::Expression;
pub use crate::format::Format;
use crate::data::{Data, DataModel};
use crate::operation::{
    InfoView, OperationHistory, PaletteOperation, changes_of, infos_of, named, patched, replayable,
};
use crate::operation::undo::{inverse, lemma_patch_inverse};
use crate::result::Error;

verus! {

////////////////////////////////////////////////////////////////////////////////
// Palette
////////////////////////////////////////////////////////////////////////////////
/// Encapsulates a single color palette.
pub struct Palette {
    /// The `Palette`'s operation-relevant data.
    pub(crate) data: Data,
    /// The operation undo and redo history.
    pub(crate) operation_history: Option<OperationHistory>,
    /// The palette format.
    pub(crate) format: Format,
}

/// The undo and redo changes of a history: the undo entries from the oldest
/// to the most recent, then the redo entries likewise.
pub type HistoryView = (
    Seq<Map<Address, Option<Expression>>>,
    Seq<Map<Address, Option<Expression>>>,
);

impl Palette {
    /// The data of the palette.
    pub closed spec fn data(self) -> DataModel {
        self.data@
    }

    /// The format of the palette.
    pub closed spec fn format(self) -> Format {
        self.format
    }

    /// The recorded changes of the history, if the palette keeps one.
    pub closed spec fn history(self) -> Option<HistoryView> {
        match self.operation_history {
            Some(h) => Some((changes_of(h.undo_entries@), changes_of(h.redo_entries@))),
            None => None,
        }
    }

    /// The information carried by the entries of the history, if the palette
    /// keeps one: the undo entries from the oldest to the most recent, then
    /// the redo entries likewise.
    pub closed spec fn history_infos(self) -> Option<(Seq<InfoView>, Seq<InfoView>)> {
        match self.operation_history {
            Some(h) => Some((infos_of(h.undo_entries@), infos_of(h.redo_entries@))),
            None => None,
        }
    }

    /// The palette is consistent: it has pages, lines and columns; its cells
    /// lie at settled addresses; and its history can be replayed, each entry
    /// undoing the operation it names.
    #[verifier::type_invariant]
    pub closed spec fn wf(self) -> bool {
        &&& self.data@.counts_positive()
        &&& self.data@.cells_settled()
        &&& match self.operation_history {
            Some(h) => replayable(h.undo_entries@, self.data@) && replayable(
                h.redo_entries@,
                self.data@,
            ) && named(h.undo_entries@) && named(h.redo_entries@),
            None => true,
        }
    }

    /// `after` is `before` with the operation applied: the data is the
    /// operation's outcome; on success its changes and its information are
    /// pushed as the most recent undo and the redos are cleared.
    pub open spec fn applied<O: PaletteOperation>(
        before: Palette,
        operation: O,
        after: Palette,
        r: Result<(), Error>,
    ) -> bool {
        let (o, d) = operation.outcome(before.data());
        &&& after.data() == d
        &&& after.format() == before.format()
        &&& match o {
            Ok(u) => r is Ok && after.history() == match before.history() {
                Some(h) => Some((h.0.push(u), Seq::<Map<Address, Option<Expression>>>::empty())),
                None => None,
            } && after.history_infos() == match before.history_infos() {
                Some(h) => Some((h.0.push(operation.entry_info()), Seq::<InfoView>::empty())),
                None => None,
            },
            Err(e) => r == Err::<(), Error>(e) && after.history() == before.history()
                && after.history_infos() == before.history_infos(),
        }
    }

    /// `after` is `before` with the most recent undo applied, if there is one:
    /// its changes patch the cells, and their inverse becomes the most recent
    /// redo, which names the same operation.
    pub open spec fn undone(before: Palette, after: Palette) -> bool {
        let h = before.history().unwrap();
        let i = before.history_infos().unwrap();
        &&& after.format() == before.format()
        &&& if h.0.len() == 0 {
            after.data() == before.data() && after.history() == before.history()
                && after.history_infos() == before.history_infos()
        } else {
            &&& after.history_infos() == Some((i.0.drop_last(), i.1.push(i.0.last())))
            &&& after.data() == DataModel {
                cells: patched(before.data().cells, h.0.last()),
                ..before.data()
            }
            &&& after.history() == Some(
                (h.0.drop_last(), h.1.push(inverse(before.data().cells, h.0.last()))),
            )
        }
    }

    /// `after` is `before` with the most recent redo applied, if there is one:
    /// its changes patch the cells, and their inverse becomes the most recent
    /// undo, which names the same operation.
    pub open spec fn redone(before: Palette, after: Palette) -> bool {
        let h = before.history().unwrap();
        let i = before.history_infos().unwrap();
        &&& after.format() == before.format()
        &&& if h.1.len() == 0 {
            after.data() == before.data() && after.history() == before.history()
                && after.history_infos() == before.history_infos()
        } else {
            &&& after.history_infos() == Some((i.0.push(i.1.last()), i.1.drop_last()))
            &&& after.data() == DataModel {
                cells: patched(before.data().cells, h.1.last()),
                ..before.data()
            }
            &&& after.history() == Some(
                (h.0.push(inverse(before.data().cells, h.1.last())), h.1.drop_last()),
            )
        }
    }

    /// Creates a new `Palette` with the given name and format, keeping a
    /// history of operations if `history` is true.
    pub fn new(name: &str, format: Format, history: bool) -> (r: Palette)
        ensures
            r.data() == format.spec_initialize(Palette::empty_data().with_name(spec_all()@, name@)),
            r.format() == format,
            r.history() == (if history {
                Some((Seq::<Map<Address, Option<Expression>>>::empty(), Seq::<Map<Address, Option<Expression>>>::empty()))
            } else {
                None
            }),
            r.history_infos() == (if history {
                Some((Seq::<InfoView>::empty(), Seq::<InfoView>::empty()))
            } else {
                None
            }),
    {
        let mut data = Data::default();
        data.set_name(Reference::all(), name);
        format.initialize(&mut data);
        proof {
            let d = data@;
            assert forall|a: Address| #[trigger] d.line_count(a) > 0 by {}
            assert forall|a: Address| #[trigger] d.column_count(a) > 0 by {}
        }
        let operation_history = if history {
            Some(OperationHistory::default())
        } else {
            None
        };
        let r = Palette { data, operation_history, format };
        proof {
            if history {
                assert(changes_of(r.operation_history->Some_0.undo_entries@) =~= Seq::empty());
                assert(changes_of(r.operation_history->Some_0.redo_entries@) =~= Seq::empty());
                assert(infos_of(r.operation_history->Some_0.undo_entries@) =~= Seq::empty());
                assert(infos_of(r.operation_history->Some_0.redo_entries@) =~= Seq::empty());
            }
        }
        r
    }

    /// The data of a new palette before its name and format are set.
    pub open spec fn empty_data() -> DataModel {
        DataModel {
            cells: Map::empty(),
            names: Seq::empty(),
            metadata: Map::empty(),
            maximum_page_count: crate::address::PAGE_MAX,
            default_line_count: crate::address::LINE_MAX,
            default_column_count: crate::address::COLUMN_MAX,
            page_hook: Format::Default,
            line_hook: Format::Default,
        }
    }

    /// Returns the data of the palette.
    pub fn get_data(&self) -> (r: &Data)
        ensures
            r@ == self.data(),
    {
        &self.data
    }

    /// Returns the format of the palette.
    pub fn get_format(&self) -> (r: Format)
        ensures
            r == self.format(),
    {
        self.format
    }

    /// Returns the number of color `Cell`s in the `Palette`.
    pub fn len(&self) -> (r: usize)
        ensures
            r == self.data().cells.dom().len(),
    {
        self.data.len()
    }

    /// Returns whether the `Palette` contains any color `Cell`s.
    pub fn is_empty(&self) -> (r: bool)
        ensures
            r == (self.data().cells.dom().len() == 0),
    {
        self.data.is_empty()
    }

    /// Returns the numbers of undo and redo entries recorded.
    pub fn history_len(&self) -> (r: (usize, usize))
        ensures
            r == match self.history() {
                Some(h) => (h.0.len() as usize, h.1.len() as usize),
                None => (0usize, 0usize),
            },
    {
        match &self.operation_history {
            Some(history) => (history.undo_entries.len(), history.redo_entries.len()),
            None => (0, 0),
        }
    }

    /// Returns whether the `Palette` has a history without entries; a palette
    /// without a history has none.
    pub fn history_is_empty(&self) -> (r: bool)
        ensures
            r == match self.history() {
                Some(h) => h.0.len() == 0 && h.1.len() == 0,
                None => false,
            },
    {
        match &self.operation_history {
            Some(history) => history.undo_entries.len() == 0 && history.redo_entries.len() == 0,
            None => false,
        }
    }

    /// Returns the color at the given address, following watchers to the
    /// color they watch; `None` if the cell is missing or empty, if its
    /// watchers lead round in a loop, or if they lead to a ramp step, whose
    /// blended color is not computed here.
    pub fn color(&self, address: Address) -> (r: Option<Color>)
        ensures
            r == self.data().color_of(address),
    {
        self.data.color_at(address)
    }

    /// Applies the given operation to the `Palette`: the format applies it,
    /// and records its undo if the palette keeps a history.
    pub fn apply<O: PaletteOperation>(&mut self, operation: O) -> (r: Result<(), Error>)
        requires
            operation.applicable(old(self).data()),
            operation.restorable(old(self).data()),
        ensures
            Palette::applied(*old(self), operation, *final(self), r),
    {
        let format = self.format;
        format.apply_operation(self, operation)
    }

    /// Reverses the most recently applied operation. Only a palette with a
    /// history can undo.
    pub fn undo(&mut self) -> (r: Result<(), Error>)
        requires
            old(self).history() is Some,
        ensures
            r is Ok,
            Palette::undone(*old(self), *final(self)),
    {
        let format = self.format;
        format.undo(self)
    }

    /// Reverses the most recently applied undo operation. Only a palette with
    /// a history can redo.
    pub fn redo(&mut self) -> (r: Result<(), Error>)
        requires
            old(self).history() is Some,
        ensures
            r is Ok,
            Palette::redone(*old(self), *final(self)),
    {
        let format = self.format;
        format.redo(self)
    }
}

impl Default for Palette {
    fn default() -> (r: Palette)
        ensures
            r.data() == Palette::empty_data(),
            r.format() == Format::Default,
            r.history() is None,
    {
        let r = Palette { data: Data::default(), operation_history: None, format: Format::Default };
        proof {
            let d = r.data@;
            assert forall|a: Address| #[trigger] d.line_count(a) > 0 by {}
            assert forall|a: Address| #[trigger] d.column_count(a) > 0 by {}
        }
        r
    }
}

/// Undoing an operation just applied to a palette with a history restores
/// the cells the palette had before.
pub proof fn lemma_undo_after_apply<O: PaletteOperation>(
    before: Palette,
    operation: O,
    applied: Palette,
    undone: Palette,
)
    requires
        before.wf(),
        before.history() is Some,
        operation.applicable(before.data()),
        operation.restorable(before.data()),
        Palette::applied(before, operation, applied, Ok(())),
        Palette::undone(applied, undone),
    ensures
        undone.data().cells == before.data().cells,
{
    operation.lemma_outcome(before.data());
}

/// Undoing an operation just applied to a palette with a history leaves a
/// redo that names that operation.
pub proof fn lemma_redo_names_undone_operation<O: PaletteOperation>(
    before: Palette,
    operation: O,
    applied: Palette,
    undone: Palette,
)
    requires
        before.history() is Some,
        before.history_infos() is Some,
        Palette::applied(before, operation, applied, Ok(())),
        Palette::undone(applied, undone),
    ensures
        undone.history_infos() matches Some(i) && i.1.len() == 1 && i.1[0] == operation.entry_info(),
{
}

/// A failed operation leaves the palette's cells and history as they were.
pub proof fn lemma_failed_apply_keeps_cells<O: PaletteOperation>(
    before: Palette,
    operation: O,
    after: Palette,
    e: Error,
)
    requires
        before.wf(),
        operation.applicable(before.data()),
        operation.restorable(before.data()),
        Palette::applied(before, operation, after, Err(e)),
    ensures
        after.data().cells == before.data().cells,
        after.history() == before.history(),
{
    operation.lemma_outcome(before.data());
}

/// Redoing an undo just made restores the cells the palette had before the
/// undo.
pub proof fn lemma_redo_after_undo(before: Palette, undone: Palette, redone: Palette)
    requires
        before.history() is Some,
        before.history().unwrap().0.len() > 0,
        Palette::undone(before, undone),
        Palette::redone(undone, redone),
    ensures
        redone.data().cells == before.data().cells,
{
    lemma_patch_inverse(before.data().cells, before.history().unwrap().0.last());
}

/// Undoing a redo just made restores the cells the palette had before the
/// redo.
pub proof fn lemma_undo_after_redo(before: Palette, redone: Palette, undone: Palette)
    requires
        before.history() is Some,
        before.history().unwrap().1.len() > 0,
        Palette::redone(before, redone),
        Palette::undone(redone, undone),
    ensures
        undone.data().cells == before.data().cells,
{
    lemma_patch_inverse(before.data().cells, before.history().unwrap().1.last());
}

} // verus!
