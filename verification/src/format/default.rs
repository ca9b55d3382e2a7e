//! The default way palette formats apply, undo and redo operations.
use vstd::prelude::*;
use crate::Palette;
use crate::data::{Data, DataModel};
use crate::operation::{
    OperationHistory, PaletteOperation, changes_of, infos_of, lemma_replayable_extends, named,
    replayable,
};
use crate::result::Error;

verus! {

/// Applies the operation to the palette's data. If the palette keeps a
/// history, the operation's undo is recorded and the redos are cleared.
pub fn apply_operation<O: PaletteOperation>(palette: &mut Palette, operation: O) -> (r: Result<
    (),
    Error,
>)
    requires
        operation.applicable(old(palette).data()),
        operation.restorable(old(palette).data()),
    ensures
        Palette::applied(*old(palette), operation, *final(palette), r),
{
    proof {
        use_type_invariant(&*palette);
    }
    let mut operation = operation;
    let mut history: Option<OperationHistory> = None;
    std::mem::swap(&mut history, &mut palette.operation_history);
    let mut data = Data::default();
    std::mem::swap(&mut data, &mut palette.data);
    let ghost d0 = data@;
    let ghost op = operation;
    proof {
        operation.lemma_outcome(d0);
    }
    let result = operation.apply(&mut data);
    let ghost d1 = data@;
    match result {
        Ok(entry) => {
            let _ = entry.undo.len();
            palette.data = data;
            match history {
                Some(mut h) => {
                    let ghost us = h.undo_entries@;
                    let ghost rs = h.redo_entries@;
                    h.undo_entries.push(entry);
                    h.redo_entries.clear();
                    proof {
                        let dn = DataModel { cells: d0.cells, ..d1 };
                        assert(dn.extends(d0));
                        lemma_replayable_extends(us, d0, dn);
                        assert(h.undo_entries@.drop_last() =~= us);
                        assert(h.undo_entries@.last() == entry);
                        assert(changes_of(h.undo_entries@) =~= changes_of(us).push(entry.undo@));
                        assert(changes_of(h.redo_entries@) =~= Seq::empty());
                        assert(infos_of(h.undo_entries@) =~= infos_of(us).push(entry.info@));
                        assert(infos_of(h.redo_entries@) =~= Seq::empty());
                        assert(named(h.undo_entries@)) by {
                            assert forall|i: int| 0 <= i < h.undo_entries@.len() implies (
                            #[trigger] h.undo_entries@[i]).undo.undoing_view() == Some(
                                h.undo_entries@[i].info@,
                            ) by {
                                if i < us.len() {
                                    assert(h.undo_entries@[i] == us[i]);
                                }
                            }
                        }
                    }
                    palette.operation_history = Some(h);
                },
                None => {},
            }
            Ok(())
        },
        Err(e) => {
            proof {
                if history is Some {
                    let h = history->Some_0;
                    lemma_replayable_extends(h.undo_entries@, d0, d1);
                    lemma_replayable_extends(h.redo_entries@, d0, d1);
                }
            }
            palette.data = data;
            palette.operation_history = history;
            Err(e)
        },
    }
}

/// Reverses the most recently applied operation, if there is one, and
/// records its redo. Only a palette with a history can undo.
pub fn undo(palette: &mut Palette) -> (r: Result<(), Error>)
    requires
        old(palette).history() is Some,
    ensures
        r is Ok,
        Palette::undone(*old(palette), *final(palette)),
{
    proof {
        use_type_invariant(&*palette);
    }
    let mut history: Option<OperationHistory> = None;
    std::mem::swap(&mut history, &mut palette.operation_history);
    let mut data = Data::default();
    std::mem::swap(&mut data, &mut palette.data);
    let ghost d0 = data@;
    match history {
        Some(mut h) => {
            let ghost us = h.undo_entries@;
            let ghost rs = h.redo_entries@;
            match h.undo_entries.pop() {
                Some(entry) => {
                    let mut entry = entry;
                    let ghost u0 = entry.undo;
                    proof {
                        entry.undo.lemma_restore(d0);
                        entry.undo.lemma_outcome(d0);
                    }
                    let redo = entry.undo.apply(&mut data)?;
                    let _ = redo.undo.len();
                    h.redo_entries.push(redo);
                    proof {
                        assert(us.drop_last() =~= h.undo_entries@);
                        let d1 = data@;
                        assert(DataModel { cells: patched_cells(d1, redo.undo@), ..d1 } == d0) by {
                            assert(d1 == DataModel { cells: crate::operation::patched(d0.cells, u0@), ..d0 });
                        }
                        assert(h.redo_entries@.drop_last() =~= rs);
                        assert(changes_of(h.undo_entries@) =~= changes_of(us).drop_last());
                        assert(changes_of(h.redo_entries@) =~= changes_of(rs).push(redo.undo@));
                        assert(us[us.len() - 1] == us.last());
                        assert(redo.info@ == us.last().info@);
                        assert(infos_of(h.undo_entries@) =~= infos_of(us).drop_last());
                        assert(infos_of(h.redo_entries@) =~= infos_of(rs).push(infos_of(us).last()));
                        assert(named(h.undo_entries@)) by {
                            assert forall|i: int| 0 <= i < h.undo_entries@.len() implies (
                            #[trigger] h.undo_entries@[i]).undo.undoing_view() == Some(
                                h.undo_entries@[i].info@,
                            ) by {
                                assert(h.undo_entries@[i] == us[i]);
                            }
                        }
                        assert(named(h.redo_entries@)) by {
                            assert forall|i: int| 0 <= i < h.redo_entries@.len() implies (
                            #[trigger] h.redo_entries@[i]).undo.undoing_view() == Some(
                                h.redo_entries@[i].info@,
                            ) by {
                                if i < rs.len() {
                                    assert(h.redo_entries@[i] == rs[i]);
                                }
                            }
                        }
                    }
                    palette.data = data;
                    palette.operation_history = Some(h);
                },
                None => {
                    palette.data = data;
                    palette.operation_history = Some(h);
                },
            }
            Ok(())
        },
        None => {
            palette.data = data;
            Ok(())
        },
    }
}

/// The cells of `d` patched by `changes`.
spec fn patched_cells(
    d: DataModel,
    changes: Map<crate::address::Address, Option<crate::expression::Expression>>,
) -> Map<crate::address::Address, crate::expression::Expression> {
    crate::operation::patched(d.cells, changes)
}

/// Reverses the most recently applied undo, if there is one, and records
/// its undo. Only a palette with a history can redo.
pub fn redo(palette: &mut Palette) -> (r: Result<(), Error>)
    requires
        old(palette).history() is Some,
    ensures
        r is Ok,
        Palette::redone(*old(palette), *final(palette)),
{
    proof {
        use_type_invariant(&*palette);
    }
    let mut history: Option<OperationHistory> = None;
    std::mem::swap(&mut history, &mut palette.operation_history);
    let mut data = Data::default();
    std::mem::swap(&mut data, &mut palette.data);
    let ghost d0 = data@;
    match history {
        Some(mut h) => {
            let ghost us = h.undo_entries@;
            let ghost rs = h.redo_entries@;
            match h.redo_entries.pop() {
                Some(entry) => {
                    let mut entry = entry;
                    let ghost u0 = entry.undo;
                    proof {
                        entry.undo.lemma_restore(d0);
                        entry.undo.lemma_outcome(d0);
                    }
                    let undo = entry.undo.apply(&mut data)?;
                    let _ = undo.undo.len();
                    h.undo_entries.push(undo);
                    proof {
                        assert(rs.drop_last() =~= h.redo_entries@);
                        let d1 = data@;
                        assert(DataModel { cells: patched_cells(d1, undo.undo@), ..d1 } == d0) by {
                            assert(d1 == DataModel { cells: crate::operation::patched(d0.cells, u0@), ..d0 });
                        }
                        assert(h.undo_entries@.drop_last() =~= us);
                        assert(changes_of(h.redo_entries@) =~= changes_of(rs).drop_last());
                        assert(changes_of(h.undo_entries@) =~= changes_of(us).push(undo.undo@));
                        assert(rs[rs.len() - 1] == rs.last());
                        assert(undo.info@ == rs.last().info@);
                        assert(infos_of(h.redo_entries@) =~= infos_of(rs).drop_last());
                        assert(infos_of(h.undo_entries@) =~= infos_of(us).push(infos_of(rs).last()));
                        assert(named(h.redo_entries@)) by {
                            assert forall|i: int| 0 <= i < h.redo_entries@.len() implies (
                            #[trigger] h.redo_entries@[i]).undo.undoing_view() == Some(
                                h.redo_entries@[i].info@,
                            ) by {
                                assert(h.redo_entries@[i] == rs[i]);
                            }
                        }
                        assert(named(h.undo_entries@)) by {
                            assert forall|i: int| 0 <= i < h.undo_entries@.len() implies (
                            #[trigger] h.undo_entries@[i]).undo.undoing_view() == Some(
                                h.undo_entries@[i].info@,
                            ) by {
                                if i < us.len() {
                                    assert(h.undo_entries@[i] == us[i]);
                                }
                            }
                        }
                    }
                    palette.data = data;
                    palette.operation_history = Some(h);
                },
                None => {
                    palette.data = data;
                    palette.operation_history = Some(h);
                },
            }
            Ok(())
        },
        None => {
            palette.data = data;
            Ok(())
        },
    }
}

} // verus!
