//! The sink facade: the single entry point dispatching each batch and each
//! rollback to the configured engine, row mode or entity mode.

use vstd::prelude::*;

use crate::cursor::{effective_rollback_key, spec_effective_rollback_key, Context, Cursor, CursorAction};
use crate::entity::{
    ingest_entities, lemma_rollback_store_wf, parse_batch, rollback_store, store_bounded,
    store_wf, EntityStore,
};
use crate::error::{ErrorKind, SinkError, SinkOperation};
use crate::row::{conditions_view, row_ingest, row_rollback, Condition, RowStore};
use crate::value::{Value, ValueV};

verus! {

/// The configuration of a sink: the target table or collection, the
/// operating mode, and the optional invalidation scope (row mode only; an
/// empty scope exempts nothing).
pub struct SinkOptions {
    pub target: String,
    pub entity_mode: bool,
    pub invalidation_scope: Vec<Condition>,
}

/// The sink: one persisted store, driven strictly sequentially by a single
/// caller through `handle_data` and `handle_invalidate`.
pub struct Sink {
    pub target: String,
    pub entity_mode: bool,
    pub scope: Vec<Condition>,
    pub rows: RowStore,
    pub entities: EntityStore,
}

impl Sink {
    /// The sink's store is well-formed: the entity store satisfies the
    /// partition invariant.
    pub open spec fn wf(self) -> bool {
        store_wf(self.entities@)
    }

    /// Every position in the entity store lies at or before `end_key`.
    pub open spec fn bounded(self, end_key: u64) -> bool {
        store_bounded(self.entities@, end_key)
    }

    /// The configuration is untouched by an operation.
    pub open spec fn same_config(self, other: Sink) -> bool {
        &&& self.target@ == other.target@
        &&& self.entity_mode == other.entity_mode
        &&& conditions_view(self.scope@) == conditions_view(other.scope@)
    }

    /// A sink over an empty store.
    pub fn from_options(options: SinkOptions) -> (r: Sink)
        ensures
            r.wf(),
            forall|e: u64| r.bounded(e),
            r.target@ == options.target@,
            r.entity_mode == options.entity_mode,
            conditions_view(r.scope@) == conditions_view(options.invalidation_scope@),
            r.rows@ == Seq::<crate::row::RowRecordV>::empty(),
            r.entities@ == Seq::<crate::entity::HistoryV>::empty(),
    {
        Sink {
            target: options.target,
            entity_mode: options.entity_mode,
            scope: options.invalidation_scope,
            rows: RowStore::new(),
            entities: EntityStore::new(),
        }
    }

    /// Ingests one batch. The batch must be a sequence value, else the call
    /// fails as a malformed batch and changes nothing. In row mode every
    /// structured element is appended as a record tagged with the end
    /// position; in entity mode the decoded updates are folded into the
    /// entity histories. Empty or fully dropped batches are no-ops that
    /// still ask the caller to persist its resume point.
    pub fn handle_data(&mut self, ctx: &Context, batch: &Value) -> (r: Result<
        CursorAction,
        SinkError,
    >)
        requires
            old(self).wf(),
            old(self).bounded(ctx.end_cursor.order_key),
        ensures
            final(self).wf(),
            final(self).bounded(ctx.end_cursor.order_key),
            old(self).same_config(*final(self)),
            match batch@ {
                ValueV::List(els) => {
                    if old(self).entity_mode {
                        &&& final(self).rows@ == old(self).rows@
                        &&& match parse_batch(els) {
                            Ok(ups) => {
                                &&& r == Ok::<CursorAction, SinkError>(CursorAction::Persist)
                                &&& final(self).entities@ == ingest_entities(
                                    old(self).entities@,
                                    ups,
                                    ctx.end_cursor.order_key,
                                )
                            },
                            Err(name) => {
                                &&& final(self).entities@ == old(self).entities@
                                &&& match r {
                                    Err(err) => {
                                        &&& err.target@ == old(self).target@
                                        &&& err.operation == SinkOperation::HandleData
                                        &&& match err.kind {
                                            ErrorKind::UnsupportedUpdateOperator(op) => op@
                                                == name,
                                            _ => false,
                                        }
                                    },
                                    Ok(_) => false,
                                }
                            },
                        }
                    } else {
                        &&& r == Ok::<CursorAction, SinkError>(CursorAction::Persist)
                        &&& final(self).rows@ == old(self).rows@ + row_ingest(
                            els,
                            ctx.end_cursor.order_key,
                        )
                        &&& final(self).entities@ == old(self).entities@
                    }
                },
                _ => {
                    &&& final(self).rows@ == old(self).rows@
                    &&& final(self).entities@ == old(self).entities@
                    &&& match r {
                        Err(err) => {
                            &&& err.target@ == old(self).target@
                            &&& err.operation == SinkOperation::HandleData
                            &&& err.kind is MalformedBatch
                        },
                        Ok(_) => false,
                    }
                },
            },
    {
        let end_key = ctx.end_cursor.order_key;
        match batch {
            Value::List(elements) => {
                if self.entity_mode {
                    match self.entities.ingest(elements, end_key) {
                        Ok(()) => Ok(CursorAction::Persist),
                        Err(op) => Err(
                            SinkError {
                                target: self.target.clone(),
                                operation: SinkOperation::HandleData,
                                kind: ErrorKind::UnsupportedUpdateOperator(op),
                            },
                        ),
                    }
                } else {
                    self.rows.ingest(elements, end_key);
                    Ok(CursorAction::Persist)
                }
            },
            _ => Err(
                SinkError {
                    target: self.target.clone(),
                    operation: SinkOperation::HandleData,
                    kind: ErrorKind::MalformedBatch,
                },
            ),
        }
    }

    /// Rolls the store back to the position the new head stands for —
    /// genesis when the head is absent. In row mode, records created
    /// strictly after that position are deleted unless the configured scope
    /// exempts them; in entity mode, versions created after it are deleted
    /// and the versions current at it are reopened. The delete and reopen
    /// phases are one transition of the store here; only a backend without
    /// multi-statement transactions can observe a window between them.
    pub fn handle_invalidate(&mut self, new_head: &Option<Cursor>) -> (r: Result<(), SinkError>)
        requires
            old(self).wf(),
        ensures
            final(self).wf(),
            old(self).entity_mode ==> final(self).bounded(spec_effective_rollback_key(*new_head)),
            old(self).same_config(*final(self)),
            r is Ok,
            if old(self).entity_mode {
                &&& final(self).rows@ == old(self).rows@
                &&& final(self).entities@ == rollback_store(
                    old(self).entities@,
                    spec_effective_rollback_key(*new_head),
                )
            } else {
                &&& final(self).entities@ == old(self).entities@
                &&& final(self).rows@ == row_rollback(
                    old(self).rows@,
                    conditions_view(old(self).scope@),
                    spec_effective_rollback_key(*new_head),
                )
            },
    {
        let key = effective_rollback_key(new_head);
        if self.entity_mode {
            let ghost before = self.entities@;
            self.entities.rollback(key);
            proof {
                lemma_rollback_store_wf(before, key);
            }
        } else {
            self.rows.rollback(&self.scope, key);
        }
        Ok(())
    }
}

} // verus!
