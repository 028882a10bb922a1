//! A schema-aware document mapping layer for a schemaless document store.
//!
//! Records declare per-field metadata (indexing, visibility, wire names).
//! This crate holds the verified core: column metadata, the query-condition
//! builder, the index-reconciliation diff, the field renaming/masking pass,
//! and the payload preparation for each CRUD verb. The asynchronous driver
//! calls themselves live outside, in the embedding application.

mod column;
mod doc;
mod kv;
mod model;
mod numstr;
mod laws;
mod reconcile;
mod schema;
mod transcode;

pub use column::ColumnAttr;
pub use doc::{doc_val_eq, dup_doc, dup_value, lemma_doc_val_eq_map, lemma_doc_val_eq_refl,
    lemma_val_eq_refl,
    val_eq, Doc, Value};
pub use schema::{wire_of, Schema};
pub use model::{and_filter, create_doc_spec, create_spec, delete_many_result, doc_values,
    filter_ok, is_lazy_attr, stamped, update_many_result, update_payload_ok, CountPlan,
    DeletePlan, FindPlan, Model, QueryBuilder, UpdatePlan, UsageError};
pub use numstr::{spec_decimal, spec_digit, u64_to_string};
pub use reconcile::{benign_keys, creates_of, desired_of, flat_keys, key_crossings,
    lemma_reconcile_idempotent_satisfied, live_crossings, index_views, lemma_desired_of_distinct, lemma_reconcile_idempotent,
    non_id_keys, create_of, live_opts, opt_view, opt_views,
    reconcile, remove_first, scan_key, scan_keys, scan_live, scan_result, DeclaredIndex,
    IndexOpts, IndexView, LiveIndex, ReconcilePlan, ScanState};
pub use laws::{col_id, col_wire, ids_distinct, keys_declared, lemma_masking_hides, lemma_mask_round_trip,
    lemma_masking_visibility, same_at, schema_ok};
pub use transcode::{clear_doc, clear_fold, clear_step, contains_str, detect_operator,
    hidden_fields, hidden_of, has_operator_key, is_operator_key, all_values_docs,
    rename_map, rename_operator, rename_plain, rename_step, lemma_hidden_of_contains};
