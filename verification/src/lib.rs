//! Offline meal recommendations: catalog validation, request checks, hard
//! filtering and the bookkeeping of drawing without replacement, stated and
//! proved. Which candidate each draw takes is left to the caller.
mod catalog;
mod engine;
mod guarantees;
mod laws;
mod model;
mod order;
mod text;

pub use catalog::{
    all_labels, answers_to, catalog_valid, cites, claimed_before, claims, clashes, dish_fault,
    dish_fields_ok, dish_labels_ok, dish_ok, explains, first_answer, header_valid, lemma_answers_to_claims,
    lemma_valid_answers_unique, listed, names_of, names_clear, source_ok, unit_interval, Catalog,
};
pub use engine::{
    admits, category_key, check_request, copy_dish, count_admitted, grouped,
    history_of, ids_distinct, in_some_group, label_given, labels_given, lemma_valid_ids_distinct,
    matched_keys, meets_preference, outcome, overlap, position_lists, preference_hits,
    preference_keys, reasons_for, recalls, request_fault, same_dish, seed_for, seed_of, selection, sorted_by_id,
    status_for, texts, unknown_recent, warnings_of, cooking, Overlap, Session,
};
pub use guarantees::{
    answered, binary64_in_unit_interval, has_visible, law_candidates_exactly_qualifying,
    law_recent_dishes, law_request_accepted_exactly, law_response_size_and_status, law_seed_given_or_drawn,
    law_warnings_of_response, passes_every_filter, law_accepted_labels_visible, law_budget_needs_cook,
    law_budget_without_cook_refused, law_candidates_meet_every_filter, law_familiarity_check_exact,
    law_label_has_visible_char, law_no_recent_no_history, law_reasons_of_recommendations,
    law_recommendations_meet_every_filter, law_response_names_its_catalog, law_valid_catalog_plainly,
    law_valid_familiarity_in_unit_interval, normalized_labels,
};
pub use laws::{
    dishes_at, id_sorted, law_dish_order_irrelevant, law_has_label_grows, law_history_distinct,
    law_resolve_order_irrelevant, law_response_determined, law_selection_determined, law_valid_under_reordering,
    law_valid_under_selection, lemma_same_dishes_same_selection, lemma_valid_keys_apart,
    lemma_valid_under_selection, reordered, same_frame, selected_from,
    law_no_match_iff_nothing_admitted, law_partial_returns_all_candidates,
    law_soft_options_do_not_filter, lemma_answered_is_first, lemma_first_answer_same_dish,
    lemma_history_same_dishes, lemma_id_sorted_unique, same_dishes, same_filters,
};
pub use model::{Dish, Error, Options, Recommendation, Response, Source, Strategy};
pub use order::{chars_of, less, lemma_precedes_irreflexive, lemma_precedes_total, lemma_precedes_transitive, precedes};
pub use text::{
    has, has_label, intersects, is_label, lowercase, nonempty, norm, normalized, shares_label,
    trim_end, trim_start, trimmed, white_space,
};
