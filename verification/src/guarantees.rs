//! What the operations are for, stated over their inputs and results in plain
//! terms: fields, labels compared after normalisation, and bit patterns.
use vstd::prelude::*;

use crate::catalog::{catalog_valid, unit_interval, Catalog};
use crate::engine::{admits, outcome, request_fault, same_dish, selection, texts};
use crate::model::{Dish, Options, Response, Strategy};
use crate::text::normalized;

verus! {

/// Everything the hard filters of request `o` demand of dish `d`, given the
/// recent dishes `history` (positions in `c`), in plain terms.
proof fn lemma_filters_in_plain_terms(o: Options, c: Catalog, history: Seq<usize>, d: Dish)
    requires
        admits(o, c, history, d),
    ensures
        o.categories@.len() > 0 ==> exists|i: int|
            0 <= i < o.categories@.len() && normalized(#[trigger] o.categories@[i]@) == normalized(
                d.category@,
            ),
        o.regions@.len() > 0 ==> exists|i: int, k: int|
            0 <= i < o.regions@.len() && 0 <= k < d.regions@.len() && normalized(
                #[trigger] o.regions@[i]@,
            ) == normalized(#[trigger] d.regions@[k]@),
        o.meal matches Some(v) ==> exists|i: int|
            0 <= i < d.meals@.len() && normalized(#[trigger] d.meals@[i]@) == normalized(v@),
        o.mode matches Some(v) ==> exists|i: int|
            0 <= i < d.modes@.len() && normalized(#[trigger] d.modes@[i]@) == normalized(v@),
        o.theme matches Some(v) ==> exists|i: int|
            0 <= i < d.themes@.len() && normalized(#[trigger] d.themes@[i]@) == normalized(v@),
        o.max_minutes matches Some(v) ==> (d.minutes_max matches Some(m) && m <= v),
        o.budget_max_fen matches Some(v) ==> (d.cost_max_fen matches Some(m) && m <= v),
        forall|t: int|
            0 <= t < o.required_tags@.len() ==> d.tags@.map_values(|s: String| normalized(s@)).contains(
                normalized(#[trigger] o.required_tags@[t]@),
            ),
        forall|e: int, k: int|
            0 <= e < o.exclude_ingredients@.len() && 0 <= k < d.ingredients@.len() ==> normalized(
                #[trigger] o.exclude_ingredients@[e]@,
            ) != normalized(#[trigger] d.ingredients@[k]@),
        o.exclude_ingredients@.len() > 0 && o.require_complete_ingredients
            ==> d.ingredients_complete,
        o.exclude_recent ==> forall|r: int|
            0 <= r < history.len() ==> c.dishes@[#[trigger] history[r] as int].id@ != d.id@,
{
    if o.categories@.len() > 0 {
        let i = choose|i: int|
            0 <= i < o.categories@.len() && normalized(#[trigger] o.categories@[i]@) == normalized(
                d.category@,
            );
    }
    if o.regions@.len() > 0 {
        let i = choose|i: int|
            0 <= i < o.regions@.len() && crate::text::has_label(d.regions@, #[trigger] o.regions@[i]@);
        let k = choose|k: int|
            0 <= k < d.regions@.len() && normalized(#[trigger] d.regions@[k]@) == normalized(
                o.regions@[i]@,
            );
    }
    assert forall|t: int| 0 <= t < o.required_tags@.len() implies d.tags@.map_values(
        |s: String| normalized(s@),
    ).contains(normalized(#[trigger] o.required_tags@[t]@)) by {
        assert(crate::text::has_label(d.tags@, o.required_tags@[t]@));
        let i = choose|i: int|
            0 <= i < d.tags@.len() && normalized(#[trigger] d.tags@[i]@) == normalized(
                o.required_tags@[t]@,
            );
        assert(d.tags@.map_values(|s: String| normalized(s@))[i] == normalized(d.tags@[i]@));
    }
    assert forall|e: int, k: int|
        0 <= e < o.exclude_ingredients@.len() && 0 <= k < d.ingredients@.len() implies normalized(
        #[trigger] o.exclude_ingredients@[e]@,
    ) != normalized(#[trigger] d.ingredients@[k]@) by {
        if normalized(o.exclude_ingredients@[e]@) == normalized(d.ingredients@[k]@) {
            assert(crate::text::has_label(d.ingredients@, o.exclude_ingredients@[e]@));
        }
    }
}

/// Hard filters never relax: every candidate of a request (a dish that
/// `Session::start` admits) has a requested category, region, meal, mode and
/// theme, every required tag, no excluded ingredient, a known time and cost
/// within the limits, a complete ingredient list when ingredients are
/// excluded strictly, and is no recent dish when recent dishes are excluded.
pub proof fn law_candidates_meet_every_filter(
    o: Options,
    c: Catalog,
    history: Seq<usize>,
    admitted: Seq<usize>,
    j: int,
    d: Dish,
)
    requires
        selection(o, c, history, admitted),
        0 <= j < admitted.len(),
        d == c.dishes@[admitted[j] as int],
    ensures
        o.categories@.len() > 0 ==> exists|i: int|
            0 <= i < o.categories@.len() && normalized(#[trigger] o.categories@[i]@) == normalized(
                d.category@,
            ),
        o.regions@.len() > 0 ==> exists|i: int, k: int|
            0 <= i < o.regions@.len() && 0 <= k < d.regions@.len() && normalized(
                #[trigger] o.regions@[i]@,
            ) == normalized(#[trigger] d.regions@[k]@),
        o.meal matches Some(v) ==> exists|i: int|
            0 <= i < d.meals@.len() && normalized(#[trigger] d.meals@[i]@) == normalized(v@),
        o.mode matches Some(v) ==> exists|i: int|
            0 <= i < d.modes@.len() && normalized(#[trigger] d.modes@[i]@) == normalized(v@),
        o.theme matches Some(v) ==> exists|i: int|
            0 <= i < d.themes@.len() && normalized(#[trigger] d.themes@[i]@) == normalized(v@),
        o.max_minutes matches Some(v) ==> (d.minutes_max matches Some(m) && m <= v),
        o.budget_max_fen matches Some(v) ==> (d.cost_max_fen matches Some(m) && m <= v),
        forall|t: int|
            0 <= t < o.required_tags@.len() ==> d.tags@.map_values(|s: String| normalized(s@)).contains(
                normalized(#[trigger] o.required_tags@[t]@),
            ),
        forall|e: int, k: int|
            0 <= e < o.exclude_ingredients@.len() && 0 <= k < d.ingredients@.len() ==> normalized(
                #[trigger] o.exclude_ingredients@[e]@,
            ) != normalized(#[trigger] d.ingredients@[k]@),
        o.exclude_ingredients@.len() > 0 && o.require_complete_ingredients
            ==> d.ingredients_complete,
        o.exclude_recent ==> forall|r: int|
            0 <= r < history.len() ==> c.dishes@[#[trigger] history[r] as int].id@ != d.id@,
{
    lemma_filters_in_plain_terms(o, c, history, d);
}

/// Hard filters never relax in a response either: every recommended dish
/// has a requested mode (and meets every other hard filter of the request).
pub proof fn law_recommendations_meet_every_filter(
    o: Options,
    c: Catalog,
    history: Seq<usize>,
    admitted: Seq<usize>,
    drawn: Seq<usize>,
    seed: u64,
    r: Response,
    i: int,
)
    requires
        outcome(o, c, history, admitted, drawn, seed, r),
        0 <= i < r.items@.len(),
    ensures
        o.categories@.len() > 0 ==> exists|t: int|
            0 <= t < o.categories@.len() && normalized(#[trigger] o.categories@[t]@) == normalized(
                r.items@[i].dish.category@,
            ),
        o.meal matches Some(v) ==> exists|k: int|
            0 <= k < r.items@[i].dish.meals@.len() && normalized(
                #[trigger] r.items@[i].dish.meals@[k]@,
            ) == normalized(v@),
        o.mode matches Some(v) ==> exists|k: int|
            0 <= k < r.items@[i].dish.modes@.len() && normalized(
                #[trigger] r.items@[i].dish.modes@[k]@,
            ) == normalized(v@),
        o.theme matches Some(v) ==> exists|k: int|
            0 <= k < r.items@[i].dish.themes@.len() && normalized(
                #[trigger] r.items@[i].dish.themes@[k]@,
            ) == normalized(v@),
        o.max_minutes matches Some(v) ==> (r.items@[i].dish.minutes_max matches Some(m) && m <= v),
        o.budget_max_fen matches Some(v) ==> (r.items@[i].dish.cost_max_fen matches Some(m) && m
            <= v),
        forall|e: int, k: int|
            0 <= e < o.exclude_ingredients@.len() && 0 <= k < r.items@[i].dish.ingredients@.len()
                ==> normalized(#[trigger] o.exclude_ingredients@[e]@) != normalized(
                #[trigger] r.items@[i].dish.ingredients@[k]@,
            ),
        o.exclude_recent ==> forall|t: int|
            0 <= t < history.len() ==> c.dishes@[#[trigger] history[t] as int].id@
                != r.items@[i].dish.id@,
{
    let d = c.dishes@[drawn[i] as int];
    assert(same_dish(r.items@[i].dish, d));
    lemma_filters_in_plain_terms(o, c, history, d);
}

/// Every hard filter of request `o`, spelled out over the fields of dish `d`
/// with labels compared after normalisation; `history` holds the positions in
/// `c` of the recent dishes.
pub open spec fn passes_every_filter(o: Options, c: Catalog, history: Seq<usize>, d: Dish) -> bool {
    &&& o.categories@.len() > 0 ==> exists|i: int|
        0 <= i < o.categories@.len() && normalized(#[trigger] o.categories@[i]@) == normalized(
            d.category@,
        )
    &&& o.regions@.len() > 0 ==> exists|i: int, k: int|
        0 <= i < o.regions@.len() && 0 <= k < d.regions@.len() && normalized(
            #[trigger] o.regions@[i]@,
        ) == normalized(#[trigger] d.regions@[k]@)
    &&& o.meal matches Some(v) ==> exists|i: int|
        0 <= i < d.meals@.len() && normalized(#[trigger] d.meals@[i]@) == normalized(v@)
    &&& o.mode matches Some(v) ==> exists|i: int|
        0 <= i < d.modes@.len() && normalized(#[trigger] d.modes@[i]@) == normalized(v@)
    &&& o.theme matches Some(v) ==> exists|i: int|
        0 <= i < d.themes@.len() && normalized(#[trigger] d.themes@[i]@) == normalized(v@)
    &&& o.max_minutes matches Some(v) ==> (d.minutes_max matches Some(m) && m <= v)
    &&& o.budget_max_fen matches Some(v) ==> (d.cost_max_fen matches Some(m) && m <= v)
    &&& forall|t: int|
        0 <= t < o.required_tags@.len() ==> normalized_labels(d.tags@).contains(
            normalized(#[trigger] o.required_tags@[t]@),
        )
    &&& forall|e: int, k: int|
        0 <= e < o.exclude_ingredients@.len() && 0 <= k < d.ingredients@.len() ==> normalized(
            #[trigger] o.exclude_ingredients@[e]@,
        ) != normalized(#[trigger] d.ingredients@[k]@)
    &&& o.exclude_ingredients@.len() > 0 && o.require_complete_ingredients ==> d.ingredients_complete
    &&& o.exclude_recent ==> forall|r: int|
        0 <= r < history.len() ==> c.dishes@[#[trigger] history[r] as int].id@ != d.id@
}

proof fn lemma_passes_every_filter(o: Options, c: Catalog, history: Seq<usize>, d: Dish)
    ensures
        admits(o, c, history, d) <==> passes_every_filter(o, c, history, d),
{
    if admits(o, c, history, d) {
        lemma_filters_in_plain_terms(o, c, history, d);
        assert(normalized_labels(d.tags@) =~= d.tags@.map_values(|s: String| normalized(s@)));
    }
    if passes_every_filter(o, c, history, d) {
        if o.regions@.len() > 0 {
            let (i, k) = choose|i: int, k: int|
                0 <= i < o.regions@.len() && 0 <= k < d.regions@.len() && normalized(
                    #[trigger] o.regions@[i]@,
                ) == normalized(#[trigger] d.regions@[k]@);
            assert(crate::text::has_label(d.regions@, o.regions@[i]@));
        }
        assert forall|t: int| 0 <= t < o.required_tags@.len() implies crate::text::has_label(
            d.tags@,
            #[trigger] o.required_tags@[t]@,
        ) by {
            let k = choose|k: int|
                0 <= k < normalized_labels(d.tags@).len() && normalized_labels(d.tags@)[k]
                    == normalized(o.required_tags@[t]@);
            assert(normalized(d.tags@[k]@) == normalized(o.required_tags@[t]@));
        }
        if crate::text::shares_label(o.exclude_ingredients@, d.ingredients@) {
            let e = choose|e: int|
                0 <= e < o.exclude_ingredients@.len() && crate::text::has_label(
                    d.ingredients@,
                    #[trigger] o.exclude_ingredients@[e]@,
                );
            let k = choose|k: int|
                0 <= k < d.ingredients@.len() && normalized(#[trigger] d.ingredients@[k]@)
                    == normalized(o.exclude_ingredients@[e]@);
            assert(normalized(o.exclude_ingredients@[e]@) != normalized(d.ingredients@[k]@));
        }
    }
}

/// Hard filtering keeps exactly the qualifying dishes: a dish of the catalog
/// is a candidate if and only if it meets every hard filter of the request.
/// No qualifying dish is left out, and no other dish gets in.
pub proof fn law_candidates_exactly_qualifying(
    o: Options,
    c: Catalog,
    history: Seq<usize>,
    admitted: Seq<usize>,
    k: usize,
)
    requires
        selection(o, c, history, admitted),
        k < c.dishes@.len(),
    ensures
        admitted.contains(k) <==> passes_every_filter(o, c, history, c.dishes@[k as int]),
{
    lemma_passes_every_filter(o, c, history, c.dishes@[k as int]);
    if admitted.contains(k) {
        let j = choose|j: int| 0 <= j < admitted.len() && admitted[j] == k;
        assert(admits(o, c, history, c.dishes@[admitted[j] as int]));
    }
    if admits(o, c, history, c.dishes@[k as int]) {
        assert(admitted.contains(k));
    }
}

/// Whether some dish of the catalog answers to `query`: its id, name or one of
/// its aliases normalises to the same key.
pub open spec fn answered(c: Catalog, query: Seq<char>) -> bool {
    exists|i: int| 0 <= i < c.dishes@.len() && crate::catalog::answers_to(#[trigger] c.dishes@[i], query)
}

proof fn lemma_first_of_answers(c: Catalog, query: Seq<char>, n: int)
    requires
        0 <= n < c.dishes@.len(),
        crate::catalog::answers_to(c.dishes@[n], query),
    ensures
        crate::catalog::first_answer(c, query) is Some,
    decreases n,
{
    if exists|j: int| 0 <= j < n && crate::catalog::answers_to(#[trigger] c.dishes@[j], query) {
        let j = choose|j: int| 0 <= j < n && crate::catalog::answers_to(#[trigger] c.dishes@[j], query);
        lemma_first_of_answers(c, query, j);
    } else {
        assert(forall|j: int| 0 <= j < n ==> !crate::catalog::answers_to(#[trigger] c.dishes@[j], query));
    }
}

proof fn lemma_no_first_answer(c: Catalog, query: Seq<char>)
    ensures
        crate::catalog::first_answer(c, query) is None <==> !answered(c, query),
{
    if answered(c, query) {
        let n = choose|i: int|
            0 <= i < c.dishes@.len() && crate::catalog::answers_to(#[trigger] c.dishes@[i], query);
        lemma_first_of_answers(c, query, n);
    }
}

proof fn lemma_unknown_recent_plainly(c: Catalog, recent: Seq<String>)
    ensures
        forall|i: int|
            0 <= i < recent.len() && !answered(c, #[trigger] recent[i]@)
                ==> crate::engine::unknown_recent(c, recent).contains("UNKNOWN_RECENT:"@ + recent[i]@),
        forall|w: Seq<char>|
            #[trigger] crate::engine::unknown_recent(c, recent).contains(w) ==> exists|i: int|
                0 <= i < recent.len() && !answered(c, #[trigger] recent[i]@) && w
                    == "UNKNOWN_RECENT:"@ + recent[i]@,
    decreases recent.len(),
{
    if recent.len() > 0 {
        let rest = recent.drop_last();
        lemma_unknown_recent_plainly(c, rest);
        let w0 = crate::engine::unknown_recent(c, rest);
        let last = recent.last();
        lemma_no_first_answer(c, last@);
        assert forall|i: int|
            0 <= i < recent.len() && !answered(c, #[trigger] recent[i]@)
                implies crate::engine::unknown_recent(c, recent).contains("UNKNOWN_RECENT:"@ + recent[i]@) by {
            if i < recent.len() - 1 {
                assert(rest[i] == recent[i]);
                let k = choose|k: int| 0 <= k < w0.len() && w0[k] == "UNKNOWN_RECENT:"@ + rest[i]@;
                assert(crate::engine::unknown_recent(c, recent)[k] == w0[k]);
            } else {
                let u = crate::engine::unknown_recent(c, recent);
                assert(u[u.len() - 1] == "UNKNOWN_RECENT:"@ + recent[i]@);
            }
        }
        assert forall|w: Seq<char>|
            #[trigger] crate::engine::unknown_recent(c, recent).contains(w) implies exists|i: int|
                0 <= i < recent.len() && !answered(c, #[trigger] recent[i]@) && w
                    == "UNKNOWN_RECENT:"@ + recent[i]@ by {
            let u = crate::engine::unknown_recent(c, recent);
            let k = choose|k: int| 0 <= k < u.len() && u[k] == w;
            if k < w0.len() {
                assert(w0[k] == w);
                assert(w0.contains(w));
                let i = choose|i: int|
                    0 <= i < rest.len() && !answered(c, #[trigger] rest[i]@) && w == "UNKNOWN_RECENT:"@
                        + rest[i]@;
                assert(recent[i] == rest[i]);
            } else {
                assert(recent[recent.len() - 1] == last);
            }
        }
    }
}

/// The warnings of a response: one `UNKNOWN_RECENT:` warning for each recent
/// entry that no dish answers to, holding the entry, and no other such
/// warning; and the note that ingredients are excluded by the known
/// ingredients alone exactly when ingredients are excluded without demanding
/// complete ingredient lists.
pub proof fn law_warnings_of_response(
    o: Options,
    c: Catalog,
    history: Seq<usize>,
    admitted: Seq<usize>,
    drawn: Seq<usize>,
    seed: u64,
    r: Response,
)
    requires
        outcome(o, c, history, admitted, drawn, seed, r),
    ensures
        texts(r.warnings@).contains("INGREDIENT_EXCLUSION_USES_KNOWN_INGREDIENTS_ONLY"@) <==> (
        o.exclude_ingredients@.len() > 0 && !o.require_complete_ingredients),
        forall|i: int|
            0 <= i < o.recent@.len() && !answered(c, #[trigger] o.recent@[i]@) ==> texts(
                r.warnings@,
            ).contains("UNKNOWN_RECENT:"@ + o.recent@[i]@),
        forall|w: Seq<char>|
            #[trigger] texts(r.warnings@).contains(w) && w
                != "INGREDIENT_EXCLUSION_USES_KNOWN_INGREDIENTS_ONLY"@ ==> exists|i: int|
                0 <= i < o.recent@.len() && !answered(c, #[trigger] o.recent@[i]@) && w
                    == "UNKNOWN_RECENT:"@ + o.recent@[i]@,
{
    let note = "INGREDIENT_EXCLUSION_USES_KNOWN_INGREDIENTS_ONLY"@;
    let u = crate::engine::unknown_recent(c, o.recent@);
    let ws = texts(r.warnings@);
    lemma_unknown_recent_plainly(c, o.recent@);
    reveal_strlit("INGREDIENT_EXCLUSION_USES_KNOWN_INGREDIENTS_ONLY");
    reveal_strlit("UNKNOWN_RECENT:");
    assert(note[0] == 'I');
    assert forall|x: Seq<char>| ("UNKNOWN_RECENT:"@ + x)[0] == 'U' by {}
    assert(!u.contains(note)) by {
        if u.contains(note) {
            let i = choose|i: int|
                0 <= i < o.recent@.len() && !answered(c, #[trigger] o.recent@[i]@) && note
                    == "UNKNOWN_RECENT:"@ + o.recent@[i]@;
            assert(("UNKNOWN_RECENT:"@ + o.recent@[i]@)[0] == 'U');
        }
    }
    let excl = o.exclude_ingredients@.len() > 0 && !o.require_complete_ingredients;
    assert forall|w: Seq<char>| #[trigger] ws.contains(w) <==> (u.contains(w) || (excl && w == note)) by {
        if excl {
            assert(ws =~= u.push(note));
            if ws.contains(w) {
                let k = choose|k: int| 0 <= k < ws.len() && ws[k] == w;
                if k < u.len() {
                    assert(u[k] == w);
                }
            }
            if u.contains(w) {
                let k = choose|k: int| 0 <= k < u.len() && u[k] == w;
                assert(ws[k] == w);
            }
            if w == note {
                assert(ws[u.len() as int] == w);
            }
        } else {
            assert(ws =~= u);
        }
    }
}

/// The size and status of a response: it recommends as many dishes as were
/// requested, or every candidate when there are fewer; no dish twice; every
/// one a candidate of the request; and its status is `no_match` with nothing
/// recommended, `partial` with fewer dishes than requested, `ok` otherwise.
pub proof fn law_response_size_and_status(
    o: Options,
    c: Catalog,
    history: Seq<usize>,
    admitted: Seq<usize>,
    drawn: Seq<usize>,
    seed: u64,
    r: Response,
)
    requires
        selection(o, c, history, admitted),
        outcome(o, c, history, admitted, drawn, seed, r),
    ensures
        r.candidate_count == admitted.len(),
        r.items@.len() <= o.count,
        r.items@.len() <= r.candidate_count,
        r.items@.len() == o.count || r.items@.len() == r.candidate_count,
        forall|i: int, j: int|
            0 <= i < j < r.items@.len() ==> (#[trigger] r.items@[i]).dish.id@ != (
            #[trigger] r.items@[j]).dish.id@,
        forall|i: int|
            0 <= i < r.items@.len() ==> exists|k: int|
                0 <= k < c.dishes@.len() && admitted.contains(k as usize) && k as usize == drawn[i]
                    && #[trigger] r.items@[i].dish.id@ == c.dishes@[k].id@,
        r.items@.len() == 0 ==> r.status@ == "no_match"@,
        0 < r.items@.len() < o.count ==> r.status@ == "partial"@,
        0 < r.items@.len() && r.items@.len() >= o.count ==> r.status@ == "ok"@,
{
    assert forall|i: int|
        0 <= i < r.items@.len() implies exists|k: int|
            0 <= k < c.dishes@.len() && admitted.contains(k as usize) && k as usize == drawn[i]
                && #[trigger] r.items@[i].dish.id@ == c.dishes@[k].id@ by {
        let k = drawn[i] as int;
        assert(drawn[i] < c.dishes@.len() && admitted.contains(drawn[i]));
        assert(same_dish(r.items@[i].dish, c.dishes@[k]));
    }
}

#[verifier::rlimit(50)]
proof fn lemma_history_plainly(c: Catalog, recent: Seq<String>)
    requires
        crate::engine::ids_distinct(c),
    ensures
        forall|t: int|
            0 <= t < crate::engine::history_of(c, recent).len() ==> (#[trigger] crate::engine::history_of(
                c,
                recent,
            )[t]) < c.dishes@.len(),
        forall|i: int|
            0 <= i < recent.len() && answered(c, #[trigger] recent[i]@) ==> exists|t: int|
                0 <= t < crate::engine::history_of(c, recent).len()
                    && crate::catalog::answers_to(
                    c.dishes@[#[trigger] crate::engine::history_of(c, recent)[t] as int],
                    recent[i]@,
                ),
        forall|t: int|
            0 <= t < crate::engine::history_of(c, recent).len() ==> exists|i: int|
                0 <= i < recent.len() && crate::catalog::answers_to(
                    c.dishes@[#[trigger] crate::engine::history_of(c, recent)[t] as int],
                    #[trigger] recent[i]@,
                ),
    decreases recent.len(),
{
    if recent.len() > 0 {
        let rest = recent.drop_last();
        lemma_history_plainly(c, rest);
        let h0 = crate::engine::history_of(c, rest);
        let h = crate::engine::history_of(c, recent);
        let last = recent.last();
        lemma_no_first_answer(c, last@);
        assert(c.dishes.len() == c.dishes@.len());
        assert(forall|t: int| 0 <= t < h0.len() ==> h[t] == h0[t]);
        let tl: int = if crate::catalog::first_answer(c, last@) is Some {
            let f = crate::catalog::first_answer(c, last@)->Some_0;
            if !crate::engine::recalls(c, h0, c.dishes@[f].id@) {
                h0.len() as int
            } else {
                choose|j: int| 0 <= j < h0.len() && c.dishes@[#[trigger] h0[j] as int].id@
                    == c.dishes@[f].id@
            }
        } else {
            0
        };
        if crate::catalog::first_answer(c, last@) is Some {
            let f = crate::catalog::first_answer(c, last@)->Some_0;
            assert(0 <= f < c.dishes@.len() && crate::catalog::answers_to(c.dishes@[f], last@));
            if !crate::engine::recalls(c, h0, c.dishes@[f].id@) {
                assert(h[tl] == f as usize);
            } else {
                assert(h0[tl] < c.dishes@.len());
                assert(h0[tl] as int == f);
                assert(h[tl] == h0[tl]);
            }
            assert(0 <= tl < h.len() && crate::catalog::answers_to(c.dishes@[h[tl] as int], last@));
        }
        assert forall|i: int|
            0 <= i < recent.len() && answered(c, #[trigger] recent[i]@) implies exists|t: int|
                0 <= t < h.len() && crate::catalog::answers_to(c.dishes@[#[trigger] h[t] as int], recent[i]@) by {
            if i < recent.len() - 1 {
                assert(rest[i] == recent[i]);
                let t = choose|t: int|
                    0 <= t < h0.len() && crate::catalog::answers_to(c.dishes@[#[trigger] h0[t] as int], rest[i]@);
                assert(h[t] == h0[t]);
            } else {
                assert(recent[i] == last);
                assert(crate::catalog::answers_to(c.dishes@[h[tl] as int], recent[i]@));
            }
        }
        assert forall|t: int| 0 <= t < h.len() implies exists|i: int|
            0 <= i < recent.len() && crate::catalog::answers_to(
                c.dishes@[#[trigger] h[t] as int],
                #[trigger] recent[i]@,
            ) by {
            if t < h0.len() {
                let i = choose|i: int|
                    0 <= i < rest.len() && crate::catalog::answers_to(
                        c.dishes@[#[trigger] h0[t] as int],
                        #[trigger] rest[i]@,
                    );
                assert(recent[i] == rest[i]);
            } else {
                assert(recent[recent.len() - 1] == last);
            }
        }
    }
}

/// The recent dishes of a request on a valid catalog: for each recent entry
/// that some dish answers to, that dish is among them; each of them answers
/// to some recent entry; and when recent dishes are excluded, no dish that
/// answers to a recent entry is a candidate.
pub proof fn law_recent_dishes(o: Options, c: Catalog, history: Seq<usize>, admitted: Seq<usize>)
    requires
        catalog_valid(c),
        selection(o, c, history, admitted),
    ensures
        forall|i: int|
            0 <= i < o.recent@.len() && answered(c, #[trigger] o.recent@[i]@) ==> exists|t: int|
                0 <= t < history.len() && crate::catalog::answers_to(
                    c.dishes@[#[trigger] history[t] as int],
                    o.recent@[i]@,
                ),
        forall|t: int|
            0 <= t < history.len() ==> exists|i: int|
                0 <= i < o.recent@.len() && crate::catalog::answers_to(
                    c.dishes@[#[trigger] history[t] as int],
                    #[trigger] o.recent@[i]@,
                ),
        o.exclude_recent ==> forall|i: int, k: usize|
            0 <= i < o.recent@.len() && k < c.dishes@.len() && crate::catalog::answers_to(
                #[trigger] c.dishes@[k as int],
                #[trigger] o.recent@[i]@,
            ) ==> !admitted.contains(k),
{
    crate::engine::lemma_valid_ids_distinct(c);
    lemma_history_plainly(c, o.recent@);
    if o.exclude_recent {
        assert forall|i: int, k: usize|
            0 <= i < o.recent@.len() && k < c.dishes@.len() && crate::catalog::answers_to(
                #[trigger] c.dishes@[k as int],
                #[trigger] o.recent@[i]@,
            ) implies !admitted.contains(k) by {
            assert(answered(c, o.recent@[i]@));
            let t = choose|t: int|
                0 <= t < history.len() && crate::catalog::answers_to(
                    c.dishes@[#[trigger] history[t] as int],
                    o.recent@[i]@,
                );
            crate::catalog::lemma_valid_answers_unique(c, o.recent@[i]@, history[t] as int, k as int);
            assert(crate::engine::recalls(c, history, c.dishes@[k as int].id@));
            if admitted.contains(k) {
                let j = choose|j: int| 0 <= j < admitted.len() && admitted[j] == k;
                assert(admits(o, c, history, c.dishes@[admitted[j] as int]));
            }
        }
    }
}

/// The labels of a list, each normalised.
pub open spec fn normalized_labels(v: Seq<String>) -> Seq<Seq<char>> {
    v.map_values(|s: String| normalized(s@))
}

proof fn lemma_reason_literals_differ()
    ensures
        "HARD_FILTERS_SATISFIED"@ != "NOT_IN_RECENT"@,
        "MATCH_PREFERENCE"@ != "NOT_IN_RECENT"@,
        "HARD_FILTERS_SATISFIED"@ != "MATCH_PREFERENCE"@,
{
    reveal_strlit("HARD_FILTERS_SATISFIED");
    reveal_strlit("MATCH_PREFERENCE");
    reveal_strlit("NOT_IN_RECENT");
    assert("HARD_FILTERS_SATISFIED"@.len() == 22);
    assert("MATCH_PREFERENCE"@.len() == 16);
    assert("NOT_IN_RECENT"@.len() == 13);
}

/// The reasons of each recommendation: `HARD_FILTERS_SATISFIED`; then
/// `MATCH_PREFERENCE` when the draw is not uniform and one of the preferences
/// is among the dish's tags or ingredients; then `NOT_IN_RECENT` when there
/// are recent dishes and the dish is none of them. Without recent dishes,
/// `NOT_IN_RECENT` is never given.
pub proof fn law_reasons_of_recommendations(
    o: Options,
    c: Catalog,
    history: Seq<usize>,
    admitted: Seq<usize>,
    drawn: Seq<usize>,
    seed: u64,
    r: Response,
    i: int,
)
    requires
        outcome(o, c, history, admitted, drawn, seed, r),
        0 <= i < r.items@.len(),
    ensures
        texts(r.items@[i].reason_codes@) == seq!["HARD_FILTERS_SATISFIED"@] + (if o.strategy
            != Strategy::Uniform && exists|p: int|
            0 <= p < o.preferences@.len() && (normalized_labels(r.items@[i].dish.tags@).contains(
                normalized(#[trigger] o.preferences@[p]@),
            ) || normalized_labels(r.items@[i].dish.ingredients@).contains(
                normalized(o.preferences@[p]@),
            )) {
            seq!["MATCH_PREFERENCE"@]
        } else {
            Seq::empty()
        }) + (if history.len() > 0 && forall|t: int|
            0 <= t < history.len() ==> c.dishes@[#[trigger] history[t] as int].id@
                != r.items@[i].dish.id@ {
            seq!["NOT_IN_RECENT"@]
        } else {
            Seq::empty()
        }),
        history.len() == 0 ==> !texts(r.items@[i].reason_codes@).contains("NOT_IN_RECENT"@),
{
    let d = r.items@[i].dish;
    let e = c.dishes@[drawn[i] as int];
    assert(same_dish(d, e));
    let pref = exists|p: int|
        0 <= p < o.preferences@.len() && (normalized_labels(d.tags@).contains(
            normalized(#[trigger] o.preferences@[p]@),
        ) || normalized_labels(d.ingredients@).contains(normalized(o.preferences@[p]@)));
    assert(crate::engine::meets_preference(o, e) == pref) by {
        if crate::engine::meets_preference(o, e) {
            let p = choose|p: int|
                0 <= p < o.preferences@.len() && (crate::text::has_label(
                    e.tags@,
                    #[trigger] o.preferences@[p]@,
                ) || crate::text::has_label(e.ingredients@, o.preferences@[p]@));
            if crate::text::has_label(e.tags@, o.preferences@[p]@) {
                let k = choose|k: int|
                    0 <= k < e.tags@.len() && normalized(#[trigger] e.tags@[k]@) == normalized(
                        o.preferences@[p]@,
                    );
                assert(normalized_labels(d.tags@)[k] == normalized(d.tags@[k]@));
            } else {
                let k = choose|k: int|
                    0 <= k < e.ingredients@.len() && normalized(#[trigger] e.ingredients@[k]@)
                        == normalized(o.preferences@[p]@);
                assert(normalized_labels(d.ingredients@)[k] == normalized(d.ingredients@[k]@));
            }
        }
        if pref {
            let p = choose|p: int|
                0 <= p < o.preferences@.len() && (normalized_labels(d.tags@).contains(
                    normalized(#[trigger] o.preferences@[p]@),
                ) || normalized_labels(d.ingredients@).contains(normalized(o.preferences@[p]@)));
            if normalized_labels(d.tags@).contains(normalized(o.preferences@[p]@)) {
                let k = choose|k: int|
                    0 <= k < normalized_labels(d.tags@).len() && normalized_labels(d.tags@)[k]
                        == normalized(o.preferences@[p]@);
                assert(crate::text::has_label(e.tags@, o.preferences@[p]@));
            } else {
                let k = choose|k: int|
                    0 <= k < normalized_labels(d.ingredients@).len() && normalized_labels(
                        d.ingredients@,
                    )[k] == normalized(o.preferences@[p]@);
                assert(crate::text::has_label(e.ingredients@, o.preferences@[p]@));
            }
        }
    }
    let fresh = forall|t: int|
        0 <= t < history.len() ==> c.dishes@[#[trigger] history[t] as int].id@ != d.id@;
    assert(crate::engine::recalls(c, history, e.id@) == !fresh);
    let a = seq!["HARD_FILTERS_SATISFIED"@];
    let b = if o.strategy != Strategy::Uniform && pref {
        seq!["MATCH_PREFERENCE"@]
    } else {
        Seq::<Seq<char>>::empty()
    };
    let z = if history.len() > 0 && fresh {
        seq!["NOT_IN_RECENT"@]
    } else {
        Seq::<Seq<char>>::empty()
    };
    let t1 = if o.strategy != Strategy::Uniform && pref {
        a.push("MATCH_PREFERENCE"@)
    } else {
        a
    };
    assert(t1 =~= a + b);
    let t2 = if history.len() > 0 && fresh {
        t1.push("NOT_IN_RECENT"@)
    } else {
        t1
    };
    assert(t2 =~= a + b + z);
    lemma_reason_literals_differ();
    if history.len() == 0 {
        assert(t2 =~= a + b);
        if t2.contains("NOT_IN_RECENT"@) {
            let k = choose|k: int| 0 <= k < t2.len() && t2[k] == "NOT_IN_RECENT"@;
        }
    }
}

/// A request naming no recent dish has no recent dishes.
pub proof fn law_no_recent_no_history(o: Options, c: Catalog, history: Seq<usize>, admitted: Seq<usize>)
    requires
        selection(o, c, history, admitted),
        o.recent@.len() == 0,
    ensures
        history.len() == 0,
{
}

/// The IEEE-754 binary64 number with these bits is finite and lies in [0, 1]:
/// it is a zero of either sign, or its sign bit is clear and its exponent is
/// below that of 1.0, or it is 1.0 itself.
pub open spec fn binary64_in_unit_interval(bits: u64) -> bool {
    let sign = bits >> 63u64;
    let exponent = (bits >> 52u64) & 0x7FFu64;
    let fraction = bits & 0xF_FFFF_FFFF_FFFFu64;
    ||| exponent == 0 && fraction == 0
    ||| sign == 0 && (exponent < 0x3FF || (exponent == 0x3FF && fraction == 0))
}

proof fn lemma_unit_interval_decoded(bits: u64)
    ensures
        unit_interval(bits) == binary64_in_unit_interval(bits),
        unit_interval(bits) ==> (bits < 0x8000_0000_0000_0000u64 || bits
            == 0x8000_0000_0000_0000u64),
{
    assert(((bits <= 0x3FF0_0000_0000_0000u64 || bits == 0x8000_0000_0000_0000u64)) == ({
        let sign = bits >> 63u64;
        let exponent = (bits >> 52u64) & 0x7FFu64;
        let fraction = bits & 0xF_FFFF_FFFF_FFFFu64;
        ||| exponent == 0 && fraction == 0
        ||| sign == 0 && (exponent < 0x3FF || (exponent == 0x3FF && fraction == 0))
    })) by (bit_vector);
}

/// The familiarity check accepts exactly the binary64 numbers in [0, 1].
pub proof fn law_familiarity_check_exact(bits: u64)
    ensures
        unit_interval(bits) == binary64_in_unit_interval(bits),
{
    lemma_unit_interval_decoded(bits);
}

/// Every familiarity of a valid catalog is a binary64 number in [0, 1]: no
/// negative number other than -0.0, no NaN, no infinity, nothing above 1.
pub proof fn law_valid_familiarity_in_unit_interval(c: Catalog, k: int)
    requires
        catalog_valid(c),
        0 <= k < c.dishes@.len(),
    ensures
        binary64_in_unit_interval(c.dishes@[k].familiarity_bits),
        c.dishes@[k].familiarity_bits >= 0x8000_0000_0000_0000u64 ==> c.dishes@[k].familiarity_bits
            == 0x8000_0000_0000_0000u64,
{
    assert(crate::catalog::dish_ok(c, k));
    lemma_unit_interval_decoded(c.dishes@[k].familiarity_bits);
}

/// An accepted request with an ingredient budget cooks: its mode is exactly
/// "cook". An accepted request asks for 1 to 100 dishes.
pub proof fn law_budget_needs_cook(o: Options)
    requires
        request_fault(o) is None,
    ensures
        o.budget_max_fen is Some ==> (o.mode matches Some(m) && m@ == "cook"@),
        1 <= o.count <= 100,
{
}

/// A request with an ingredient budget and a mode other than exactly "cook"
/// (or none) is refused, whatever else it holds.
pub proof fn law_budget_without_cook_refused(o: Options)
    requires
        o.budget_max_fen is Some,
        !(o.mode matches Some(m) && m@ == "cook"@),
    ensures
        request_fault(o) is Some,
{
}

/// A response names the catalog it read, by id and by version, carries the
/// seed of its draws and the number requested, and algorithm version "1".
pub proof fn law_response_names_its_catalog(
    o: Options,
    c: Catalog,
    history: Seq<usize>,
    admitted: Seq<usize>,
    drawn: Seq<usize>,
    seed: u64,
    r: Response,
)
    requires
        outcome(o, c, history, admitted, drawn, seed, r),
    ensures
        r.dataset_id@ == c.id@,
        r.dataset_version@ == c.version@,
        r.seed == seed,
        r.requested_count == o.count,
        r.algorithm_version@ == "1"@,
{
}

/// The seed a response carries is the request's own seed when it gives one,
/// and otherwise the seed drawn for it.
pub proof fn law_seed_given_or_drawn(o: Options, drawn: u64)
    ensures
        o.seed matches Some(x) ==> crate::engine::seed_of(o, drawn) == x,
        o.seed is None ==> crate::engine::seed_of(o, drawn) == drawn,
{
}

/// Whether the text holds a character that is not whitespace.
pub open spec fn has_visible(s: Seq<char>) -> bool {
    exists|i: int| 0 <= i < s.len() && !crate::text::white_space(#[trigger] s[i])
}

proof fn lemma_trim_start_visible(s: Seq<char>)
    ensures
        crate::text::trim_start(s).len() > 0 <==> has_visible(s),
        crate::text::trim_start(s).len() > 0 ==> !crate::text::white_space(crate::text::trim_start(s)[0]),
        has_visible(crate::text::trim_start(s)) <==> has_visible(s),
    decreases s.len(),
{
    if s.len() > 0 && crate::text::white_space(s[0]) {
        let t = s.drop_first();
        lemma_trim_start_visible(t);
        if has_visible(s) {
            let i = choose|i: int| 0 <= i < s.len() && !crate::text::white_space(#[trigger] s[i]);
            assert(t[i - 1] == s[i]);
        }
        if has_visible(t) {
            let i = choose|i: int| 0 <= i < t.len() && !crate::text::white_space(#[trigger] t[i]);
            assert(s[i + 1] == t[i]);
        }
    } else if s.len() > 0 {
        assert(!crate::text::white_space(s[0]));
    }
}

proof fn lemma_trim_end_keeps_visible(s: Seq<char>)
    requires
        s.len() > 0,
        !crate::text::white_space(s[0]),
    ensures
        crate::text::trim_end(s).len() > 0,
    decreases s.len(),
{
    if crate::text::white_space(s.last()) {
        lemma_trim_end_keeps_visible(s.drop_last());
    }
}

/// A label carries something besides whitespace exactly when one of its
/// characters is not whitespace.
pub proof fn law_label_has_visible_char(s: Seq<char>)
    ensures
        crate::text::is_label(s) <==> has_visible(s),
{
    lemma_trim_start_visible(s);
    let t = crate::text::trim_start(s);
    if t.len() > 0 {
        lemma_trim_end_keeps_visible(t);
    } else {
        assert(crate::text::trim_end(t) =~= t);
    }
}

/// An accepted request holds no empty label: every label it gives, in every
/// list and option, has a character that is not whitespace.
pub proof fn law_accepted_labels_visible(o: Options)
    requires
        request_fault(o) is None,
    ensures
        forall|i: int| 0 <= i < o.categories@.len() ==> has_visible(#[trigger] o.categories@[i]@),
        forall|i: int| 0 <= i < o.regions@.len() ==> has_visible(#[trigger] o.regions@[i]@),
        forall|i: int|
            0 <= i < o.exclude_ingredients@.len() ==> has_visible(#[trigger] o.exclude_ingredients@[i]@),
        forall|i: int| 0 <= i < o.required_tags@.len() ==> has_visible(#[trigger] o.required_tags@[i]@),
        forall|i: int| 0 <= i < o.preferences@.len() ==> has_visible(#[trigger] o.preferences@[i]@),
        forall|i: int| 0 <= i < o.recent@.len() ==> has_visible(#[trigger] o.recent@[i]@),
        o.meal matches Some(v) ==> has_visible(v@),
        o.mode matches Some(v) ==> has_visible(v@),
        o.theme matches Some(v) ==> has_visible(v@),
{
    assert forall|s: Seq<char>| crate::text::is_label(s) implies #[trigger] has_visible(s) by {
        law_label_has_visible_char(s);
    }
}

/// A request is accepted exactly when it asks for 1 to 100 dishes, gives an
/// ingredient budget only with mode "cook", and every label it gives holds a
/// character that is not whitespace. A count outside 1..=100 is refused first,
/// then a budget without mode "cook", then an empty label.
pub proof fn law_request_accepted_exactly(o: Options)
    ensures
        request_fault(o) is None <==> {
            &&& 1 <= o.count <= 100
            &&& o.budget_max_fen is Some ==> (o.mode matches Some(m) && m@ == "cook"@)
            &&& forall|i: int| 0 <= i < o.categories@.len() ==> has_visible(#[trigger] o.categories@[i]@)
            &&& forall|i: int| 0 <= i < o.regions@.len() ==> has_visible(#[trigger] o.regions@[i]@)
            &&& forall|i: int|
                0 <= i < o.exclude_ingredients@.len() ==> has_visible(#[trigger] o.exclude_ingredients@[i]@)
            &&& forall|i: int|
                0 <= i < o.required_tags@.len() ==> has_visible(#[trigger] o.required_tags@[i]@)
            &&& forall|i: int| 0 <= i < o.preferences@.len() ==> has_visible(#[trigger] o.preferences@[i]@)
            &&& forall|i: int| 0 <= i < o.recent@.len() ==> has_visible(#[trigger] o.recent@[i]@)
            &&& o.meal matches Some(v) ==> has_visible(v@)
            &&& o.mode matches Some(v) ==> has_visible(v@)
            &&& o.theme matches Some(v) ==> has_visible(v@)
        },
        !(1 <= o.count <= 100) ==> request_fault(o) == Some("count must be in 1..=100"@),
        1 <= o.count <= 100 && o.budget_max_fen is Some && !(o.mode matches Some(m) && m@ == "cook"@)
            ==> request_fault(o) == Some("budget_max_fen is ingredient cost; mode must be cook"@),
{
    assert forall|s: Seq<char>| crate::text::is_label(s) == #[trigger] has_visible(s) by {
        law_label_has_visible_char(s);
    }
}

/// A valid catalog has schema version 1 and a visible id and version; its
/// sources have visible fields and distinct ids; its dishes have visible ids,
/// names and categories, distinct ids, only visible labels, and at least one
/// source, each one among the catalog's sources.
pub proof fn law_valid_catalog_plainly(c: Catalog, k: int)
    requires
        catalog_valid(c),
        0 <= k < c.dishes@.len(),
    ensures
        c.schema_version == 1,
        has_visible(c.id@),
        has_visible(c.version@),
        forall|i: int, j: int|
            0 <= i < j < c.sources@.len() ==> (#[trigger] c.sources@[i]).id@ != (
            #[trigger] c.sources@[j]).id@,
        forall|i: int| 0 <= i < c.sources@.len() ==> has_visible((#[trigger] c.sources@[i]).id@),
        has_visible(c.dishes@[k].id@),
        has_visible(c.dishes@[k].name@),
        has_visible(c.dishes@[k].category@),
        forall|j: int| 0 <= j < c.dishes@.len() && j != k ==> (#[trigger] c.dishes@[j]).id@
            != c.dishes@[k].id@,
        c.dishes@[k].sources@.len() > 0,
        forall|i: int|
            0 <= i < c.dishes@[k].sources@.len() ==> #[trigger] crate::catalog::cites(c, c.dishes@[k].sources@[i]@),
        forall|i: int|
            0 <= i < c.dishes@[k].aliases@.len() ==> has_visible(#[trigger] c.dishes@[k].aliases@[i]@),
        forall|i: int| 0 <= i < c.dishes@[k].tags@.len() ==> has_visible(#[trigger] c.dishes@[k].tags@[i]@),
        forall|i: int|
            0 <= i < c.dishes@[k].ingredients@.len() ==> has_visible(
                #[trigger] c.dishes@[k].ingredients@[i]@,
            ),
        forall|i: int| 0 <= i < c.dishes@[k].modes@.len() ==> has_visible(#[trigger] c.dishes@[k].modes@[i]@),
        c.dishes@[k].ingredients_complete ==> c.dishes@[k].ingredients@.len() > 0,
{
    assert forall|s: Seq<char>| crate::text::is_label(s) implies #[trigger] has_visible(s) by {
        law_label_has_visible_char(s);
    }
    assert(crate::catalog::dish_ok(c, k));
    crate::engine::lemma_valid_ids_distinct(c);
    assert forall|i: int, j: int| 0 <= i < j < c.sources@.len() implies (#[trigger] c.sources@[i]).id@ != (
    #[trigger] c.sources@[j]).id@ by {
        assert(crate::catalog::source_ok(c.sources@, j));
    }
    assert forall|i: int| 0 <= i < c.sources@.len() implies has_visible((#[trigger] c.sources@[i]).id@) by {
        assert(crate::catalog::source_ok(c.sources@, i));
    }
    assert forall|j: int| 0 <= j < c.dishes@.len() && j != k implies (#[trigger] c.dishes@[j]).id@
        != c.dishes@[k].id@ by {
        if j < k {
        } else {
            assert(c.dishes@[k].id@ != c.dishes@[j].id@);
        }
    }
    assert forall|i: int|
        0 <= i < c.dishes@[k].sources@.len() implies #[trigger] crate::catalog::cites(
            c,
            c.dishes@[k].sources@[i]@,
        ) by {
    }
}

} // verus!
