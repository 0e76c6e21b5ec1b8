//! Properties of the library as a whole, stated over the contracts of its
//! functions.
use vstd::prelude::*;

use crate::catalog::{
    answers_to, catalog_valid, first_answer, lemma_valid_answers_unique, Catalog,
};
use crate::engine::{
    admits, history_of, ids_distinct, lemma_valid_ids_distinct, outcome, recalls,
    selection, sorted_by_id, status_for,
};
use crate::model::{Dish, Options, Response};
use crate::order::{lemma_precedes_irreflexive, lemma_precedes_total, lemma_precedes_transitive, precedes};

verus! {

/// The dishes at the given positions of the catalog.
pub open spec fn dishes_at(c: Catalog, positions: Seq<usize>) -> Seq<Dish> {
    positions.map_values(|i: usize| c.dishes@[i as int])
}

/// Whether the two catalogs hold the same dishes, whatever their order.
pub open spec fn same_dishes(c1: Catalog, c2: Catalog) -> bool {
    forall|d: Dish| c1.dishes@.contains(d) <==> c2.dishes@.contains(d)
}

proof fn lemma_statuses_differ()
    ensures
        "no_match"@ != "partial"@,
        "no_match"@ != "ok"@,
        "partial"@ != "ok"@,
{
    reveal_strlit("no_match");
    reveal_strlit("partial");
    reveal_strlit("ok");
    assert("no_match"@.len() == 8);
    assert("partial"@.len() == 7);
    assert("ok"@.len() == 2);
}

/// With at least one dish requested, the status is `no_match` exactly when no
/// dish passes the hard filters.
pub proof fn law_no_match_iff_nothing_admitted(
    o: Options,
    c: Catalog,
    history: Seq<usize>,
    admitted: Seq<usize>,
    drawn: Seq<usize>,
    seed: u64,
    r: Response,
)
    requires
        outcome(o, c, history, admitted, drawn, seed, r),
        1 <= o.count,
    ensures
        r.status@ == "no_match"@ <==> r.candidate_count == 0,
{
    lemma_statuses_differ();
}

/// A `partial` response returns every dish that passes the hard filters, and
/// an `ok` one exactly as many dishes as were requested.
pub proof fn law_partial_returns_all_candidates(
    o: Options,
    c: Catalog,
    history: Seq<usize>,
    admitted: Seq<usize>,
    drawn: Seq<usize>,
    seed: u64,
    r: Response,
)
    requires
        outcome(o, c, history, admitted, drawn, seed, r),
        1 <= o.count,
    ensures
        r.status@ == "partial"@ ==> r.items@.len() == r.candidate_count && r.candidate_count
            < o.count,
        r.status@ == "ok"@ ==> r.items@.len() == o.count,
{
    lemma_statuses_differ();
}

/// Positions in a catalog fit in a `usize`.
proof fn lemma_positions_fit(c: Catalog)
    ensures
        c.dishes@.len() <= usize::MAX,
{
    assert(c.dishes.len() == c.dishes@.len());
}

/// Dishes ordered strictly by id.
pub open spec fn id_sorted(s: Seq<Dish>) -> bool {
    forall|i: int, j: int| 0 <= i < j < s.len() ==> precedes((#[trigger] s[i]).id@, (#[trigger] s[j]).id@)
}

/// Two sequences of dishes ordered strictly by id that hold the same dishes
/// are equal.
pub proof fn lemma_id_sorted_unique(a: Seq<Dish>, b: Seq<Dish>)
    requires
        id_sorted(a),
        id_sorted(b),
        forall|d: Dish| a.contains(d) <==> b.contains(d),
    ensures
        a == b,
    decreases a.len(),
{
    if a.len() == 0 {
        if b.len() > 0 {
            assert(b.contains(b[0]));
        }
        assert(a =~= b);
    } else if b.len() == 0 {
        assert(a.contains(a[0]));
    } else {
        assert(a.contains(a[0]));
        assert(b.contains(b[0]));
        let k = choose|k: int| 0 <= k < b.len() && b[k] == a[0];
        let m = choose|m: int| 0 <= m < a.len() && a[m] == b[0];
        if k > 0 {
            if m > 0 {
                lemma_precedes_total(a[0].id@, a[m].id@);
            } else {
                lemma_precedes_irreflexive(b[0].id@);
            }
        }
        assert(a[0] == b[0]);
        let ta = a.drop_first();
        let tb = b.drop_first();
        assert forall|d: Dish| ta.contains(d) <==> tb.contains(d) by {
            if ta.contains(d) {
                let i = choose|i: int| 0 <= i < ta.len() && ta[i] == d;
                assert(a[i + 1] == d);
                assert(b.contains(d));
                let j = choose|j: int| 0 <= j < b.len() && b[j] == d;
                if j == 0 {
                    lemma_precedes_irreflexive(a[0].id@);
                    assert(precedes(a[0].id@, a[i + 1].id@));
                }
                assert(tb[j - 1] == d);
            }
            if tb.contains(d) {
                let j = choose|j: int| 0 <= j < tb.len() && tb[j] == d;
                assert(b[j + 1] == d);
                assert(a.contains(d));
                let i = choose|i: int| 0 <= i < a.len() && a[i] == d;
                if i == 0 {
                    lemma_precedes_irreflexive(b[0].id@);
                    assert(precedes(b[0].id@, b[j + 1].id@));
                }
                assert(ta[i - 1] == d);
            }
        }
        assert forall|i: int, j: int| 0 <= i < j < ta.len() implies precedes(
            (#[trigger] ta[i]).id@,
            (#[trigger] ta[j]).id@,
        ) by {
            assert(ta[i] == a[i + 1] && ta[j] == a[j + 1]);
        }
        assert forall|i: int, j: int| 0 <= i < j < tb.len() implies precedes(
            (#[trigger] tb[i]).id@,
            (#[trigger] tb[j]).id@,
        ) by {
            assert(tb[i] == b[i + 1] && tb[j] == b[j + 1]);
        }
        lemma_id_sorted_unique(ta, tb);
        assert(a =~= seq![a[0]] + ta);
        assert(b =~= seq![b[0]] + tb);
    }
}

/// In two valid catalogs with the same dishes, a query answers to the same
/// dish, or to none in both.
pub proof fn lemma_first_answer_same_dish(c1: Catalog, c2: Catalog, query: Seq<char>)
    requires
        catalog_valid(c1),
        catalog_valid(c2),
        same_dishes(c1, c2),
    ensures
        first_answer(c1, query) is None <==> first_answer(c2, query) is None,
        first_answer(c1, query) matches Some(i) ==> (first_answer(c2, query) matches Some(j)
            && 0 <= i < c1.dishes@.len() && 0 <= j < c2.dishes@.len() && c1.dishes@[i]
            == c2.dishes@[j]),
{
    lemma_answered_is_first(c1, query);
    lemma_answered_is_first(c2, query);
    if exists|i: int| 0 <= i < c1.dishes@.len() && answers_to(#[trigger] c1.dishes@[i], query) {
        let i = choose|i: int| 0 <= i < c1.dishes@.len() && answers_to(#[trigger] c1.dishes@[i], query);
        assert(c1.dishes@.contains(c1.dishes@[i]));
        let j = choose|j: int| 0 <= j < c2.dishes@.len() && c2.dishes@[j] == c1.dishes@[i];
        assert(answers_to(c2.dishes@[j], query));
    } else {
        if exists|j: int| 0 <= j < c2.dishes@.len() && answers_to(#[trigger] c2.dishes@[j], query) {
            let j = choose|j: int| 0 <= j < c2.dishes@.len() && answers_to(#[trigger] c2.dishes@[j], query);
            assert(c2.dishes@.contains(c2.dishes@[j]));
            let i = choose|i: int| 0 <= i < c1.dishes@.len() && c1.dishes@[i] == c2.dishes@[j];
            assert(answers_to(c1.dishes@[i], query));
        }
    }
}

/// In a valid catalog, the dish that answers to a query, if any, is the first
/// one that does.
pub proof fn lemma_answered_is_first(c: Catalog, query: Seq<char>)
    requires
        catalog_valid(c),
    ensures
        forall|i: int|
            0 <= i < c.dishes@.len() && answers_to(#[trigger] c.dishes@[i], query) ==> first_answer(
                c,
                query,
            ) == Some(i),
        (forall|i: int| 0 <= i < c.dishes@.len() ==> !answers_to(#[trigger] c.dishes@[i], query))
            ==> first_answer(c, query) is None,
{
    assert forall|i: int|
        0 <= i < c.dishes@.len() && answers_to(#[trigger] c.dishes@[i], query) implies first_answer(
        c,
        query,
    ) == Some(i) by {
        assert forall|j: int| 0 <= j < i implies !answers_to(#[trigger] c.dishes@[j], query) by {
            if answers_to(c.dishes@[j], query) {
                lemma_valid_answers_unique(c, query, i, j);
            }
        }
        let k = choose|k: int|
            0 <= k < c.dishes@.len() && answers_to(c.dishes@[k], query) && forall|j: int|
                0 <= j < k ==> !answers_to(#[trigger] c.dishes@[j], query);
        lemma_valid_answers_unique(c, query, i, k);
    }
}

/// In two valid catalogs with the same dishes, the recent entries resolve to
/// the same dishes, in the same order, and leave the same warnings.
pub proof fn lemma_history_same_dishes(c1: Catalog, c2: Catalog, recent: Seq<String>)
    requires
        catalog_valid(c1),
        catalog_valid(c2),
        same_dishes(c1, c2),
    ensures
        dishes_at(c1, history_of(c1, recent)) == dishes_at(c2, history_of(c2, recent)),
        forall|j: int|
            0 <= j < history_of(c1, recent).len() ==> #[trigger] history_of(c1, recent)[j]
                < c1.dishes@.len(),
        forall|j: int|
            0 <= j < history_of(c2, recent).len() ==> #[trigger] history_of(c2, recent)[j]
                < c2.dishes@.len(),
        crate::engine::unknown_recent(c1, recent) == crate::engine::unknown_recent(c2, recent),
    decreases recent.len(),
{
    if recent.len() > 0 {
        let rest = recent.drop_last();
        lemma_history_same_dishes(c1, c2, rest);
        let q = recent.last()@;
        lemma_first_answer_same_dish(c1, c2, q);
        let h1 = history_of(c1, rest);
        let h2 = history_of(c2, rest);
        match first_answer(c1, q) {
            Some(i) => {
                let j = first_answer(c2, q)->0;
                let id = c1.dishes@[i].id@;
                assert(recalls(c1, h1, id) == recalls(c2, h2, id)) by {
                    lemma_recalls_alike(c1, c2, h1, h2, id);
                }
                lemma_positions_fit(c1);
                lemma_positions_fit(c2);
                if !recalls(c1, h1, id) {
                    assert(dishes_at(c1, h1.push(i as usize)) =~= dishes_at(c1, h1).push(
                        c1.dishes@[i],
                    ));
                    assert(dishes_at(c2, h2.push(j as usize)) =~= dishes_at(c2, h2).push(
                        c2.dishes@[j],
                    ));
                }
            },
            None => {},
        }
    }
}

/// The hard filters judge a dish alike in two catalogs whose recent dishes
/// are the same.
proof fn lemma_admits_alike(
    o: Options,
    c1: Catalog,
    c2: Catalog,
    h1: Seq<usize>,
    h2: Seq<usize>,
    d: Dish,
)
    requires
        dishes_at(c1, h1) == dishes_at(c2, h2),
    ensures
        admits(o, c1, h1, d) == admits(o, c2, h2, d),
{
    lemma_recalls_alike(c1, c2, h1, h2, d.id@);
}

/// Whether a history recalls an id depends only on the dishes it holds.
proof fn lemma_recalls_alike(c1: Catalog, c2: Catalog, h1: Seq<usize>, h2: Seq<usize>, id: Seq<char>)
    requires
        dishes_at(c1, h1) == dishes_at(c2, h2),
    ensures
        recalls(c1, h1, id) == recalls(c2, h2, id),
{
    assert(dishes_at(c1, h1).len() == h1.len());
    assert(dishes_at(c2, h2).len() == h2.len());
    if recalls(c1, h1, id) {
        let k = choose|k: int| 0 <= k < h1.len() && c1.dishes@[#[trigger] h1[k] as int].id@ == id;
        assert(dishes_at(c1, h1)[k] == c1.dishes@[h1[k] as int]);
        assert(dishes_at(c2, h2)[k] == c2.dishes@[h2[k] as int]);
        assert(c2.dishes@[h2[k] as int].id@ == id);
    }
    if recalls(c2, h2, id) {
        let k = choose|k: int| 0 <= k < h2.len() && c2.dishes@[#[trigger] h2[k] as int].id@ == id;
        assert(dishes_at(c1, h1)[k] == c1.dishes@[h1[k] as int]);
        assert(dishes_at(c2, h2)[k] == c2.dishes@[h2[k] as int]);
        assert(c1.dishes@[h1[k] as int].id@ == id);
    }
}

/// For two valid catalogs holding the same dishes, a request resolves the same
/// recent dishes, leaves the same warnings and admits the same candidates in
/// the same order.
pub proof fn lemma_same_dishes_same_selection(
    o: Options,
    c1: Catalog,
    c2: Catalog,
    h1: Seq<usize>,
    h2: Seq<usize>,
    a1: Seq<usize>,
    a2: Seq<usize>,
)
    requires
        catalog_valid(c1),
        catalog_valid(c2),
        same_dishes(c1, c2),
        selection(o, c1, h1, a1),
        selection(o, c2, h2, a2),
    ensures
        dishes_at(c1, h1) == dishes_at(c2, h2),
        crate::engine::warnings_of(o, c1) == crate::engine::warnings_of(o, c2),
        dishes_at(c1, a1) == dishes_at(c2, a2),
{
    lemma_history_same_dishes(c1, c2, o.recent@);
    let d1 = dishes_at(c1, a1);
    let d2 = dishes_at(c2, a2);
    assert forall|d: Dish| d1.contains(d) <==> d2.contains(d) by {
        if d1.contains(d) {
            let i = choose|i: int| 0 <= i < d1.len() && d1[i] == d;
            assert(d == c1.dishes@[a1[i] as int]);
            assert(admits(o, c1, h1, d));
            lemma_admits_alike(o, c1, c2, h1, h2, d);
            assert(c1.dishes@.contains(d));
            let k = choose|k: int| 0 <= k < c2.dishes@.len() && c2.dishes@[k] == d;
            lemma_positions_fit(c1);
            lemma_positions_fit(c2);
            assert(admits(o, c2, h2, c2.dishes@[k]));
            assert(a2.contains(k as usize));
            let m = choose|m: int| 0 <= m < a2.len() && a2[m] == k as usize;
            assert(d2[m] == c2.dishes@[a2[m] as int]);
        }
        if d2.contains(d) {
            let i = choose|i: int| 0 <= i < d2.len() && d2[i] == d;
            assert(d == c2.dishes@[a2[i] as int]);
            assert(admits(o, c2, h2, d));
            lemma_admits_alike(o, c1, c2, h1, h2, d);
            assert(c2.dishes@.contains(d));
            let k = choose|k: int| 0 <= k < c1.dishes@.len() && c1.dishes@[k] == d;
            lemma_positions_fit(c1);
            lemma_positions_fit(c2);
            assert(admits(o, c1, h1, c1.dishes@[k]));
            assert(a1.contains(k as usize));
            let m = choose|m: int| 0 <= m < a1.len() && a1[m] == k as usize;
            assert(d1[m] == c1.dishes@[a1[m] as int]);
        }
    }
    assert forall|i: int, j: int| 0 <= i < j < d1.len() implies precedes(
        (#[trigger] d1[i]).id@,
        (#[trigger] d1[j]).id@,
    ) by {
        assert(d1[i] == c1.dishes@[a1[i] as int] && d1[j] == c1.dishes@[a1[j] as int]);
    }
    assert forall|i: int, j: int| 0 <= i < j < d2.len() implies precedes(
        (#[trigger] d2[i]).id@,
        (#[trigger] d2[j]).id@,
    ) by {
        assert(d2[i] == c2.dishes@[a2[i] as int] && d2[j] == c2.dishes@[a2[j] as int]);
    }
    lemma_id_sorted_unique(d1, d2);
}

/// Whether two requests ask for the same hard filters.
pub open spec fn same_filters(o1: Options, o2: Options) -> bool {
    &&& o1.categories@ == o2.categories@
    &&& o1.regions@ == o2.regions@
    &&& o1.meal == o2.meal
    &&& o1.mode == o2.mode
    &&& o1.theme == o2.theme
    &&& o1.max_minutes == o2.max_minutes
    &&& o1.budget_max_fen == o2.budget_max_fen
    &&& o1.required_tags@ == o2.required_tags@
    &&& o1.exclude_ingredients@ == o2.exclude_ingredients@
    &&& o1.require_complete_ingredients == o2.require_complete_ingredients
    &&& o1.exclude_recent == o2.exclude_recent
}

/// The soft parts of a request (strategy, preferences, count, seed) never
/// change which dishes pass the hard filters: every strategy respects them.
pub proof fn law_soft_options_do_not_filter(
    o1: Options,
    o2: Options,
    c: Catalog,
    history: Seq<usize>,
    d: Dish,
)
    requires
        same_filters(o1, o2),
    ensures
        admits(o1, c, history, d) == admits(o2, c, history, d),
{
}

/// The recent dishes hold no dish twice: an entry naming a dish that is
/// already there adds nothing.
pub proof fn law_history_distinct(c: Catalog, recent: Seq<String>)
    ensures
        forall|i: int, j: int|
            0 <= i < j < history_of(c, recent).len() ==> c.dishes@[(#[trigger] history_of(
                c,
                recent,
            )[i]) as int].id@ != c.dishes@[(#[trigger] history_of(c, recent)[j]) as int].id@,
    decreases recent.len(),
{
    if recent.len() > 0 {
        let rest = recent.drop_last();
        law_history_distinct(c, rest);
        let h = history_of(c, rest);
        match first_answer(c, recent.last()@) {
            Some(k) => {
                if !recalls(c, h, c.dishes@[k].id@) {
                    let h2 = h.push(k as usize);
                    assert forall|i: int, j: int| 0 <= i < j < h2.len() implies c.dishes@[(
                    #[trigger] h2[i]) as int].id@ != c.dishes@[(#[trigger] h2[j]) as int].id@ by {
                        if j == h.len() {
                            assert(h2[i] == h[i]);
                            lemma_positions_fit(c);
                            assert(0 <= k < c.dishes@.len());
                            assert(h2[j] as int == k);
                        } else {
                            assert(h2[i] == h[i] && h2[j] == h[j]);
                        }
                    }
                }
            },
            None => {},
        }
    }
}

/// In a valid catalog no dish claims a name, alias or id of another dish.
pub proof fn lemma_valid_keys_apart(c: Catalog, p: int, q: int, n: int)
    requires
        catalog_valid(c),
        0 <= p < c.dishes@.len(),
        0 <= q < c.dishes@.len(),
        p != q,
        0 <= n < crate::catalog::names_of(c.dishes@[q]).len(),
    ensures
        !crate::catalog::claims(
            c.dishes@[p],
            crate::text::normalized(crate::catalog::names_of(c.dishes@[q])[n]),
        ),
{
    let key = crate::text::normalized(crate::catalog::names_of(c.dishes@[q])[n]);
    if p < q {
        assert(crate::catalog::dish_ok(c, q));
        assert(!crate::catalog::clashes(c, q, n));
    } else if crate::catalog::claims(c.dishes@[p], key) {
        let names = crate::catalog::names_of(c.dishes@[p]);
        let m = choose|m: int| 0 <= m < names.len() && crate::text::normalized(#[trigger] names[m]) == key;
        assert(crate::catalog::claims(c.dishes@[q], crate::text::normalized(names[m])));
        assert(crate::catalog::claimed_before(c, p, crate::text::normalized(names[m])));
        assert(crate::catalog::dish_ok(c, p));
        assert(!crate::catalog::clashes(c, p, m));
    }
}

/// Whether two catalogs share their header and their sources.
pub open spec fn same_frame(c1: Catalog, c2: Catalog) -> bool {
    &&& c1.schema_version == c2.schema_version
    &&& c1.id == c2.id
    &&& c1.version == c2.version
    &&& c1.sources@ == c2.sources@
}

/// Keeping some of the dishes of a valid catalog, each at most once and in any
/// order, keeps it valid.
pub proof fn lemma_valid_under_selection(c: Catalog, c2: Catalog)
    requires
        catalog_valid(c),
        same_frame(c, c2),
        forall|d: Dish| c2.dishes@.contains(d) ==> c.dishes@.contains(d),
        c2.dishes@.no_duplicates(),
    ensures
        catalog_valid(c2),
{
    lemma_valid_ids_distinct(c);
    assert forall|k: int| 0 <= k < c2.sources@.len() implies crate::catalog::source_ok(
        c2.sources@,
        k,
    ) by {
        assert(crate::catalog::source_ok(c.sources@, k));
    }
    assert forall|k: int| 0 <= k < c2.dishes@.len() implies crate::catalog::dish_ok(c2, k) by {
        let d = c2.dishes@[k];
        assert(c2.dishes@.contains(d));
        let q = choose|q: int| 0 <= q < c.dishes@.len() && c.dishes@[q] == d;
        assert(crate::catalog::dish_ok(c, q));
        assert forall|j: int| 0 <= j < k implies (#[trigger] c2.dishes@[j]).id@ != d.id@ by {
            let e = c2.dishes@[j];
            assert(c2.dishes@.contains(e));
            let p = choose|p: int| 0 <= p < c.dishes@.len() && c.dishes@[p] == e;
            assert(e != d);
            if p < q {
                assert(c.dishes@[p].id@ != c.dishes@[q].id@);
            } else {
                assert(c.dishes@[q].id@ != c.dishes@[p].id@);
            }
        }
        assert forall|i: int| 0 <= i < d.sources@.len() implies crate::catalog::cites(
            c2,
            #[trigger] d.sources@[i]@,
        ) by {
            assert(crate::catalog::cites(c, d.sources@[i]@));
            let j = choose|j: int|
                0 <= j < c.sources@.len() && (#[trigger] c.sources@[j]).id@ == d.sources@[i]@;
            assert(c2.sources@[j] == c.sources@[j]);
        }
        assert(crate::catalog::dish_fields_ok(c2, k));
        assert forall|n: int| 0 <= n < crate::catalog::names_of(d).len() implies !crate::catalog::clashes(
            c2,
            k,
            n,
        ) by {
            let key = crate::text::normalized(crate::catalog::names_of(d)[n]);
            if crate::catalog::claimed_before(c2, k, key) {
                let j = choose|j: int| 0 <= j < k && crate::catalog::claims(#[trigger] c2.dishes@[j], key);
                let e = c2.dishes@[j];
                assert(c2.dishes@.contains(e));
                let p = choose|p: int| 0 <= p < c.dishes@.len() && c.dishes@[p] == e;
                assert(e != d);
                lemma_valid_keys_apart(c, p, q, n);
            }
        }
    }
}

/// Whether the dishes of `c2` are some of the dishes of `c`, in any order,
/// none taken more often than `c` holds it, under the same header and sources.
pub open spec fn selected_from(c2: Catalog, c: Catalog) -> bool {
    &&& same_frame(c, c2)
    &&& c2.dishes@.to_multiset().subset_of(c.dishes@.to_multiset())
}

/// Whether `c2` is `c` with its dishes reordered.
pub open spec fn reordered(c2: Catalog, c: Catalog) -> bool {
    &&& same_frame(c, c2)
    &&& c2.dishes@.to_multiset() == c.dishes@.to_multiset()
}

/// A selection of the dishes of a valid catalog, in any order, is valid.
pub proof fn law_valid_under_selection(c: Catalog, c2: Catalog)
    requires
        catalog_valid(c),
        selected_from(c2, c),
    ensures
        catalog_valid(c2),
{
    broadcast use vstd::seq_lib::group_to_multiset_ensures;
    lemma_valid_ids_distinct(c);
    assert(c.dishes@.no_duplicates()) by {
        assert forall|i: int, j: int|
            0 <= i < c.dishes@.len() && 0 <= j < c.dishes@.len() && i != j implies c.dishes@[i]
            != c.dishes@[j] by {
            if i < j {
                assert(c.dishes@[i].id@ != c.dishes@[j].id@);
            } else {
                assert(c.dishes@[j].id@ != c.dishes@[i].id@);
            }
        }
    }
    c.dishes@.lemma_multiset_has_no_duplicates();
    assert forall|x: Dish| c2.dishes@.to_multiset().contains(x) implies c2.dishes@.to_multiset().count(
        x,
    ) == 1 by {
        assert(c.dishes@.to_multiset().count(x) >= c2.dishes@.to_multiset().count(x));
        assert(c.dishes@.to_multiset().contains(x));
    }
    c2.dishes@.lemma_multiset_has_no_duplicates_conv();
    assert forall|d: Dish| c2.dishes@.contains(d) implies c.dishes@.contains(d) by {
        assert(c2.dishes@.to_multiset().count(d) > 0);
        assert(c.dishes@.to_multiset().count(d) >= c2.dishes@.to_multiset().count(d));
    }
    lemma_valid_under_selection(c, c2);
}

/// Reordering the dishes of a catalog does not change whether it is valid.
pub proof fn law_valid_under_reordering(c: Catalog, c2: Catalog)
    requires
        reordered(c2, c),
    ensures
        catalog_valid(c2) == catalog_valid(c),
{
    if catalog_valid(c) {
        law_valid_under_selection(c, c2);
    }
    if catalog_valid(c2) {
        law_valid_under_selection(c2, c);
    }
}

/// Reordered catalogs hold the same dishes.
proof fn lemma_reordered_same_dishes(c: Catalog, c2: Catalog)
    requires
        reordered(c2, c),
    ensures
        same_dishes(c, c2),
{
    broadcast use vstd::seq_lib::group_to_multiset_ensures;
    assert forall|d: Dish| c.dishes@.contains(d) <==> c2.dishes@.contains(d) by {
        assert(c.dishes@.to_multiset().count(d) == c2.dishes@.to_multiset().count(d));
    }
}

/// The order of the dishes in a catalog does not change a recommendation:
/// reordering the dishes of a valid catalog keeps it valid, and a request on
/// it resolves the same recent dishes, leaves the same warnings, and admits
/// the same candidates in the same order (by id), so that the same draws make
/// the same response.
pub proof fn law_dish_order_irrelevant(
    o: Options,
    c1: Catalog,
    c2: Catalog,
    h1: Seq<usize>,
    h2: Seq<usize>,
    a1: Seq<usize>,
    a2: Seq<usize>,
)
    requires
        catalog_valid(c1),
        reordered(c2, c1),
        selection(o, c1, h1, a1),
        selection(o, c2, h2, a2),
    ensures
        catalog_valid(c2),
        dishes_at(c1, h1) == dishes_at(c2, h2),
        crate::engine::warnings_of(o, c1) == crate::engine::warnings_of(o, c2),
        dishes_at(c1, a1) == dishes_at(c2, a2),
{
    law_valid_under_reordering(c1, c2);
    lemma_reordered_same_dishes(c1, c2);
    lemma_same_dishes_same_selection(o, c1, c2, h1, h2, a1, a2);
}

/// Looking a dish up by id, name or alias does not depend on the order of
/// the dishes: in a valid catalog and in any reordering of it, a query finds
/// the same dish, or none in both.
pub proof fn law_resolve_order_irrelevant(c: Catalog, c2: Catalog, query: Seq<char>)
    requires
        catalog_valid(c),
        reordered(c2, c),
    ensures
        first_answer(c, query) is None <==> first_answer(c2, query) is None,
        first_answer(c, query) matches Some(i) ==> (first_answer(c2, query) matches Some(j)
            && c.dishes@[i] == c2.dishes@[j]),
{
    law_valid_under_reordering(c, c2);
    lemma_reordered_same_dishes(c, c2);
    lemma_first_answer_same_dish(c, c2, query);
}

/// A request on a valid catalog determines its recent dishes and its
/// candidates: nothing else, such as an earlier request, enters them.
pub proof fn law_selection_determined(
    o: Options,
    c: Catalog,
    h1: Seq<usize>,
    h2: Seq<usize>,
    a1: Seq<usize>,
    a2: Seq<usize>,
)
    requires
        catalog_valid(c),
        selection(o, c, h1, a1),
        selection(o, c, h2, a2),
    ensures
        h1 == h2,
        a1 == a2,
{
    lemma_same_dishes_same_selection(o, c, c, h1, h2, a1, a2);
    lemma_valid_ids_distinct(c);
    let d1 = dishes_at(c, a1);
    let d2 = dishes_at(c, a2);
    assert(d1.len() == a1.len() && d2.len() == a2.len());
    assert forall|i: int| 0 <= i < a1.len() implies a1[i] == a2[i] by {
        assert(d1[i] == c.dishes@[a1[i] as int]);
        assert(d2[i] == c.dishes@[a2[i] as int]);
        let p = a1[i] as int;
        let q = a2[i] as int;
        if p < q {
            assert(c.dishes@[p].id@ != c.dishes@[q].id@);
        } else if q < p {
            assert(c.dishes@[q].id@ != c.dishes@[p].id@);
        }
    }
    assert(a1 =~= a2);
}

/// The same draws make the same response: two responses to the same request
/// on the same catalog, with the same recent dishes, candidates, draws and
/// seed, agree in every field.
pub proof fn law_response_determined(
    o: Options,
    c: Catalog,
    history: Seq<usize>,
    admitted: Seq<usize>,
    drawn: Seq<usize>,
    seed: u64,
    r1: Response,
    r2: Response,
)
    requires
        outcome(o, c, history, admitted, drawn, seed, r1),
        outcome(o, c, history, admitted, drawn, seed, r2),
    ensures
        r1.items@.len() == r2.items@.len(),
        forall|i: int|
            0 <= i < r1.items@.len() ==> crate::engine::same_dish(
                (#[trigger] r1.items@[i]).dish,
                r2.items@[i].dish,
            ) && crate::engine::texts(r1.items@[i].reason_codes@) == crate::engine::texts(
                r2.items@[i].reason_codes@,
            ),
        r1.status@ == r2.status@,
        r1.candidate_count == r2.candidate_count,
        r1.requested_count == r2.requested_count,
        r1.seed == r2.seed,
        r1.dataset_id == r2.dataset_id,
        r1.dataset_version == r2.dataset_version,
        r1.algorithm_version@ == r2.algorithm_version@,
        crate::engine::texts(r1.warnings@) == crate::engine::texts(r2.warnings@),
{
    assert forall|i: int| 0 <= i < r1.items@.len() implies crate::engine::same_dish(
        (#[trigger] r1.items@[i]).dish,
        r2.items@[i].dish,
    ) && crate::engine::texts(r1.items@[i].reason_codes@) == crate::engine::texts(
        r2.items@[i].reason_codes@,
    ) by {
        assert(crate::engine::same_dish(r2.items@[i].dish, c.dishes@[drawn[i] as int]));
    }
}

/// A label found among some labels is still found when more are added.
pub proof fn law_has_label_grows(values: Seq<String>, more: Seq<String>, value: Seq<char>)
    requires
        crate::text::has_label(values, value),
    ensures
        crate::text::has_label(values + more, value),
{
    let i = choose|i: int|
        0 <= i < values.len() && crate::text::normalized(#[trigger] values[i]@) == crate::text::normalized(
            value,
        );
    assert((values + more)[i] == values[i]);
}

} // verus!
